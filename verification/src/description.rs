//! From text to records: the `robot` element, its `link` and `joint`
//! elements, and what each of them holds.
//!
//! A `link` has a `name` and may hold one `inertial`, and any number of
//! `visual` and `collision` elements. A `joint` has a `name` and a `type`
//! (`fixed`, `revolute`, `continuous` or `prismatic`), a `parent` and a
//! `child` element that name a link each, and may hold an `origin`, an
//! `axis` and a `limit`. An `origin` gives `xyz` and `rpy`; what is left out
//! is zero. An axis that is left out is the x axis. The axis of a movable
//! joint gives a direction: it must not be zero, and its length is left for
//! whoever turns it into a rotation to bring to one.

use vstd::prelude::*;
use vstd::string::*;
use crate::markup::{ParseError, ParseFault};
use crate::model::{
    rest_pose, zero_triple, Geometry, Inertia, Inertial, JointKind, Limits, Pose, RawJoint, RawLink, Shape,
    Triple,
};
use crate::query::{
    attr_real, attr_triple, attr_value, child_from, child_of, children_from, doc_of, find_attr,
    find_child, is_markup, is_word, markup_fault, read_real, read_triple, Doc, Markup,
};
use crate::scalar::UNIT;

verus! {

/// The x axis.
pub open spec fn x_axis() -> Triple {
    Triple { x: UNIT, y: 0, z: 0 }
}

/// The pose that the `origin` element inside `tag` gives; nothing if one of
/// its attributes is not three numerals.
pub open spec fn pose_of(d: Doc, tag: usize) -> Option<Pose> {
    match child_of(d, tag, "origin".spec_bytes()) {
        None => Some(rest_pose()),
        Some(origin) => match (
            attr_triple(d, origin, "xyz".spec_bytes(), zero_triple()),
            attr_triple(d, origin, "rpy".spec_bytes(), zero_triple()),
        ) {
            (Some(xyz), Some(rpy)) => Some(Pose { xyz, rpy }),
            _ => None,
        },
    }
}

/// The axis that the `axis` element inside `tag` gives.
pub open spec fn axis_of(d: Doc, tag: usize) -> Option<Triple> {
    match child_of(d, tag, "axis".spec_bytes()) {
        None => Some(x_axis()),
        Some(axis) => attr_triple(d, axis, "xyz".spec_bytes(), x_axis()),
    }
}

/// The limits that the `limit` element inside `tag` gives, if there is
/// one; nothing if a bound is no numeral.
pub open spec fn limits_of(d: Doc, tag: usize) -> Option<Option<Limits>> {
    match child_of(d, tag, "limit".spec_bytes()) {
        None => Some(None),
        Some(limit) => match (
            attr_real(d, limit, "lower".spec_bytes(), 0),
            attr_real(d, limit, "upper".spec_bytes(), 0),
        ) {
            (Some(lower), Some(upper)) => Some(Some(Limits { lower, upper })),
            _ => None,
        },
    }
}

/// The kind of the joint at `tag`, or why it has none.
pub open spec fn kind_of(d: Doc, tag: usize) -> Result<JointKind, ParseFault> {
    match attr_value(d, tag, "type".spec_bytes()) {
        None => Err(ParseFault::MissingField),
        Some(word) => if word == "fixed".spec_bytes() {
            Ok(JointKind::Fixed)
        } else if !(word == "revolute".spec_bytes() || word == "continuous".spec_bytes() || word
            == "prismatic".spec_bytes()) {
            Err(ParseFault::UnknownJointType)
        } else {
            match (axis_of(d, tag), limits_of(d, tag)) {
                (Some(axis), Some(limits)) => if axis == zero_triple() {
                    Err(ParseFault::ZeroAxis)
                } else {
                    Ok(
                        if word == "revolute".spec_bytes() {
                            JointKind::Revolute { axis, limits }
                        } else if word == "continuous".spec_bytes() {
                            JointKind::Continuous { axis }
                        } else {
                            JointKind::Prismatic { axis, limits }
                        },
                    )
                },
                _ => Err(ParseFault::NotANumber),
            }
        },
    }
}

/// The link that the element `role` inside `tag` names.
pub open spec fn link_ref(d: Doc, tag: usize, role: Seq<u8>) -> Option<Seq<u8>> {
    match child_of(d, tag, role) {
        None => None,
        Some(found) => attr_value(d, found, "link".spec_bytes()),
    }
}

/// The fault of the joint at `tag`, if it has one. The name is looked at
/// first, then the type with axis and limits, then parent and child, then
/// the origin.
pub open spec fn joint_fault(d: Doc, tag: usize) -> Option<ParseFault> {
    if attr_value(d, tag, "name".spec_bytes()) is None {
        Some(ParseFault::MissingField)
    } else if kind_of(d, tag) is Err {
        Some(kind_of(d, tag)->Err_0)
    } else if link_ref(d, tag, "parent".spec_bytes()) is None || link_ref(
        d,
        tag,
        "child".spec_bytes(),
    ) is None {
        Some(ParseFault::MissingField)
    } else if pose_of(d, tag) is None {
        Some(ParseFault::NotANumber)
    } else {
        None
    }
}

/// Whether `joint` is the joint at `tag`.
pub open spec fn joint_is(d: Doc, tag: usize, joint: RawJoint) -> bool {
    &&& attr_value(d, tag, "name".spec_bytes()) == Some(joint.name@)
    &&& kind_of(d, tag) == Ok::<JointKind, ParseFault>(joint.kind)
    &&& link_ref(d, tag, "parent".spec_bytes()) == Some(joint.parent@)
    &&& link_ref(d, tag, "child".spec_bytes()) == Some(joint.child@)
    &&& pose_of(d, tag) == Some(joint.origin)
}

/// Reads the pose that the `origin` element inside `tag` gives.
pub fn read_pose(m: &Markup, tag: usize) -> (r: Option<Pose>)
    requires
        m.wf(),
    ensures
        r == pose_of(m@, tag),
{
    let zero = Triple { x: 0, y: 0, z: 0 };
    match find_child(m, Some(tag), "origin", 0) {
        None => Some(Pose { xyz: zero, rpy: zero }),
        Some(origin) => match (read_triple(m, origin, "xyz", zero), read_triple(m, origin, "rpy", zero)) {
            (Some(xyz), Some(rpy)) => Some(Pose { xyz, rpy }),
            _ => None,
        },
    }
}

/// Reads the axis that the `axis` element inside `tag` gives.
pub fn read_axis(m: &Markup, tag: usize) -> (r: Option<Triple>)
    requires
        m.wf(),
    ensures
        r == axis_of(m@, tag),
{
    let x = Triple { x: UNIT, y: 0, z: 0 };
    match find_child(m, Some(tag), "axis", 0) {
        None => Some(x),
        Some(axis) => read_triple(m, axis, "xyz", x),
    }
}

/// Reads the limits that the `limit` element inside `tag` gives.
pub fn read_limits(m: &Markup, tag: usize) -> (r: Option<Option<Limits>>)
    requires
        m.wf(),
    ensures
        r == limits_of(m@, tag),
{
    match find_child(m, Some(tag), "limit", 0) {
        None => Some(None),
        Some(limit) => match (read_real(m, limit, "lower", 0), read_real(m, limit, "upper", 0)) {
            (Some(lower), Some(upper)) => Some(Some(Limits { lower, upper })),
            _ => None,
        },
    }
}

/// Reads the kind of the joint at `tag`.
pub fn read_kind(m: &Markup, tag: usize) -> (r: Result<JointKind, ParseFault>)
    requires
        m.wf(),
    ensures
        r == kind_of(m@, tag),
{
    match find_attr(m, tag, "type") {
        None => Err(ParseFault::MissingField),
        Some(word) => {
            if is_word(&word, "fixed") {
                return Ok(JointKind::Fixed);
            }
            let revolute: bool = is_word(&word, "revolute");
            let continuous: bool = is_word(&word, "continuous");
            let prismatic: bool = is_word(&word, "prismatic");
            if !(revolute || continuous || prismatic) {
                return Err(ParseFault::UnknownJointType);
            }
            match (read_axis(m, tag), read_limits(m, tag)) {
                (Some(axis), Some(limits)) => if axis.x == 0 && axis.y == 0 && axis.z == 0 {
                    Err(ParseFault::ZeroAxis)
                } else {
                    Ok(
                        if revolute {
                            JointKind::Revolute { axis, limits }
                        } else if continuous {
                            JointKind::Continuous { axis }
                        } else {
                            JointKind::Prismatic { axis, limits }
                        },
                    )
                },
                _ => Err(ParseFault::NotANumber),
            }
        },
    }
}

/// Reads the name of the link that the element `role` inside `tag` names.
pub fn read_link_ref(m: &Markup, tag: usize, role: &str) -> (r: Option<Vec<u8>>)
    requires
        m.wf(),
    ensures
        match r {
            Some(name) => link_ref(m@, tag, role.spec_bytes()) == Some(name@),
            None => link_ref(m@, tag, role.spec_bytes()) is None,
        },
{
    match find_child(m, Some(tag), role, 0) {
        None => None,
        Some(found) => find_attr(m, found, "link"),
    }
}

/// Reads the joint at `tag`.
pub fn read_joint(m: &Markup, tag: usize) -> (r: Result<RawJoint, ParseError>)
    requires
        m.wf(),
    ensures
        match r {
            Ok(joint) => joint_fault(m@, tag) is None && joint_is(m@, tag, joint),
            Err(e) => joint_fault(m@, tag) == Some(e.fault) && e.at == tag,
        },
{
    let name = match find_attr(m, tag, "name") {
        Some(name) => name,
        None => {
            return Err(ParseError { fault: ParseFault::MissingField, at: tag });
        },
    };
    let kind = match read_kind(m, tag) {
        Ok(kind) => kind,
        Err(fault) => {
            return Err(ParseError { fault, at: tag });
        },
    };
    let parent = read_link_ref(m, tag, "parent");
    let child = read_link_ref(m, tag, "child");
    let (parent, child) = match (parent, child) {
        (Some(parent), Some(child)) => (parent, child),
        _ => {
            return Err(ParseError { fault: ParseFault::MissingField, at: tag });
        },
    };
    let origin = match read_pose(m, tag) {
        Some(origin) => origin,
        None => {
            return Err(ParseError { fault: ParseFault::NotANumber, at: tag });
        },
    };
    Ok(RawJoint { name, kind, origin, parent, child })
}

/// Every element called `word` inside `parent` is found by looking for the
/// first, then for the first after it, and so on.
pub proof fn lemma_children_unfold(d: Doc, parent: Option<usize>, word: Seq<u8>, from: int)
    requires
        0 <= from,
        d.tokens.len() <= usize::MAX,
    ensures
        match child_from(d, parent, word, from) {
            Some(i) => from <= i < d.tokens.len() && children_from(d, parent, word, from) == seq![i]
                + children_from(d, parent, word, i + 1),
            None => children_from(d, parent, word, from) == Seq::<usize>::empty(),
        },
    decreases d.tokens.len() - from,
{
    if from < d.tokens.len() && !crate::query::opens(d, from, parent, word) {
        lemma_children_unfold(d, parent, word, from + 1);
    }
}

/// Finds all elements called `word` inside `parent`, in order.
pub fn find_children(m: &Markup, parent: Option<usize>, word: &str) -> (r: Vec<usize>)
    requires
        m.wf(),
    ensures
        r@ == children_from(m@, parent, word.spec_bytes(), 0),
{
    let ghost all = children_from(m@, parent, word.spec_bytes(), 0);
    let mut out: Vec<usize> = Vec::new();
    let mut from: usize = 0;
    loop
        invariant
            m.wf(),
            from <= m.tokens.len(),
            all == children_from(m@, parent, word.spec_bytes(), 0),
            all == out@ + children_from(m@, parent, word.spec_bytes(), from as int),
        decreases m.tokens.len() - from,
    {
        proof {
            lemma_children_unfold(m@, parent, word.spec_bytes(), from as int);
        }
        match find_child(m, parent, word, from) {
            None => {
                proof {
                    assert(out@ + Seq::<usize>::empty() =~= out@);
                }
                return out;
            },
            Some(i) => {
                let ghost before = out@;
                out.push(i);
                proof {
                    let rest = children_from(m@, parent, word.spec_bytes(), i as int + 1);
                    assert(before + (seq![i] + rest) =~= out@ + rest);
                }
                from = i + 1;
            },
        }
    }
}

/// The fault of the shape inside the `geometry` element `g`, if it has
/// one. The shape is the first of `box`, `cylinder`, `sphere` and `mesh`
/// that the element holds.
pub open spec fn shape_fault(d: Doc, g: usize) -> Option<ParseFault> {
    match (
        child_of(d, g, "box".spec_bytes()),
        child_of(d, g, "cylinder".spec_bytes()),
        child_of(d, g, "sphere".spec_bytes()),
        child_of(d, g, "mesh".spec_bytes()),
    ) {
        (Some(b), _, _, _) => if attr_triple(d, b, "size".spec_bytes(), zero_triple()) is None {
            Some(ParseFault::NotANumber)
        } else {
            None
        },
        (None, Some(c), _, _) => if attr_real(d, c, "radius".spec_bytes(), 0) is None || attr_real(
            d,
            c,
            "length".spec_bytes(),
            0,
        ) is None {
            Some(ParseFault::NotANumber)
        } else {
            None
        },
        (None, None, Some(s), _) => if attr_real(d, s, "radius".spec_bytes(), 0) is None {
            Some(ParseFault::NotANumber)
        } else {
            None
        },
        (None, None, None, Some(f)) => if attr_value(d, f, "filename".spec_bytes()) is None {
            Some(ParseFault::MissingField)
        } else {
            None
        },
        (None, None, None, None) => Some(ParseFault::MissingField),
    }
}

/// Whether `shape` is the shape inside the `geometry` element `g`.
pub open spec fn shape_is(d: Doc, g: usize, shape: Shape) -> bool {
    match (
        child_of(d, g, "box".spec_bytes()),
        child_of(d, g, "cylinder".spec_bytes()),
        child_of(d, g, "sphere".spec_bytes()),
        child_of(d, g, "mesh".spec_bytes()),
    ) {
        (Some(b), _, _, _) => shape matches Shape::Cuboid { size } && attr_triple(
            d,
            b,
            "size".spec_bytes(),
            zero_triple(),
        ) == Some(size),
        (None, Some(c), _, _) => shape matches Shape::Cylinder { radius, length } && attr_real(
            d,
            c,
            "radius".spec_bytes(),
            0,
        ) == Some(radius) && attr_real(d, c, "length".spec_bytes(), 0) == Some(length),
        (None, None, Some(s), _) => shape matches Shape::Sphere { radius } && attr_real(
            d,
            s,
            "radius".spec_bytes(),
            0,
        ) == Some(radius),
        (None, None, None, Some(f)) => shape matches Shape::Mesh { file } && attr_value(
            d,
            f,
            "filename".spec_bytes(),
        ) == Some(file@),
        (None, None, None, None) => false,
    }
}

/// The name of the material of the `visual` or `collision` element `tag`;
/// empty where it names none.
pub open spec fn material_of(d: Doc, tag: usize) -> Seq<u8> {
    match child_of(d, tag, "material".spec_bytes()) {
        None => Seq::empty(),
        Some(found) => match attr_value(d, found, "name".spec_bytes()) {
            Some(name) => name,
            None => Seq::empty(),
        },
    }
}

/// The fault of the `visual` or `collision` element `tag`, if it has one:
/// that of its shape, else that of its origin.
pub open spec fn geometry_fault(d: Doc, tag: usize) -> Option<ParseFault> {
    match child_of(d, tag, "geometry".spec_bytes()) {
        None => Some(ParseFault::MissingField),
        Some(g) => if shape_fault(d, g) is Some {
            shape_fault(d, g)
        } else if pose_of(d, tag) is None {
            Some(ParseFault::NotANumber)
        } else {
            None
        },
    }
}

/// Whether `geometry` is what the `visual` or `collision` element `tag`
/// holds.
pub open spec fn geometry_is(d: Doc, tag: usize, geometry: Geometry) -> bool {
    &&& child_of(d, tag, "geometry".spec_bytes()) matches Some(g)
    &&& shape_is(d, g, geometry.shape)
    &&& pose_of(d, tag) == Some(geometry.origin)
    &&& geometry.material@ == material_of(d, tag)
}

/// The first fault among the elements `tags` from place `from` on, with
/// the element that has it.
pub open spec fn geometry_error(d: Doc, tags: Seq<usize>, from: int) -> Option<ParseError>
    decreases tags.len() - from,
{
    if from < 0 || from >= tags.len() {
        None
    } else {
        match geometry_fault(d, tags[from]) {
            Some(fault) => Some(ParseError { fault, at: tags[from] }),
            None => geometry_error(d, tags, from + 1),
        }
    }
}

/// Whether `list` holds what the elements `tags` hold, one for one.
pub open spec fn geometries_are(d: Doc, tags: Seq<usize>, list: Seq<Geometry>) -> bool {
    &&& list.len() == tags.len()
    &&& forall|k: int| 0 <= k < tags.len() ==> geometry_is(d, #[trigger] tags[k], list[k])
}

/// Reads the shape inside the `geometry` element `g`.
pub fn read_shape(m: &Markup, g: usize) -> (r: Result<Shape, ParseFault>)
    requires
        m.wf(),
    ensures
        match r {
            Ok(shape) => shape_fault(m@, g) is None && shape_is(m@, g, shape),
            Err(fault) => shape_fault(m@, g) == Some(fault),
        },
{
    let zero = Triple { x: 0, y: 0, z: 0 };
    let cuboid = find_child(m, Some(g), "box", 0);
    let cylinder = find_child(m, Some(g), "cylinder", 0);
    let sphere = find_child(m, Some(g), "sphere", 0);
    let mesh = find_child(m, Some(g), "mesh", 0);
    match (cuboid, cylinder, sphere, mesh) {
        (Some(b), _, _, _) => match read_triple(m, b, "size", zero) {
            Some(size) => Ok(Shape::Cuboid { size }),
            None => Err(ParseFault::NotANumber),
        },
        (None, Some(c), _, _) => match (read_real(m, c, "radius", 0), read_real(m, c, "length", 0)) {
            (Some(radius), Some(length)) => Ok(Shape::Cylinder { radius, length }),
            _ => Err(ParseFault::NotANumber),
        },
        (None, None, Some(s), _) => match read_real(m, s, "radius", 0) {
            Some(radius) => Ok(Shape::Sphere { radius }),
            None => Err(ParseFault::NotANumber),
        },
        (None, None, None, Some(f)) => match find_attr(m, f, "filename") {
            Some(file) => Ok(Shape::Mesh { file }),
            None => Err(ParseFault::MissingField),
        },
        (None, None, None, None) => Err(ParseFault::MissingField),
    }
}

/// Reads what the `visual` or `collision` element `tag` holds.
pub fn read_geometry(m: &Markup, tag: usize) -> (r: Result<Geometry, ParseFault>)
    requires
        m.wf(),
    ensures
        match r {
            Ok(geometry) => geometry_fault(m@, tag) is None && geometry_is(m@, tag, geometry),
            Err(fault) => geometry_fault(m@, tag) == Some(fault),
        },
{
    let g = match find_child(m, Some(tag), "geometry", 0) {
        Some(g) => g,
        None => {
            return Err(ParseFault::MissingField);
        },
    };
    let shape = match read_shape(m, g) {
        Ok(shape) => shape,
        Err(fault) => {
            return Err(fault);
        },
    };
    let origin = match read_pose(m, tag) {
        Some(origin) => origin,
        None => {
            return Err(ParseFault::NotANumber);
        },
    };
    let material: Vec<u8> = match find_child(m, Some(tag), "material", 0) {
        None => Vec::new(),
        Some(found) => match find_attr(m, found, "name") {
            Some(name) => name,
            None => Vec::new(),
        },
    };
    Ok(Geometry { shape, origin, material })
}

/// Reads what each of the elements called `word` inside `tag` holds.
pub fn read_geometries(m: &Markup, tag: usize, word: &str) -> (r: Result<Vec<Geometry>, ParseError>)
    requires
        m.wf(),
    ensures
        match r {
            Ok(list) => geometry_error(m@, children_from(m@, Some(tag), word.spec_bytes(), 0), 0) is None
                && geometries_are(m@, children_from(m@, Some(tag), word.spec_bytes(), 0), list@),
            Err(e) => geometry_error(m@, children_from(m@, Some(tag), word.spec_bytes(), 0), 0)
                == Some(e),
        },
{
    let tags = find_children(m, Some(tag), word);
    let mut out: Vec<Geometry> = Vec::new();
    let mut k: usize = 0;
    while k < tags.len()
        invariant
            m.wf(),
            tags@ == children_from(m@, Some(tag), word.spec_bytes(), 0),
            k <= tags.len(),
            out.len() == k,
            geometry_error(m@, tags@, 0) == geometry_error(m@, tags@, k as int),
            forall|q: int| 0 <= q < k ==> geometry_is(m@, #[trigger] tags@[q], out@[q]),
        decreases tags.len() - k,
    {
        match read_geometry(m, tags[k]) {
            Ok(geometry) => {
                out.push(geometry);
            },
            Err(fault) => {
                return Err(ParseError { fault, at: tags[k] });
            },
        }
        k += 1;
    }
    Ok(out)
}

/// The mass that the `inertial` element `tag` gives; zero where it gives
/// none, nothing where it is no numeral.
pub open spec fn mass_of(d: Doc, tag: usize) -> Option<i64> {
    match child_of(d, tag, "mass".spec_bytes()) {
        None => Some(0),
        Some(found) => attr_real(d, found, "value".spec_bytes(), 0),
    }
}

/// The inertia tensor that the `inertial` element `tag` gives; zero where
/// it gives none, nothing where an entry is no numeral.
pub open spec fn inertia_of(d: Doc, tag: usize) -> Option<Inertia> {
    match child_of(d, tag, "inertia".spec_bytes()) {
        None => Some(Inertia { ixx: 0, ixy: 0, ixz: 0, iyy: 0, iyz: 0, izz: 0 }),
        Some(found) => match (
            attr_real(d, found, "ixx".spec_bytes(), 0),
            attr_real(d, found, "ixy".spec_bytes(), 0),
            attr_real(d, found, "ixz".spec_bytes(), 0),
            attr_real(d, found, "iyy".spec_bytes(), 0),
            attr_real(d, found, "iyz".spec_bytes(), 0),
            attr_real(d, found, "izz".spec_bytes(), 0),
        ) {
            (Some(ixx), Some(ixy), Some(ixz), Some(iyy), Some(iyz), Some(izz)) => Some(
                Inertia { ixx, ixy, ixz, iyy, iyz, izz },
            ),
            _ => None,
        },
    }
}

/// The mass properties that the `inertial` element inside `tag` gives, if
/// there is one; nothing where a number in it is no numeral.
pub open spec fn inertial_of(d: Doc, tag: usize) -> Option<Option<Inertial>> {
    match child_of(d, tag, "inertial".spec_bytes()) {
        None => Some(None),
        Some(found) => match (mass_of(d, found), pose_of(d, found), inertia_of(d, found)) {
            (Some(mass), Some(origin), Some(inertia)) => Some(
                Some(Inertial { mass, origin, inertia }),
            ),
            _ => None,
        },
    }
}

/// The `visual` elements of the link at `tag`.
pub open spec fn visuals_of(d: Doc, tag: usize) -> Seq<usize> {
    children_from(d, Some(tag), "visual".spec_bytes(), 0)
}

/// The `collision` elements of the link at `tag`.
pub open spec fn collisions_of(d: Doc, tag: usize) -> Seq<usize> {
    children_from(d, Some(tag), "collision".spec_bytes(), 0)
}

/// The fault of the link at `tag`, if it has one, with the element that has
/// it. The name is looked at first, then the mass properties, then the
/// `visual` elements in order, then the `collision` elements.
pub open spec fn link_error(d: Doc, tag: usize) -> Option<ParseError> {
    if attr_value(d, tag, "name".spec_bytes()) is None {
        Some(ParseError { fault: ParseFault::MissingField, at: tag })
    } else if inertial_of(d, tag) is None {
        Some(ParseError { fault: ParseFault::NotANumber, at: tag })
    } else if geometry_error(d, visuals_of(d, tag), 0) is Some {
        geometry_error(d, visuals_of(d, tag), 0)
    } else {
        geometry_error(d, collisions_of(d, tag), 0)
    }
}

/// Whether `link` is the link at `tag`.
pub open spec fn link_is(d: Doc, tag: usize, link: RawLink) -> bool {
    &&& attr_value(d, tag, "name".spec_bytes()) == Some(link.name@)
    &&& inertial_of(d, tag) == Some(link.inertial)
    &&& geometries_are(d, visuals_of(d, tag), link.visuals@)
    &&& geometries_are(d, collisions_of(d, tag), link.collisions@)
}

/// Reads the inertia tensor that the `inertial` element `tag` gives.
pub fn read_inertia(m: &Markup, tag: usize) -> (r: Option<Inertia>)
    requires
        m.wf(),
    ensures
        r == inertia_of(m@, tag),
{
    match find_child(m, Some(tag), "inertia", 0) {
        None => Some(Inertia { ixx: 0, ixy: 0, ixz: 0, iyy: 0, iyz: 0, izz: 0 }),
        Some(found) => match (
            read_real(m, found, "ixx", 0),
            read_real(m, found, "ixy", 0),
            read_real(m, found, "ixz", 0),
            read_real(m, found, "iyy", 0),
            read_real(m, found, "iyz", 0),
            read_real(m, found, "izz", 0),
        ) {
            (Some(ixx), Some(ixy), Some(ixz), Some(iyy), Some(iyz), Some(izz)) => Some(
                Inertia { ixx, ixy, ixz, iyy, iyz, izz },
            ),
            _ => None,
        },
    }
}

/// Reads the mass properties that the `inertial` element inside `tag`
/// gives.
pub fn read_inertial(m: &Markup, tag: usize) -> (r: Option<Option<Inertial>>)
    requires
        m.wf(),
    ensures
        r == inertial_of(m@, tag),
{
    match find_child(m, Some(tag), "inertial", 0) {
        None => Some(None),
        Some(found) => {
            let mass = match find_child(m, Some(found), "mass", 0) {
                None => Some(0),
                Some(holder) => read_real(m, holder, "value", 0),
            };
            match (mass, read_pose(m, found), read_inertia(m, found)) {
                (Some(mass), Some(origin), Some(inertia)) => Some(
                    Some(Inertial { mass, origin, inertia }),
                ),
                _ => None,
            }
        },
    }
}

/// Reads the link at `tag`.
pub fn read_link(m: &Markup, tag: usize) -> (r: Result<RawLink, ParseError>)
    requires
        m.wf(),
    ensures
        match r {
            Ok(link) => link_error(m@, tag) is None && link_is(m@, tag, link),
            Err(e) => link_error(m@, tag) == Some(e),
        },
{
    let name = match find_attr(m, tag, "name") {
        Some(name) => name,
        None => {
            return Err(ParseError { fault: ParseFault::MissingField, at: tag });
        },
    };
    let inertial = match read_inertial(m, tag) {
        Some(inertial) => inertial,
        None => {
            return Err(ParseError { fault: ParseFault::NotANumber, at: tag });
        },
    };
    let visuals = match read_geometries(m, tag, "visual") {
        Ok(list) => list,
        Err(e) => {
            return Err(e);
        },
    };
    let collisions = match read_geometries(m, tag, "collision") {
        Ok(list) => list,
        Err(e) => {
            return Err(e);
        },
    };
    Ok(RawLink { name, inertial, visuals, collisions })
}

/// The first fault among the links `tags` from place `from` on.
pub open spec fn links_error(d: Doc, tags: Seq<usize>, from: int) -> Option<ParseError>
    decreases tags.len() - from,
{
    if from < 0 || from >= tags.len() {
        None
    } else if link_error(d, tags[from]) is Some {
        link_error(d, tags[from])
    } else {
        links_error(d, tags, from + 1)
    }
}

/// The first fault among the joints `tags` from place `from` on.
pub open spec fn joints_error(d: Doc, tags: Seq<usize>, from: int) -> Option<ParseError>
    decreases tags.len() - from,
{
    if from < 0 || from >= tags.len() {
        None
    } else {
        match joint_fault(d, tags[from]) {
            Some(fault) => Some(ParseError { fault, at: tags[from] }),
            None => joints_error(d, tags, from + 1),
        }
    }
}

/// The records of a description: its links and its joints, each in the
/// order of the text.
#[derive(Clone, Debug)]
pub struct Description {
    pub links: Vec<RawLink>,
    pub joints: Vec<RawJoint>,
}

/// The `link` elements of the robot at `robot`.
pub open spec fn links_of(d: Doc, robot: usize) -> Seq<usize> {
    children_from(d, Some(robot), "link".spec_bytes(), 0)
}

/// The `joint` elements of the robot at `robot`.
pub open spec fn joints_of(d: Doc, robot: usize) -> Seq<usize> {
    children_from(d, Some(robot), "joint".spec_bytes(), 0)
}

/// The outermost `robot` element of `d`, if it has one.
pub open spec fn robot_of(d: Doc) -> Option<usize> {
    child_from(d, None, "robot".spec_bytes(), 0)
}

/// The fault of what the markup `d` holds, if it has one: no `robot`
/// element, or the first fault among its links, or else among its joints.
pub open spec fn content_error(d: Doc) -> Option<ParseError> {
    match robot_of(d) {
        None => Some(ParseError { fault: ParseFault::NoRobot, at: 0 }),
        Some(robot) => if links_error(d, links_of(d, robot), 0) is Some {
            links_error(d, links_of(d, robot), 0)
        } else {
            joints_error(d, joints_of(d, robot), 0)
        },
    }
}

/// Whether `e` is the fault of the text: its fault as markup if it has one,
/// otherwise the fault of what it holds.
pub open spec fn is_parse_error(text: Seq<u8>, e: ParseError) -> bool {
    markup_fault(text, e) || (is_markup(text) && content_error(doc_of(text)) == Some(e))
}

/// Whether `description` holds the records of the text, one for each
/// `link` and `joint` element of its `robot` element, in order.
pub open spec fn describes(text: Seq<u8>, description: Description) -> bool {
    let d = doc_of(text);
    &&& is_markup(text)
    &&& content_error(d) is None
    &&& robot_of(d) matches Some(robot)
    &&& description.links.len() == links_of(d, robot).len()
    &&& forall|k: int|
        0 <= k < description.links.len() ==> link_is(
            d,
            #[trigger] links_of(d, robot)[k],
            description.links@[k],
        )
    &&& description.joints.len() == joints_of(d, robot).len()
    &&& forall|k: int|
        0 <= k < description.joints.len() ==> joint_is(
            d,
            #[trigger] joints_of(d, robot)[k],
            description.joints@[k],
        )
}

/// Reads the links of the robot at `robot`.
pub fn read_links(m: &Markup, robot: usize) -> (r: Result<Vec<RawLink>, ParseError>)
    requires
        m.wf(),
    ensures
        match r {
            Ok(links) => links_error(m@, links_of(m@, robot), 0) is None && links.len() == links_of(
                m@,
                robot,
            ).len() && forall|k: int|
                0 <= k < links.len() ==> link_is(m@, #[trigger] links_of(m@, robot)[k], links@[k]),
            Err(e) => links_error(m@, links_of(m@, robot), 0) == Some(e),
        },
{
    let tags = find_children(m, Some(robot), "link");
    let mut links: Vec<RawLink> = Vec::new();
    let mut k: usize = 0;
    while k < tags.len()
        invariant
            m.wf(),
            tags@ == links_of(m@, robot),
            k <= tags.len(),
            links.len() == k,
            links_error(m@, tags@, 0) == links_error(m@, tags@, k as int),
            forall|q: int| 0 <= q < k ==> link_is(m@, #[trigger] tags@[q], links@[q]),
        decreases tags.len() - k,
    {
        match read_link(m, tags[k]) {
            Ok(link) => {
                links.push(link);
            },
            Err(e) => {
                return Err(e);
            },
        }
        k += 1;
    }
    Ok(links)
}

/// Reads the joints of the robot at `robot`.
pub fn read_joints(m: &Markup, robot: usize) -> (r: Result<Vec<RawJoint>, ParseError>)
    requires
        m.wf(),
    ensures
        match r {
            Ok(joints) => joints_error(m@, joints_of(m@, robot), 0) is None && joints.len()
                == joints_of(m@, robot).len() && forall|k: int|
                0 <= k < joints.len() ==> joint_is(m@, #[trigger] joints_of(m@, robot)[k], joints@[k]),
            Err(e) => joints_error(m@, joints_of(m@, robot), 0) == Some(e),
        },
{
    let tags = find_children(m, Some(robot), "joint");
    let mut joints: Vec<RawJoint> = Vec::new();
    let mut k: usize = 0;
    while k < tags.len()
        invariant
            m.wf(),
            tags@ == joints_of(m@, robot),
            k <= tags.len(),
            joints.len() == k,
            joints_error(m@, tags@, 0) == joints_error(m@, tags@, k as int),
            forall|q: int| 0 <= q < k ==> joint_is(m@, #[trigger] tags@[q], joints@[q]),
        decreases tags.len() - k,
    {
        match read_joint(m, tags[k]) {
            Ok(joint) => {
                joints.push(joint);
            },
            Err(e) => {
                return Err(ParseError { fault: e.fault, at: tags[k] });
            },
        }
        k += 1;
    }
    Ok(joints)
}

/// Reads a description. The result is its records, or the first fault of
/// the text; nothing is returned of a text that has a fault.
pub fn parse(text: Vec<u8>) -> (r: Result<Description, ParseError>)
    ensures
        match r {
            Ok(description) => describes(text@, description),
            Err(e) => is_parse_error(text@, e),
        },
{
    let m = match Markup::read(text) {
        Ok(m) => m,
        Err(e) => {
            return Err(e);
        },
    };
    let robot = match find_child(&m, None, "robot", 0) {
        Some(robot) => robot,
        None => {
            return Err(ParseError { fault: ParseFault::NoRobot, at: 0 });
        },
    };
    let links = match read_links(&m, robot) {
        Ok(links) => links,
        Err(e) => {
            return Err(e);
        },
    };
    let joints = match read_joints(&m, robot) {
        Ok(joints) => joints,
        Err(e) => {
            return Err(e);
        },
    };
    Ok(Description { links, joints })
}

/// A text has records or a fault, never both: `parse` succeeds on the
/// texts that are descriptions and on no others.
pub proof fn lemma_fault_excludes_records(text: Seq<u8>, e: ParseError, description: Description)
    requires
        is_parse_error(text, e),
    ensures
        !describes(text, description),
{
    if markup_fault(text, e) {
        crate::query::lemma_markup_fault_is_no_markup(text, e);
    }
}

} // verus!
