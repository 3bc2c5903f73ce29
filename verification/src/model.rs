//! The records of a robot description, before any cross-reference is
//! resolved. Reals are in fixed point, as in `scalar`.

use vstd::prelude::*;

verus! {

/// Three reals: a point, a direction, or roll, pitch and yaw.
#[derive(Clone, Copy, Debug, PartialEq, Eq, Structural)]
pub struct Triple {
    pub x: i64,
    pub y: i64,
    pub z: i64,
}

/// A rigid pose: where an origin sits (`xyz`) and how it is turned (`rpy`).
#[derive(Clone, Copy, Debug, PartialEq, Eq, Structural)]
pub struct Pose {
    pub xyz: Triple,
    pub rpy: Triple,
}

/// The range that a joint's value is meant to stay in.
#[derive(Clone, Copy, Debug, PartialEq, Eq, Structural)]
pub struct Limits {
    pub lower: i64,
    pub upper: i64,
}

/// How a joint moves its child link.
#[derive(Clone, Copy, Debug, PartialEq, Eq, Structural)]
pub enum JointKind {
    /// No motion.
    Fixed,
    /// A turn about `axis`, within `limits` where they are given.
    Revolute { axis: Triple, limits: Option<Limits> },
    /// A turn about `axis`, without limit.
    Continuous { axis: Triple },
    /// A slide along `axis`, within `limits` where they are given.
    Prismatic { axis: Triple, limits: Option<Limits> },
}

/// The form of a piece of geometry.
#[derive(Clone, Debug)]
pub enum Shape {
    Cuboid { size: Triple },
    Cylinder { radius: i64, length: i64 },
    Sphere { radius: i64 },
    Mesh { file: Vec<u8> },
}

/// A piece of geometry fixed to a link: its form, where it sits on the link,
/// and the name of its material (empty where none is given).
#[derive(Clone, Debug)]
pub struct Geometry {
    pub shape: Shape,
    pub origin: Pose,
    pub material: Vec<u8>,
}

/// The six distinct entries of a symmetric inertia tensor.
#[derive(Clone, Copy, Debug, PartialEq, Eq, Structural)]
pub struct Inertia {
    pub ixx: i64,
    pub ixy: i64,
    pub ixz: i64,
    pub iyy: i64,
    pub iyz: i64,
    pub izz: i64,
}

/// Mass properties of a link: its mass, where its centre of mass sits, and
/// its inertia tensor. They are carried through unread.
#[derive(Clone, Copy, Debug, PartialEq, Eq, Structural)]
pub struct Inertial {
    pub mass: i64,
    pub origin: Pose,
    pub inertia: Inertia,
}

/// A link as described: a name and what hangs on it.
#[derive(Clone, Debug)]
pub struct RawLink {
    pub name: Vec<u8>,
    pub inertial: Option<Inertial>,
    pub visuals: Vec<Geometry>,
    pub collisions: Vec<Geometry>,
}

/// A joint as described: its links are still names.
#[derive(Clone, Debug)]
pub struct RawJoint {
    pub name: Vec<u8>,
    pub kind: JointKind,
    pub origin: Pose,
    pub parent: Vec<u8>,
    pub child: Vec<u8>,
}

/// Zero three times.
pub open spec fn zero_triple() -> Triple {
    Triple { x: 0, y: 0, z: 0 }
}

/// The pose that moves nothing.
pub open spec fn rest_pose() -> Pose {
    Pose { xyz: zero_triple(), rpy: zero_triple() }
}

impl JointKind {
    /// Whether the joint carries a value in the joint state.
    pub open spec fn is_movable(self) -> bool {
        !(self is Fixed)
    }

    /// The limits of the joint, if it has any.
    pub open spec fn limits_of(self) -> Option<Limits> {
        match self {
            JointKind::Revolute { axis, limits } => limits,
            JointKind::Prismatic { axis, limits } => limits,
            _ => None,
        }
    }

    /// Tells whether the joint carries a value in the joint state.
    pub fn movable(&self) -> (r: bool)
        ensures
            r == self.is_movable(),
    {
        match self {
            JointKind::Fixed => false,
            _ => true,
        }
    }

    /// The limits of the joint, if it has any.
    pub fn limits(&self) -> (r: Option<Limits>)
        ensures
            r == self.limits_of(),
    {
        match self {
            JointKind::Revolute { axis, limits } => *limits,
            JointKind::Prismatic { axis, limits } => *limits,
            _ => None,
        }
    }
}

/// The names of `links`, in order.
pub open spec fn link_names(links: Seq<RawLink>) -> Seq<Seq<u8>> {
    Seq::new(links.len(), |i: int| links[i].name@)
}

/// The names of `joints`, in order.
pub open spec fn joint_names(joints: Seq<RawJoint>) -> Seq<Seq<u8>> {
    Seq::new(joints.len(), |i: int| joints[i].name@)
}

/// For each joint, the name it gives for its parent link.
pub open spec fn parent_names(joints: Seq<RawJoint>) -> Seq<Seq<u8>> {
    Seq::new(joints.len(), |i: int| joints[i].parent@)
}

/// For each joint, the name it gives for its child link.
pub open spec fn child_names(joints: Seq<RawJoint>) -> Seq<Seq<u8>> {
    Seq::new(joints.len(), |i: int| joints[i].child@)
}

/// Tells whether two byte strings are the same.
pub fn same_bytes(a: &Vec<u8>, b: &Vec<u8>) -> (r: bool)
    ensures
        r == (a@ == b@),
{
    if a.len() != b.len() {
        return false;
    }
    let mut i: usize = 0;
    while i < a.len()
        invariant
            i <= a.len(),
            a.len() == b.len(),
            forall|k: int| 0 <= k < i ==> a@[k] == b@[k],
        decreases a.len() - i,
    {
        if a[i] != b[i] {
            return false;
        }
        i += 1;
    }
    proof {
        assert(a@ =~= b@);
    }
    true
}

} // verus!
