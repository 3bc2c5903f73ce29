//! From records to a rooted tree of links: the checks that a description
//! must pass, the order in which its links are visited, and the numbering of
//! its movable joints.
//!
//! Links are visited breadth first from the root: a link's children follow
//! in the order in which their joints are described, and the children of an
//! earlier link come before those of a later one.

use vstd::prelude::*;
use vstd::set_lib::{lemma_int_range, lemma_len_subset, set_int_range};
use crate::model::{RawJoint, RawLink, child_names, joint_names, link_names, parent_names};
use crate::names::{
    anchored, distinct, first_dangling, first_repeat, hop, is_root, lemma_distinct_same_place,
    lemma_repeats_by_index, occurs, points_to, position, repeated_joint, repeated_link, repeats,
    resolved, within,
};

verus! {

/// A link or a joint, by its place in the description.
#[derive(Clone, Copy, Debug, PartialEq, Eq, Structural)]
pub enum Entity {
    Link(usize),
    Joint(usize),
}

/// Why a description is no tree. Each fault names the entity at which it
/// was found, by its place in the description.
#[derive(Clone, Copy, Debug, PartialEq, Eq, Structural)]
pub enum BuildError {
    /// The entity has the name of an earlier one of its sort.
    DuplicateName(Entity),
    /// The joint names a parent or child link that does not exist.
    DanglingReference(usize),
    /// The link is the child of two joints.
    MultipleParents(usize),
    /// Every link is some joint's child.
    NoRoot,
    /// The link is a second link that is no joint's child.
    MultipleRoots(usize),
    /// The link cannot be reached from the root.
    CycleDetected(usize),
}

/// Whether `incoming` gives, for each link, the one joint whose child it is.
pub open spec fn incoming_of(children: Seq<usize>, incoming: Seq<Option<usize>>) -> bool {
    &&& forall|j: int|
        0 <= j < children.len() ==> (#[trigger] children[j]) < incoming.len()
            && incoming[children[j] as int] == Some(j as usize)
    &&& forall|l: int|
        0 <= l < incoming.len() ==> match #[trigger] incoming[l] {
            Some(j) => j < children.len() && children[j as int] == l,
            None => true,
        }
}

/// The first joint that names a link that does not exist, or else, for each
/// joint, the places of its parent and of its child among the links.
pub fn resolve(links: &Vec<RawLink>, joints: &Vec<RawJoint>) -> (r: Result<
    (Vec<usize>, Vec<usize>),
    usize,
>)
    ensures
        match r {
            Ok((ps, cs)) => points_to(link_names(links@), parent_names(joints@), ps@) && points_to(
                link_names(links@),
                child_names(joints@),
                cs@,
            ),
            Err(j) => first_dangling(
                link_names(links@),
                parent_names(joints@),
                child_names(joints@),
                j as int,
            ),
        },
{
    let ghost ln = link_names(links@);
    let ghost pn = parent_names(joints@);
    let ghost cn = child_names(joints@);
    let mut ps: Vec<usize> = Vec::new();
    let mut cs: Vec<usize> = Vec::new();
    let mut j: usize = 0;
    while j < joints.len()
        invariant
            j <= joints.len(),
            ln == link_names(links@),
            pn == parent_names(joints@),
            cn == child_names(joints@),
            ps.len() == j,
            cs.len() == j,
            forall|k: int| 0 <= k < j ==> (#[trigger] ps@[k]) < ln.len() && ln[ps@[k] as int] == pn[k],
            forall|k: int| 0 <= k < j ==> (#[trigger] cs@[k]) < ln.len() && ln[cs@[k] as int] == cn[k],
            forall|k: int| 0 <= k < j ==> !crate::names::dangles(ln, pn, cn, k),
        decreases joints.len() - j,
    {
        let p = position(links, &joints[j].parent);
        let c = position(links, &joints[j].child);
        match (p, c) {
            (Some(pi), Some(ci)) => {
                assert(ln[pi as int] == pn[j as int]);
                assert(ln[ci as int] == cn[j as int]);
                ps.push(pi);
                cs.push(ci);
            },
            _ => {
                return Err(j);
            },
        }
        j += 1;
    }
    Ok((ps, cs))
}

/// For each of `n` links the joint whose child it is, or else the first
/// joint whose child is also the child of an earlier joint.
pub fn collect_incoming(n: usize, cs: &Vec<usize>) -> (r: Result<Vec<Option<usize>>, usize>)
    requires
        forall|j: int| 0 <= j < cs.len() ==> (#[trigger] cs@[j]) < n,
    ensures
        match r {
            Ok(inc) => inc.len() == n && incoming_of(cs@, inc@),
            Err(j) => first_repeat(cs@, j as int),
        },
{
    let mut inc: Vec<Option<usize>> = Vec::new();
    let mut l: usize = 0;
    while l < n
        invariant
            l <= n,
            inc.len() == l,
            forall|k: int| 0 <= k < l ==> (#[trigger] inc@[k]) is None,
        decreases n - l,
    {
        inc.push(None);
        l += 1;
    }
    let mut j: usize = 0;
    while j < cs.len()
        invariant
            j <= cs.len(),
            inc.len() == n,
            forall|k: int| 0 <= k < cs.len() ==> (#[trigger] cs@[k]) < n,
            forall|k: int| 0 <= k < j ==> inc@[(#[trigger] cs@[k]) as int] == Some(k as usize),
            forall|q: int|
                0 <= q < n ==> match #[trigger] inc@[q] {
                    Some(k) => k < j && cs@[k as int] == q,
                    None => true,
                },
            forall|k: int| 0 <= k < j ==> !repeats(cs@, k),
        decreases cs.len() - j,
    {
        let c: usize = cs[j];
        match inc[c] {
            Some(k) => {
                assert(cs@[k as int] == cs@[j as int]);
                return Err(j);
            },
            None => {
                assert(!repeats(cs@, j as int)) by {
                    if repeats(cs@, j as int) {
                        let k = choose|k: int| 0 <= k < j && #[trigger] cs@[k] == cs@[j as int];
                        assert(inc@[cs@[k] as int] == Some(k as usize));
                    }
                }
                inc.set(c, Some(j));
            },
        }
        j += 1;
    }
    Ok(inc)
}

/// What the search for a root found.
#[derive(Clone, Copy, Debug, PartialEq, Eq, Structural)]
pub enum RootSearch {
    /// The one link that is no joint's child.
    Root(usize),
    /// There is none.
    Missing,
    /// The second such link.
    Second(usize),
}

/// Looks for the one link without an incoming joint.
pub fn find_root(inc: &Vec<Option<usize>>) -> (r: RootSearch)
    ensures
        match r {
            RootSearch::Root(root) => root < inc.len() && inc@[root as int] is None && forall|l: int|
                0 <= l < inc.len() && l != root ==> (#[trigger] inc@[l]) is Some,
            RootSearch::Missing => forall|l: int| 0 <= l < inc.len() ==> (#[trigger] inc@[l]) is Some,
            RootSearch::Second(l) => l < inc.len() && inc@[l as int] is None && exists|k: int|
                0 <= k < l && (#[trigger] inc@[k]) is None && forall|q: int|
                    0 <= q < l && q != k ==> (#[trigger] inc@[q]) is Some,
        },
{
    let mut found: Option<usize> = None;
    let mut l: usize = 0;
    while l < inc.len()
        invariant
            l <= inc.len(),
            match found {
                Some(root) => root < l && inc@[root as int] is None && forall|q: int|
                    0 <= q < l && q != root ==> (#[trigger] inc@[q]) is Some,
                None => forall|q: int| 0 <= q < l ==> (#[trigger] inc@[q]) is Some,
            },
        decreases inc.len() - l,
    {
        if inc[l].is_none() {
            match found {
                Some(root) => {
                    return RootSearch::Second(l);
                },
                None => {
                    found = Some(l);
                },
            }
        }
        l += 1;
    }
    match found {
        Some(root) => RootSearch::Root(root),
        None => RootSearch::Missing,
    }
}

/// Whether joint `j` has been followed once the traversal stands at the
/// link in place `i` of the order and has looked at the joints before `upto`:
/// its parent link is in the order before place `i`, or at it with `j`
/// before `upto`.
pub open spec fn followed(
    ps: Seq<usize>,
    slot: Seq<Option<usize>>,
    j: int,
    i: int,
    upto: int,
) -> bool {
    match slot[ps[j] as int] {
        Some(q) => q < i || (q == i && j < upto),
        None => false,
    }
}

/// Whether `order` and `slot` are each other's inverse: `order` lists
/// links, `slot` gives each listed link its place, and the listing starts
/// with `root`.
pub open spec fn listed(root: usize, order: Seq<usize>, slot: Seq<Option<usize>>) -> bool {
    &&& 0 < order.len()
    &&& order[0] == root
    &&& forall|p: int|
        0 <= p < order.len() ==> (#[trigger] order[p]) < slot.len() && slot[order[p] as int]
            == Some(p as usize)
    &&& forall|l: int|
        0 <= l < slot.len() ==> match #[trigger] slot[l] {
            Some(p) => p < order.len() && order[p as int] == l,
            None => true,
        }
}

/// Whether every link in the order but the first came in by its incoming
/// joint, and that joint has been followed.
pub open spec fn came_by_joint(
    ps: Seq<usize>,
    inc: Seq<Option<usize>>,
    order: Seq<usize>,
    slot: Seq<Option<usize>>,
    i: int,
    upto: int,
) -> bool {
    forall|p: int|
        0 < p < order.len() ==> match inc[(#[trigger] order[p]) as int] {
            Some(j) => j < ps.len() && followed(ps, slot, j as int, i, upto),
            None => false,
        }
}

/// Whether every joint followed has its child in the order, after its
/// parent.
pub open spec fn children_placed(
    ps: Seq<usize>,
    cs: Seq<usize>,
    slot: Seq<Option<usize>>,
    i: int,
    upto: int,
) -> bool {
    forall|j: int|
        0 <= j < ps.len() && #[trigger] followed(ps, slot, j, i, upto) ==> match slot[cs[j] as int] {
            Some(r) => slot[ps[j] as int].unwrap() < r,
            None => false,
        }
}

/// Whether joint `j` is followed before joint `k` in a breadth-first
/// visit: its parent stands earlier in the order, or they share the parent
/// and `j` is described first.
pub open spec fn goes_first(ps: Seq<usize>, slot: Seq<Option<usize>>, j: int, k: int) -> bool {
    slot[ps[j] as int].unwrap() < slot[ps[k] as int].unwrap() || (ps[j] == ps[k] && j < k)
}

/// Whether the children of the joints followed stand in the order in which
/// their joints were followed.
pub open spec fn children_in_turn(
    ps: Seq<usize>,
    cs: Seq<usize>,
    slot: Seq<Option<usize>>,
    i: int,
    upto: int,
) -> bool {
    forall|j: int, k: int|
        0 <= j < ps.len() && 0 <= k < ps.len() && #[trigger] followed(ps, slot, j, i, upto)
            && #[trigger] followed(ps, slot, k, i, upto) && goes_first(ps, slot, j, k)
            ==> slot[cs[j] as int].unwrap() < slot[cs[k] as int].unwrap()
}

/// What holds of a traversal that stands at place `i` of the order and has
/// looked at the joints before `upto`.
pub open spec fn visiting(
    ps: Seq<usize>,
    cs: Seq<usize>,
    inc: Seq<Option<usize>>,
    root: usize,
    order: Seq<usize>,
    slot: Seq<Option<usize>>,
    i: int,
    upto: int,
) -> bool {
    &&& slot.len() == inc.len()
    &&& listed(root, order, slot)
    &&& came_by_joint(ps, inc, order, slot, i, upto)
    &&& children_placed(ps, cs, slot, i, upto)
    &&& children_in_turn(ps, cs, slot, i, upto)
}

/// Visits the links that hang on `root`, breadth first. Returns the order
/// of the visit and, for each link, its place in that order if it was
/// reached.
pub fn traverse(
    ps: &Vec<usize>,
    cs: &Vec<usize>,
    inc: &Vec<Option<usize>>,
    root: usize,
) -> (r: (Vec<usize>, Vec<Option<usize>>))
    requires
        ps.len() == cs.len(),
        forall|j: int| 0 <= j < ps.len() ==> (#[trigger] ps@[j]) < inc.len(),
        incoming_of(cs@, inc@),
        root < inc.len(),
        inc@[root as int] is None,
    ensures
        visiting(ps@, cs@, inc@, root, r.0@, r.1@, r.0.len() as int, 0),
        r.0.len() <= inc.len(),
        r.0.len() == inc.len() <==> (forall|l: int| 0 <= l < inc.len() ==> (#[trigger] r.1@[l]) is Some),
{
    let n: usize = inc.len();
    let m: usize = ps.len();
    let mut slot: Vec<Option<usize>> = Vec::new();
    let mut l: usize = 0;
    while l < n
        invariant
            l <= n,
            slot.len() == l,
            forall|k: int| 0 <= k < l ==> (#[trigger] slot@[k]) is None,
        decreases n - l,
    {
        slot.push(None);
        l += 1;
    }
    let mut order: Vec<usize> = Vec::new();
    order.push(root);
    slot.set(root, Some(0));
    let ghost mut seen: Set<int> = Set::empty().insert(root as int);
    let mut i: usize = 0;
    while i < order.len()
        invariant
            n == inc.len(),
            m == ps.len(),
            m == cs.len(),
            forall|j: int| 0 <= j < ps.len() ==> (#[trigger] ps@[j]) < inc.len(),
            incoming_of(cs@, inc@),
            root < n,
            inc@[root as int] is None,
            i <= order.len(),
            visiting(ps@, cs@, inc@, root, order@, slot@, i as int, 0),
            seen.finite(),
            seen.len() == order.len(),
            forall|l: int| seen.contains(l) <==> 0 <= l < n && slot@[l] is Some,
        decreases n - i,
    {
        proof {
            lemma_int_range(0, n as int);
            lemma_len_subset(seen, set_int_range(0, n as int));
        }
        let here: usize = order[i];
        let mut j: usize = 0;
        while j < m
            invariant
                n == inc.len(),
                m == ps.len(),
                m == cs.len(),
                forall|j: int| 0 <= j < ps.len() ==> (#[trigger] ps@[j]) < inc.len(),
                incoming_of(cs@, inc@),
                root < n,
                inc@[root as int] is None,
                i < order.len(),
                i < n,
                j <= m,
                here == order@[i as int],
                visiting(ps@, cs@, inc@, root, order@, slot@, i as int, j as int),
                seen.finite(),
                seen.len() == order.len(),
                forall|l: int| seen.contains(l) <==> 0 <= l < n && slot@[l] is Some,
            decreases m - j,
        {
            if ps[j] == here {
                let c: usize = cs[j];
                let ghost before = slot@;
                let ghost earlier = order@;
                proof {
                    assert(inc@[c as int] == Some(j));
                    assert(before[here as int] == Some(i));
                    if before[c as int] is Some {
                        let p = before[c as int].unwrap();
                        assert(earlier[p as int] == c);
                        if p == 0 {
                            assert(c == root);
                        } else {
                            assert(followed(ps@, before, j as int, i as int, j as int));
                        }
                        assert(false);
                    }
                    lemma_int_range(0, n as int);
                    lemma_len_subset(seen, set_int_range(0, n as int));
                    assert(!seen.contains(c as int));
                }
                let place: usize = order.len();
                slot.set(c, Some(place));
                order.push(c);
                proof {
                    seen = seen.insert(c as int);
                    assert forall|k: int| 0 <= k < m implies (followed(
                        ps@,
                        slot@,
                        k,
                        i as int,
                        j as int + 1,
                    ) <==> (k == j || followed(ps@, before, k, i as int, j as int))) by {
                        assert(ps@[k] < n);
                        if ps@[k] == c {
                            assert(before[c as int] is None);
                        }
                    }
                    assert forall|k: int|
                        0 <= k < m && followed(ps@, before, k, i as int, j as int) implies slot@[cs@[k] as int]
                        == before[cs@[k] as int] && slot@[ps@[k] as int] == before[ps@[k] as int]
                        && before[cs@[k] as int].unwrap() < place by {
                        assert(cs@[k] < n);
                    }
                    assert forall|k: int| 0 <= k < m && #[trigger] followed(ps@, slot@, k, i as int, j as int + 1) implies (match slot@[cs@[k] as int] {
                        Some(r) => slot@[ps@[k] as int].unwrap() < r,
                        None => false,
                    }) by {
                        if k != j {
                            assert(followed(ps@, before, k, i as int, j as int));
                            assert(children_placed(ps@, cs@, before, i as int, j as int));
                            assert(cs@[k] < n);
                        }
                    }
                    assert(children_placed(ps@, cs@, slot@, i as int, j as int + 1));
                }
            } else {
                proof {
                    assert forall|k: int| 0 <= k < m implies (followed(
                        ps@,
                        slot@,
                        k,
                        i as int,
                        j as int + 1,
                    ) <==> followed(ps@, slot@, k, i as int, j as int)) by {
                        if k == j {
                            assert(ps@[k] < n);
                        }
                    }
                    assert forall|k: int| 0 <= k < m && #[trigger] followed(ps@, slot@, k, i as int, j as int + 1) implies (match slot@[cs@[k] as int] {
                        Some(r) => slot@[ps@[k] as int].unwrap() < r,
                        None => false,
                    }) by {
                        assert(followed(ps@, slot@, k, i as int, j as int));
                        assert(children_placed(ps@, cs@, slot@, i as int, j as int));
                    }
                    assert(children_placed(ps@, cs@, slot@, i as int, j as int + 1));
                }
            }
            j += 1;
        }
        proof {
            assert forall|k: int| 0 <= k < m implies (followed(ps@, slot@, k, i as int + 1, 0)
                <==> followed(ps@, slot@, k, i as int, m as int)) by {}
            assert(listed(root, order@, slot@));
            assert forall|k: int| 0 <= k < m && #[trigger] followed(ps@, slot@, k, i as int + 1, 0) implies (match slot@[cs@[k] as int] {
                Some(r) => slot@[ps@[k] as int].unwrap() < r,
                None => false,
            }) by {
                assert(followed(ps@, slot@, k, i as int, m as int));
                assert(children_placed(ps@, cs@, slot@, i as int, m as int));
            }
            assert(children_placed(ps@, cs@, slot@, i as int + 1, 0));
        }
        i += 1;
    }
    proof {
        let all = set_int_range(0, n as int);
        lemma_int_range(0, n as int);
        assert(seen.subset_of(all)) by {
            assert forall|l: int| seen.contains(l) implies all.contains(l) by {}
        }
        lemma_len_subset(seen, all);
        if order.len() == n {
            vstd::set_lib::lemma_subset_equality(seen, all);
            assert forall|l: int| 0 <= l < n implies (#[trigger] slot@[l]) is Some by {
                assert(all.contains(l));
                assert(seen.contains(l));
            }
        } else {
            if forall|l: int| 0 <= l < n ==> (#[trigger] slot@[l]) is Some {
                assert forall|l: int| all.contains(l) implies seen.contains(l) by {
                    assert(slot@[l] is Some);
                }
                assert(seen =~= all);
                assert(false);
            }
        }
    }
    (order, slot)
}

/// What is known once a traversal has ended: the names are resolved, each
/// link has its incoming joint, `root` is the one link without, and the
/// traversal has followed every joint whose parent it reached.
pub open spec fn traversed(
    ln: Seq<Seq<u8>>,
    pn: Seq<Seq<u8>>,
    cn: Seq<Seq<u8>>,
    ps: Seq<usize>,
    cs: Seq<usize>,
    inc: Seq<Option<usize>>,
    root: usize,
    order: Seq<usize>,
    slot: Seq<Option<usize>>,
) -> bool {
    &&& distinct(ln)
    &&& points_to(ln, pn, ps)
    &&& points_to(ln, cn, cs)
    &&& pn.len() == cn.len()
    &&& inc.len() == ln.len()
    &&& incoming_of(cs, inc)
    &&& root < inc.len()
    &&& inc[root as int] is None
    &&& forall|l: int| 0 <= l < inc.len() && l != root ==> (#[trigger] inc[l]) is Some
    &&& visiting(ps, cs, inc, root, order, slot, order.len() as int, 0)
}

/// A link is a root by name exactly when it has no incoming joint.
pub proof fn lemma_root_by_name(
    ln: Seq<Seq<u8>>,
    cn: Seq<Seq<u8>>,
    cs: Seq<usize>,
    inc: Seq<Option<usize>>,
    l: int,
)
    requires
        distinct(ln),
        points_to(ln, cn, cs),
        inc.len() == ln.len(),
        incoming_of(cs, inc),
        0 <= l < ln.len(),
    ensures
        is_root(ln, cn, l) <==> inc[l] is None,
{
    if inc[l] is Some {
        let j = inc[l].unwrap() as int;
        assert(cs[j] == l);
        assert(cn[j] == ln[l]);
    } else {
        if occurs(cn, ln[l]) {
            let j = choose|j: int| 0 <= j < cn.len() && #[trigger] cn[j] == ln[l];
            assert(cs[j] < ln.len());
            lemma_distinct_same_place(ln, cs[j] as int, l);
            assert(inc[cs[j] as int] == Some(j as usize));
        }
    }
}

/// Every link that a traversal reached hangs on the root.
pub proof fn lemma_reached_is_anchored(
    ln: Seq<Seq<u8>>,
    pn: Seq<Seq<u8>>,
    cn: Seq<Seq<u8>>,
    ps: Seq<usize>,
    cs: Seq<usize>,
    inc: Seq<Option<usize>>,
    root: usize,
    order: Seq<usize>,
    slot: Seq<Option<usize>>,
    p: int,
)
    requires
        traversed(ln, pn, cn, ps, cs, inc, root, order, slot),
        0 <= p < order.len(),
    ensures
        anchored(ln, pn, cn, order[p] as int),
    decreases p,
{
    let l = order[p] as int;
    if p == 0 {
        lemma_root_by_name(ln, cn, cs, inc, l);
        assert(within(ln, pn, cn, l, 0));
    } else {
        let j = inc[l].unwrap() as int;
        assert(followed(ps, slot, j, order.len() as int, 0));
        assert(cs[j] == l);
        let q = slot[ps[j] as int].unwrap() as int;
        assert(q < p);
        assert(order[q] == ps[j]);
        lemma_reached_is_anchored(ln, pn, cn, ps, cs, inc, root, order, slot, q);
        let k = choose|k: nat| within(ln, pn, cn, ps[j] as int, k);
        assert(hop(ln, pn, cn, j, ps[j] as int, l));
        assert(within(ln, pn, cn, l, k + 1));
    }
}

/// Every link that hangs on a root was reached by the traversal.
pub proof fn lemma_anchored_is_reached(
    ln: Seq<Seq<u8>>,
    pn: Seq<Seq<u8>>,
    cn: Seq<Seq<u8>>,
    ps: Seq<usize>,
    cs: Seq<usize>,
    inc: Seq<Option<usize>>,
    root: usize,
    order: Seq<usize>,
    slot: Seq<Option<usize>>,
    l: int,
    k: nat,
)
    requires
        traversed(ln, pn, cn, ps, cs, inc, root, order, slot),
        0 <= l < ln.len(),
        within(ln, pn, cn, l, k),
    ensures
        slot[l] is Some,
    decreases k,
{
    if k == 0 {
        lemma_root_by_name(ln, cn, cs, inc, l);
        assert(l == root);
    } else if within(ln, pn, cn, l, (k - 1) as nat) {
        lemma_anchored_is_reached(ln, pn, cn, ps, cs, inc, root, order, slot, l, (k - 1) as nat);
    } else {
        let (j, p) = choose|j: int, p: int|
            #[trigger] hop(ln, pn, cn, j, p, l) && within(ln, pn, cn, p, (k - 1) as nat);
        lemma_anchored_is_reached(ln, pn, cn, ps, cs, inc, root, order, slot, p, (k - 1) as nat);
        assert(ps[j] < ln.len());
        lemma_distinct_same_place(ln, ps[j] as int, p);
        assert(followed(ps, slot, j, order.len() as int, 0));
        assert(cs[j] < ln.len());
        lemma_distinct_same_place(ln, cs[j] as int, l);
    }
}

/// Whether `l` is the one link that is no joint's child.
pub open spec fn sole_root(ln: Seq<Seq<u8>>, cn: Seq<Seq<u8>>, l: int) -> bool {
    &&& 0 <= l < ln.len()
    &&& is_root(ln, cn, l)
    &&& forall|q: int| 0 <= q < ln.len() && q != l ==> !is_root(ln, cn, q)
}

/// Whether a description passes every check up to the search for a root:
/// no name is used twice, every joint names links that exist, and no link
/// is the child of two joints.
pub open spec fn well_named(
    ln: Seq<Seq<u8>>,
    jn: Seq<Seq<u8>>,
    pn: Seq<Seq<u8>>,
    cn: Seq<Seq<u8>>,
) -> bool {
    &&& distinct(ln)
    &&& distinct(jn)
    &&& resolved(ln, pn, cn)
    &&& distinct(cn)
}

/// Whether a description is a single rooted tree.
pub open spec fn is_tree(
    ln: Seq<Seq<u8>>,
    jn: Seq<Seq<u8>>,
    pn: Seq<Seq<u8>>,
    cn: Seq<Seq<u8>>,
) -> bool {
    &&& well_named(ln, jn, pn, cn)
    &&& exists|l: int| sole_root(ln, cn, l)
    &&& forall|l: int| 0 <= l < ln.len() ==> anchored(ln, pn, cn, l)
}

/// Whether `e` is the fault of a description: the first check that it
/// fails, at the first entity that fails it. The checks run in this order:
/// link names, joint names, references, parents, root, reachability.
pub open spec fn is_fault(
    ln: Seq<Seq<u8>>,
    jn: Seq<Seq<u8>>,
    pn: Seq<Seq<u8>>,
    cn: Seq<Seq<u8>>,
    e: BuildError,
) -> bool {
    match e {
        BuildError::DuplicateName(Entity::Link(i)) => first_repeat(ln, i as int),
        BuildError::DuplicateName(Entity::Joint(i)) => distinct(ln) && first_repeat(jn, i as int),
        BuildError::DanglingReference(j) => distinct(ln) && distinct(jn) && first_dangling(
            ln,
            pn,
            cn,
            j as int,
        ),
        BuildError::MultipleParents(l) => distinct(ln) && distinct(jn) && resolved(ln, pn, cn)
            && l < ln.len() && exists|j: int| #[trigger] first_repeat(cn, j) && cn[j] == ln[l as int],
        BuildError::NoRoot => well_named(ln, jn, pn, cn) && forall|l: int|
            0 <= l < ln.len() ==> !is_root(ln, cn, l),
        BuildError::MultipleRoots(l) => well_named(ln, jn, pn, cn) && l < ln.len() && is_root(
            ln,
            cn,
            l as int,
        ) && exists|k: int|
            0 <= k < l && #[trigger] is_root(ln, cn, k) && forall|q: int|
                0 <= q < l && q != k ==> !is_root(ln, cn, q),
        BuildError::CycleDetected(l) => well_named(ln, jn, pn, cn) && (exists|r: int|
            sole_root(ln, cn, r)) && l < ln.len() && !anchored(ln, pn, cn, l as int) && forall|
            q: int,
        | 0 <= q < l ==> anchored(ln, pn, cn, q),
    }
}

/// Whether `index` numbers the movable joints, and `movable` lists them, in
/// the order in which the traversal meets their child links.
pub open spec fn numbered(
    joints: Seq<RawJoint>,
    cs: Seq<usize>,
    slot: Seq<usize>,
    index: Seq<Option<usize>>,
    movable: Seq<usize>,
) -> bool {
    &&& index.len() == joints.len()
    &&& forall|j: int|
        0 <= j < joints.len() ==> ((#[trigger] index[j]) is Some) == joints[j].kind.is_movable()
    &&& forall|j: int|
        0 <= j < joints.len() ==> match #[trigger] index[j] {
            Some(k) => k < movable.len() && movable[k as int] == j,
            None => true,
        }
    &&& forall|k: int|
        0 <= k < movable.len() ==> (#[trigger] movable[k]) < joints.len() && index[movable[k] as int]
            == Some(k as usize)
    &&& forall|a: int, b: int|
        0 <= a < b < movable.len() ==> slot[cs[#[trigger] movable[a] as int] as int]
            < slot[cs[#[trigger] movable[b] as int] as int]
}

/// A description that is a single rooted tree, with its links in visiting
/// order and its movable joints numbered.
#[derive(Clone, Debug)]
pub struct KinematicTree {
    /// The links, as described.
    pub links: Vec<RawLink>,
    /// The joints, as described.
    pub joints: Vec<RawJoint>,
    /// For each joint, the place of its parent link in `links`.
    pub parent_link: Vec<usize>,
    /// For each joint, the place of its child link in `links`.
    pub child_link: Vec<usize>,
    /// For each link, the joint whose child it is; none for the root.
    pub incoming: Vec<Option<usize>>,
    /// The link that is no joint's child.
    pub root: usize,
    /// The links in visiting order: every link after its parent.
    pub order: Vec<usize>,
    /// For each link, its place in `order`.
    pub slot: Vec<usize>,
    /// For each joint, its place in the joint state; none if it is fixed.
    pub state_index: Vec<Option<usize>>,
    /// For each place in the joint state, its joint.
    pub movable: Vec<usize>,
}

impl KinematicTree {
    /// The tree's invariant.
    pub open spec fn wf(&self) -> bool {
        let ln = link_names(self.links@);
        let pn = parent_names(self.joints@);
        let cn = child_names(self.joints@);
        let ps = self.parent_link@;
        let cs = self.child_link@;
        let n = self.links.len();
        &&& distinct(ln)
        &&& distinct(joint_names(self.joints@))
        &&& points_to(ln, pn, ps)
        &&& points_to(ln, cn, cs)
        &&& self.incoming.len() == n
        &&& incoming_of(cs, self.incoming@)
        &&& self.root < n
        &&& self.incoming@[self.root as int] is None
        &&& forall|l: int| 0 <= l < n && l != self.root ==> (#[trigger] self.incoming@[l]) is Some
        &&& self.order.len() == n
        &&& self.slot.len() == n
        &&& self.order@[0] == self.root
        &&& forall|p: int|
            0 <= p < n ==> (#[trigger] self.order@[p]) < n && self.slot@[self.order@[p] as int] == p
        &&& forall|l: int|
            0 <= l < n ==> (#[trigger] self.slot@[l]) < n && self.order@[self.slot@[l] as int] == l
        &&& forall|j: int|
            0 <= j < ps.len() ==> self.slot@[(#[trigger] ps[j]) as int] < self.slot@[cs[j] as int]
        &&& forall|j: int, k: int|
            0 <= j < ps.len() && 0 <= k < ps.len() && (self.slot@[(#[trigger] ps[j]) as int]
                < self.slot@[(#[trigger] ps[k]) as int] || (ps[j] == ps[k] && j < k))
                ==> self.slot@[cs[j] as int] < self.slot@[cs[k] as int]
        &&& numbered(self.joints@, cs, self.slot@, self.state_index@, self.movable@)
    }

    /// How many values the joint state of this tree holds.
    pub open spec fn joint_count(&self) -> nat {
        self.movable@.len()
    }
}

/// Numbers the movable joints in the order in which `order` meets their
/// child links.
pub fn number_joints(
    joints: &Vec<RawJoint>,
    cs: &Vec<usize>,
    inc: &Vec<Option<usize>>,
    order: &Vec<usize>,
    slot: &Vec<usize>,
) -> (r: (Vec<Option<usize>>, Vec<usize>))
    requires
        cs.len() == joints.len(),
        inc.len() == order.len(),
        slot.len() == order.len(),
        order.len() > 0,
        incoming_of(cs@, inc@),
        inc@[order@[0] as int] is None,
        forall|p: int|
            0 <= p < order.len() ==> (#[trigger] order@[p]) < order.len() && slot@[order@[p] as int]
                == p,
        forall|l: int|
            0 <= l < order.len() ==> (#[trigger] slot@[l]) < order.len() && order@[slot@[l] as int]
                == l,
        forall|p: int| 0 < p < order.len() ==> inc@[(#[trigger] order@[p]) as int] is Some,
    ensures
        numbered(joints@, cs@, slot@, r.0@, r.1@),
{
    let n: usize = order.len();
    let m: usize = joints.len();
    let mut index: Vec<Option<usize>> = Vec::new();
    let mut j: usize = 0;
    while j < m
        invariant
            j <= m,
            index.len() == j,
            forall|k: int| 0 <= k < j ==> (#[trigger] index@[k]) is None,
        decreases m - j,
    {
        index.push(None);
        j += 1;
    }
    let mut movable: Vec<usize> = Vec::new();
    let mut p: usize = 1;
    while p < n
        invariant
            1 <= p <= n,
            n == order.len(),
            m == joints.len(),
            cs.len() == m,
            inc.len() == n,
            slot.len() == n,
            incoming_of(cs@, inc@),
            inc@[order@[0] as int] is None,
            forall|p: int|
                0 <= p < order.len() ==> (#[trigger] order@[p]) < order.len() && slot@[order@[p] as int]
                    == p,
            forall|l: int|
                0 <= l < order.len() ==> (#[trigger] slot@[l]) < order.len() && order@[slot@[l] as int]
                    == l,
            forall|p: int| 0 < p < order.len() ==> inc@[(#[trigger] order@[p]) as int] is Some,
            index.len() == m,
            forall|j: int|
                0 <= j < m ==> ((#[trigger] index@[j]) is Some) == (slot@[cs@[j] as int] < p
                    && joints@[j].kind.is_movable()),
            forall|j: int|
                0 <= j < m ==> match #[trigger] index@[j] {
                    Some(k) => k < movable.len() && movable@[k as int] == j,
                    None => true,
                },
            forall|k: int|
                0 <= k < movable.len() ==> (#[trigger] movable@[k]) < m && index@[movable@[k] as int]
                    == Some(k as usize) && slot@[cs@[movable@[k] as int] as int] < p,
            forall|a: int, b: int|
                0 <= a < b < movable.len() ==> slot@[cs@[#[trigger] movable@[a] as int] as int]
                    < slot@[cs@[#[trigger] movable@[b] as int] as int],
        decreases n - p,
    {
        let l: usize = order[p];
        match inc[l] {
            Some(j) => {
                assert(cs@[j as int] == l);
                assert(slot@[l as int] == p);
                proof {
                    assert forall|k: int| 0 <= k < m && k != j implies slot@[cs@[k] as int] != p by {
                        assert(inc@[cs@[k] as int] == Some(k as usize));
                    }
                }
                if joints[j].kind.movable() {
                    let place: usize = movable.len();
                    index.set(j, Some(place));
                    movable.push(j);
                }
            },
            None => {
                assert(false);
            },
        }
        p += 1;
    }
    proof {
        assert forall|j: int| 0 <= j < m implies slot@[cs@[j] as int] < n by {
            assert(cs@[j] < n);
        }
    }
    (index, movable)
}

/// Checks a description and, if it is a single rooted tree, lays it out.
///
/// The result is the tree exactly when the description is one; otherwise it
/// is the description's fault.
pub fn build(links: Vec<RawLink>, joints: Vec<RawJoint>) -> (r: Result<KinematicTree, BuildError>)
    ensures
        match r {
            Ok(t) => t.links == links && t.joints == joints && t.wf() && is_tree(
                link_names(links@),
                joint_names(joints@),
                parent_names(joints@),
                child_names(joints@),
            ),
            Err(e) => is_fault(
                link_names(links@),
                joint_names(joints@),
                parent_names(joints@),
                child_names(joints@),
                e,
            ),
        },
{
    let ghost ln = link_names(links@);
    let ghost jn = joint_names(joints@);
    let ghost pn = parent_names(joints@);
    let ghost cn = child_names(joints@);
    if let Some(i) = repeated_link(&links) {
        return Err(BuildError::DuplicateName(Entity::Link(i)));
    }
    if let Some(i) = repeated_joint(&joints) {
        return Err(BuildError::DuplicateName(Entity::Joint(i)));
    }
    let (ps, cs) = match resolve(&links, &joints) {
        Ok(found) => found,
        Err(j) => {
            return Err(BuildError::DanglingReference(j));
        },
    };
    proof {
        assert forall|j: int| 0 <= j < pn.len() implies !crate::names::dangles(ln, pn, cn, j) by {
            assert(ln[ps@[j] as int] == pn[j]);
            assert(ln[cs@[j] as int] == cn[j]);
        }
    }
    let n: usize = links.len();
    let inc = match collect_incoming(n, &cs) {
        Ok(inc) => inc,
        Err(j) => {
            proof {
                lemma_repeats_by_index(ln, cn, cs@, j as int);
                assert forall|k: int| 0 <= k < j implies !repeats(cn, k) by {
                    lemma_repeats_by_index(ln, cn, cs@, k);
                }
                assert(first_repeat(cn, j as int));
                assert(cn[j as int] == ln[cs@[j as int] as int]);
            }
            return Err(BuildError::MultipleParents(cs[j]));
        },
    };
    proof {
        assert forall|j: int| 0 <= j < cn.len() implies !repeats(cn, j) by {
            lemma_repeats_by_index(ln, cn, cs@, j);
            if repeats(cs@, j) {
                let k = choose|k: int| 0 <= k < j && #[trigger] cs@[k] == cs@[j];
                assert(cs@.len() == cn.len());
                assert(0 <= k < j < cs.len());
                assert(inc@[cs@[k] as int] == Some(k as usize));
                assert(inc@[cs@[j] as int] == Some(j as usize));
                assert(false);
            }
        }
        assert(well_named(ln, jn, pn, cn));
        assert forall|l: int| 0 <= l < n implies (is_root(ln, cn, l) <==> inc@[l] is None) by {
            lemma_root_by_name(ln, cn, cs@, inc@, l);
        }
    }
    let root: usize = match find_root(&inc) {
        RootSearch::Root(root) => root,
        RootSearch::Missing => {
            return Err(BuildError::NoRoot);
        },
        RootSearch::Second(l) => {
            proof {
                let k = choose|k: int|
                    0 <= k < l && (#[trigger] inc@[k]) is None && forall|q: int|
                        0 <= q < l && q != k ==> (#[trigger] inc@[q]) is Some;
                assert(is_root(ln, cn, k));
            }
            return Err(BuildError::MultipleRoots(l));
        },
    };
    assert(sole_root(ln, cn, root as int));
    let (order, reached) = traverse(&ps, &cs, &inc, root);
    assert(traversed(ln, pn, cn, ps@, cs@, inc@, root, order@, reached@));
    let mut slot: Vec<usize> = Vec::new();
    let mut l: usize = 0;
    while l < n
        invariant
            l <= n,
            n == reached.len(),
            n == ln.len(),
            slot.len() == l,
            ln == link_names(links@),
            jn == joint_names(joints@),
            pn == parent_names(joints@),
            cn == child_names(joints@),
            well_named(ln, jn, pn, cn),
            sole_root(ln, cn, root as int),
            traversed(ln, pn, cn, ps@, cs@, inc@, root, order@, reached@),
            forall|q: int| 0 <= q < l ==> reached@[q] == Some(#[trigger] slot@[q]),
            forall|q: int| 0 <= q < l ==> anchored(ln, pn, cn, q),
        decreases n - l,
    {
        match reached[l] {
            Some(p) => {
                proof {
                    assert(order@[p as int] == l);
                    lemma_reached_is_anchored(ln, pn, cn, ps@, cs@, inc@, root, order@, reached@, p as int);
                }
                slot.push(p);
            },
            None => {
                proof {
                    if anchored(ln, pn, cn, l as int) {
                        let k = choose|k: nat| within(ln, pn, cn, l as int, k);
                        lemma_anchored_is_reached(ln, pn, cn, ps@, cs@, inc@, root, order@, reached@, l as int, k);
                    }
                }
                return Err(BuildError::CycleDetected(l));
            },
        }
        l += 1;
    }
    proof {
        assert forall|q: int| 0 <= q < n implies (#[trigger] reached@[q]) is Some by {
            assert(reached@[q] == Some(slot@[q]));
        }
        assert(order.len() == n);
        assert forall|p: int| 0 < p < n implies inc@[(#[trigger] order@[p]) as int] is Some by {
            assert(reached@[order@[p] as int] == Some(p as usize));
            assert(reached@[root as int] == Some(0usize));
        }
        assert forall|p: int| 0 <= p < n implies (#[trigger] order@[p]) < n && slot@[order@[p] as int]
            == p by {
            assert(reached@[order@[p] as int] == Some(p as usize));
            assert(reached@[order@[p] as int] == Some(slot@[order@[p] as int]));
        }
        assert forall|q: int| 0 <= q < n implies (#[trigger] slot@[q]) < n && order@[slot@[q] as int]
            == q by {
            assert(reached@[q] == Some(slot@[q]));
        }
        assert forall|j: int| 0 <= j < ps.len() implies followed(ps@, reached@, j, n as int, 0)
            && reached@[ps@[j] as int] == Some(slot@[ps@[j] as int]) && reached@[cs@[j] as int] == Some(
            slot@[cs@[j] as int],
        ) by {
            assert(ps@[j] < n);
            assert(cs@[j] < n);
        }
        assert forall|j: int| 0 <= j < ps.len() implies slot@[(#[trigger] ps@[j]) as int]
            < slot@[cs@[j] as int] by {
            assert(followed(ps@, reached@, j, n as int, 0));
        }
        assert forall|j: int, k: int|
            0 <= j < ps.len() && 0 <= k < ps.len() && (slot@[(#[trigger] ps@[j]) as int]
                < slot@[(#[trigger] ps@[k]) as int] || (ps@[j] == ps@[k] && j < k)) implies slot@[cs@[j] as int]
            < slot@[cs@[k] as int] by {
            assert(followed(ps@, reached@, j, n as int, 0));
            assert(followed(ps@, reached@, k, n as int, 0));
            assert(goes_first(ps@, reached@, j, k));
        }
    }
    let (state_index, movable) = number_joints(&joints, &cs, &inc, &order, &slot);
    let tree = KinematicTree {
        links,
        joints,
        parent_link: ps,
        child_link: cs,
        incoming: inc,
        root,
        order,
        slot,
        state_index,
        movable,
    };
    Ok(tree)
}

/// A description with a fault is no tree, so `build` returns a tree on the
/// descriptions that are single rooted trees and on no others.
pub proof fn lemma_fault_is_no_tree(
    ln: Seq<Seq<u8>>,
    jn: Seq<Seq<u8>>,
    pn: Seq<Seq<u8>>,
    cn: Seq<Seq<u8>>,
    e: BuildError,
)
    requires
        is_fault(ln, jn, pn, cn, e),
    ensures
        !is_tree(ln, jn, pn, cn),
{
    match e {
        BuildError::MultipleParents(l) => {
            let j = choose|j: int| #[trigger] first_repeat(cn, j) && cn[j] == ln[l as int];
            assert(repeats(cn, j));
        },
        BuildError::MultipleRoots(l) => {
            let k = choose|k: int|
                0 <= k < l && #[trigger] is_root(ln, cn, k) && forall|q: int|
                    0 <= q < l && q != k ==> !is_root(ln, cn, q);
            if exists|r: int| sole_root(ln, cn, r) {
                let r = choose|r: int| sole_root(ln, cn, r);
                assert(r == k);
            }
        },
        _ => {},
    }
}

/// In a tree there is exactly one root, every other link is the child of
/// exactly one joint, and the visiting order places every link after its
/// parent.
pub proof fn lemma_tree_shape(t: &KinematicTree)
    requires
        t.wf(),
    ensures
        sole_root(link_names(t.links@), child_names(t.joints@), t.root as int),
        forall|l: int|
            0 <= l < t.links.len() && l != t.root ==> (#[trigger] t.incoming@[l]) is Some
                && child_names(t.joints@)[t.incoming@[l].unwrap() as int] == link_names(t.links@)[l],
        forall|l: int, j: int|
            0 <= l < t.links.len() && 0 <= j < t.joints.len() && #[trigger] child_names(
                t.joints@,
            )[j] == #[trigger] link_names(t.links@)[l] ==> t.incoming@[l] == Some(j as usize),
        forall|j: int|
            0 <= j < t.joints.len() ==> t.slot@[(#[trigger] t.parent_link@[j]) as int]
                < t.slot@[t.child_link@[j] as int],
        forall|l: int|
            0 <= l < t.links.len() && l != t.root ==> t.slot@[t.parent_link@[(
            #[trigger] t.incoming@[l]).unwrap() as int] as int] < t.slot@[l],
{
    let ln = link_names(t.links@);
    let cn = child_names(t.joints@);
    let cs = t.child_link@;
    assert forall|l: int| 0 <= l < ln.len() implies (is_root(ln, cn, l) <==> t.incoming@[l] is None) by {
        lemma_root_by_name(ln, cn, cs, t.incoming@, l);
    }
    assert forall|l: int|
        0 <= l < t.links.len() && l != t.root implies (#[trigger] t.incoming@[l]) is Some && cn[t.incoming@[l].unwrap() as int]
        == ln[l] by {
        assert(cs[t.incoming@[l].unwrap() as int] == l);
    }
    assert forall|l: int, j: int|
        0 <= l < t.links.len() && 0 <= j < t.joints.len() && #[trigger] cn[j] == #[trigger] ln[l] implies t.incoming@[l]
        == Some(j as usize) by {
        assert(cs[j] < ln.len());
        lemma_distinct_same_place(ln, cs[j] as int, l);
    }
    assert forall|l: int| 0 <= l < t.links.len() && l != t.root implies t.slot@[t.parent_link@[(
    #[trigger] t.incoming@[l]).unwrap() as int] as int] < t.slot@[l] by {
        let j = t.incoming@[l].unwrap() as int;
        assert(cs[j] == l);
        assert(t.slot@[t.parent_link@[j] as int] < t.slot@[cs[j] as int]);
    }
}

/// Whether two trees resolve their joints to the same links and have the
/// same root.
pub open spec fn same_layout(a: &KinematicTree, b: &KinematicTree) -> bool {
    &&& a.links.len() == b.links.len()
    &&& a.parent_link@ == b.parent_link@
    &&& a.child_link@ == b.child_link@
    &&& a.incoming@ == b.incoming@
    &&& a.root == b.root
}

/// Two trees of the same records resolve their joints alike.
pub proof fn lemma_layout_is_determined(a: &KinematicTree, b: &KinematicTree)
    requires
        a.wf(),
        b.wf(),
        a.links@ == b.links@,
        a.joints@ == b.joints@,
    ensures
        same_layout(a, b),
{
    let ln = link_names(a.links@);
    assert forall|j: int| 0 <= j < a.parent_link@.len() implies a.parent_link@[j] == b.parent_link@[j] by {
        lemma_distinct_same_place(ln, a.parent_link@[j] as int, b.parent_link@[j] as int);
    }
    assert(a.parent_link@ =~= b.parent_link@);
    assert forall|j: int| 0 <= j < a.child_link@.len() implies a.child_link@[j] == b.child_link@[j] by {
        lemma_distinct_same_place(ln, a.child_link@[j] as int, b.child_link@[j] as int);
    }
    assert(a.child_link@ =~= b.child_link@);
    assert forall|l: int| 0 <= l < a.incoming@.len() implies a.incoming@[l] == b.incoming@[l] by {
        if a.incoming@[l] is Some {
            let j = a.incoming@[l].unwrap() as int;
            assert(a.child_link@[j] == l);
            assert(b.incoming@[b.child_link@[j] as int] == Some(j as usize));
        } else if b.incoming@[l] is Some {
            let j = b.incoming@[l].unwrap() as int;
            assert(b.child_link@[j] == l);
            assert(a.incoming@[a.child_link@[j] as int] == Some(j as usize));
        }
    }
    assert(a.incoming@ =~= b.incoming@);
    assert(b.incoming@[a.root as int] is None);
}

/// Two visiting orders of one layout agree up to place `p`.
pub proof fn lemma_orders_agree(a: &KinematicTree, b: &KinematicTree, p: int)
    requires
        a.wf(),
        b.wf(),
        same_layout(a, b),
        0 <= p < a.links.len(),
    ensures
        forall|q: int| 0 <= q <= p ==> a.order@[q] == b.order@[q],
    decreases p,
{
    if p > 0 {
        lemma_orders_agree(a, b, p - 1);
        let ps = a.parent_link@;
        let cs = a.child_link@;
        let c1 = a.order@[p] as int;
        let c2 = b.order@[p] as int;
        assert(a.slot@[c1] == p && b.slot@[c2] == p);
        assert(a.slot@[a.root as int] == 0 && b.slot@[b.root as int] == 0);
        let j1 = a.incoming@[c1].unwrap() as int;
        let j2 = a.incoming@[c2].unwrap() as int;
        assert(cs[j1] == c1 && cs[j2] == c2);
        let q1 = a.slot@[ps[j1] as int] as int;
        let r2 = b.slot@[ps[j2] as int] as int;
        assert(q1 < a.slot@[cs[j1] as int]);
        assert(r2 < b.slot@[cs[j2] as int]);
        assert(a.order@[q1] == ps[j1] && b.order@[q1] == ps[j1]);
        assert(b.slot@[b.order@[q1] as int] == q1);
        assert(b.order@[r2] == ps[j2] && a.order@[r2] == ps[j2]);
        assert(a.slot@[a.order@[r2] as int] == r2);
        if c1 != c2 {
            if q1 < r2 || (ps[j1] == ps[j2] && j1 < j2) {
                assert(b.slot@[ps[j1] as int] < b.slot@[ps[j2] as int] || (ps[j1] == ps[j2] && j1
                    < j2));
                let back = b.slot@[cs[j1] as int] as int;
                assert(back < b.slot@[cs[j2] as int]);
                assert(b.order@[back] == c1);
                assert(a.order@[back] == c1);
                assert(a.slot@[a.order@[back] as int] == back);
            } else {
                assert(q1 == r2 ==> ps[j1] == ps[j2]);
                assert(a.slot@[ps[j2] as int] < a.slot@[ps[j1] as int] || (ps[j2] == ps[j1] && j2
                    < j1));
                let back = a.slot@[cs[j2] as int] as int;
                assert(back < a.slot@[cs[j1] as int]);
                assert(a.order@[back] == c2);
                assert(b.order@[back] == c2);
                assert(b.slot@[b.order@[back] as int] == back);
            }
        }
    }
}

/// A tree is determined by its records: two trees of the same records visit
/// the links in the same order.
pub proof fn lemma_order_is_determined(a: &KinematicTree, b: &KinematicTree)
    requires
        a.wf(),
        b.wf(),
        a.links@ == b.links@,
        a.joints@ == b.joints@,
    ensures
        same_layout(a, b),
        a.order@ == b.order@,
        a.slot@ == b.slot@,
{
    lemma_layout_is_determined(a, b);
    let n = a.links.len() as int;
    lemma_orders_agree(a, b, n - 1);
    assert(a.order@ =~= b.order@);
    assert forall|l: int| 0 <= l < n implies a.slot@[l] == b.slot@[l] by {
        let p = a.slot@[l] as int;
        assert(a.order@[p] == l);
        assert(b.slot@[b.order@[p] as int] == p);
    }
    assert(a.slot@ =~= b.slot@);
}

/// Two numberings of the movable joints of one tree agree up to number
/// `k`.
pub proof fn lemma_numberings_agree(
    joints: Seq<RawJoint>,
    cs: Seq<usize>,
    slot: Seq<usize>,
    first: Seq<Option<usize>>,
    listed_first: Seq<usize>,
    second: Seq<Option<usize>>,
    listed_second: Seq<usize>,
    k: int,
)
    requires
        numbered(joints, cs, slot, first, listed_first),
        numbered(joints, cs, slot, second, listed_second),
        0 <= k < listed_first.len(),
        k < listed_second.len(),
    ensures
        forall|q: int| 0 <= q <= k ==> listed_first[q] == listed_second[q],
    decreases k,
{
    if k > 0 {
        lemma_numberings_agree(joints, cs, slot, first, listed_first, second, listed_second, k - 1);
    }
    let m1 = listed_first[k] as int;
    let m2 = listed_second[k] as int;
    if m1 != m2 {
        assert(first[m1] == Some(k as usize) && second[m2] == Some(k as usize));
        assert(first[m2] is Some && second[m1] is Some);
        let k1 = second[m1].unwrap() as int;
        let k2 = first[m2].unwrap() as int;
        assert(listed_second[k1] == m1 && listed_first[k2] == m2);
        if k1 < k {
            assert(listed_first[k1] == m1);
            assert(first[listed_first[k1] as int] == Some(k1 as usize));
        }
        if k2 < k {
            assert(listed_second[k2] == m2);
            assert(second[listed_second[k2] as int] == Some(k2 as usize));
        }
        assert(k < k1 && k < k2);
        assert(slot[cs[listed_second[k] as int] as int] < slot[cs[listed_second[k1] as int] as int]);
        assert(slot[cs[listed_first[k] as int] as int] < slot[cs[listed_first[k2] as int] as int]);
    }
}

/// The numbering of the movable joints is determined by the tree.
pub proof fn lemma_numbering_is_determined(
    joints: Seq<RawJoint>,
    cs: Seq<usize>,
    slot: Seq<usize>,
    first: Seq<Option<usize>>,
    listed_first: Seq<usize>,
    second: Seq<Option<usize>>,
    listed_second: Seq<usize>,
)
    requires
        numbered(joints, cs, slot, first, listed_first),
        numbered(joints, cs, slot, second, listed_second),
    ensures
        first == second,
        listed_first == listed_second,
{
    let n1 = listed_first.len() as int;
    let n2 = listed_second.len() as int;
    let least = if n1 <= n2 {
        n1
    } else {
        n2
    };
    if least > 0 {
        lemma_numberings_agree(joints, cs, slot, first, listed_first, second, listed_second, least - 1);
    }
    if n1 < n2 {
        let extra = listed_second[n1] as int;
        assert(second[extra] == Some(n1 as usize));
        assert(first[extra] is Some);
        let back = first[extra].unwrap() as int;
        assert(listed_first[back] == extra);
        assert(listed_second[back] == extra);
        assert(second[listed_second[back] as int] == Some(back as usize));
        assert(false);
    }
    if n2 < n1 {
        let extra = listed_first[n2] as int;
        assert(first[extra] == Some(n2 as usize));
        assert(second[extra] is Some);
        let back = second[extra].unwrap() as int;
        assert(listed_second[back] == extra);
        assert(listed_first[back] == extra);
        assert(first[listed_first[back] as int] == Some(back as usize));
        assert(false);
    }
    assert(listed_first =~= listed_second);
    assert forall|j: int| 0 <= j < first.len() implies first[j] == second[j] by {
        if first[j] is Some {
            let k = first[j].unwrap() as int;
            assert(listed_first[k] == j);
            assert(second[listed_second[k] as int] == Some(k as usize));
        } else {
            assert(second[j] is None);
        }
    }
    assert(first =~= second);
}

/// `build` has one possible result: two trees of the same records agree in
/// how joints are resolved, in the order of the visit and in the numbers of
/// the movable joints.
pub proof fn lemma_tree_is_determined(a: &KinematicTree, b: &KinematicTree)
    requires
        a.wf(),
        b.wf(),
        a.links@ == b.links@,
        a.joints@ == b.joints@,
    ensures
        same_layout(a, b),
        a.order@ == b.order@,
        a.slot@ == b.slot@,
        a.state_index@ == b.state_index@,
        a.movable@ == b.movable@,
{
    lemma_order_is_determined(a, b);
    lemma_numbering_is_determined(
        a.joints@,
        a.child_link@,
        a.slot@,
        a.state_index@,
        a.movable@,
        b.state_index@,
        b.movable@,
    );
}

} // verus!
