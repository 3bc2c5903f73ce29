//! Forward kinematics: how the pose of each link in the world is composed.
//!
//! The pose of the root is the base pose. The pose of any other link is
//!
//! `world(parent) . origin(joint) . motion(joint, value)`
//!
//! in this order, where `joint` is the link's incoming joint. A `Placement`
//! holds the three factors of one link; the placements of a tree are listed
//! in visiting order, so each refers to one that stands before it.

use vstd::prelude::*;
use crate::model::{JointKind, Pose, Triple};
use crate::state::JointState;
use crate::tree::KinematicTree;

verus! {

/// What a joint does to its child at a given value.
#[derive(Clone, Copy, Debug, PartialEq, Eq, Structural)]
pub enum Motion {
    /// Nothing: the neutral element of composition.
    Still,
    /// A turn by `angle` about `axis`.
    Turn { axis: Triple, angle: i64 },
    /// A shift by `distance` along `axis`.
    Slide { axis: Triple, distance: i64 },
}

/// How one link's pose in the world is composed.
#[derive(Clone, Copy, Debug, PartialEq, Eq, Structural)]
pub enum Placement {
    /// The root: the base pose itself.
    Base,
    /// The pose of the link in place `parent` of the visiting order, then
    /// `origin`, then `motion`.
    Joined { parent: usize, joint: usize, origin: Pose, motion: Motion },
}

/// The motion of a joint of kind `kind` at `value`.
pub open spec fn motion_of(kind: JointKind, value: i64) -> Motion {
    match kind {
        JointKind::Fixed => Motion::Still,
        JointKind::Revolute { axis, limits } => Motion::Turn { axis, angle: value },
        JointKind::Continuous { axis } => Motion::Turn { axis, angle: value },
        JointKind::Prismatic { axis, limits } => Motion::Slide { axis, distance: value },
    }
}

/// The value of joint `j` in `values`; zero for a joint without a number.
pub open spec fn value_of(tree: &KinematicTree, values: Seq<i64>, j: int) -> i64 {
    match tree.state_index@[j] {
        Some(k) => values[k as int],
        None => 0,
    }
}

/// The placement of the link in place `p` of the visiting order.
pub open spec fn placement_at(tree: &KinematicTree, values: Seq<i64>, p: int) -> Placement {
    match tree.incoming@[tree.order@[p] as int] {
        None => Placement::Base,
        Some(j) => Placement::Joined {
            parent: tree.slot@[tree.parent_link@[j as int] as int],
            joint: j,
            origin: tree.joints@[j as int].origin,
            motion: motion_of(tree.joints@[j as int].kind, value_of(tree, values, j as int)),
        },
    }
}

/// The placements of all links, in visiting order.
pub open spec fn placements(tree: &KinematicTree, values: Seq<i64>) -> Seq<Placement> {
    Seq::new(tree.order@.len(), |p: int| placement_at(tree, values, p))
}

/// The motion of a joint of kind `kind` at `value`.
pub fn motion(kind: &JointKind, value: i64) -> (r: Motion)
    ensures
        r == motion_of(*kind, value),
{
    match kind {
        JointKind::Fixed => Motion::Still,
        JointKind::Revolute { axis, limits } => Motion::Turn { axis: *axis, angle: value },
        JointKind::Continuous { axis } => Motion::Turn { axis: *axis, angle: value },
        JointKind::Prismatic { axis, limits } => Motion::Slide { axis: *axis, distance: value },
    }
}

/// Lays out the pose of every link of `tree` for the joint values in
/// `state`, in visiting order.
pub fn recompute(tree: &KinematicTree, state: &JointState) -> (r: Vec<Placement>)
    requires
        tree.wf(),
        state.values.len() == tree.movable.len(),
    ensures
        r@ == placements(tree, state.values@),
{
    let n: usize = tree.order.len();
    let mut out: Vec<Placement> = Vec::new();
    let mut p: usize = 0;
    while p < n
        invariant
            tree.wf(),
            state.values.len() == tree.movable.len(),
            n == tree.order.len(),
            p <= n,
            out.len() == p,
            forall|q: int| 0 <= q < p ==> #[trigger] out@[q] == placement_at(tree, state.values@, q),
        decreases n - p,
    {
        let l: usize = tree.order[p];
        let placed = match tree.incoming[l] {
            None => Placement::Base,
            Some(j) => {
                let value: i64 = match tree.state_index[j] {
                    Some(k) => state.values[k],
                    None => 0,
                };
                Placement::Joined {
                    parent: tree.slot[tree.parent_link[j]],
                    joint: j,
                    origin: tree.joints[j].origin,
                    motion: motion(&tree.joints[j].kind, value),
                }
            },
        };
        out.push(placed);
        p += 1;
    }
    proof {
        assert(out@ =~= placements(tree, state.values@));
    }
    out
}

/// The first placement is the base, and every other placement is joined to
/// one that stands before it, by the incoming joint of its link.
pub proof fn lemma_placements_in_order(tree: &KinematicTree, values: Seq<i64>, p: int)
    requires
        tree.wf(),
        0 <= p < tree.order.len(),
    ensures
        p == 0 ==> placement_at(tree, values, p) == Placement::Base,
        p > 0 ==> match placement_at(tree, values, p) {
            Placement::Base => false,
            Placement::Joined { parent, joint, origin, motion } => parent < p && joint
                < tree.joints.len() && tree.child_link@[joint as int] == tree.order@[p]
                && tree.order@[parent as int] == tree.parent_link@[joint as int],
        },
{
    let l = tree.order@[p] as int;
    if p > 0 {
        assert(tree.slot@[l] == p);
        assert(tree.slot@[tree.root as int] == 0);
        let j = tree.incoming@[l].unwrap() as int;
        assert(tree.child_link@[j] == l);
        assert(tree.slot@[tree.parent_link@[j] as int] < tree.slot@[tree.child_link@[j] as int]);
    }
}

/// Recomputing with unchanged joint values gives the same placements.
pub proof fn lemma_recompute_is_repeatable(tree: &KinematicTree, first: Seq<i64>, second: Seq<i64>)
    requires
        first == second,
    ensures
        placements(tree, first) == placements(tree, second),
{
}

/// A fixed joint contributes no motion, whatever the joint values are: its
/// child is placed by the parent's pose and the joint's origin alone.
pub proof fn lemma_fixed_joint_is_neutral(
    tree: &KinematicTree,
    first: Seq<i64>,
    second: Seq<i64>,
    p: int,
)
    requires
        tree.wf(),
        0 < p < tree.order.len(),
        tree.joints@[tree.incoming@[tree.order@[p] as int].unwrap() as int].kind is Fixed,
    ensures
        placement_at(tree, first, p) == placement_at(tree, second, p),
        placement_at(tree, first, p) matches Placement::Joined { motion, .. } && motion
            == Motion::Still,
{
    lemma_placements_in_order(tree, first, p);
}

} // verus!
