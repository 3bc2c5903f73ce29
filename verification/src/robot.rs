//! A robot for the length of a session: its tree, the values of its joints
//! and the placements of its links.
//!
//! Writing joint values does not touch the placements: they are brought up
//! to date by `build`, so that several writes cost one recomputation. Until
//! then the robot is `dirty`.

use vstd::prelude::*;
use crate::description::{describes, is_parse_error, parse, Description};
use crate::kinematics::{placements, recompute, Placement};
use crate::markup::ParseError;
use crate::model::{child_names, joint_names, link_names, parent_names, RawJoint, RawLink};
use crate::names::position;
use crate::state::{stored, JointState, StateError};
use crate::tree::{is_fault, is_tree, BuildError, KinematicTree};

verus! {

/// Why a robot could not be loaded.
#[derive(Clone, Copy, Debug, PartialEq, Eq, Structural)]
pub enum LoadError {
    /// The text is no description.
    Parse(ParseError),
    /// The description is no tree.
    Build(BuildError),
}

/// A robot: a tree, its joint state, and the placements of its links as of
/// the last `build`.
#[derive(Clone, Debug)]
pub struct RobotDescriptor {
    pub tree: KinematicTree,
    pub state: JointState,
    pub placements: Vec<Placement>,
    /// Whether joint values were written since the placements were laid
    /// out.
    pub dirty: bool,
}

impl RobotDescriptor {
    /// The robot's invariant: the state is one of the tree, and unless the
    /// robot is dirty the placements are those of the state.
    pub open spec fn wf(&self) -> bool {
        &&& self.tree.wf()
        &&& self.state.fits(&self.tree)
        &&& !self.dirty ==> self.placements@ == placements(&self.tree, self.state.values@)
    }

    /// Whether every joint is at zero.
    pub open spec fn at_rest(&self) -> bool {
        forall|k: int| 0 <= k < self.state.values.len() ==> #[trigger] self.state.values@[k] == 0
    }

    /// The robot of `tree`, with every joint at zero and its placements
    /// laid out.
    pub fn new(tree: KinematicTree) -> (r: RobotDescriptor)
        requires
            tree.wf(),
        ensures
            r.wf(),
            r.tree == tree,
            !r.dirty,
            r.at_rest(),
    {
        let state = JointState::new(&tree);
        let laid = recompute(&tree, &state);
        RobotDescriptor { tree, state, placements: laid, dirty: false }
    }

    /// The robot of a description given as records, or the description's
    /// fault.
    pub fn from_records(links: Vec<RawLink>, joints: Vec<RawJoint>) -> (r: Result<
        RobotDescriptor,
        BuildError,
    >)
        ensures
            match r {
                Ok(robot) => robot.wf() && !robot.dirty && robot.at_rest() && robot.tree.links
                    == links && robot.tree.joints == joints && is_tree(
                    link_names(links@),
                    joint_names(joints@),
                    parent_names(joints@),
                    child_names(joints@),
                ),
                Err(e) => is_fault(
                    link_names(links@),
                    joint_names(joints@),
                    parent_names(joints@),
                    child_names(joints@),
                    e,
                ),
            },
    {
        match crate::tree::build(links, joints) {
            Ok(tree) => Ok(RobotDescriptor::new(tree)),
            Err(e) => Err(e),
        }
    }

    /// The robot that a text describes: the text is read into records and
    /// the records are built into a tree. A text that is no description
    /// gives its parse fault; a description that is no tree gives its
    /// fault as a tree.
    pub fn from_text(text: Vec<u8>) -> (r: Result<RobotDescriptor, LoadError>)
        ensures
            match r {
                Ok(robot) => robot.wf() && !robot.dirty && robot.at_rest() && describes(
                    text@,
                    (Description { links: robot.tree.links, joints: robot.tree.joints }),
                ) && is_tree(
                    link_names(robot.tree.links@),
                    joint_names(robot.tree.joints@),
                    parent_names(robot.tree.joints@),
                    child_names(robot.tree.joints@),
                ),
                Err(LoadError::Parse(e)) => is_parse_error(text@, e),
                Err(LoadError::Build(e)) => exists|found: Description|
                    #[trigger] describes(text@, found) && is_fault(
                        link_names(found.links@),
                        joint_names(found.joints@),
                        parent_names(found.joints@),
                        child_names(found.joints@),
                        e,
                    ),
            },
    {
        let found = match parse(text) {
            Ok(found) => found,
            Err(e) => {
                return Err(LoadError::Parse(e));
            },
        };
        let ghost kept = found;
        match RobotDescriptor::from_records(found.links, found.joints) {
            Ok(robot) => {
                proof {
                    assert(describes(
                        text@,
                        (Description { links: robot.tree.links, joints: robot.tree.joints }),
                    ));
                }
                Ok(robot)
            },
            Err(e) => {
                proof {
                    assert(describes(text@, kept));
                }
                Err(LoadError::Build(e))
            },
        }
    }

    /// How many joints take a value.
    pub fn joint_count(&self) -> (r: usize)
        requires
            self.wf(),
        ensures
            r == self.tree.joint_count(),
    {
        self.state.len()
    }

    /// Writes a value for every movable joint, in the order of their
    /// numbers. With `clamp_to_limits` each value is first brought into its
    /// joint's limits. When the number of values is not the number of
    /// movable joints the robot is left as it was.
    pub fn set_joint_position(&mut self, values: &[i64], clamp_to_limits: bool) -> (r: Result<
        (),
        StateError,
    >)
        requires
            old(self).wf(),
        ensures
            final(self).wf(),
            final(self).tree == old(self).tree,
            final(self).placements == old(self).placements,
            match r {
                Ok(_) => values@.len() == old(self).tree.joint_count() && final(self).dirty
                    && final(self).state.values@ == stored(
                    values@,
                    old(self).state.limits@,
                    clamp_to_limits,
                ),
                Err(e) => values@.len() != old(self).tree.joint_count() && *final(self) == *old(self)
                    && e == (StateError::ArityMismatch {
                    expected: old(self).state.values.len(),
                    found: values.len(),
                }),
            },
    {
        match self.state.set_all(values, clamp_to_limits) {
            Ok(_) => {
                self.dirty = true;
                Ok(())
            },
            Err(e) => Err(e),
        }
    }

    /// Lays out the placements for the joint values as they are now.
    pub fn build(&mut self)
        requires
            old(self).wf(),
        ensures
            final(self).wf(),
            !final(self).dirty,
            final(self).tree == old(self).tree,
            final(self).state == old(self).state,
            final(self).placements@ == placements(&old(self).tree, old(self).state.values@),
    {
        self.placements = recompute(&self.tree, &self.state);
        self.dirty = false;
    }

    /// The place of the link called `name` among the links, if there is
    /// such a link.
    pub fn find_link(&self, name: &Vec<u8>) -> (r: Option<usize>)
        requires
            self.wf(),
        ensures
            match r {
                Some(l) => l < self.tree.links.len() && self.tree.links@[l as int].name@ == name@,
                None => forall|l: int|
                    0 <= l < self.tree.links.len() ==> (#[trigger] self.tree.links@[l]).name@ != name@,
            },
    {
        let found = position(&self.tree.links, name);
        proof {
            if found is None {
                assert forall|l: int| 0 <= l < self.tree.links.len() implies (
                #[trigger] self.tree.links@[l]).name@ != name@ by {
                    assert(link_names(self.tree.links@)[l] == self.tree.links@[l].name@);
                }
            }
        }
        found
    }

    /// How link `link` is placed, as of the last `build`.
    pub fn placement_of(&self, link: usize) -> (r: Placement)
        requires
            self.wf(),
            !self.dirty,
            link < self.tree.links.len(),
        ensures
            r == placements(&self.tree, self.state.values@)[self.tree.slot@[link as int] as int],
    {
        self.placements[self.tree.slot[link]]
    }
}

/// Building twice without a write in between changes nothing: the
/// placements of a robot that is not dirty are already those that `build`
/// would lay out.
pub proof fn lemma_build_is_idempotent(robot: &RobotDescriptor)
    requires
        robot.wf(),
        !robot.dirty,
    ensures
        robot.placements@ == placements(&robot.tree, robot.state.values@),
{
}

} // verus!
