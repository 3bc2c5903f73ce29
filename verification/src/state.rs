//! The joint state: one value per movable joint, at the joint's number.

use vstd::prelude::*;
use crate::model::Limits;
use crate::scalar::{clamp, clamped, ZERO};
use crate::tree::KinematicTree;

verus! {

/// Why a joint state was not updated.
#[derive(Clone, Copy, Debug, PartialEq, Eq, Structural)]
pub enum StateError {
    /// `found` values were given where `expected` joints take one.
    ArityMismatch { expected: usize, found: usize },
}

/// The value that is stored for `value` at a joint with `limits`: clamped
/// into the limits if the joint has limits and clamping is asked for,
/// otherwise the value as given.
pub open spec fn stored_one(value: i64, limits: Option<Limits>, clamp_to_limits: bool) -> i64 {
    match limits {
        Some(range) => if clamp_to_limits {
            clamped(value, range.lower, range.upper)
        } else {
            value
        },
        None => value,
    }
}

/// The values that are stored for `values`, joint by joint.
pub open spec fn stored(values: Seq<i64>, limits: Seq<Option<Limits>>, clamp_to_limits: bool) -> Seq<
    i64,
> {
    Seq::new(values.len(), |k: int| stored_one(values[k], limits[k], clamp_to_limits))
}

/// The values of the movable joints, with each joint's limits beside its
/// value.
#[derive(Clone, Debug)]
pub struct JointState {
    pub values: Vec<i64>,
    pub limits: Vec<Option<Limits>>,
}

impl JointState {
    /// The state's invariant: a limit entry for every value.
    pub open spec fn wf(&self) -> bool {
        self.values.len() == self.limits.len()
    }

    /// Whether the state is one of `tree`: it has a value for each movable
    /// joint of the tree and knows that joint's limits.
    pub open spec fn fits(&self, tree: &KinematicTree) -> bool {
        &&& self.wf()
        &&& self.values.len() == tree.movable.len()
        &&& forall|k: int|
            0 <= k < self.limits.len() ==> #[trigger] self.limits@[k] == tree.joints@[tree.movable@[k] as int].kind.limits_of()
    }

    /// The state of `tree` in which every joint is at zero.
    pub fn new(tree: &KinematicTree) -> (r: JointState)
        requires
            tree.wf(),
        ensures
            r.fits(tree),
            forall|k: int| 0 <= k < r.values.len() ==> #[trigger] r.values@[k] == ZERO,
    {
        let mut values: Vec<i64> = Vec::new();
        let mut limits: Vec<Option<Limits>> = Vec::new();
        let mut k: usize = 0;
        while k < tree.movable.len()
            invariant
                tree.wf(),
                k <= tree.movable.len(),
                values.len() == k,
                limits.len() == k,
                forall|q: int| 0 <= q < k ==> #[trigger] values@[q] == ZERO,
                forall|q: int|
                    0 <= q < k ==> #[trigger] limits@[q] == tree.joints@[tree.movable@[q] as int].kind.limits_of(),
            decreases tree.movable.len() - k,
        {
            let j: usize = tree.movable[k];
            values.push(ZERO);
            limits.push(tree.joints[j].kind.limits());
            k += 1;
        }
        JointState { values, limits }
    }

    /// How many joints the state holds a value for.
    pub fn len(&self) -> (r: usize)
        ensures
            r == self.values.len(),
    {
        self.values.len()
    }

    /// The value of the joint numbered `index`.
    pub fn get(&self, index: usize) -> (r: i64)
        requires
            index < self.values.len(),
        ensures
            r == self.values@[index as int],
    {
        self.values[index]
    }

    /// Stores `value`, as given, for the joint numbered `index`.
    pub fn set(&mut self, index: usize, value: i64)
        requires
            index < old(self).values.len(),
        ensures
            final(self).values@ == old(self).values@.update(index as int, value),
            final(self).limits == old(self).limits,
    {
        self.values.set(index, value);
    }

    /// Stores a value for every joint at once. With `clamp_to_limits` each
    /// value is first brought into its joint's limits, where it has any.
    /// When the number of values is not the number of joints nothing is
    /// stored.
    pub fn set_all(&mut self, values: &[i64], clamp_to_limits: bool) -> (r: Result<(), StateError>)
        requires
            old(self).wf(),
        ensures
            final(self).limits == old(self).limits,
            match r {
                Ok(_) => values@.len() == old(self).values.len() && final(self).values@ == stored(
                    values@,
                    old(self).limits@,
                    clamp_to_limits,
                ),
                Err(e) => values@.len() != old(self).values.len() && *final(self) == *old(self) && e == (
                StateError::ArityMismatch { expected: old(self).values.len(), found: values.len() }),
            },
    {
        if values.len() != self.values.len() {
            return Err(StateError::ArityMismatch { expected: self.values.len(), found: values.len() });
        }
        let mut next: Vec<i64> = Vec::new();
        let mut k: usize = 0;
        while k < values.len()
            invariant
                k <= values.len(),
                values@.len() == self.limits.len(),
                next.len() == k,
                forall|q: int|
                    0 <= q < k ==> #[trigger] next@[q] == stored_one(
                        values@[q],
                        self.limits@[q],
                        clamp_to_limits,
                    ),
            decreases values.len() - k,
        {
            let value: i64 = values[k];
            let kept: i64 = match self.limits[k] {
                Some(range) => if clamp_to_limits {
                    clamp(value, range.lower, range.upper)
                } else {
                    value
                },
                None => value,
            };
            next.push(kept);
            k += 1;
        }
        proof {
            assert(next@ =~= stored(values@, self.limits@, clamp_to_limits));
        }
        self.values = next;
        Ok(())
    }
}

/// Without clamping every value is stored as given.
pub proof fn lemma_stored_verbatim(values: Seq<i64>, limits: Seq<Option<Limits>>)
    ensures
        stored(values, limits, false) =~= values,
{
}

/// A joint without limits keeps the value it is given, clamped or not.
pub proof fn lemma_unlimited_never_clamped(value: i64, clamp_to_limits: bool)
    ensures
        stored_one(value, None, clamp_to_limits) == value,
{
}

/// With clamping, every joint whose limits are in order ends up within
/// them, whatever value it was given.
pub proof fn lemma_stored_within_limits(values: Seq<i64>, limits: Seq<Option<Limits>>, k: int)
    requires
        0 <= k < values.len(),
        limits[k] matches Some(range) && range.lower <= range.upper,
    ensures
        limits[k].unwrap().lower <= stored(values, limits, true)[k] <= limits[k].unwrap().upper,
{
}

} // verus!
