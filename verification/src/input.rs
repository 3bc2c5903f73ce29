//! Which directions of travel have been asked for since the last update.

use vstd::prelude::*;

verus! {

/// A key as far as camera travel is concerned.
#[derive(Clone, Copy, Debug, PartialEq, Eq, Structural)]
pub enum Key {
    Forward,
    Left,
    Backward,
    Right,
    Up,
    Down,
    Other,
}

/// A direction of camera travel.
#[derive(Clone, Copy, Debug, PartialEq, Eq, Structural)]
pub enum Direction {
    Forward,
    Left,
    Backward,
    Right,
    Up,
    Down,
}

/// One flag per direction: set when its key was pressed, cleared by `reset`.
#[derive(Clone, Copy, Debug, PartialEq, Eq, Structural)]
pub struct InputState {
    pub left: bool,
    pub right: bool,
    pub forward: bool,
    pub backward: bool,
    pub up: bool,
    pub down: bool,
}

impl InputState {
    /// The state in which nothing is asked for.
    pub open spec fn idle() -> InputState {
        InputState {
            left: false,
            right: false,
            forward: false,
            backward: false,
            up: false,
            down: false,
        }
    }

    /// The state after `key` was pressed in state `self`.
    pub open spec fn pressed(self, key: Key) -> InputState {
        match key {
            Key::Forward => InputState { forward: true, ..self },
            Key::Left => InputState { left: true, ..self },
            Key::Backward => InputState { backward: true, ..self },
            Key::Right => InputState { right: true, ..self },
            Key::Up => InputState { up: true, ..self },
            Key::Down => InputState { down: true, ..self },
            Key::Other => self,
        }
    }

    /// Whether `direction` is asked for.
    pub open spec fn wants(self, direction: Direction) -> bool {
        match direction {
            Direction::Forward => self.forward,
            Direction::Left => self.left,
            Direction::Backward => self.backward,
            Direction::Right => self.right,
            Direction::Up => self.up,
            Direction::Down => self.down,
        }
    }

    /// `[direction]` when it is asked for, else nothing.
    pub open spec fn one(self, direction: Direction) -> Seq<Direction> {
        if self.wants(direction) {
            seq![direction]
        } else {
            Seq::empty()
        }
    }

    /// The directions asked for, in the order in which the moves are made:
    /// forward, left, backward, right, up, down.
    pub open spec fn moves(self) -> Seq<Direction> {
        self.one(Direction::Forward) + self.one(Direction::Left) + self.one(Direction::Backward)
            + self.one(Direction::Right) + self.one(Direction::Up) + self.one(Direction::Down)
    }

    /// A state with every flag cleared.
    pub fn new() -> (r: InputState)
        ensures
            r == InputState::idle(),
    {
        InputState {
            left: false,
            right: false,
            forward: false,
            backward: false,
            up: false,
            down: false,
        }
    }

    /// Clears every flag.
    pub fn reset(&mut self)
        ensures
            *final(self) == InputState::idle(),
    {
        self.left = false;
        self.right = false;
        self.forward = false;
        self.backward = false;
        self.up = false;
        self.down = false;
    }

    /// Records that `key` was pressed: sets the flag of its direction and
    /// leaves the others as they were.
    pub fn press(&mut self, key: Key)
        ensures
            *final(self) == old(self).pressed(key),
    {
        match key {
            Key::Forward => {
                self.forward = true;
            },
            Key::Left => {
                self.left = true;
            },
            Key::Backward => {
                self.backward = true;
            },
            Key::Right => {
                self.right = true;
            },
            Key::Up => {
                self.up = true;
            },
            Key::Down => {
                self.down = true;
            },
            Key::Other => {},
        }
    }

    /// Hands out the moves to make, in order, and clears every flag.
    pub fn drain(&mut self) -> (r: Vec<Direction>)
        ensures
            r@ == old(self).moves(),
            *final(self) == InputState::idle(),
    {
        let mut out: Vec<Direction> = Vec::new();
        if self.forward {
            out.push(Direction::Forward);
        }
        if self.left {
            out.push(Direction::Left);
        }
        if self.backward {
            out.push(Direction::Backward);
        }
        if self.right {
            out.push(Direction::Right);
        }
        if self.up {
            out.push(Direction::Up);
        }
        if self.down {
            out.push(Direction::Down);
        }
        proof {
            assert(out@ =~= old(self).moves());
        }
        self.reset();
        out
    }
}

/// After an update nothing is left to do: draining twice yields no moves the
/// second time, whatever was pressed before.
pub proof fn lemma_idle_has_no_moves()
    ensures
        InputState::idle().moves() =~= Seq::<Direction>::empty(),
{
}

} // verus!
