//! The four seats around the table. Play passes to the left: north, east, south, west.
use vstd::prelude::*;

verus! {

#[derive(Clone, Copy, Debug, PartialEq, Eq, Hash, Structural)]
pub enum Seat {
    North,
    East,
    South,
    West,
}

impl Seat {
    pub const VALUES: [Seat; 4] = [Seat::North, Seat::East, Seat::South, Seat::West];

    pub open spec fn spec_idx(self) -> u8 {
        match self {
            Seat::North => 0,
            Seat::East => 1,
            Seat::South => 2,
            Seat::West => 3,
        }
    }

    pub open spec fn spec_from(n: u8) -> Seat {
        if n == 0 {
            Seat::North
        } else if n == 1 {
            Seat::East
        } else if n == 2 {
            Seat::South
        } else {
            Seat::West
        }
    }

    /// The seat `n` places to the left.
    pub open spec fn turn(self, n: u8) -> Seat {
        Seat::spec_from(((self.spec_idx() + n) % 4) as u8)
    }

    pub proof fn lemma_idx(self)
        ensures
            self.spec_idx() < 4,
            Seat::spec_from(self.spec_idx()) == self,
    {
    }

    pub proof fn lemma_from(n: u8)
        requires
            n < 4,
        ensures
            Seat::spec_from(n).spec_idx() == n,
    {
    }

    pub fn idx(self) -> (r: usize)
        ensures
            r == self.spec_idx(),
            r < 4,
    {
        match self {
            Seat::North => 0,
            Seat::East => 1,
            Seat::South => 2,
            Seat::West => 3,
        }
    }

    pub fn from(n: u8) -> (r: Seat)
        requires
            n < 4,
        ensures
            r == Seat::spec_from(n),
            r.spec_idx() == n,
    {
        match n {
            0 => Seat::North,
            1 => Seat::East,
            2 => Seat::South,
            _ => Seat::West,
        }
    }

    /// The next seat in the order of play.
    pub fn left(self) -> (r: Seat)
        ensures
            r == self.turn(1),
    {
        match self {
            Seat::North => Seat::East,
            Seat::East => Seat::South,
            Seat::South => Seat::West,
            Seat::West => Seat::North,
        }
    }

    pub fn across(self) -> (r: Seat)
        ensures
            r == self.turn(2),
    {
        match self {
            Seat::North => Seat::South,
            Seat::East => Seat::West,
            Seat::South => Seat::North,
            Seat::West => Seat::East,
        }
    }

    /// The previous seat in the order of play.
    pub fn right(self) -> (r: Seat)
        ensures
            r == self.turn(3),
    {
        match self {
            Seat::North => Seat::West,
            Seat::East => Seat::North,
            Seat::South => Seat::East,
            Seat::West => Seat::South,
        }
    }

    /// The next seat in the order of play, as `left`.
    pub fn next(self) -> (r: Seat)
        ensures
            r == self.turn(1),
    {
        self.left()
    }

    /// The name of the seat, in lower case.
    pub fn name(self) -> (s: &'static str)
        ensures
            s@ == match self {
                Seat::North => "north"@,
                Seat::East => "east"@,
                Seat::South => "south"@,
                Seat::West => "west"@,
            },
    {
        match self {
            Seat::North => "north",
            Seat::East => "east",
            Seat::South => "south",
            Seat::West => "west",
        }
    }
}

} // verus!
