//! Table positions and the two teams.

use vstd::prelude::*;

verus! {

/// Table position, represented as cardinal direction.
#[derive(Debug, Clone, Copy, PartialEq, Eq, Structural, Hash)]
pub enum Seat {
    North,
    East,
    South,
    West,
}

/// A team consists of the two seats opposite one another.
#[derive(Debug, Clone, Copy, PartialEq, Eq, Structural, Hash)]
pub enum Team {
    NorthSouth,
    EastWest,
}

impl Seat {
    /// The seat's place in clockwise order, starting from North.
    pub open spec fn spec_index(self) -> int {
        match self {
            Seat::North => 0,
            Seat::East => 1,
            Seat::South => 2,
            Seat::West => 3,
        }
    }

    /// The seat at a place in clockwise order, counted from North.
    pub open spec fn spec_from_index(i: int) -> Seat {
        if i % 4 == 0 {
            Seat::North
        } else if i % 4 == 1 {
            Seat::East
        } else if i % 4 == 2 {
            Seat::South
        } else {
            Seat::West
        }
    }

    /// The seat `k` places further clockwise.
    pub open spec fn spec_advance(self, k: nat) -> Seat {
        Seat::spec_from_index(self.spec_index() + k)
    }

    /// The next seat clockwise.
    pub open spec fn spec_next(self) -> Seat {
        match self {
            Seat::North => Seat::East,
            Seat::East => Seat::South,
            Seat::South => Seat::West,
            Seat::West => Seat::North,
        }
    }

    /// The seat across the table.
    pub open spec fn spec_opposite(self) -> Seat {
        match self {
            Seat::North => Seat::South,
            Seat::East => Seat::West,
            Seat::South => Seat::North,
            Seat::West => Seat::East,
        }
    }

    /// The team that a seat plays for.
    pub open spec fn spec_team(self) -> Team {
        match self {
            Seat::North | Seat::South => Team::NorthSouth,
            Seat::East | Seat::West => Team::EastWest,
        }
    }

    /// The seat that a letter stands for, in either case.
    pub open spec fn spec_from_char(c: char) -> Option<Seat> {
        if c == 'N' || c == 'n' {
            Some(Seat::North)
        } else if c == 'E' || c == 'e' {
            Some(Seat::East)
        } else if c == 'S' || c == 's' {
            Some(Seat::South)
        } else if c == 'W' || c == 'w' {
            Some(Seat::West)
        } else {
            None
        }
    }

    /// The initial that a seat is abbreviated to.
    pub open spec fn spec_to_abbr(self) -> char {
        match self {
            Seat::North => 'N',
            Seat::East => 'E',
            Seat::South => 'S',
            Seat::West => 'W',
        }
    }

    /// All possible table positions, in clockwise order.
    pub fn all_seats() -> (seats: [Seat; 4])
        ensures
            seats@ == seq![Seat::North, Seat::East, Seat::South, Seat::West],
    {
        [Seat::North, Seat::East, Seat::South, Seat::West]
    }

    /// The seat's place in clockwise order, starting from North.
    pub fn index(self) -> (i: usize)
        ensures
            i == self.spec_index(),
            i < 4,
    {
        match self {
            Seat::North => 0,
            Seat::East => 1,
            Seat::South => 2,
            Seat::West => 3,
        }
    }

    /// The seat at a place in clockwise order, counted from North; after
    /// West the count goes on with North.
    pub fn from_index(i: u8) -> (seat: Seat)
        ensures
            seat == Seat::spec_from_index(i as int),
            i < 4 ==> seat.spec_index() == i,
    {
        match i % 4 {
            0 => Seat::North,
            1 => Seat::East,
            2 => Seat::South,
            _ => Seat::West,
        }
    }

    /// The team for this table position.
    #[verifier::when_used_as_spec(spec_team)]
    pub fn team(self) -> (team: Team)
        ensures
            team == self.spec_team(),
    {
        Team::from(self)
    }

    /// Returns an abbreviated name for the table position.
    #[verifier::when_used_as_spec(spec_to_abbr)]
    pub fn to_abbr(self) -> (c: char)
        ensures
            c == self.spec_to_abbr(),
    {
        match self {
            Seat::North => 'N',
            Seat::East => 'E',
            Seat::South => 'S',
            Seat::West => 'W',
        }
    }

    /// Reads a seat from its initial.
    pub fn from_char(c: char) -> (seat: Option<Seat>)
        ensures
            seat == Seat::spec_from_char(c),
    {
        if c == 'N' || c == 'n' {
            Some(Seat::North)
        } else if c == 'E' || c == 'e' {
            Some(Seat::East)
        } else if c == 'S' || c == 's' {
            Some(Seat::South)
        } else if c == 'W' || c == 'w' {
            Some(Seat::West)
        } else {
            None
        }
    }

    /// The full name of the table position.
    pub open spec fn spec_name(self) -> Seq<char> {
        match self {
            Seat::North => "North"@,
            Seat::East => "East"@,
            Seat::South => "South"@,
            Seat::West => "West"@,
        }
    }

    /// The full name of the table position.
    pub fn name(self) -> (s: &'static str)
        ensures
            s@ == self.spec_name(),
    {
        match self {
            Seat::North => "North",
            Seat::East => "East",
            Seat::South => "South",
            Seat::West => "West",
        }
    }

    /// The opposite table position.
    #[verifier::when_used_as_spec(spec_opposite)]
    pub fn opposite(self) -> (seat: Seat)
        ensures
            seat == self.spec_opposite(),
    {
        match self {
            Seat::North => Seat::South,
            Seat::East => Seat::West,
            Seat::South => Seat::North,
            Seat::West => Seat::East,
        }
    }

    /// The next table position, in clockwise order.
    #[verifier::when_used_as_spec(spec_next)]
    pub fn next(self) -> (seat: Seat)
        ensures
            seat == self.spec_next(),
    {
        match self {
            Seat::North => Seat::East,
            Seat::East => Seat::South,
            Seat::South => Seat::West,
            Seat::West => Seat::North,
        }
    }

    /// The next N table positions in clockwise order.
    pub fn next_n(self, n: usize) -> (order: Vec<Seat>)
        ensures
            order@.len() == n,
            forall|i: int| 0 <= i < n ==> order@[i] == self.spec_advance((i + 1) as nat),
    {
        let mut seat = self;
        let mut order: Vec<Seat> = Vec::new();
        let mut k: usize = 0;
        while k < n
            invariant
                k <= n,
                order@.len() == k,
                seat == self.spec_advance(k as nat),
                forall|i: int| 0 <= i < k ==> order@[i] == self.spec_advance((i + 1) as nat),
            decreases n - k,
        {
            seat = seat.next();
            order.push(seat);
            k = k + 1;
        }
        order
    }
}

impl Team {
    /// The team of a seat.
    pub fn from(value: Seat) -> (team: Team)
        ensures
            team == value.spec_team(),
    {
        match value {
            Seat::North | Seat::South => Team::NorthSouth,
            Seat::East | Seat::West => Team::EastWest,
        }
    }

    /// The team on the other side.
    pub open spec fn spec_other(self) -> Team {
        match self {
            Team::NorthSouth => Team::EastWest,
            Team::EastWest => Team::NorthSouth,
        }
    }

    /// Returns an abbreviated name for the team.
    pub fn to_abbr(self) -> (s: &'static str)
        ensures
            s@ == (match self {
                Team::NorthSouth => "N/S"@,
                Team::EastWest => "E/W"@,
            }),
    {
        match self {
            Team::NorthSouth => "N/S",
            Team::EastWest => "E/W",
        }
    }

    /// The full name of the team.
    pub open spec fn spec_name(self) -> Seq<char> {
        match self {
            Team::NorthSouth => "North/South"@,
            Team::EastWest => "East/West"@,
        }
    }

    /// The full name of the team.
    pub fn name(self) -> (s: &'static str)
        ensures
            s@ == self.spec_name(),
    {
        match self {
            Team::NorthSouth => "North/South",
            Team::EastWest => "East/West",
        }
    }

    /// The other team.
    #[verifier::when_used_as_spec(spec_other)]
    pub fn other(self) -> (team: Team)
        ensures
            team == self.spec_other(),
    {
        match self {
            Team::NorthSouth => Team::EastWest,
            Team::EastWest => Team::NorthSouth,
        }
    }
}

/// Going round the table: four steps clockwise lead back to the same seat,
/// two steps lead to the partner, and partners share a team while
/// neighbours do not.
pub proof fn lemma_seat_cycle(seat: Seat)
    ensures
        seat.spec_next().spec_next() == seat.spec_opposite(),
        seat.spec_next().spec_next().spec_next().spec_next() == seat,
        seat.spec_opposite().spec_opposite() == seat,
        seat.spec_opposite().spec_team() == seat.spec_team(),
        seat.spec_next().spec_team() == seat.spec_team().spec_other(),
        seat.spec_advance(0) == seat,
        seat.spec_advance(1) == seat.spec_next(),
        seat.spec_advance(4) == seat,
{
}

} // verus!
