//! Rooms, their exits and the small enumerations that describe them.

use fnv::FnvHashMap;
use std::rc::Rc;
use vstd::prelude::*;

verus! {

/// Numeric identifier of a room, unique within a room set.
pub type Vnum = u32;

/// `fnv::FnvHasher`, the hasher behind every hash map of this crate.
/// Nothing is claimed of a value of it; the type only has to be nameable
/// in the type of a map.
#[verifier::external_type_specification]
#[verifier::external_body]
pub struct ExFnvHasher(fnv::FnvHasher);

/// `std::hash::BuildHasherDefault`, the builder that makes a hasher by
/// `Default`. Nothing is claimed of a value of it either.
#[verifier::external_type_specification]
#[verifier::external_body]
#[verifier::reject_recursive_types(H)]
pub struct ExBuildHasherDefault<H>(std::hash::BuildHasherDefault<H>);

/// One of the six ways out of a room.
#[derive(Debug, Copy, Clone, PartialEq, Eq, Hash, Structural)]
pub enum Direction {
    North,
    East,
    South,
    West,
    Up,
    Down,
}

impl Direction {
    /// The direction that leads back: north and south, east and west, up
    /// and down swap.
    pub open spec fn spec_opposite(&self) -> Direction {
        match *self {
            Direction::North => Direction::South,
            Direction::East => Direction::West,
            Direction::South => Direction::North,
            Direction::West => Direction::East,
            Direction::Up => Direction::Down,
            Direction::Down => Direction::Up,
        }
    }

    /// Whether the direction is up or down, that is, leaves the plane.
    pub open spec fn spec_is_vertical(&self) -> bool {
        *self == Direction::Up || *self == Direction::Down
    }

    /// The direction that leads back.
    #[verifier::when_used_as_spec(spec_opposite)]
    pub fn opposite(&self) -> (r: Direction)
        ensures
            r == self.spec_opposite(),
    {
        match self {
            Direction::North => Direction::South,
            Direction::East => Direction::West,
            Direction::South => Direction::North,
            Direction::West => Direction::East,
            Direction::Up => Direction::Down,
            Direction::Down => Direction::Up,
        }
    }

    /// Whether the direction is up or down.
    #[verifier::when_used_as_spec(spec_is_vertical)]
    pub fn is_vertical(&self) -> (r: bool)
        ensures
            r == self.spec_is_vertical(),
    {
        match self {
            Direction::Up => true,
            Direction::Down => true,
            _ => false,
        }
    }
}

/// Whether an exit carries a door.
#[derive(Debug, Copy, Clone, PartialEq, Eq, Structural)]
pub enum Door {
    Absent,
    Closed,
}

impl Door {
    /// Merge of two door flags: closed as soon as one of them is.
    pub open spec fn spec_or(self, other: Door) -> Door {
        if self == Door::Absent && other == Door::Absent {
            Door::Absent
        } else {
            Door::Closed
        }
    }

    /// Merges two door flags.
    pub fn or(&self, other: &Door) -> (r: Door)
        ensures
            r == self.spec_or(*other),
            r == Door::Closed <==> (*self == Door::Closed || *other == Door::Closed),
    {
        match (self, other) {
            (Door::Absent, Door::Absent) => Door::Absent,
            _ => Door::Closed,
        }
    }
}

/// Terrain of a room. Only used for display.
#[derive(Debug, Copy, Clone, PartialEq, Eq, Hash, Structural)]
pub enum Sector {
    Inside,
    City,
    Field,
    Forest,
    Hills,
    Mountain,
    WaterSwim,
    WaterNoswim,
    House,
    Air,
    Desert,
    Underwater,
    OnBottom,
    RogueGuild,
}

/// The sector that a one-digit code names.
pub open spec fn sector_of_digit(c: char) -> Sector {
    if c == '1' {
        Sector::City
    } else if c == '2' {
        Sector::Field
    } else if c == '3' {
        Sector::Forest
    } else if c == '4' {
        Sector::Hills
    } else if c == '5' {
        Sector::Mountain
    } else if c == '6' {
        Sector::WaterSwim
    } else if c == '7' {
        Sector::WaterNoswim
    } else if c == '8' {
        Sector::House
    } else if c == '9' {
        Sector::Air
    } else {
        Sector::Inside
    }
}

/// The sector that a two-digit code names, given its second digit; the
/// first is `1`.
pub open spec fn sector_of_teen(c: char) -> Sector {
    if c == '0' {
        Sector::Desert
    } else if c == '1' {
        Sector::Underwater
    } else if c == '2' {
        Sector::OnBottom
    } else if c == '3' {
        Sector::RogueGuild
    } else {
        Sector::Inside
    }
}

/// The sector that a code names: the codes are the numbers `0` to `13`
/// written in decimal, in the order of the variants; any other text
/// names `Inside`.
pub open spec fn sector_of(code: Seq<char>) -> Sector {
    if code.len() == 1 {
        sector_of_digit(code[0])
    } else if code.len() == 2 && code[0] == '1' {
        sector_of_teen(code[1])
    } else {
        Sector::Inside
    }
}

impl Sector {
    /// Reads a sector from its code.
    pub fn from_str(s: &str) -> (r: Sector)
        ensures
            r == sector_of(s@),
    {
        let n = s.unicode_len();
        if n == 1 {
            let c = s.get_char(0);
            if c == '1' {
                Sector::City
            } else if c == '2' {
                Sector::Field
            } else if c == '3' {
                Sector::Forest
            } else if c == '4' {
                Sector::Hills
            } else if c == '5' {
                Sector::Mountain
            } else if c == '6' {
                Sector::WaterSwim
            } else if c == '7' {
                Sector::WaterNoswim
            } else if c == '8' {
                Sector::House
            } else if c == '9' {
                Sector::Air
            } else {
                Sector::Inside
            }
        } else if n == 2 && s.get_char(0) == '1' {
            let c = s.get_char(1);
            if c == '0' {
                Sector::Desert
            } else if c == '1' {
                Sector::Underwater
            } else if c == '2' {
                Sector::OnBottom
            } else if c == '3' {
                Sector::RogueGuild
            } else {
                Sector::Inside
            }
        } else {
            Sector::Inside
        }
    }
}

/// A node of the map: an identifier, display data and up to six exits,
/// at most one per direction.
#[derive(Debug, Clone, PartialEq, Eq)]
pub struct Room {
    pub name: String,
    pub vnum: Vnum,
    pub string_vnum: String,
    pub exits: FnvHashMap<Direction, (Vnum, Door)>,
    pub sector: Sector,
}

impl Room {
    /// The exit of this room in direction `d`, if it has one: where it
    /// leads and its door.
    pub open spec fn exit_at(&self, d: Direction) -> Option<(Vnum, Door)> {
        if self.exits@.contains_key(d) {
            Some(self.exits@[d])
        } else {
            None
        }
    }

    /// Looks `d` up in the exit map with `HashMap::get`. Trusted: the
    /// lookup finds the entry stored under `d` exactly when the map holds
    /// one, which rests on `Direction` hashing and comparing by variant
    /// and on the FNV hasher being a pure function of the bytes written.
    #[verifier::external_body]
    pub(crate) fn exit(&self, d: Direction) -> (r: Option<(Vnum, Door)>)
        ensures
            r == self.exit_at(d),
    {
        self.exits.get(&d).copied()
    }
}

/// The six directions in the order in which the exits of a room are
/// walked.
pub open spec fn direction_order() -> Seq<Direction> {
    seq![
        Direction::North,
        Direction::East,
        Direction::South,
        Direction::West,
        Direction::Up,
        Direction::Down,
    ]
}

/// The direction at place `k` of the walking order.
pub fn direction_at(k: usize) -> (d: Direction)
    requires
        k < 6,
    ensures
        d == direction_order()[k as int],
{
    if k == 0 {
        Direction::North
    } else if k == 1 {
        Direction::East
    } else if k == 2 {
        Direction::South
    } else if k == 3 {
        Direction::West
    } else if k == 4 {
        Direction::Up
    } else {
        Direction::Down
    }
}

/// Another handle to the same room, made by `Rc::clone`. Trusted: the
/// clone of a reference-counted pointer points to the very value that
/// the pointer it was made from points to.
#[verifier::external_body]
pub(crate) fn share(room: &Rc<Room>) -> (r: Rc<Room>)
    ensures
        r == *room,
{
    Rc::clone(room)
}

/// Index of the first room of `rooms` whose identifier is `v`.
pub open spec fn room_index(rooms: Seq<Rc<Room>>, v: Vnum) -> Option<int>
    decreases rooms.len(),
{
    if rooms.len() == 0 {
        None
    } else {
        match room_index(rooms.drop_last(), v) {
            Some(i) => Some(i),
            None => if rooms.last().vnum == v {
                Some(rooms.len() - 1)
            } else {
                None
            },
        }
    }
}

/// Whether no two rooms of `rooms` share an identifier.
pub open spec fn distinct_vnums(rooms: Seq<Rc<Room>>) -> bool {
    forall|i: int, j: int|
        0 <= i < j < rooms.len() ==> (#[trigger] rooms[i]).vnum != (#[trigger] rooms[j]).vnum
}

/// `room_index` finds the first room with the identifier, and finds one
/// whenever there is one.
pub proof fn lemma_room_index(rooms: Seq<Rc<Room>>, v: Vnum)
    ensures
        match room_index(rooms, v) {
            Some(i) => 0 <= i < rooms.len() && rooms[i].vnum == v && forall|j: int|
                0 <= j < i ==> (#[trigger] rooms[j]).vnum != v,
            None => forall|j: int| 0 <= j < rooms.len() ==> (#[trigger] rooms[j]).vnum != v,
        },
    decreases rooms.len(),
{
    if rooms.len() > 0 {
        let front = rooms.drop_last();
        lemma_room_index(front, v);
        assert forall|j: int| 0 <= j < front.len() implies front[j] == rooms[j] by {}
        match room_index(front, v) {
            Some(i) => {
                assert(front[i] == rooms[i]);
                assert forall|j: int| 0 <= j < i implies (#[trigger] rooms[j]).vnum != v by {
                    assert(front[j] == rooms[j]);
                }
            },
            None => {
                assert forall|j: int| 0 <= j < rooms.len() - 1 implies (#[trigger] rooms[j]).vnum
                    != v by {
                    assert(front[j] == rooms[j]);
                }
            },
        }
    }
}

/// Among rooms with distinct identifiers each room is found at its own
/// place.
pub proof fn lemma_room_index_distinct(rooms: Seq<Rc<Room>>, i: int)
    requires
        distinct_vnums(rooms),
        0 <= i < rooms.len(),
    ensures
        room_index(rooms, rooms[i].vnum) == Some(i),
{
    lemma_room_index(rooms, rooms[i].vnum);
}

/// Whether no two rooms of `rooms` share an identifier.
pub fn has_distinct_vnums(rooms: &[Rc<Room>]) -> (r: bool)
    ensures
        r == distinct_vnums(rooms@),
{
    let mut i: usize = 0;
    while i < rooms.len()
        invariant
            i <= rooms.len(),
            forall|a: int, b: int|
                0 <= a < b < rooms.len() && b < i ==> (#[trigger] rooms[a]).vnum != (
                #[trigger] rooms[b]).vnum,
        decreases rooms.len() - i,
    {
        proof {
            lemma_room_index(rooms@, rooms[i as int].vnum);
        }
        match find_room(rooms, rooms[i].vnum) {
            Some(first) => if first != i {
                assert(rooms[first as int].vnum == rooms[i as int].vnum);
                return false;
            },
            None => {},
        }
        i = i + 1;
    }
    true
}

/// Finds the first room with identifier `v`.
pub fn find_room(rooms: &[Rc<Room>], v: Vnum) -> (r: Option<usize>)
    ensures
        match r {
            Some(i) => room_index(rooms@, v) == Some(i as int),
            None => room_index(rooms@, v) is None,
        },
{
    let mut i: usize = 0;
    while i < rooms.len()
        invariant
            i <= rooms.len(),
            room_index(rooms@.take(i as int), v) is None,
        decreases rooms.len() - i,
    {
        proof {
            assert(rooms@.take(i + 1).drop_last() == rooms@.take(i as int));
        }
        if rooms[i].vnum == v {
            proof {
                lemma_room_index_prefix(rooms@, i + 1, v);
            }
            return Some(i);
        }
        i = i + 1;
    }
    assert(rooms@.take(i as int) == rooms@);
    None
}

/// A room found in a prefix is found at the same place in the whole list.
proof fn lemma_room_index_prefix(rooms: Seq<Rc<Room>>, n: int, v: Vnum)
    requires
        0 <= n <= rooms.len(),
        room_index(rooms.take(n), v) is Some,
    ensures
        room_index(rooms, v) == room_index(rooms.take(n), v),
    decreases rooms.len() - n,
{
    if n < rooms.len() {
        assert(rooms.take(n + 1).drop_last() == rooms.take(n));
        lemma_room_index_prefix(rooms, n + 1, v);
    } else {
        assert(rooms.take(n) == rooms);
    }
}

} // verus!
