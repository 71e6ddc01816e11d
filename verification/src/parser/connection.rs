//! Classification of the exits of a room set into two-way, one-way and
//! external connections.

use crate::model::room::{direction_at, find_room, lemma_room_index, room_index};
use crate::model::{Direction, Door, Room, Vnum};
use std::rc::Rc;
use vstd::prelude::*;

verus! {

/// One end of a connection: a direction out of a room.
#[derive(Debug, Clone, Copy, PartialEq, Eq, Structural)]
pub struct Exit {
    pub direction: Direction,
    pub in_room: Vnum,
}

/// What an exit amounts to once the room it leads to has been looked at.
#[derive(Debug, Clone, Copy, PartialEq, Eq, Structural)]
#[allow(inconsistent_fields)]
pub enum Connection {
    /// The destination has an exit that leads back; both are recorded
    /// here, once.
    TwoWay { from: Exit, to: Exit, door: Door },
    /// The destination exists and has no exit that leads back. `to` holds
    /// the opposite direction, whether or not the destination has such an
    /// exit.
    OneWay { from: Exit, to: Exit, door: Door },
    /// No room of the set has the identifier the exit leads to.
    External { from: Exit, to: Vnum, door: Door },
}

impl Connection {
    /// The exit that the connection was made for.
    pub open spec fn origin(&self) -> Exit {
        match *self {
            Connection::TwoWay { from, .. } => from,
            Connection::OneWay { from, .. } => from,
            Connection::External { from, .. } => from,
        }
    }

    /// Whether the connection accounts for exit `e`: as the exit it was
    /// made for or, where it is two-way, as the exit that leads back.
    pub open spec fn accounts_for(&self, e: Exit) -> bool {
        match *self {
            Connection::TwoWay { from, to, .. } => from == e || to == e,
            Connection::OneWay { from, .. } => from == e,
            Connection::External { from, .. } => from == e,
        }
    }
}

/// Whether `room` has an exit in direction `d` that leads to `to`.
pub open spec fn leads_to(room: Room, d: Direction, to: Vnum) -> bool {
    room.exit_at(d) matches Some((v, _)) && v == to
}

/// The first direction, in walking order, in which `room` has an exit
/// that leads to `to`.
pub open spec fn first_exit_to(room: Room, to: Vnum) -> Option<Direction> {
    if leads_to(room, Direction::North, to) {
        Some(Direction::North)
    } else if leads_to(room, Direction::East, to) {
        Some(Direction::East)
    } else if leads_to(room, Direction::South, to) {
        Some(Direction::South)
    } else if leads_to(room, Direction::West, to) {
        Some(Direction::West)
    } else if leads_to(room, Direction::Up, to) {
        Some(Direction::Up)
    } else if leads_to(room, Direction::Down, to) {
        Some(Direction::Down)
    } else {
        None
    }
}

/// The exit of `room` that answers an exit arriving from `to`: the one in
/// direction `toward` if it leads to `to`, else the first that does.
pub open spec fn way_back(room: Room, to: Vnum, toward: Direction) -> Option<Direction> {
    if leads_to(room, toward, to) {
        Some(toward)
    } else {
        first_exit_to(room, to)
    }
}

/// The connection that the exit `from`, leading to `dest` behind `door`,
/// makes in the room set `rooms`.
pub open spec fn connection_of(rooms: Seq<Rc<Room>>, from: Exit, dest: Vnum, door: Door)
    -> Connection {
    match room_index(rooms, dest) {
        None => Connection::External { from, to: dest, door },
        Some(j) => match way_back(*rooms[j], from.in_room, from.direction.spec_opposite()) {
            Some(back) => Connection::TwoWay {
                from,
                to: Exit { direction: back, in_room: dest },
                door: door.spec_or(rooms[j].exit_at(back).unwrap().1),
            },
            None => Connection::OneWay {
                from,
                to: Exit { direction: from.direction.spec_opposite(), in_room: dest },
                door,
            },
        },
    }
}

/// Whether some connection of `conns` accounts for exit `e`.
pub open spec fn accounted(conns: Seq<Connection>, e: Exit) -> bool {
    exists|k: int| 0 <= k < conns.len() && (#[trigger] conns[k]).accounts_for(e)
}

/// The connections after the exit of `rooms[i]` in direction `d` has been
/// looked at: unchanged where the room has no such exit or the exit is
/// accounted for already, else one longer.
pub open spec fn with_exit(conns: Seq<Connection>, rooms: Seq<Rc<Room>>, i: int, d: Direction)
    -> Seq<Connection> {
    match rooms[i].exit_at(d) {
        None => conns,
        Some((dest, door)) => {
            let e = Exit { direction: d, in_room: rooms[i].vnum };
            if accounted(conns, e) {
                conns
            } else {
                conns.push(connection_of(rooms, e, dest, door))
            }
        },
    }
}

/// The connections after the first `n` of the six exits of `rooms[i]`
/// have been looked at, in walking order.
pub open spec fn with_exits(conns: Seq<Connection>, rooms: Seq<Rc<Room>>, i: int, n: nat)
    -> Seq<Connection>
    decreases n,
{
    if n == 0 || n > 6 {
        conns
    } else {
        with_exit(
            with_exits(conns, rooms, i, (n - 1) as nat),
            rooms,
            i,
            crate::model::room::direction_order()[n - 1],
        )
    }
}

/// The connections of the first `n` rooms of `rooms`.
pub open spec fn connections_upto(rooms: Seq<Rc<Room>>, n: nat) -> Seq<Connection>
    decreases n,
{
    if n == 0 {
        Seq::empty()
    } else {
        with_exits(connections_upto(rooms, (n - 1) as nat), rooms, n - 1, 6)
    }
}

/// The connections of a room set: its rooms are walked in order, the
/// exits of each in walking order, and every exit that no earlier
/// connection accounts for makes one.
pub open spec fn connections_of(rooms: Seq<Rc<Room>>) -> Seq<Connection> {
    connections_upto(rooms, rooms.len())
}

/// The exit of `rooms[i]` in direction `d`, as a connection names it.
pub open spec fn exit_of(rooms: Seq<Rc<Room>>, i: int, d: Direction) -> Exit {
    Exit { direction: d, in_room: rooms[i].vnum }
}

/// Whether `c` is the connection that the exit of `rooms[i]` in direction
/// `d` makes.
pub open spec fn made_from(c: Connection, rooms: Seq<Rc<Room>>, i: int, d: Direction) -> bool {
    0 <= i < rooms.len() && match rooms[i].exit_at(d) {
        Some((dest, door)) => c == connection_of(rooms, exit_of(rooms, i, d), dest, door),
        None => false,
    }
}

/// Whether `c` is the connection of some exit of the room set.
pub open spec fn genuine(c: Connection, rooms: Seq<Rc<Room>>) -> bool {
    exists|i: int, d: Direction| made_from(c, rooms, i, d)
}

/// Whether no connection was made for an exit that an earlier connection
/// accounts for.
pub open spec fn recorded_once(conns: Seq<Connection>) -> bool {
    forall|j: int, k: int|
        0 <= j < k < conns.len() ==> !(#[trigger] conns[j]).accounts_for(
            (#[trigger] conns[k]).origin(),
        )
}

/// Whether every exit among the first `n`, in walking order, of
/// `rooms[i]` is accounted for.
pub open spec fn room_accounted(conns: Seq<Connection>, rooms: Seq<Rc<Room>>, i: int, n: int)
    -> bool {
    forall|k: int|
        0 <= k < n && k < 6 && rooms[i].exit_at(
            #[trigger] crate::model::room::direction_order()[k],
        ) is Some ==> accounted(
            conns,
            exit_of(rooms, i, crate::model::room::direction_order()[k]),
        )
}

/// What holds of the connections while the rooms are walked: each one
/// was made from an exit, none repeats what an earlier one accounts for,
/// and the exits of the first `n` rooms are all accounted for.
pub open spec fn walk_inv(conns: Seq<Connection>, rooms: Seq<Rc<Room>>, n: int) -> bool {
    &&& forall|k: int| 0 <= k < conns.len() ==> genuine(#[trigger] conns[k], rooms)
    &&& recorded_once(conns)
    &&& forall|i: int| 0 <= i < n ==> #[trigger] room_accounted(conns, rooms, i, 6)
}

/// Looking at one more exit keeps what holds during the walk, leaves
/// accounted what was, and accounts for the exit looked at.
pub proof fn lemma_with_exit(conns: Seq<Connection>, rooms: Seq<Rc<Room>>, i: int, k: int)
    requires
        0 <= i < rooms.len(),
        0 <= k < 6,
        walk_inv(conns, rooms, i),
        room_accounted(conns, rooms, i, k),
    ensures
        walk_inv(with_exit(conns, rooms, i, crate::model::room::direction_order()[k]), rooms, i),
        room_accounted(
            with_exit(conns, rooms, i, crate::model::room::direction_order()[k]),
            rooms,
            i,
            k + 1,
        ),
{
    let d = crate::model::room::direction_order()[k];
    let next = with_exit(conns, rooms, i, d);
    lemma_accounted_grows(conns, next);
    match rooms[i].exit_at(d) {
        None => {},
        Some((dest, door)) => {
            let e = exit_of(rooms, i, d);
            if !accounted(conns, e) {
                let c = connection_of(rooms, e, dest, door);
                assert(next == conns.push(c));
                assert(made_from(c, rooms, i, d));
                assert(c.origin() == e);
                assert forall|j: int| 0 <= j < next.len() implies genuine(
                    #[trigger] next[j],
                    rooms,
                ) by {
                    if j < conns.len() {
                        assert(next[j] == conns[j]);
                    }
                }
                assert forall|a: int, b: int| 0 <= a < b < next.len() implies !(
                #[trigger] next[a]).accounts_for((#[trigger] next[b]).origin()) by {
                    assert(next[a] == conns[a]);
                    if b < conns.len() {
                        assert(next[b] == conns[b]);
                    }
                }
                assert(next[conns.len() as int].accounts_for(e));
            }
        },
    }
    assert forall|m: int| 0 <= m < i implies #[trigger] room_accounted(next, rooms, m, 6) by {
        assert(room_accounted(conns, rooms, m, 6));
    }
}

/// Where one list of connections starts with another, it accounts for
/// all that the other accounts for.
pub proof fn lemma_accounted_grows(conns: Seq<Connection>, next: Seq<Connection>)
    requires
        conns.len() <= next.len(),
        forall|k: int| 0 <= k < conns.len() ==> conns[k] == next[k],
    ensures
        forall|e: Exit| accounted(conns, e) ==> accounted(next, e),
{
    assert forall|e: Exit| accounted(conns, e) implies accounted(next, e) by {
        let k = choose|k: int| 0 <= k < conns.len() && (#[trigger] conns[k]).accounts_for(e);
        assert(next[k].accounts_for(e));
    }
}

/// Looking at the first `n` exits of a room keeps what holds during the
/// walk and accounts for those exits.
pub proof fn lemma_with_exits(conns: Seq<Connection>, rooms: Seq<Rc<Room>>, i: int, n: nat)
    requires
        0 <= i < rooms.len(),
        n <= 6,
        walk_inv(conns, rooms, i),
    ensures
        walk_inv(with_exits(conns, rooms, i, n), rooms, i),
        room_accounted(with_exits(conns, rooms, i, n), rooms, i, n as int),
    decreases n,
{
    if n > 0 {
        lemma_with_exits(conns, rooms, i, (n - 1) as nat);
        lemma_with_exit(with_exits(conns, rooms, i, (n - 1) as nat), rooms, i, n - 1);
    }
}

/// What holds during the walk holds after any number of rooms.
pub proof fn lemma_connections_upto(rooms: Seq<Rc<Room>>, n: nat)
    requires
        n <= rooms.len(),
    ensures
        walk_inv(connections_upto(rooms, n), rooms, n as int),
    decreases n,
{
    if n > 0 {
        let before = connections_upto(rooms, (n - 1) as nat);
        lemma_connections_upto(rooms, (n - 1) as nat);
        lemma_with_exits(before, rooms, n - 1, 6);
        let after = with_exits(before, rooms, n - 1, 6);
        assert forall|i: int| 0 <= i < n implies #[trigger] room_accounted(after, rooms, i, 6) by {
            if i < n - 1 {
            }
        }
    }
}

/// Every direction has its place in the walking order.
pub proof fn lemma_direction_order(d: Direction) -> (k: int)
    ensures
        0 <= k < 6,
        crate::model::room::direction_order()[k] == d,
{
    match d {
        Direction::North => 0,
        Direction::East => 1,
        Direction::South => 2,
        Direction::West => 3,
        Direction::Up => 4,
        Direction::Down => 5,
    }
}

/// The door of the exit of `room` in direction `d`, if that exit leads
/// to `to`.
fn door_toward(room: &Room, d: Direction, to: Vnum) -> (r: Option<Door>)
    ensures
        r is Some <==> leads_to(*room, d, to),
        r matches Some(door) ==> room.exit_at(d) == Some((to, door)),
{
    match room.exit(d) {
        Some((v, door)) => if v == to {
            Some(door)
        } else {
            None
        },
        None => None,
    }
}

/// Finds the exit of `room` that answers an exit arriving from `to`.
fn find_way_back(room: &Room, to: Vnum, toward: Direction) -> (r: Option<(Direction, Door)>)
    ensures
        match r {
            Some((d, door)) => way_back(*room, to, toward) == Some(d) && room.exit_at(d) == Some(
                (to, door),
            ),
            None => way_back(*room, to, toward) is None,
        },
{
    if let Some(door) = door_toward(room, toward, to) {
        return Some((toward, door));
    }
    let mut k: usize = 0;
    while k < 6
        invariant
            k <= 6,
            !leads_to(*room, toward, to),
            forall|j: int|
                0 <= j < k ==> !leads_to(
                    *room,
                    #[trigger] crate::model::room::direction_order()[j],
                    to,
                ),
        decreases 6 - k,
    {
        let d = direction_at(k);
        if let Some(door) = door_toward(room, d, to) {
            proof {
                lemma_first_exit_to(*room, to, k as int);
            }
            return Some((d, door));
        }
        k = k + 1;
    }
    proof {
        lemma_first_exit_to(*room, to, 6);
    }
    None
}

/// `first_exit_to` is the first place of the walking order whose exit
/// leads to `to`.
proof fn lemma_first_exit_to(room: Room, to: Vnum, k: int)
    requires
        0 <= k <= 6,
        forall|j: int|
            0 <= j < k ==> !leads_to(room, #[trigger] crate::model::room::direction_order()[j], to),
        k < 6 ==> leads_to(room, crate::model::room::direction_order()[k], to),
    ensures
        k < 6 ==> first_exit_to(room, to) == Some(crate::model::room::direction_order()[k]),
        k == 6 ==> first_exit_to(room, to) is None,
{
    let order = crate::model::room::direction_order();
    assert(order[0] == Direction::North);
    assert(order[1] == Direction::East);
    assert(order[2] == Direction::South);
    assert(order[3] == Direction::West);
    assert(order[4] == Direction::Up);
    assert(order[5] == Direction::Down);
}

/// Makes the connection of one exit.
fn classify(rooms: &[Rc<Room>], from: Exit, dest: Vnum, door: Door) -> (c: Connection)
    ensures
        c == connection_of(rooms@, from, dest, door),
{
    match find_room(rooms, dest) {
        None => Connection::External { from, to: dest, door },
        Some(j) => {
            proof {
                lemma_room_index(rooms@, dest);
            }
            let toward = from.direction.opposite();
            match find_way_back(&rooms[j], from.in_room, toward) {
                Some((back, back_door)) => Connection::TwoWay {
                    from,
                    to: Exit { direction: back, in_room: dest },
                    door: door.or(&back_door),
                },
                None => Connection::OneWay {
                    from,
                    to: Exit { direction: toward, in_room: dest },
                    door,
                },
            }
        },
    }
}

/// Whether some connection of `conns` accounts for `e`.
fn is_accounted(conns: &Vec<Connection>, e: Exit) -> (r: bool)
    ensures
        r == accounted(conns@, e),
{
    let mut k: usize = 0;
    while k < conns.len()
        invariant
            k <= conns.len(),
            forall|j: int| 0 <= j < k ==> !(#[trigger] conns@[j]).accounts_for(e),
        decreases conns.len() - k,
    {
        let hit = match conns[k] {
            Connection::TwoWay { from, to, .. } => from == e || to == e,
            Connection::OneWay { from, .. } => from == e,
            Connection::External { from, .. } => from == e,
        };
        if hit {
            return true;
        }
        k = k + 1;
    }
    false
}

/// Classifies every exit of `rooms`. The rooms are walked in the order
/// given and the exits of each in walking order. An exit that an earlier
/// connection accounts for makes none; any other makes one: external
/// where no room has the identifier it leads to, two-way where the
/// destination has an exit back, one-way otherwise.
pub fn find_connections(rooms: &[Rc<Room>]) -> (conns: Vec<Connection>)
    ensures
        conns@ == connections_of(rooms@),
        forall|i: int, d: Direction|
            0 <= i < rooms.len() && rooms[i].exit_at(d) is Some ==> accounted(
                conns@,
                #[trigger] exit_of(rooms@, i, d),
            ),
        forall|k: int| 0 <= k < conns.len() ==> genuine(#[trigger] conns[k], rooms@),
        recorded_once(conns@),
        forall|k: int, i: int|
            0 <= k < conns.len() && 0 <= i < rooms.len() && (#[trigger] conns[k]) is External ==> (
            #[trigger] rooms[i]).vnum != conns[k]->External_to,
{
    let mut conns: Vec<Connection> = Vec::new();
    let mut i: usize = 0;
    while i < rooms.len()
        invariant
            i <= rooms.len(),
            conns@ == connections_upto(rooms@, i as nat),
        decreases rooms.len() - i,
    {
        let room = &rooms[i];
        let ghost base = conns@;
        let mut k: usize = 0;
        while k < 6
            invariant
                k <= 6,
                i < rooms.len(),
                *room == rooms[i as int],
                conns@ == with_exits(base, rooms@, i as int, k as nat),
            decreases 6 - k,
        {
            let d = direction_at(k);
            if let Some((dest, door)) = room.exit(d) {
                let e = Exit { direction: d, in_room: room.vnum };
                if !is_accounted(&conns, e) {
                    let c = classify(rooms, e, dest, door);
                    conns.push(c);
                }
            }
            k = k + 1;
        }
        i = i + 1;
    }
    proof {
        lemma_connections_upto(rooms@, rooms@.len());
        lemma_connections_sound(rooms@);
    }
    conns
}

/// What the walk guarantees of its result: every exit of every room is
/// accounted for, and an external connection leads to no room of the
/// set.
pub proof fn lemma_connections_sound(rooms: Seq<Rc<Room>>)
    ensures
        forall|i: int, d: Direction|
            0 <= i < rooms.len() && rooms[i].exit_at(d) is Some ==> accounted(
                connections_of(rooms),
                #[trigger] exit_of(rooms, i, d),
            ),
        forall|k: int|
            0 <= k < connections_of(rooms).len() ==> genuine(
                #[trigger] connections_of(rooms)[k],
                rooms,
            ),
        recorded_once(connections_of(rooms)),
        forall|k: int, i: int|
            0 <= k < connections_of(rooms).len() && 0 <= i < rooms.len() && (
            #[trigger] connections_of(rooms)[k]) is External ==> (#[trigger] rooms[i]).vnum
                != connections_of(rooms)[k]->External_to,
{
    let conns = connections_of(rooms);
    lemma_connections_upto(rooms, rooms.len());
    assert forall|i: int, d: Direction|
        0 <= i < rooms.len() && rooms[i].exit_at(d) is Some implies accounted(
        conns,
        #[trigger] exit_of(rooms, i, d),
    ) by {
        let k = lemma_direction_order(d);
        assert(room_accounted(conns, rooms, i, 6));
    }
    assert forall|k: int, i: int|
        0 <= k < conns.len() && 0 <= i < rooms.len() && (#[trigger] conns[k]) is External implies (
    #[trigger] rooms[i]).vnum != conns[k]->External_to by {
        assert(genuine(conns[k], rooms));
        let (m, d) = choose|m: int, d: Direction| made_from(conns[k], rooms, m, d);
        let (dest, door) = rooms[m].exit_at(d).unwrap();
        lemma_room_index(rooms, dest);
    }
}

} // verus!
