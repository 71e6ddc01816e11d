//! When every exit is accounted for exactly once.

use crate::model::room::{
    direction_order, distinct_vnums, lemma_room_index, lemma_room_index_distinct, room_index,
};
use crate::model::{Direction, Room};
use crate::parser::connection::{
    accounted, connection_of, connections_of, connections_upto, exit_of, first_exit_to, genuine,
    leads_to, lemma_connections_sound, made_from, way_back, with_exit, with_exits, Connection,
    Exit,
};
use std::rc::Rc;
use vstd::prelude::*;

verus! {

/// The place of a direction in the walking order.
pub open spec fn direction_place(d: Direction) -> int {
    match d {
        Direction::North => 0,
        Direction::East => 1,
        Direction::South => 2,
        Direction::West => 3,
        Direction::Up => 4,
        Direction::Down => 5,
    }
}

/// When the walk looks at exit `e`: the exits of a room come after those
/// of the rooms before it, in walking order.
pub open spec fn walk_place(rooms: Seq<Rc<Room>>, e: Exit) -> int {
    match room_index(rooms, e.in_room) {
        Some(i) => 6 * i + direction_place(e.direction),
        None => -1,
    }
}

/// Whether a connection made no later than the walk looks at `e`
/// accounts for `e`.
pub open spec fn accounted_in_time(conns: Seq<Connection>, rooms: Seq<Rc<Room>>, e: Exit) -> bool {
    exists|k: int|
        0 <= k < conns.len() && (#[trigger] conns[k]).accounts_for(e) && walk_place(
            rooms,
            conns[k].origin(),
        ) <= walk_place(rooms, e)
}

/// Whether the connections stand in the order in which the walk looked
/// at the exits they were made for.
pub open spec fn in_walk_order(conns: Seq<Connection>, rooms: Seq<Rc<Room>>) -> bool {
    forall|j: int, k: int|
        0 <= j < k < conns.len() ==> walk_place(rooms, (#[trigger] conns[j]).origin()) < walk_place(
            rooms,
            (#[trigger] conns[k]).origin(),
        )
}

/// What holds of the order of the connections when the walk has looked
/// at the exits before place `pos`: the connections were made for exits
/// before `pos`, stand in walk order, and every exit before `pos` was
/// accounted for by the time the walk looked at it.
pub open spec fn order_inv(conns: Seq<Connection>, rooms: Seq<Rc<Room>>, pos: int) -> bool {
    &&& forall|k: int|
        0 <= k < conns.len() ==> 0 <= walk_place(rooms, (#[trigger] conns[k]).origin()) < pos
    &&& in_walk_order(conns, rooms)
    &&& forall|i: int, d: Direction|
        0 <= i < rooms.len() && rooms[i].exit_at(d) is Some && walk_place(
            rooms,
            exit_of(rooms, i, d),
        ) < pos ==> accounted_in_time(conns, rooms, #[trigger] exit_of(rooms, i, d))
}

/// Among rooms with distinct identifiers the walk looks at the exit of
/// room `i` in direction `d` at place `6 * i` plus the place of `d`.
pub proof fn lemma_walk_place(rooms: Seq<Rc<Room>>, i: int, d: Direction)
    requires
        distinct_vnums(rooms),
        0 <= i < rooms.len(),
    ensures
        walk_place(rooms, exit_of(rooms, i, d)) == 6 * i + direction_place(d),
        0 <= direction_place(d) < 6,
        direction_order()[direction_place(d)] == d,
{
    lemma_room_index_distinct(rooms, i);
}

/// Looking at one more exit keeps what holds of the order.
pub proof fn lemma_with_exit_order(conns: Seq<Connection>, rooms: Seq<Rc<Room>>, i: int, m: int)
    requires
        distinct_vnums(rooms),
        0 <= i < rooms.len(),
        0 <= m < 6,
        order_inv(conns, rooms, 6 * i + m),
    ensures
        order_inv(with_exit(conns, rooms, i, direction_order()[m]), rooms, 6 * i + m + 1),
{
    let d = direction_order()[m];
    let e = exit_of(rooms, i, d);
    let next = with_exit(conns, rooms, i, d);
    let pos = 6 * i + m;
    lemma_walk_place(rooms, i, d);
    assert(walk_place(rooms, e) == pos);
    assert forall|k: int| 0 <= k < conns.len() implies next[k] == conns[k] by {}
    if next.len() > conns.len() {
        assert(next[conns.len() as int].origin() == e);
    }
    assert forall|k: int| 0 <= k < next.len() implies 0 <= walk_place(
        rooms,
        (#[trigger] next[k]).origin(),
    ) < pos + 1 by {
        if k < conns.len() {
            assert(next[k] == conns[k]);
        }
    }
    assert forall|j: int, k: int| 0 <= j < k < next.len() implies walk_place(
        rooms,
        (#[trigger] next[j]).origin(),
    ) < walk_place(rooms, (#[trigger] next[k]).origin()) by {
        assert(next[j] == conns[j]);
        if k < conns.len() {
            assert(next[k] == conns[k]);
        }
    }
    assert forall|r: int, c: Direction|
        0 <= r < rooms.len() && rooms[r].exit_at(c) is Some && walk_place(
            rooms,
            exit_of(rooms, r, c),
        ) < pos + 1 implies accounted_in_time(next, rooms, #[trigger] exit_of(rooms, r, c)) by {
        let x = exit_of(rooms, r, c);
        lemma_walk_place(rooms, r, c);
        if walk_place(rooms, x) < pos {
            assert(accounted_in_time(conns, rooms, x));
            let k = choose|k: int|
                0 <= k < conns.len() && (#[trigger] conns[k]).accounts_for(x) && walk_place(
                    rooms,
                    conns[k].origin(),
                ) <= walk_place(rooms, x);
            assert(next[k].accounts_for(x));
        } else {
            assert(r == i && c == d);
            if accounted(conns, e) {
                let k = choose|k: int| 0 <= k < conns.len() && (#[trigger] conns[k]).accounts_for(e);
                assert(next[k].accounts_for(e));
            } else {
                assert(next[conns.len() as int].accounts_for(e));
            }
        }
    }
}

/// Looking at the first `n` exits of a room keeps what holds of the
/// order.
pub proof fn lemma_with_exits_order(conns: Seq<Connection>, rooms: Seq<Rc<Room>>, i: int, n: nat)
    requires
        distinct_vnums(rooms),
        0 <= i < rooms.len(),
        n <= 6,
        order_inv(conns, rooms, 6 * i),
    ensures
        order_inv(with_exits(conns, rooms, i, n), rooms, 6 * i + n as int),
    decreases n,
{
    if n > 0 {
        lemma_with_exits_order(conns, rooms, i, (n - 1) as nat);
        lemma_with_exit_order(with_exits(conns, rooms, i, (n - 1) as nat), rooms, i, n - 1);
    }
}

/// What holds of the order holds after any number of rooms.
pub proof fn lemma_connections_order(rooms: Seq<Rc<Room>>, n: nat)
    requires
        distinct_vnums(rooms),
        n <= rooms.len(),
    ensures
        order_inv(connections_upto(rooms, n), rooms, 6 * n as int),
    decreases n,
{
    if n > 0 {
        lemma_connections_order(rooms, (n - 1) as nat);
        lemma_with_exits_order(connections_upto(rooms, (n - 1) as nat), rooms, n - 1, 6);
    } else {
        assert forall|i: int, d: Direction| 0 <= i < rooms.len() implies walk_place(
            rooms,
            #[trigger] exit_of(rooms, i, d),
        ) >= 0 by {
            lemma_walk_place(rooms, i, d);
        }
    }
}

/// The exit that answers the exit of `rooms[i]` in direction `d`: the
/// far end of its connection, where that is two-way.
pub open spec fn answer_of(rooms: Seq<Rc<Room>>, i: int, d: Direction) -> Option<Exit> {
    match rooms[i].exit_at(d) {
        Some((dest, door)) => match connection_of(rooms, exit_of(rooms, i, d), dest, door) {
            Connection::TwoWay { to, .. } => Some(to),
            _ => None,
        },
        None => None,
    }
}

/// The room that the exit of `rooms[i]` in direction `d` leads to.
pub open spec fn target_of(rooms: Seq<Rc<Room>>, i: int, d: Direction) -> Option<int> {
    match rooms[i].exit_at(d) {
        Some((dest, _)) => room_index(rooms, dest),
        None => None,
    }
}

/// Whether `t` answers exactly one exit of `rooms[i]`.
pub open spec fn answers_one(rooms: Seq<Rc<Room>>, i: int, t: Exit) -> bool {
    exists|d: Direction|
        #[trigger] answer_of(rooms, i, d) == Some(t) && forall|e: Direction|
            e != d ==> #[trigger] answer_of(rooms, i, e) != Some(t)
}

/// Whether the exit of `rooms[j]` in direction `b` settles: where it is
/// answered and leads back to a room walked before its own, it answers
/// exactly one exit of that room; where it leads to its own room, it has
/// its opposite among the exits of the room that do, unless it is the
/// first of them.
pub open spec fn settles(rooms: Seq<Rc<Room>>, j: int, b: Direction) -> bool {
    answer_of(rooms, j, b) is Some ==> {
        let i = target_of(rooms, j, b).unwrap();
        &&& i < j ==> answers_one(rooms, i, exit_of(rooms, j, b))
        &&& i == j ==> first_exit_to(*rooms[j], rooms[j].vnum) == Some(b) || leads_to(
            *rooms[j],
            b.spec_opposite(),
            rooms[j].vnum,
        )
    }
}

/// Whether the exits answer each other one to one as the walk meets
/// them: every exit of every room settles.
pub open spec fn answers_settle(rooms: Seq<Rc<Room>>) -> bool {
    forall|j: int, b: Direction| 0 <= j < rooms.len() ==> #[trigger] settles(rooms, j, b)
}

/// Whether exactly one connection of `conns` accounts for `e`.
pub open spec fn accounted_once(conns: Seq<Connection>, e: Exit) -> bool {
    exists|k: int|
        0 <= k < conns.len() && (#[trigger] conns[k]).accounts_for(e) && forall|j: int|
            0 <= j < conns.len() && j != k ==> !(#[trigger] conns[j]).accounts_for(e)
}

/// The first exit that leads somewhere comes no later in the walking
/// order than any exit that leads there, and there is one as soon as an
/// exit leads there.
pub proof fn lemma_first_exit_first(
    rooms: Seq<Rc<Room>>,
    i: int,
    to: crate::model::Vnum,
    d: Direction,
)
    requires
        leads_to(*rooms[i], d, to),
    ensures
        first_exit_to(*rooms[i], to) is Some,
        direction_place(first_exit_to(*rooms[i], to).unwrap()) <= direction_place(d),
        leads_to(*rooms[i], first_exit_to(*rooms[i], to).unwrap(), to),
        forall|toward: Direction| way_back(*rooms[i], to, toward) is Some,
{
}

/// Two exits of rooms with distinct identifiers are the same only where
/// they are exits of the same room in the same direction.
pub proof fn lemma_same_exit(rooms: Seq<Rc<Room>>, i: int, d: Direction, j: int, b: Direction)
    requires
        distinct_vnums(rooms),
        0 <= i < rooms.len(),
        0 <= j < rooms.len(),
        exit_of(rooms, i, d) == exit_of(rooms, j, b),
    ensures
        i == j,
        d == b,
{
    if i < j {
        assert(rooms[i].vnum != rooms[j].vnum);
    } else if j < i {
        assert(rooms[j].vnum != rooms[i].vnum);
    }
}

/// What it means for an exit to be answered: it leads to a room of the
/// set, the exit that answers it is an exit of that room and leads back,
/// and is answered in turn. Returns the index of that room.
pub proof fn lemma_answer(rooms: Seq<Rc<Room>>, i: int, d: Direction) -> (j: int)
    requires
        distinct_vnums(rooms),
        0 <= i < rooms.len(),
        answer_of(rooms, i, d) is Some,
    ensures
        0 <= j < rooms.len(),
        target_of(rooms, i, d) == Some(j),
        answer_of(rooms, i, d).unwrap() == exit_of(rooms, j, answer_of(rooms, i, d).unwrap().direction),
        leads_to(*rooms[j], answer_of(rooms, i, d).unwrap().direction, rooms[i].vnum),
        way_back(*rooms[j], rooms[i].vnum, d.spec_opposite()) == Some(
            answer_of(rooms, i, d).unwrap().direction,
        ),
        leads_to(*rooms[i], d, rooms[j].vnum),
        target_of(rooms, j, answer_of(rooms, i, d).unwrap().direction) == Some(i),
        answer_of(rooms, j, answer_of(rooms, i, d).unwrap().direction) is Some,
{
    let (dest, door) = rooms[i].exit_at(d).unwrap();
    lemma_room_index(rooms, dest);
    let j = room_index(rooms, dest).unwrap();
    let b = answer_of(rooms, i, d).unwrap().direction;
    lemma_room_index_distinct(rooms, i);
    lemma_room_index_distinct(rooms, j);
    assert(way_back(*rooms[j], rooms[i].vnum, d.spec_opposite()) == Some(b));
    assert(leads_to(*rooms[j], b, rooms[i].vnum)) by {
        if !leads_to(*rooms[j], d.spec_opposite(), rooms[i].vnum) {
            assert(first_exit_to(*rooms[j], rooms[i].vnum) == Some(b));
        }
    }
    lemma_first_exit_first(rooms, i, rooms[j].vnum, d);
    j
}

/// What a connection was made for. Returns the room and the direction
/// of the exit; the connection is two-way exactly where that exit is
/// answered, and then ends in the exit that answers it.
pub proof fn lemma_made_for(rooms: Seq<Rc<Room>>, k: int) -> (r: (int, Direction))
    requires
        distinct_vnums(rooms),
        0 <= k < connections_of(rooms).len(),
    ensures
        0 <= r.0 < rooms.len(),
        rooms[r.0].exit_at(r.1) is Some,
        made_from(connections_of(rooms)[k], rooms, r.0, r.1),
        connections_of(rooms)[k].origin() == exit_of(rooms, r.0, r.1),
        connections_of(rooms)[k] is TwoWay <==> answer_of(rooms, r.0, r.1) is Some,
        connections_of(rooms)[k] is TwoWay ==> connections_of(rooms)[k].accounts_for(
            answer_of(rooms, r.0, r.1).unwrap(),
        ),
        forall|e: Exit|
            connections_of(rooms)[k].accounts_for(e) ==> e == exit_of(rooms, r.0, r.1)
                || answer_of(rooms, r.0, r.1) == Some(e),
{
    let c = connections_of(rooms)[k];
    lemma_connections_sound(rooms);
    assert(genuine(c, rooms));
    let (i, d) = choose|i: int, d: Direction| made_from(c, rooms, i, d);
    (i, d)
}

/// Connections stand in the order of the places of the exits they were
/// made for.
pub proof fn lemma_walk_order(rooms: Seq<Rc<Room>>, a: int, b: int)
    requires
        distinct_vnums(rooms),
        0 <= a < connections_of(rooms).len(),
        0 <= b < connections_of(rooms).len(),
        walk_place(rooms, connections_of(rooms)[a].origin()) < walk_place(
            rooms,
            connections_of(rooms)[b].origin(),
        ),
    ensures
        a < b,
{
    lemma_connections_order(rooms, rooms.len());
    let conns = connections_of(rooms);
    if b < a {
        assert(walk_place(rooms, conns[b].origin()) < walk_place(rooms, conns[a].origin()));
    }
}

/// An exit that is answered from a room walked after its own is an exit
/// that a connection was made for. Returns the index of the connection.
pub proof fn lemma_made_early(rooms: Seq<Rc<Room>>, r: int, d: Direction) -> (k: int)
    requires
        distinct_vnums(rooms),
        0 <= r < rooms.len(),
        answer_of(rooms, r, d) is Some,
        target_of(rooms, r, d).unwrap() > r,
    ensures
        0 <= k < connections_of(rooms).len(),
        connections_of(rooms)[k].origin() == exit_of(rooms, r, d),
        connections_of(rooms)[k].accounts_for(answer_of(rooms, r, d).unwrap()),
{
    let conns = connections_of(rooms);
    let x = exit_of(rooms, r, d);
    lemma_connections_order(rooms, rooms.len());
    lemma_walk_place(rooms, r, d);
    assert(accounted_in_time(conns, rooms, x));
    let k = choose|k: int|
        0 <= k < conns.len() && (#[trigger] conns[k]).accounts_for(x) && walk_place(
            rooms,
            conns[k].origin(),
        ) <= walk_place(rooms, x);
    let (i, c) = lemma_made_for(rooms, k);
    if conns[k].origin() != x {
        // The connection would have been made for an exit of the room
        // that `x` leads to, which the walk reaches later.
        assert(answer_of(rooms, i, c) == Some(x));
        let back = lemma_answer(rooms, i, c);
        lemma_same_exit(rooms, back, x.direction, r, d);
        lemma_walk_place(rooms, i, c);
        assert(target_of(rooms, r, d) == Some(i));
    } else {
        lemma_same_exit(rooms, i, c, r, d);
    }
    k
}

/// A connection made for an exit that leads back to a room walked
/// before its own comes after a connection that accounts for that exit.
/// Returns the index of that connection.
proof fn lemma_answered_before(rooms: Seq<Rc<Room>>, i: int, c: Direction, b: int) -> (k: int)
    requires
        distinct_vnums(rooms),
        answers_settle(rooms),
        0 <= i < rooms.len(),
        0 <= b < connections_of(rooms).len(),
        connections_of(rooms)[b].origin() == exit_of(rooms, i, c),
        answer_of(rooms, i, c) is Some,
        target_of(rooms, i, c).unwrap() < i,
    ensures
        0 <= k < b,
        connections_of(rooms)[k].accounts_for(exit_of(rooms, i, c)),
{
    let conns = connections_of(rooms);
    let f = exit_of(rooms, i, c);
    let r = lemma_answer(rooms, i, c);
    assert(settles(rooms, i, c));
    assert(answers_one(rooms, r, f));
    let dx = choose|dx: Direction|
        #[trigger] answer_of(rooms, r, dx) == Some(f) && forall|e: Direction|
            e != dx ==> #[trigger] answer_of(rooms, r, e) != Some(f);
    let back = lemma_answer(rooms, r, dx);
    lemma_same_exit(rooms, back, f.direction, i, c);
    let k = lemma_made_early(rooms, r, dx);
    lemma_walk_place(rooms, r, dx);
    lemma_walk_place(rooms, i, c);
    lemma_walk_order(rooms, k, b);
    k
}

/// No connection was made for an exit that an earlier connection
/// accounts for, and a later connection was made for a later exit.
proof fn lemma_later_connection(rooms: Seq<Rc<Room>>, a: int, b: int)
    requires
        distinct_vnums(rooms),
        0 <= a < b < connections_of(rooms).len(),
    ensures
        !connections_of(rooms)[a].accounts_for(connections_of(rooms)[b].origin()),
        walk_place(rooms, connections_of(rooms)[a].origin()) < walk_place(
            rooms,
            connections_of(rooms)[b].origin(),
        ),
{
    lemma_connections_sound(rooms);
    lemma_connections_order(rooms, rooms.len());
}

/// Of two exits of a room to itself of which the later is answered by
/// the earlier, the earlier is answered by the later.
proof fn lemma_loop_answers_back(rooms: Seq<Rc<Room>>, r: int, d: Direction, df: Direction)
    requires
        distinct_vnums(rooms),
        answers_settle(rooms),
        0 <= r < rooms.len(),
        answer_of(rooms, r, df) == Some(exit_of(rooms, r, d)),
        direction_place(d) < direction_place(df),
    ensures
        answer_of(rooms, r, d) == Some(exit_of(rooms, r, df)),
{
    let at = lemma_answer(rooms, r, df);
    lemma_same_exit(rooms, at, d, r, d);
    lemma_room_index_distinct(rooms, r);
    lemma_first_exit_first(rooms, r, rooms[r].vnum, d);
    assert(settles(rooms, r, df));
    assert(leads_to(*rooms[r], df.spec_opposite(), rooms[r].vnum));
}

/// Two exits of a room to itself that the same third exit answers are
/// one and the same.
proof fn lemma_loop_answers_one(
    rooms: Seq<Rc<Room>>,
    r: int,
    d: Direction,
    dg: Direction,
    df: Direction,
)
    requires
        distinct_vnums(rooms),
        answers_settle(rooms),
        0 <= r < rooms.len(),
        answer_of(rooms, r, dg) == Some(exit_of(rooms, r, d)),
        answer_of(rooms, r, df) == Some(exit_of(rooms, r, d)),
        dg != d,
        df != d,
    ensures
        dg == df,
{
    let at = lemma_answer(rooms, r, dg);
    lemma_same_exit(rooms, at, d, r, d);
    let at2 = lemma_answer(rooms, r, df);
    lemma_room_index_distinct(rooms, r);
    assert(settles(rooms, r, dg));
    assert(settles(rooms, r, df));
    assert(d == dg.spec_opposite());
    assert(d == df.spec_opposite());
}

/// Two exits that the same exit of a room walked later answers are one
/// and the same.
proof fn lemma_later_answers_one(
    rooms: Seq<Rc<Room>>,
    r: int,
    d: Direction,
    i: int,
    dg: Direction,
    df: Direction,
)
    requires
        distinct_vnums(rooms),
        answers_settle(rooms),
        0 <= i < r < rooms.len(),
        answer_of(rooms, i, dg) == Some(exit_of(rooms, r, d)),
        answer_of(rooms, i, df) == Some(exit_of(rooms, r, d)),
    ensures
        dg == df,
{
    let at = lemma_answer(rooms, i, dg);
    lemma_same_exit(rooms, at, d, r, d);
    assert(settles(rooms, r, d));
    assert(answers_one(rooms, i, exit_of(rooms, r, d)));
}

/// Two connections that account for the same exit are one and the same
/// where the exits answer each other one to one.
proof fn lemma_one_account(rooms: Seq<Rc<Room>>, r: int, d: Direction, a: int, b: int)
    requires
        distinct_vnums(rooms),
        answers_settle(rooms),
        0 <= r < rooms.len(),
        rooms[r].exit_at(d) is Some,
        0 <= a <= b < connections_of(rooms).len(),
        connections_of(rooms)[a].accounts_for(exit_of(rooms, r, d)),
        connections_of(rooms)[b].accounts_for(exit_of(rooms, r, d)),
    ensures
        a == b,
{
    let conns = connections_of(rooms);
    let e = exit_of(rooms, r, d);
    if a != b {
        lemma_later_connection(rooms, a, b);
        // The later connection was made for another exit, which `e`
        // answers.
        let (i, df) = lemma_made_for(rooms, b);
        assert(answer_of(rooms, i, df) == Some(e));
        let at = lemma_answer(rooms, i, df);
        lemma_same_exit(rooms, at, e.direction, r, d);
        lemma_walk_place(rooms, r, d);
        lemma_walk_place(rooms, i, df);
        let (i2, dg) = lemma_made_for(rooms, a);
        lemma_walk_place(rooms, i2, dg);
        if exit_of(rooms, i2, dg) == e {
            // The earlier connection was made for `e` itself.
            lemma_same_exit(rooms, i2, dg, r, d);
            if r < i {
                let k = lemma_answered_before(rooms, i, df, b);
                lemma_later_connection(rooms, k, b);
            } else {
                lemma_loop_answers_back(rooms, r, d, df);
            }
        } else {
            // The earlier connection was made for a third exit, which `e`
            // answers as well.
            assert(answer_of(rooms, i2, dg) == Some(e));
            let at2 = lemma_answer(rooms, i2, dg);
            lemma_same_exit(rooms, at2, e.direction, r, d);
            if i < r {
                lemma_later_answers_one(rooms, r, d, i, dg, df);
            } else if i == r {
                lemma_loop_answers_one(rooms, r, d, dg, df);
            } else {
                let k = lemma_answered_before(rooms, i, dg, a);
                lemma_later_connection(rooms, k, a);
            }
        }
    }
}

/// Where the rooms have distinct identifiers and the exits answer each
/// other one to one as the walk meets them, exactly one connection
/// accounts for each exit, be it as the exit the connection was made for
/// or as the far end of a two-way connection.
pub proof fn lemma_each_exit_accounted_once(rooms: Seq<Rc<Room>>, i: int, d: Direction)
    requires
        distinct_vnums(rooms),
        answers_settle(rooms),
        0 <= i < rooms.len(),
        rooms[i].exit_at(d) is Some,
    ensures
        accounted_once(connections_of(rooms), exit_of(rooms, i, d)),
{
    let conns = connections_of(rooms);
    let e = exit_of(rooms, i, d);
    lemma_connections_sound(rooms);
    assert(accounted(conns, e));
    let k = choose|k: int| 0 <= k < conns.len() && (#[trigger] conns[k]).accounts_for(e);
    assert forall|j: int| 0 <= j < conns.len() && j != k implies !(#[trigger] conns[j]).accounts_for(
        e,
    ) by {
        if conns[j].accounts_for(e) {
            if j < k {
                lemma_one_account(rooms, i, d, j, k);
            } else {
                lemma_one_account(rooms, i, d, k, j);
            }
        }
    }
}

/// The first exit of `rooms[j]`, in walking order, that leads to the room
/// itself.
pub open spec fn first_loop(rooms: Seq<Rc<Room>>, j: int) -> Option<Direction> {
    first_exit_to(*rooms[j], rooms[j].vnum)
}

/// An exit that two different connections account for is not accounted
/// for exactly once.
proof fn lemma_twice_is_not_once(conns: Seq<Connection>, e: Exit, a: int, b: int)
    requires
        0 <= a < conns.len(),
        0 <= b < conns.len(),
        a != b,
        conns[a].accounts_for(e),
        conns[b].accounts_for(e),
    ensures
        !accounted_once(conns, e),
{
}

/// The connection that accounts in time for an exit which answers no
/// exit, or none but itself, was made for that exit. Returns the index
/// of the connection.
proof fn lemma_made_for_unanswering(rooms: Seq<Rc<Room>>, j: int, b: Direction) -> (k: int)
    requires
        distinct_vnums(rooms),
        0 <= j < rooms.len(),
        rooms[j].exit_at(b) is Some,
        forall|m: int, c: Direction|
            0 <= m < rooms.len() && #[trigger] answer_of(rooms, m, c) == Some(exit_of(rooms, j, b))
                ==> m == j && c == b,
    ensures
        0 <= k < connections_of(rooms).len(),
        connections_of(rooms)[k].origin() == exit_of(rooms, j, b),
{
    let conns = connections_of(rooms);
    let t = exit_of(rooms, j, b);
    lemma_connections_order(rooms, rooms.len());
    lemma_walk_place(rooms, j, b);
    assert(accounted_in_time(conns, rooms, t));
    let k = choose|k: int|
        0 <= k < conns.len() && (#[trigger] conns[k]).accounts_for(t) && walk_place(
            rooms,
            conns[k].origin(),
        ) <= walk_place(rooms, t);
    let (m, c) = lemma_made_for(rooms, k);
    if conns[k].origin() != t {
        assert(answer_of(rooms, m, c) == Some(t));
    }
    k
}

/// An exit that answers two exits of a room walked before its own is
/// accounted for twice.
proof fn lemma_two_answered(rooms: Seq<Rc<Room>>, j: int, b: Direction, i: int, d1: Direction, d2: Direction)
    requires
        distinct_vnums(rooms),
        0 <= i < j < rooms.len(),
        d1 != d2,
        answer_of(rooms, i, d1) == Some(exit_of(rooms, j, b)),
        answer_of(rooms, i, d2) == Some(exit_of(rooms, j, b)),
    ensures
        !accounted_once(connections_of(rooms), exit_of(rooms, j, b)),
{
    let conns = connections_of(rooms);
    let back1 = lemma_answer(rooms, i, d1);
    lemma_same_exit(rooms, back1, b, j, b);
    let k1 = lemma_made_early(rooms, i, d1);
    let back2 = lemma_answer(rooms, i, d2);
    lemma_same_exit(rooms, back2, b, j, b);
    let k2 = lemma_made_early(rooms, i, d2);
    if k1 == k2 {
        lemma_same_exit(rooms, i, d1, i, d2);
    }
    lemma_twice_is_not_once(conns, exit_of(rooms, j, b), k1, k2);
}

/// Only exits of the room that an exit leads to are answered by it.
proof fn lemma_answered_from_target(
    rooms: Seq<Rc<Room>>,
    j: int,
    b: Direction,
    m: int,
    c: Direction,
)
    requires
        distinct_vnums(rooms),
        0 <= j < rooms.len(),
        0 <= m < rooms.len(),
        answer_of(rooms, m, c) == Some(exit_of(rooms, j, b)),
    ensures
        target_of(rooms, j, b) == Some(m),
        way_back(*rooms[j], rooms[m].vnum, c.spec_opposite()) == Some(b),
{
    let back = lemma_answer(rooms, m, c);
    lemma_same_exit(rooms, back, b, j, b);
}

/// An answered exit that leads to a room walked before its own and
/// answers no exit of that room is answered by an exit that is accounted
/// for twice. Returns the direction of that exit.
proof fn lemma_none_answered(rooms: Seq<Rc<Room>>, j: int, b: Direction, i: int) -> (d: Direction)
    requires
        distinct_vnums(rooms),
        0 <= i < j < rooms.len(),
        answer_of(rooms, j, b) is Some,
        target_of(rooms, j, b) == Some(i),
        forall|c: Direction| #[trigger] answer_of(rooms, i, c) != Some(exit_of(rooms, j, b)),
    ensures
        rooms[i].exit_at(d) is Some,
        !accounted_once(connections_of(rooms), exit_of(rooms, i, d)),
{
    let conns = connections_of(rooms);
    let t = exit_of(rooms, j, b);
    let at = lemma_answer(rooms, j, b);
    let x = answer_of(rooms, j, b).unwrap();
    assert forall|m: int, c: Direction|
        0 <= m < rooms.len() && #[trigger] answer_of(rooms, m, c) == Some(t) implies m == j && c
        == b by {
        lemma_answered_from_target(rooms, j, b, m, c);
    }
    let k = lemma_made_for_unanswering(rooms, j, b);
    let made = lemma_made_for(rooms, k);
    lemma_same_exit(rooms, made.0, made.1, j, b);
    let k2 = lemma_made_early(rooms, i, x.direction);
    if k == k2 {
        lemma_same_exit(rooms, i, x.direction, j, b);
    }
    lemma_twice_is_not_once(conns, x, k, k2);
    x.direction
}

/// An exit of a room to itself that is neither the first such nor
/// opposite to one is answered by the first, which is accounted for
/// twice. Returns the direction of the first.
proof fn lemma_stray_loop(rooms: Seq<Rc<Room>>, j: int, b: Direction) -> (d: Direction)
    requires
        distinct_vnums(rooms),
        0 <= j < rooms.len(),
        answer_of(rooms, j, b) is Some,
        target_of(rooms, j, b) == Some(j),
        first_loop(rooms, j) != Some(b),
        !leads_to(*rooms[j], b.spec_opposite(), rooms[j].vnum),
    ensures
        rooms[j].exit_at(d) is Some,
        !accounted_once(connections_of(rooms), exit_of(rooms, j, d)),
{
    let conns = connections_of(rooms);
    let t = exit_of(rooms, j, b);
    let at = lemma_answer(rooms, j, b);
    let x = answer_of(rooms, j, b).unwrap();
    lemma_room_index_distinct(rooms, j);
    lemma_first_exit_first(rooms, j, rooms[j].vnum, b);
    let first = first_loop(rooms, j).unwrap();
    assert(x == exit_of(rooms, j, first));
    assert forall|m: int, c: Direction|
        0 <= m < rooms.len() && #[trigger] answer_of(rooms, m, c) == Some(t) implies m == j && c
        == b by {
        lemma_answered_from_target(rooms, j, b, m, c);
    }
    let k = lemma_made_for_unanswering(rooms, j, b);
    lemma_connections_order(rooms, rooms.len());
    lemma_walk_place(rooms, j, first);
    lemma_walk_place(rooms, j, b);
    assert(accounted_in_time(conns, rooms, x));
    let k2 = choose|k2: int|
        0 <= k2 < conns.len() && (#[trigger] conns[k2]).accounts_for(x) && walk_place(
            rooms,
            conns[k2].origin(),
        ) <= walk_place(rooms, x);
    let made = lemma_made_for(rooms, k);
    lemma_same_exit(rooms, made.0, made.1, j, b);
    lemma_twice_is_not_once(conns, x, k, k2);
    first
}

/// Where an exit does not settle, some exit is accounted for more than
/// once: the condition under which every exit is accounted for exactly
/// once leaves out no room set of which that holds. Returns the room and
/// the direction of an exit that is accounted for twice.
pub proof fn lemma_unsettled_exit_counts_twice(rooms: Seq<Rc<Room>>, j: int, b: Direction) -> (r: (
    int,
    Direction,
))
    requires
        distinct_vnums(rooms),
        0 <= j < rooms.len(),
        !settles(rooms, j, b),
    ensures
        0 <= r.0 < rooms.len(),
        rooms[r.0].exit_at(r.1) is Some,
        !accounted_once(connections_of(rooms), exit_of(rooms, r.0, r.1)),
{
    let t = exit_of(rooms, j, b);
    let i = lemma_answer(rooms, j, b);
    if i < j {
        if exists|d: Direction| answer_of(rooms, i, d) == Some(t) {
            let d1 = choose|d: Direction| answer_of(rooms, i, d) == Some(t);
            let d2 = choose|d: Direction| d != d1 && #[trigger] answer_of(rooms, i, d) == Some(t);
            lemma_two_answered(rooms, j, b, i, d1, d2);
            (j, b)
        } else {
            let d = lemma_none_answered(rooms, j, b, i);
            (i, d)
        }
    } else {
        let d = lemma_stray_loop(rooms, j, b);
        (j, d)
    }
}

} // verus!
