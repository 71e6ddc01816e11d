//! What holds of the planes of a pool: how the rooms of a plane hang
//! together, and which rooms cannot share a plane.

use crate::model::room::{lemma_room_index, room_index};
use crate::model::{Direction, Room, Vnum};
use crate::order::occurs;
use crate::parser::flood::{flood, overridden, placed};
use crate::parser::flood_laws::{
    lemma_flood_closed, lemma_flood_linked, linked, settled, steps_to, well_linked,
};
use crate::parser::rule::Rule;
use crate::parser::sort_rooms::{
    lemma_in_pool, lemma_next_plane, lemma_planes_partition, lemma_remaining, may_partition,
    next_seed, planes_from, remaining, root_of, Location,
};
use std::rc::Rc;
use vstd::prelude::*;

verus! {

/// On every plane of a pool, every room but the first was reached by a
/// step from a room placed before it: the two are joined by a cardinal
/// exit that no rule overrides, and their places differ by that step.
pub proof fn lemma_planes_linked(seed: Option<Location>, pool: Seq<Rc<Room>>, rules: Seq<Rule>)
    requires
        may_partition(seed, pool),
    ensures
        forall|k: int|
            0 <= k < planes_from(seed, pool, rules).len() ==> well_linked(
                #[trigger] planes_from(seed, pool, rules)[k],
                rules,
            ),
    decreases pool.len(),
{
    let planes = planes_from(seed, pool, rules);
    if pool.len() > 0 {
        let root = root_of(seed, pool);
        let found = flood(root, pool, rules);
        let rest = remaining(pool, found.plane);
        let later = planes_from(next_seed(found.seeds), rest, rules);
        lemma_next_plane(seed, pool, rules);
        lemma_flood_linked(root, pool, rules);
        lemma_planes_linked(next_seed(found.seeds), rest, rules);
        assert(planes == seq![found.plane] + later);
        assert forall|k: int| 0 <= k < planes.len() implies well_linked(
            #[trigger] planes[k],
            rules,
        ) by {
            if k > 0 {
                assert(planes[k] == later[k - 1]);
            }
        }
    }
}

/// Whether the exit of `room` in direction `d` counts when planes are
/// formed over `pool`: it is a cardinal exit to a room of the pool that
/// no rule overrides.
pub open spec fn binds(room: Rc<Room>, d: Direction, pool: Seq<Rc<Room>>, rules: Seq<Rule>) -> bool {
    &&& !d.spec_is_vertical()
    &&& room.exit_at(d) is Some
    &&& room_index(pool, room.exit_at(d).unwrap().0) is Some
    &&& !overridden(rules, room.vnum, room.exit_at(d).unwrap().0)
}

/// Whether no exit that counts when planes are formed leads into or out
/// of the rooms whose identifiers are in `side`.
pub open spec fn sealed(side: Set<Vnum>, pool: Seq<Rc<Room>>, rules: Seq<Rule>) -> bool {
    forall|i: int, d: Direction|
        0 <= i < pool.len() && #[trigger] binds(pool[i], d, pool, rules) ==> (side.contains(
            pool[i].vnum,
        ) <==> side.contains(pool[i].exit_at(d).unwrap().0))
}

/// A plane never crosses a sealed border: where no cardinal exit, other
/// than those that a rule overrides, joins the rooms of `side` to the
/// other rooms of the pool, the rooms of one plane lie all within `side`
/// or all without.
pub proof fn lemma_plane_keeps_to_one_side(
    seed: Option<Location>,
    pool: Seq<Rc<Room>>,
    rules: Seq<Rule>,
    side: Set<Vnum>,
    k: int,
    a: int,
    b: int,
)
    requires
        may_partition(seed, pool),
        sealed(side, pool, rules),
        0 <= k < planes_from(seed, pool, rules).len(),
        0 <= a < planes_from(seed, pool, rules)[k].len(),
        0 <= b < planes_from(seed, pool, rules)[k].len(),
    ensures
        side.contains(planes_from(seed, pool, rules)[k][a].room.vnum) <==> side.contains(
            planes_from(seed, pool, rules)[k][b].room.vnum,
        ),
{
    let plane = planes_from(seed, pool, rules)[k];
    lemma_planes_linked(seed, pool, rules);
    lemma_planes_partition(seed, pool, rules);
    assert forall|j: int| 0 <= j < plane.len() implies occurs(pool, (#[trigger] plane[j]).room) by {
        assert(occurs(pool, planes_from(seed, pool, rules)[k][j].room));
    }
    lemma_same_side(plane, pool, rules, side, a);
    lemma_same_side(plane, pool, rules, side, b);
}

/// Every room of a linked plane lies on the side of the plane's first
/// room.
proof fn lemma_same_side(
    plane: Seq<Location>,
    pool: Seq<Rc<Room>>,
    rules: Seq<Rule>,
    side: Set<Vnum>,
    k: int,
)
    requires
        well_linked(plane, rules),
        sealed(side, pool, rules),
        forall|j: int| 0 <= j < plane.len() ==> occurs(pool, (#[trigger] plane[j]).room),
        0 <= k < plane.len(),
    ensures
        side.contains(plane[k].room.vnum) <==> side.contains(plane[0].room.vnum),
    decreases k,
{
    if k > 0 {
        assert(linked(plane, k, rules));
        let (j, d) = choose|j: int, d: Direction|
            0 <= j < k && #[trigger] steps_to(plane[j], plane[k], d, rules);
        lemma_same_side(plane, pool, rules, side, j);
        assert(occurs(pool, plane[j].room));
        let i = choose|i: int| 0 <= i < pool.len() && #[trigger] pool[i] == plane[j].room;
        assert(occurs(pool, plane[k].room));
        lemma_room_index(pool, plane[k].room.vnum);
        assert(binds(pool[i], d, pool, rules));
    }
}

/// Rooms on two sides of a sealed border lie on different planes. Such
/// are two rooms that only exits up and down join, and two rooms whose
/// only cardinal exits to each other a rule overrides.
pub proof fn lemma_sealed_rooms_lie_apart(
    seed: Option<Location>,
    pool: Seq<Rc<Room>>,
    rules: Seq<Rule>,
    side: Set<Vnum>,
    k: int,
    j: int,
    m: int,
    n: int,
)
    requires
        may_partition(seed, pool),
        sealed(side, pool, rules),
        0 <= k < planes_from(seed, pool, rules).len(),
        0 <= j < planes_from(seed, pool, rules)[k].len(),
        0 <= m < planes_from(seed, pool, rules).len(),
        0 <= n < planes_from(seed, pool, rules)[m].len(),
        side.contains(planes_from(seed, pool, rules)[k][j].room.vnum),
        !side.contains(planes_from(seed, pool, rules)[m][n].room.vnum),
    ensures
        k != m,
{
    if k == m {
        lemma_plane_keeps_to_one_side(seed, pool, rules, side, k, j, n);
    }
}

/// Whether no exit that counts when planes are formed joins `at` to a
/// room of the pool: `at` has none, and none leads to `at`.
pub open spec fn lone(at: Rc<Room>, pool: Seq<Rc<Room>>, rules: Seq<Rule>) -> bool {
    forall|i: int, d: Direction|
        0 <= i < pool.len() && #[trigger] binds(pool[i], d, pool, rules) ==> pool[i].vnum
            != at.vnum && pool[i].exit_at(d).unwrap().0 != at.vnum
}

/// A room that no exit joins to another when planes are formed has a
/// plane to itself. Such is a room without exits to which no cardinal
/// exit leads.
pub proof fn lemma_lone_room_has_its_own_plane(
    seed: Option<Location>,
    pool: Seq<Rc<Room>>,
    rules: Seq<Rule>,
    k: int,
    j: int,
)
    requires
        may_partition(seed, pool),
        0 <= k < planes_from(seed, pool, rules).len(),
        0 <= j < planes_from(seed, pool, rules)[k].len(),
        lone(planes_from(seed, pool, rules)[k][j].room, pool, rules),
    ensures
        planes_from(seed, pool, rules)[k].len() == 1,
{
    let planes = planes_from(seed, pool, rules);
    let at = planes[k][j].room;
    let side = Set::<Vnum>::empty().insert(at.vnum);
    assert(sealed(side, pool, rules));
    lemma_planes_partition(seed, pool, rules);
    let other = if j == 0 { 1 } else { 0 };
    if planes[k].len() > 1 {
        lemma_plane_keeps_to_one_side(seed, pool, rules, side, k, j, other);
        assert(planes[k][other].room.vnum != planes[k][j].room.vnum);
    }
}

/// A room without exits that starts a plane has the plane to itself:
/// every other room of a plane was reached by an exit of a room placed
/// before it.
pub proof fn lemma_exitless_start_is_alone(
    seed: Option<Location>,
    pool: Seq<Rc<Room>>,
    rules: Seq<Rule>,
    k: int,
)
    requires
        may_partition(seed, pool),
        0 <= k < planes_from(seed, pool, rules).len(),
        planes_from(seed, pool, rules)[k].len() > 0,
        forall|d: Direction| planes_from(seed, pool, rules)[k][0].room.exit_at(d) is None,
    ensures
        planes_from(seed, pool, rules)[k].len() == 1,
{
    let plane = planes_from(seed, pool, rules)[k];
    lemma_planes_linked(seed, pool, rules);
    if plane.len() > 1 {
        assert(linked(plane, 1, rules));
        let (j, d) = choose|j: int, d: Direction|
            0 <= j < 1 && #[trigger] steps_to(plane[j], plane[1], d, rules);
        assert(plane[0].room.exit_at(d) is Some);
    }
}

/// Whether the room at `at` has, in direction `d`, a cardinal exit to
/// the room with identifier `dest` that no rule overrides.
pub open spec fn joins(at: Location, d: Direction, dest: Vnum, rules: Seq<Rule>) -> bool {
    &&& !d.spec_is_vertical()
    &&& at.room.exit_at(d) matches Some((v, _)) && v == dest
    &&& !overridden(rules, at.room.vnum, dest)
}

/// Where a room on a plane has a cardinal exit, which no rule overrides,
/// to a room of the pool, that room lies on the same plane or on one
/// found before it.
pub proof fn lemma_planes_cohesive(
    seed: Option<Location>,
    pool: Seq<Rc<Room>>,
    rules: Seq<Rule>,
    k: int,
    j: int,
    d: Direction,
    dest: Vnum,
)
    requires
        may_partition(seed, pool),
        0 <= k < planes_from(seed, pool, rules).len(),
        0 <= j < planes_from(seed, pool, rules)[k].len(),
        joins(planes_from(seed, pool, rules)[k][j], d, dest, rules),
        room_index(pool, dest) is Some,
    ensures
        exists|m: int, n: int|
            0 <= m <= k && 0 <= n < planes_from(seed, pool, rules)[m].len() && (
            #[trigger] planes_from(seed, pool, rules)[m][n]).room.vnum == dest,
    decreases pool.len(),
{
    let planes = planes_from(seed, pool, rules);
    let root = root_of(seed, pool);
    let found = flood(root, pool, rules);
    let rest = remaining(pool, found.plane);
    let later = planes_from(next_seed(found.seeds), rest, rules);
    lemma_next_plane(seed, pool, rules);
    lemma_remaining(pool, found.plane);
    assert(planes == seq![found.plane] + later);
    assert(planes[0] == found.plane);
    if k == 0 || room_index(rest, dest) is None {
        if k == 0 {
            lemma_flood_closed(root, pool, rules);
            assert(settled(found.plane, found.plane[j], d, pool, rules));
        } else {
            lemma_room_index(pool, dest);
            lemma_room_index(rest, dest);
            let i = room_index(pool, dest).unwrap();
            if !placed(found.plane, pool[i].vnum) {
                assert(occurs(rest, pool[i]));
                let r = choose|r: int| 0 <= r < rest.len() && #[trigger] rest[r] == pool[i];
                assert(rest[r].vnum == dest);
            }
        }
        let n = choose|n: int|
            0 <= n < found.plane.len() && (#[trigger] found.plane[n]).room.vnum == dest;
        assert(planes[0][n].room.vnum == dest);
    } else {
        assert(planes[k] == later[k - 1]);
        lemma_planes_cohesive(next_seed(found.seeds), rest, rules, k - 1, j, d, dest);
        let (m, n) = choose|m: int, n: int|
            0 <= m <= k - 1 && 0 <= n < later[m].len() && (#[trigger] later[m][n]).room.vnum
                == dest;
        assert(planes[m + 1] == later[m]);
        assert(planes[m + 1][n].room.vnum == dest);
    }
}

/// Two rooms that cardinal exits join in both directions, neither exit
/// overridden by a rule, lie on one plane.
pub proof fn lemma_mutual_exits_share_plane(
    seed: Option<Location>,
    pool: Seq<Rc<Room>>,
    rules: Seq<Rule>,
    k: int,
    j: int,
    m: int,
    n: int,
    d: Direction,
    e: Direction,
)
    requires
        may_partition(seed, pool),
        0 <= k < planes_from(seed, pool, rules).len(),
        0 <= j < planes_from(seed, pool, rules)[k].len(),
        0 <= m < planes_from(seed, pool, rules).len(),
        0 <= n < planes_from(seed, pool, rules)[m].len(),
        joins(
            planes_from(seed, pool, rules)[k][j],
            d,
            planes_from(seed, pool, rules)[m][n].room.vnum,
            rules,
        ),
        joins(
            planes_from(seed, pool, rules)[m][n],
            e,
            planes_from(seed, pool, rules)[k][j].room.vnum,
            rules,
        ),
    ensures
        k == m,
{
    let planes = planes_from(seed, pool, rules);
    let a = planes[k][j];
    let b = planes[m][n];
    lemma_planes_partition(seed, pool, rules);
    assert(occurs(pool, planes[k][j].room));
    assert(occurs(pool, planes[m][n].room));
    lemma_in_pool(pool, a.room);
    lemma_in_pool(pool, b.room);
    lemma_planes_cohesive(seed, pool, rules, k, j, d, b.room.vnum);
    let (m1, n1) = choose|m1: int, n1: int|
        0 <= m1 <= k && 0 <= n1 < planes[m1].len() && (#[trigger] planes[m1][n1]).room.vnum
            == b.room.vnum;
    assert(m1 == m) by {
        if m1 != m || n1 != n {
            assert(planes[m1][n1].room.vnum != planes[m][n].room.vnum);
        }
    }
    lemma_planes_cohesive(seed, pool, rules, m, n, e, a.room.vnum);
    let (k1, j1) = choose|k1: int, j1: int|
        0 <= k1 <= m && 0 <= j1 < planes[k1].len() && (#[trigger] planes[k1][j1]).room.vnum
            == a.room.vnum;
    assert(k1 == k) by {
        if k1 != k || j1 != j {
            assert(planes[k1][j1].room.vnum != planes[k][j].room.vnum);
        }
    }
}

} // verus!
