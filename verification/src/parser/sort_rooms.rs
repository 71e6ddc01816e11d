//! Planes: the rooms that cardinal exits join, found by flooding from one
//! room after another, and the place of each room on its plane's grid.

use crate::model::room::{distinct_vnums, lemma_room_index, room_index, share};
use crate::model::{Room, Vnum};
use crate::order::{
    lemma_sorted_ascending, lemma_sorted_distinct, lemma_sorted_members, occurs, sort_by_vnum,
    sorted_by_vnum, Keyed,
};
use crate::parser::flood::{
    fits, flood, flood_plane, holds, in_pool, lemma_flood, may_flood, placed,
};
use crate::parser::flood_laws::well_linked;
use crate::parser::plane_laws::lemma_planes_linked;
use crate::parser::rule::Rule;
use fnv::FnvHashMap;
use std::rc::Rc;
use vstd::prelude::*;

verus! {

/// A room at its place on the grid of its plane.
#[derive(Debug, Clone, PartialEq, Eq)]
pub struct Location {
    pub x: i32,
    pub y: i32,
    pub room: Rc<Room>,
}

/// The smallest rectangle of the grid that holds the origin and every
/// room of a plane: `x1` and `y1` are its least coordinates, `x2` and `y2`
/// its greatest.
#[derive(Debug, Clone, Copy, PartialEq, Eq, Structural)]
pub struct Rect {
    pub x1: i32,
    pub x2: i32,
    pub y1: i32,
    pub y2: i32,
}

/// The rooms of `pool` that `plane` does not hold, in their order.
pub open spec fn remaining(pool: Seq<Rc<Room>>, plane: Seq<Location>) -> Seq<Rc<Room>>
    decreases pool.len(),
{
    if pool.len() == 0 {
        Seq::empty()
    } else {
        let rest = remaining(pool.drop_last(), plane);
        if placed(plane, pool.last().vnum) {
            rest
        } else {
            rest.push(pool.last())
        }
    }
}

/// The rooms that remain are the rooms of the pool that the plane does
/// not hold; they are fewer where the plane holds a room of the pool,
/// and have distinct identifiers where the pool has.
pub proof fn lemma_remaining(pool: Seq<Rc<Room>>, plane: Seq<Location>)
    ensures
        remaining(pool, plane).len() <= pool.len(),
        forall|k: int|
            0 <= k < remaining(pool, plane).len() ==> occurs(
                pool,
                #[trigger] remaining(pool, plane)[k],
            ) && !placed(plane, remaining(pool, plane)[k].vnum),
        forall|i: int|
            0 <= i < pool.len() && !placed(plane, (#[trigger] pool[i]).vnum) ==> occurs(
                remaining(pool, plane),
                pool[i],
            ),
        (exists|i: int| 0 <= i < pool.len() && placed(plane, (#[trigger] pool[i]).vnum))
            ==> remaining(pool, plane).len() < pool.len(),
        distinct_vnums(pool) ==> distinct_vnums(remaining(pool, plane)),
    decreases pool.len(),
{
    let rest = remaining(pool, plane);
    if pool.len() > 0 {
        let front = pool.drop_last();
        let before = remaining(front, plane);
        lemma_remaining(front, plane);
        assert forall|k: int| 0 <= k < rest.len() implies occurs(pool, #[trigger] rest[k])
            && !placed(plane, rest[k].vnum) by {
            if k < before.len() {
                assert(rest[k] == before[k]);
                let i = choose|i: int| 0 <= i < front.len() && #[trigger] front[i] == before[k];
                assert(pool[i] == rest[k]);
            } else {
                assert(pool[pool.len() - 1] == rest[k]);
            }
        }
        assert forall|i: int|
            0 <= i < pool.len() && !placed(plane, (#[trigger] pool[i]).vnum) implies occurs(
            rest,
            pool[i],
        ) by {
            if i < front.len() {
                assert(front[i] == pool[i]);
                let k = choose|k: int| 0 <= k < before.len() && #[trigger] before[k] == front[i];
                assert(rest[k] == pool[i]);
            } else {
                assert(rest[rest.len() - 1] == pool[i]);
            }
        }
        if exists|i: int| 0 <= i < pool.len() && placed(plane, (#[trigger] pool[i]).vnum) {
            let i = choose|i: int| 0 <= i < pool.len() && placed(plane, (#[trigger] pool[i]).vnum);
            if i < front.len() {
                assert(front[i] == pool[i]);
            }
        }
        if distinct_vnums(pool) {
            assert forall|a: int, b: int| 0 <= a < b < front.len() implies (#[trigger] front[a]).vnum
                != (#[trigger] front[b]).vnum by {
                assert(front[a] == pool[a] && front[b] == pool[b]);
            }
            assert forall|a: int, b: int| 0 <= a < b < rest.len() implies (#[trigger] rest[a]).vnum
                != (#[trigger] rest[b]).vnum by {
                assert(rest[a] == before[a]);
                if b < before.len() {
                    assert(rest[b] == before[b]);
                } else {
                    let i = choose|i: int| 0 <= i < front.len() && #[trigger] front[i] == before[a];
                    assert(pool[i].vnum != pool[pool.len() - 1].vnum);
                }
            }
        }
    }
}

/// Among rooms with distinct identifiers, a room is found under its
/// identifier exactly when it is one of them.
pub proof fn lemma_in_pool(pool: Seq<Rc<Room>>, room: Rc<Room>)
    requires
        distinct_vnums(pool),
    ensures
        in_pool(pool, room) <==> occurs(pool, room),
{
    lemma_room_index(pool, room.vnum);
    if occurs(pool, room) {
        let i = choose|i: int| 0 <= i < pool.len() && #[trigger] pool[i] == room;
        crate::model::room::lemma_room_index_distinct(pool, i);
    }
    if in_pool(pool, room) {
        let i = room_index(pool, room.vnum).unwrap();
        assert(pool[i] == room);
    }
}

/// Where a flood starts: at the seed, or at the first room of the pool
/// where there is none.
pub open spec fn root_of(seed: Option<Location>, pool: Seq<Rc<Room>>) -> Location {
    match seed {
        Some(root) => root,
        None => Location { x: 0, y: 0, room: pool[0] },
    }
}

/// The seed of the next plane: the room queued first to start one, if
/// any.
pub open spec fn next_seed(seeds: Seq<Rc<Room>>) -> Option<Location> {
    if seeds.len() > 0 {
        Some(Location { x: 0, y: 0, room: seeds[0] })
    } else {
        None
    }
}

/// The planes of a pool, in the order in which they are found. The first
/// is the flood from the seed, or from the first room of the pool. It is
/// taken out of the pool; the next starts at the room that the flood
/// queued first to start another plane, or at the first room left where
/// it queued none; and so on until no room is left.
pub open spec fn planes_from(seed: Option<Location>, pool: Seq<Rc<Room>>, rules: Seq<Rule>) -> Seq<
    Seq<Location>,
>
    decreases pool.len(),
{
    if pool.len() == 0 {
        Seq::empty()
    } else {
        let found = flood(root_of(seed, pool), pool, rules);
        let rest = remaining(pool, found.plane);
        if rest.len() < pool.len() {
            seq![found.plane] + planes_from(next_seed(found.seeds), rest, rules)
        } else {
            seq![found.plane]
        }
    }
}

/// Whether planes may be made of `pool` starting at `seed`: the rooms
/// have distinct identifiers, the seed is one of them, and the
/// coordinates have room for as many steps as there are rooms.
pub open spec fn may_partition(seed: Option<Location>, pool: Seq<Rc<Room>>) -> bool {
    &&& distinct_vnums(pool)
    &&& pool.len() <= i32::MAX
    &&& match seed {
        Some(root) => in_pool(pool, root.room) && fits(root, pool),
        None => true,
    }
}

/// Whether `planes` split `pool`: no plane is empty, the planes hold
/// rooms of the pool only, every room of the pool is held, and no room
/// is held twice, be it by one plane or by two.
pub open spec fn partitions(planes: Seq<Seq<Location>>, pool: Seq<Rc<Room>>) -> bool {
    &&& forall|k: int| 0 <= k < planes.len() ==> (#[trigger] planes[k]).len() > 0
    &&& forall|k: int, j: int|
        0 <= k < planes.len() && 0 <= j < planes[k].len() ==> occurs(
            pool,
            (#[trigger] planes[k][j]).room,
        )
    &&& forall|i: int| 0 <= i < pool.len() ==> held(planes, #[trigger] pool[i])
    &&& forall|k: int, j: int, m: int, n: int|
        0 <= k < planes.len() && 0 <= j < planes[k].len() && 0 <= m < planes.len() && 0 <= n
            < planes[m].len() && (k != m || j != n) ==> (#[trigger] planes[k][j]).room.vnum != (
        #[trigger] planes[m][n]).room.vnum
}

/// Whether one of `planes` holds `room`.
pub open spec fn held(planes: Seq<Seq<Location>>, room: Rc<Room>) -> bool {
    exists|k: int, j: int|
        0 <= k < planes.len() && 0 <= j < planes[k].len() && (#[trigger] planes[k][j]).room == room
}

/// What the first flood leaves behind is fit for the floods that follow.
pub proof fn lemma_next_plane(seed: Option<Location>, pool: Seq<Rc<Room>>, rules: Seq<Rule>)
    requires
        may_partition(seed, pool),
        pool.len() > 0,
    ensures
        may_flood(root_of(seed, pool), pool),
        remaining(pool, flood(root_of(seed, pool), pool, rules).plane).len() < pool.len(),
        may_partition(
            next_seed(flood(root_of(seed, pool), pool, rules).seeds),
            remaining(pool, flood(root_of(seed, pool), pool, rules).plane),
        ),
{
    let root = root_of(seed, pool);
    if seed is None {
        crate::model::room::lemma_room_index_distinct(pool, 0);
    }
    let found = flood(root, pool, rules);
    lemma_flood(root, pool, rules);
    assert(found.reached() == found.plane);
    let rest = remaining(pool, found.plane);
    lemma_remaining(pool, found.plane);
    lemma_in_pool(pool, root.room);
    let i = choose|i: int| 0 <= i < pool.len() && #[trigger] pool[i] == root.room;
    assert(found.plane[0].room.vnum == pool[i].vnum);
    assert(placed(found.plane, pool[i].vnum));
    if found.seeds.len() > 0 {
        let first = found.seeds[0];
        assert(in_pool(pool, first) && !placed(found.plane, first.vnum));
        lemma_in_pool(pool, first);
        let m = choose|m: int| 0 <= m < pool.len() && #[trigger] pool[m] == first;
        assert(occurs(rest, pool[m]));
        lemma_in_pool(rest, first);
    }
}

/// The planes of a pool split it: every room of the pool lies on
/// exactly one plane, once, and the planes hold nothing else.
pub proof fn lemma_planes_partition(seed: Option<Location>, pool: Seq<Rc<Room>>, rules: Seq<Rule>)
    requires
        may_partition(seed, pool),
    ensures
        partitions(planes_from(seed, pool, rules), pool),
    decreases pool.len(),
{
    let planes = planes_from(seed, pool, rules);
    if pool.len() > 0 {
        let root = root_of(seed, pool);
        let found = flood(root, pool, rules);
        let rest = remaining(pool, found.plane);
        let later = planes_from(next_seed(found.seeds), rest, rules);
        lemma_next_plane(seed, pool, rules);
        lemma_flood(root, pool, rules);
        assert(found.reached() == found.plane);
        lemma_remaining(pool, found.plane);
        lemma_planes_partition(next_seed(found.seeds), rest, rules);
        assert(planes == seq![found.plane] + later);
        assert(planes[0] == found.plane);
        assert forall|k: int| 1 <= k < planes.len() implies #[trigger] planes[k] == later[k - 1] by {}
        assert forall|k: int, j: int|
            0 <= k < planes.len() && 0 <= j < planes[k].len() implies occurs(
            pool,
            (#[trigger] planes[k][j]).room,
        ) by {
            if k == 0 {
                lemma_in_pool(pool, found.plane[j].room);
            } else {
                assert(planes[k] == later[k - 1]);
                let room = later[k - 1][j].room;
                assert(occurs(rest, room));
                let i = choose|i: int| 0 <= i < rest.len() && #[trigger] rest[i] == room;
                assert(occurs(pool, rest[i]));
            }
        }
        assert forall|i: int| 0 <= i < pool.len() implies held(planes, #[trigger] pool[i]) by {
            if placed(found.plane, pool[i].vnum) {
                let j = choose|j: int|
                    0 <= j < found.plane.len() && (#[trigger] found.plane[j]).room.vnum
                        == pool[i].vnum;
                assert(in_pool(pool, found.plane[j].room));
                crate::model::room::lemma_room_index_distinct(pool, i);
                assert(planes[0][j].room == pool[i]);
            } else {
                assert(occurs(rest, pool[i]));
                let m = choose|m: int| 0 <= m < rest.len() && #[trigger] rest[m] == pool[i];
                assert(held(later, rest[m]));
                let (k, j) = choose|k: int, j: int|
                    0 <= k < later.len() && 0 <= j < later[k].len() && (
                    #[trigger] later[k][j]).room == rest[m];
                assert(planes[k + 1] == later[k]);
                assert(planes[k + 1][j].room == pool[i]);
            }
        }
        assert forall|k: int, j: int, m: int, n: int|
            0 <= k < planes.len() && 0 <= j < planes[k].len() && 0 <= m < planes.len() && 0 <= n
                < planes[m].len() && (k != m || j != n) implies (#[trigger] planes[k][j]).room.vnum
            != (#[trigger] planes[m][n]).room.vnum by {
            if k == 0 && m == 0 {
                if j < n {
                    assert(found.plane[j].room.vnum != found.plane[n].room.vnum);
                } else {
                    assert(found.plane[n].room.vnum != found.plane[j].room.vnum);
                }
            } else if k == 0 {
                assert(planes[m] == later[m - 1]);
                let room = later[m - 1][n].room;
                assert(occurs(rest, room));
                let i = choose|i: int| 0 <= i < rest.len() && #[trigger] rest[i] == room;
                assert(!placed(found.plane, rest[i].vnum));
            } else if m == 0 {
                assert(planes[k] == later[k - 1]);
                let room = later[k - 1][j].room;
                assert(occurs(rest, room));
                let i = choose|i: int| 0 <= i < rest.len() && #[trigger] rest[i] == room;
                assert(!placed(found.plane, rest[i].vnum));
            } else {
                assert(planes[k] == later[k - 1]);
                assert(planes[m] == later[m - 1]);
                assert(later[k - 1][j].room.vnum != later[m - 1][n].room.vnum);
            }
        }
    }
}

/// The planes as sequences of locations.
pub open spec fn plane_views(planes: Seq<Vec<Location>>) -> Seq<Seq<Location>> {
    Seq::new(planes.len(), |k: int| planes[k]@)
}

/// Takes the rooms that `plane` holds out of `pool`.
fn drop_placed(pool: &mut Vec<Rc<Room>>, plane: &Vec<Location>)
    ensures
        final(pool)@ == remaining(old(pool)@, plane@),
{
    let mut kept: Vec<Rc<Room>> = Vec::new();
    let mut i: usize = 0;
    while i < pool.len()
        invariant
            i <= pool.len(),
            pool@ == old(pool)@,
            kept@ == remaining(pool@.take(i as int), plane@),
        decreases pool.len() - i,
    {
        proof {
            assert(pool@.take(i + 1).drop_last() == pool@.take(i as int));
        }
        if !holds(plane, pool[i].vnum) {
            kept.push(share(&pool[i]));
        }
        i = i + 1;
    }
    proof {
        assert(pool@.take(i as int) == pool@);
    }
    *pool = kept;
}

/// Splits the rooms left to visit into planes and returns the planes in
/// the order in which they are found; no room is left to visit after.
/// A plane is flooded from its first room, breadth first, along the
/// cardinal exits that no rule overrides, and every room on it gets its
/// place on the plane's grid. The first plane starts at `location`, or at
/// the first room left to visit; each later plane starts at the room
/// that the plane before queued first for another plane, or at the first
/// room left where it queued none.
pub fn find_rooms_in_plane(
    location: Option<Location>,
    left_to_visit: &mut Vec<Rc<Room>>,
    rules: &[Rule],
) -> (planes: Vec<Vec<Location>>)
    requires
        may_partition(location, old(left_to_visit)@),
    ensures
        plane_views(planes@) == planes_from(location, old(left_to_visit)@, rules@),
        partitions(plane_views(planes@), old(left_to_visit)@),
        forall|k: int| 0 <= k < planes.len() ==> well_linked((#[trigger] planes[k])@, rules@),
        final(left_to_visit)@.len() == 0,
{
    let ghost pool0 = left_to_visit@;
    let ghost seed0 = location;
    let mut planes: Vec<Vec<Location>> = Vec::new();
    let mut seed = location;
    while left_to_visit.len() > 0
        invariant
            may_partition(seed, left_to_visit@),
            plane_views(planes@) + planes_from(seed, left_to_visit@, rules@) == planes_from(
                seed0,
                pool0,
                rules@,
            ),
        decreases left_to_visit.len(),
    {
        let ghost pool = left_to_visit@;
        let ghost old_seed = seed;
        let ghost done = plane_views(planes@);
        let root = match seed {
            Some(root) => root,
            None => Location { x: 0, y: 0, room: share(&left_to_visit[0]) },
        };
        proof {
            lemma_next_plane(old_seed, pool, rules@);
        }
        let (plane, seeds) = flood_plane(root, left_to_visit, rules);
        drop_placed(left_to_visit, &plane);
        seed = if seeds.len() > 0 {
            Some(Location { x: 0, y: 0, room: share(&seeds[0]) })
        } else {
            None
        };
        planes.push(plane);
        proof {
            let later = planes_from(seed, left_to_visit@, rules@);
            assert(plane_views(planes@) == done.push(plane@));
            assert(planes_from(old_seed, pool, rules@) == seq![plane@] + later);
            assert(done.push(plane@) + later == done + (seq![plane@] + later));
        }
    }
    proof {
        assert(planes_from(seed, left_to_visit@, rules@) == Seq::<Seq<Location>>::empty());
        assert(plane_views(planes@) + Seq::<Seq<Location>>::empty() == plane_views(planes@));
        lemma_planes_partition(seed0, pool0, rules@);
        lemma_planes_linked(seed0, pool0, rules@);
        assert forall|k: int| 0 <= k < planes.len() implies well_linked(
            (#[trigger] planes[k])@,
            rules@,
        ) by {
            assert(plane_views(planes@)[k] == planes[k]@);
        }
    }
    planes
}

/// The rectangle around the first `n` locations of a plane and the
/// origin.
pub open spec fn bounds_upto(plane: Seq<Location>, n: nat) -> Rect
    decreases n,
{
    if n == 0 || n > plane.len() {
        Rect { x1: 0, x2: 0, y1: 0, y2: 0 }
    } else {
        let before = bounds_upto(plane, (n - 1) as nat);
        let at = plane[n - 1];
        Rect {
            x1: if at.x < before.x1 { at.x } else { before.x1 },
            x2: if at.x > before.x2 { at.x } else { before.x2 },
            y1: if at.y < before.y1 { at.y } else { before.y1 },
            y2: if at.y > before.y2 { at.y } else { before.y2 },
        }
    }
}

impl Rect {
    /// Whether the rectangle holds the point `(x, y)`.
    pub open spec fn holds(&self, x: int, y: int) -> bool {
        self.x1 <= x <= self.x2 && self.y1 <= y <= self.y2
    }

    /// The rectangle around a plane: the smallest that holds the origin
    /// and every location of the plane.
    pub fn around(plane: &Vec<Location>) -> (r: Rect)
        ensures
            r == bounds_upto(plane@, plane@.len()),
            r.holds(0, 0),
            forall|k: int| 0 <= k < plane.len() ==> r.holds((#[trigger] plane[k]).x as int, plane[k].y as int),
            r.x1 == 0 || exists|k: int| 0 <= k < plane.len() && (#[trigger] plane[k]).x == r.x1,
            r.x2 == 0 || exists|k: int| 0 <= k < plane.len() && (#[trigger] plane[k]).x == r.x2,
            r.y1 == 0 || exists|k: int| 0 <= k < plane.len() && (#[trigger] plane[k]).y == r.y1,
            r.y2 == 0 || exists|k: int| 0 <= k < plane.len() && (#[trigger] plane[k]).y == r.y2,
    {
        let mut r = Rect { x1: 0, x2: 0, y1: 0, y2: 0 };
        let mut n: usize = 0;
        while n < plane.len()
            invariant
                n <= plane.len(),
                r == bounds_upto(plane@, n as nat),
                r.holds(0, 0),
                forall|k: int| 0 <= k < n ==> r.holds((#[trigger] plane[k]).x as int, plane[k].y as int),
                r.x1 == 0 || exists|k: int| 0 <= k < n && (#[trigger] plane[k]).x == r.x1,
                r.x2 == 0 || exists|k: int| 0 <= k < n && (#[trigger] plane[k]).x == r.x2,
                r.y1 == 0 || exists|k: int| 0 <= k < n && (#[trigger] plane[k]).y == r.y1,
                r.y2 == 0 || exists|k: int| 0 <= k < n && (#[trigger] plane[k]).y == r.y2,
            decreases plane.len() - n,
        {
            let at = &plane[n];
            let ghost before = r;
            if at.x < r.x1 {
                r.x1 = at.x;
            }
            if at.x > r.x2 {
                r.x2 = at.x;
            }
            if at.y < r.y1 {
                r.y1 = at.y;
            }
            if at.y > r.y2 {
                r.y2 = at.y;
            }
            proof {
                assert(before.x1 == 0 || exists|k: int| 0 <= k < n && (#[trigger] plane[k]).x == before.x1);
                assert(plane[n as int].x == at.x);
            }
            n = n + 1;
        }
        r
    }
}

impl Keyed for Rc<Room> {
    open spec fn key(&self) -> Vnum {
        self.vnum
    }

    fn sort_key(&self) -> (v: Vnum) {
        self.vnum
    }
}

/// The place of every room of `rooms` under its identifier: the room
/// itself and its index in `rooms`.
pub open spec fn room_places(rooms: Seq<Rc<Room>>) -> Map<Vnum, (Rc<Room>, usize)> {
    Map::new(
        |v: Vnum| room_index(rooms, v) is Some,
        |v: Vnum| (rooms[room_index(rooms, v).unwrap()], room_index(rooms, v).unwrap() as usize),
    )
}

/// Stores `room` and its place under `vnum` with `HashMap::insert`.
/// Trusted: after the call the map holds the new entry under `vnum` and
/// every other entry as before. This rests on `u32` hashing and comparing
/// by value and on the FNV hasher being a pure function of the bytes
/// written.
#[verifier::external_body]
fn index_insert(
    index: &mut FnvHashMap<Vnum, (Rc<Room>, usize)>,
    vnum: Vnum,
    room: Rc<Room>,
    place: usize,
)
    ensures
        final(index)@ == old(index)@.insert(vnum, (room, place)),
{
    index.insert(vnum, (room, place));
}

/// One more room adds its own entry to the places of the rooms before
/// it, where its identifier is new.
proof fn lemma_room_places_push(rooms: Seq<Rc<Room>>, n: int)
    requires
        distinct_vnums(rooms),
        0 <= n < rooms.len(),
    ensures
        room_places(rooms.take(n + 1)) == room_places(rooms.take(n)).insert(
            rooms[n].vnum,
            (rooms[n], n as usize),
        ),
{
    let before = rooms.take(n);
    let after = rooms.take(n + 1);
    assert(after.drop_last() == before);
    assert forall|v: Vnum| #[trigger] room_index(after, v) == (if room_index(before, v) is Some {
        room_index(before, v)
    } else if rooms[n].vnum == v {
        Some(n)
    } else {
        None
    }) by {}
    lemma_room_index(before, rooms[n].vnum);
    assert(room_index(before, rooms[n].vnum) is None) by {
        if room_index(before, rooms[n].vnum) is Some {
            let i = room_index(before, rooms[n].vnum).unwrap();
            assert(before[i] == rooms[i]);
        }
    }
    let target = room_places(before).insert(rooms[n].vnum, (rooms[n], n as usize));
    assert forall|v: Vnum| room_places(after).dom().contains(v) <==> target.dom().contains(v) by {
        assert(room_index(after, v) is Some <==> room_index(before, v) is Some || rooms[n].vnum
            == v);
    }
    assert forall|v: Vnum| #[trigger] room_places(after).dom().contains(v) implies room_places(
        after,
    )[v] == target[v] by {
        assert(room_index(after, v) is Some);
        lemma_room_index(before, v);
        if room_index(before, v) is Some {
            let i = room_index(before, v).unwrap();
            assert(before[i] == after[i]);
        }
    }
    assert(room_places(after) =~= target);
}

/// Sorts the rooms by identifier, records the place of each in that
/// order, and splits them into planes as `find_rooms_in_plane` does,
/// starting at the room with the least identifier.
pub fn sort_rooms(rooms: Vec<Rc<Room>>, rules: Vec<Rule>) -> (r: (
    FnvHashMap<Vnum, (Rc<Room>, usize)>,
    Vec<Vec<Location>>,
))
    requires
        distinct_vnums(rooms@),
        rooms.len() <= i32::MAX,
    ensures
        r.0@ == room_places(sorted_by_vnum(rooms@)),
        plane_views(r.1@) == planes_from(None, sorted_by_vnum(rooms@), rules@),
        partitions(plane_views(r.1@), rooms@),
        forall|k: int| 0 <= k < r.1.len() ==> well_linked((#[trigger] r.1[k])@, rules@),
{
    let ghost given = rooms@;
    let mut rooms = sort_by_vnum(rooms);
    let ghost sorted = rooms@;
    proof {
        lemma_sorted_distinct(given);
        lemma_sorted_ascending(given);
        lemma_sorted_members(given);
    }
    let mut by_vnum: FnvHashMap<Vnum, (Rc<Room>, usize)> = FnvHashMap::default();
    let mut i: usize = 0;
    proof {
        assert(room_places(sorted.take(0)) =~= Map::<Vnum, (Rc<Room>, usize)>::empty());
    }
    while i < rooms.len()
        invariant
            i <= rooms.len(),
            rooms@ == sorted,
            distinct_vnums(sorted),
            by_vnum@ == room_places(sorted.take(i as int)),
        decreases rooms.len() - i,
    {
        proof {
            lemma_room_places_push(sorted, i as int);
        }
        index_insert(&mut by_vnum, rooms[i].vnum, share(&rooms[i]), i);
        i = i + 1;
    }
    proof {
        assert(sorted.take(i as int) == sorted);
    }
    let planes = find_rooms_in_plane(None, &mut rooms, rules.as_slice());
    proof {
        lemma_partitions_same_rooms(plane_views(planes@), sorted, given);
    }
    (by_vnum, planes)
}

/// Planes that split one list of rooms split any list with distinct
/// identifiers that holds the same rooms.
proof fn lemma_partitions_same_rooms(
    planes: Seq<Seq<Location>>,
    pool: Seq<Rc<Room>>,
    other: Seq<Rc<Room>>,
)
    requires
        partitions(planes, pool),
        forall|k: int| 0 <= k < pool.len() ==> occurs(other, #[trigger] pool[k]),
        forall|i: int| 0 <= i < other.len() ==> occurs(pool, #[trigger] other[i]),
    ensures
        partitions(planes, other),
{
    assert forall|k: int, j: int| 0 <= k < planes.len() && 0 <= j < planes[k].len() implies occurs(
        other,
        (#[trigger] planes[k][j]).room,
    ) by {
        assert(occurs(pool, planes[k][j].room));
        let i = choose|i: int| 0 <= i < pool.len() && #[trigger] pool[i] == planes[k][j].room;
        assert(occurs(other, pool[i]));
    }
    assert forall|i: int| 0 <= i < other.len() implies held(planes, #[trigger] other[i]) by {
        assert(occurs(pool, other[i]));
        let k = choose|k: int| 0 <= k < pool.len() && #[trigger] pool[k] == other[i];
        assert(held(planes, pool[k]));
    }
}

} // verus!
