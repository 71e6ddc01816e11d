//! How the parts of a map fit together: the place recorded for a room is
//! the index of that room among the rooms of the drawing.

use crate::model::position_rooms::{drawn_plane, drawn_upto, Location};
use crate::model::room::{distinct_vnums, lemma_room_index_distinct};
use crate::model::{Room, Vnum};
use crate::order::{
    distinct_keys, lemma_sorted_ascending, lemma_sorted_distinct, lemma_sorted_members, occurs,
    sorted_by_vnum, Keyed,
};
use crate::parser;
use crate::parser::rule::Rule;
use crate::parser::sort_rooms::{
    held, lemma_planes_partition, partitions, planes_from, room_places,
};
use std::rc::Rc;
use vstd::prelude::*;

verus! {

/// Whether `room` lies on one of the first `n` planes.
pub open spec fn room_on(planes: Seq<Seq<parser::Location>>, n: int, room: Rc<Room>) -> bool {
    exists|k: int, j: int|
        0 <= k < n && k < planes.len() && 0 <= j < planes[k].len() && (
        #[trigger] planes[k][j]).room == room
}

/// Whether one of `flat` holds `room`.
pub open spec fn room_in(flat: Seq<Location>, room: Rc<Room>) -> bool {
    exists|q: int| 0 <= q < flat.len() && (#[trigger] flat[q]).room == room
}

/// The locations of one plane in the drawing hold the rooms of the
/// plane, place by place.
pub proof fn lemma_drawn_plane(
    plane: Seq<parser::Location>,
    square_size: int,
    index: int,
    count: int,
)
    ensures
        drawn_plane(plane, square_size, index, count).len() == plane.len(),
        forall|j: int|
            0 <= j < plane.len() ==> (#[trigger] drawn_plane(
                plane,
                square_size,
                index,
                count,
            )[j]).room == plane[j].room,
{
}

/// The locations of the first `n` planes in the drawing hold the rooms
/// of those planes, every room once.
pub proof fn lemma_drawn_upto(
    planes: Seq<Seq<parser::Location>>,
    pool: Seq<Rc<Room>>,
    square_size: int,
    n: nat,
)
    requires
        partitions(planes, pool),
        n <= planes.len(),
    ensures
        forall|q: int|
            0 <= q < drawn_upto(planes, square_size, n).len() ==> #[trigger] room_on(
                planes,
                n as int,
                drawn_upto(planes, square_size, n)[q].room,
            ),
        forall|k: int, j: int|
            0 <= k < n && 0 <= j < planes[k].len() ==> #[trigger] room_in(
                drawn_upto(planes, square_size, n),
                planes[k][j].room,
            ),
        distinct_keys(drawn_upto(planes, square_size, n)),
    decreases n,
{
    let flat = drawn_upto(planes, square_size, n);
    if n > 0 {
        let before = drawn_upto(planes, square_size, (n - 1) as nat);
        let plane = planes[n - 1];
        let last = drawn_plane(plane, square_size, n - 1, planes.len() as int);
        lemma_drawn_upto(planes, pool, square_size, (n - 1) as nat);
        lemma_drawn_plane(plane, square_size, n - 1, planes.len() as int);
        assert(flat == before + last);
        assert forall|q: int| 0 <= q < flat.len() implies #[trigger] room_on(
            planes,
            n as int,
            flat[q].room,
        ) by {
            if q < before.len() {
                assert(flat[q] == before[q]);
                assert(room_on(planes, n - 1, before[q].room));
                let (k, j) = choose|k: int, j: int|
                    0 <= k < n - 1 && k < planes.len() && 0 <= j < planes[k].len() && (
                    #[trigger] planes[k][j]).room == before[q].room;
                assert(planes[k][j].room == flat[q].room);
            } else {
                let j = q - before.len();
                assert(flat[q] == last[j]);
                assert(planes[n - 1][j].room == flat[q].room);
            }
        }
        assert forall|k: int, j: int| 0 <= k < n && 0 <= j < planes[k].len() implies #[trigger] room_in(
            flat,
            planes[k][j].room,
        ) by {
            if k < n - 1 {
                assert(room_in(before, planes[k][j].room));
                let q = choose|q: int|
                    0 <= q < before.len() && (#[trigger] before[q]).room == planes[k][j].room;
                assert(flat[q] == before[q]);
                assert(flat[q].room == planes[k][j].room);
            } else {
                let q = before.len() + j;
                assert(flat[q] == last[j]);
                assert(flat[q].room == planes[k][j].room);
            }
        }
        assert forall|a: int, b: int| 0 <= a < b < flat.len() implies (#[trigger] flat[a]).key() != (
        #[trigger] flat[b]).key() by {
            if b < before.len() {
                assert(flat[a] == before[a] && flat[b] == before[b]);
                assert(before[a].key() != before[b].key());
            } else {
                let j = b - before.len();
                assert(flat[b] == last[j]);
                assert(planes[n - 1][j].room == flat[b].room);
                if a < before.len() {
                    assert(flat[a] == before[a]);
                    assert(room_on(planes, n - 1, before[a].room));
                    let (k, i) = choose|k: int, i: int|
                        0 <= k < n - 1 && k < planes.len() && 0 <= i < planes[k].len() && (
                        #[trigger] planes[k][i]).room == before[a].room;
                    lemma_held_once(planes, pool, k, i, n - 1, j);
                } else {
                    let i = a - before.len();
                    assert(flat[a] == last[i]);
                    assert(planes[n - 1][i].room == flat[a].room);
                    lemma_held_once(planes, pool, n - 1, i, n - 1, j);
                }
            }
        }
    }
}

/// Two different places on the planes hold rooms with different
/// identifiers.
pub proof fn lemma_held_once(
    planes: Seq<Seq<parser::Location>>,
    pool: Seq<Rc<Room>>,
    k: int,
    j: int,
    m: int,
    n: int,
)
    requires
        partitions(planes, pool),
        0 <= k < planes.len(),
        0 <= j < planes[k].len(),
        0 <= m < planes.len(),
        0 <= n < planes[m].len(),
        k != m || j != n,
    ensures
        planes[k][j].room.vnum != planes[m][n].room.vnum,
{
}

/// Two lists of identifiers, each strictly ascending, that hold the same
/// identifiers are one and the same.
pub proof fn lemma_ascending_same(a: Seq<Vnum>, b: Seq<Vnum>)
    requires
        forall|i: int, j: int| 0 <= i < j < a.len() ==> a[i] < a[j],
        forall|i: int, j: int| 0 <= i < j < b.len() ==> b[i] < b[j],
        forall|i: int| 0 <= i < a.len() ==> #[trigger] b.contains(a[i]),
        forall|j: int| 0 <= j < b.len() ==> #[trigger] a.contains(b[j]),
    ensures
        a == b,
    decreases a.len(),
{
    if a.len() == 0 {
        if b.len() > 0 {
            assert(a.contains(b[0]));
        }
        assert(a =~= b);
    } else {
        let top = a.last();
        assert(b.contains(a[a.len() - 1]));
        let j = choose|j: int| 0 <= j < b.len() && b[j] == top;
        assert(a.contains(b[b.len() - 1]));
        let i = choose|i: int| 0 <= i < a.len() && a[i] == b[b.len() - 1];
        assert(b.last() == top) by {
            if j < b.len() - 1 {
                assert(b[j] < b[b.len() - 1]);
            }
            if i < a.len() - 1 {
                assert(a[i] < a[a.len() - 1]);
            }
        }
        let a0 = a.drop_last();
        let b0 = b.drop_last();
        assert forall|m: int| 0 <= m < a0.len() implies #[trigger] b0.contains(a0[m]) by {
            assert(a0[m] == a[m]);
            assert(a[m] < a[a.len() - 1]);
            assert(b.contains(a[m]));
            let n = choose|n: int| 0 <= n < b.len() && b[n] == a[m];
            assert(b0[n] == a0[m]);
        }
        assert forall|n: int| 0 <= n < b0.len() implies #[trigger] a0.contains(b0[n]) by {
            assert(b0[n] == b[n]);
            assert(b[n] < b[b.len() - 1]);
            assert(a.contains(b[n]));
            let m = choose|m: int| 0 <= m < a.len() && a[m] == b[n];
            assert(a0[m] == b0[n]);
        }
        assert forall|m: int, n: int| 0 <= m < n < a0.len() implies a0[m] < a0[n] by {
            assert(a0[m] == a[m] && a0[n] == a[n]);
        }
        assert forall|m: int, n: int| 0 <= m < n < b0.len() implies b0[m] < b0[n] by {
            assert(b0[m] == b[m] && b0[n] == b[n]);
        }
        lemma_ascending_same(a0, b0);
        assert(a =~= a0.push(top));
        assert(b =~= b0.push(top));
    }
}

/// Every room of the drawing is one of the sorted rooms, and every
/// sorted room is a room of the drawing.
proof fn lemma_drawing_rooms(rooms: Seq<Rc<Room>>, rules: Seq<Rule>, square_size: int)
    requires
        distinct_vnums(rooms),
        rooms.len() <= i32::MAX,
    ensures
        ({
            let sorted = sorted_by_vnum(rooms);
            let planes = planes_from(None, sorted, rules);
            let drawing = sorted_by_vnum(drawn_upto(planes, square_size, planes.len()));
            &&& forall|m: int| 0 <= m < drawing.len() ==> occurs(sorted, (#[trigger] drawing[m]).room)
            &&& forall|n: int| 0 <= n < sorted.len() ==> room_in(drawing, #[trigger] sorted[n])
        }),
{
    let sorted = sorted_by_vnum(rooms);
    lemma_sorted_distinct(rooms);
    lemma_sorted_ascending(rooms);
    let planes = planes_from(None, sorted, rules);
    lemma_planes_partition(None, sorted, rules);
    let flat = drawn_upto(planes, square_size, planes.len());
    lemma_drawn_upto(planes, sorted, square_size, planes.len());
    let drawing = sorted_by_vnum(flat);
    lemma_sorted_members(flat);
    assert forall|m: int| 0 <= m < drawing.len() implies occurs(
        sorted,
        (#[trigger] drawing[m]).room,
    ) by {
        assert(occurs(flat, drawing[m]));
        let q = choose|q: int| 0 <= q < flat.len() && #[trigger] flat[q] == drawing[m];
        assert(room_on(planes, planes.len() as int, flat[q].room));
        let (k, j) = choose|k: int, j: int|
            0 <= k < planes.len() && k < planes.len() && 0 <= j < planes[k].len() && (
            #[trigger] planes[k][j]).room == flat[q].room;
        assert(occurs(sorted, planes[k][j].room));
    }
    assert forall|n: int| 0 <= n < sorted.len() implies room_in(drawing, #[trigger] sorted[n]) by {
        assert(held(planes, sorted[n]));
        let (k, j) = choose|k: int, j: int|
            0 <= k < planes.len() && 0 <= j < planes[k].len() && (#[trigger] planes[k][j]).room
                == sorted[n];
        assert(room_in(flat, planes[k][j].room));
        let q = choose|q: int| 0 <= q < flat.len() && (#[trigger] flat[q]).room == sorted[n];
        assert(occurs(drawing, flat[q]));
        let m = choose|m: int| 0 <= m < drawing.len() && #[trigger] drawing[m] == flat[q];
        assert(drawing[m].room == sorted[n]);
    }
}

/// The place recorded for a room is its index in the drawing. Where the
/// rooms have distinct identifiers, the rooms of the drawing, which lists
/// the rooms of all planes in ascending order of identifier, are the
/// sorted rooms one by one; so the place that `sort_rooms` records for a
/// room, and that `map_connection` gives to an exit of the room, is the
/// index at which `position_rooms` lists the room.
pub proof fn lemma_places_index_the_drawing(
    rooms: Seq<Rc<Room>>,
    rules: Seq<Rule>,
    square_size: int,
    i: int,
)
    requires
        distinct_vnums(rooms),
        rooms.len() <= i32::MAX,
        0 <= i < rooms.len(),
    ensures
        ({
            let sorted = sorted_by_vnum(rooms);
            let planes = planes_from(None, sorted, rules);
            let drawing = sorted_by_vnum(drawn_upto(planes, square_size, planes.len()));
            &&& drawing.len() == rooms.len()
            &&& drawing[i].room == sorted[i]
            &&& room_places(sorted)[drawing[i].room.vnum].1 == i
        }),
{
    let sorted = sorted_by_vnum(rooms);
    lemma_sorted_distinct(rooms);
    lemma_sorted_ascending(rooms);
    let planes = planes_from(None, sorted, rules);
    lemma_planes_partition(None, sorted, rules);
    let flat = drawn_upto(planes, square_size, planes.len());
    lemma_drawn_upto(planes, sorted, square_size, planes.len());
    let drawing = sorted_by_vnum(flat);
    lemma_sorted_distinct(flat);
    lemma_sorted_ascending(flat);
    lemma_drawing_rooms(rooms, rules, square_size);
    let a = Seq::new(drawing.len(), |q: int| drawing[q].room.vnum);
    let b = Seq::new(sorted.len(), |q: int| sorted[q].vnum);
    assert forall|m: int, n: int| 0 <= m < n < a.len() implies a[m] < a[n] by {
        assert(drawing[m].key() <= drawing[n].key());
        assert(drawing[m].key() != drawing[n].key());
    }
    assert forall|m: int, n: int| 0 <= m < n < b.len() implies b[m] < b[n] by {
        assert(sorted[m].key() <= sorted[n].key());
        assert(sorted[m].key() != sorted[n].key());
    }
    assert forall|m: int| 0 <= m < a.len() implies #[trigger] b.contains(a[m]) by {
        assert(occurs(sorted, drawing[m].room));
        let n = choose|n: int| 0 <= n < sorted.len() && #[trigger] sorted[n] == drawing[m].room;
        assert(b[n] == a[m]);
    }
    assert forall|n: int| 0 <= n < b.len() implies #[trigger] a.contains(b[n]) by {
        assert(room_in(drawing, sorted[n]));
        let m = choose|m: int| 0 <= m < drawing.len() && (#[trigger] drawing[m]).room == sorted[n];
        assert(a[m] == b[n]);
    }
    lemma_ascending_same(a, b);
    assert(a.len() == b.len());
    assert(a[i] == b[i]);
    assert(occurs(sorted, drawing[i].room));
    let n = choose|n: int| 0 <= n < sorted.len() && #[trigger] sorted[n] == drawing[i].room;
    assert(n == i) by {
        if n < i {
            assert(sorted[n].key() != sorted[i].key());
        } else if i < n {
            assert(sorted[i].key() != sorted[n].key());
        }
    }
    lemma_room_index_distinct(sorted, i);
}

} // verus!
