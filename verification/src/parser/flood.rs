//! The flood that finds one plane: breadth first from a root, along the
//! cardinal exits that no rule overrides.

use crate::model::room::{
    direction_at, direction_order, distinct_vnums, find_room, lemma_room_index, room_index, share,
};
use crate::model::{Direction, Room, Vnum};
use crate::parser::rule::Rule;
use crate::parser::sort_rooms::Location;
use std::collections::VecDeque;
use std::rc::Rc;
use vstd::prelude::*;

verus! {

/// A flood in progress: the rooms placed on the plane so far, those
/// queued for it, and the rooms queued to start other planes.
pub struct Flood {
    pub plane: Seq<Location>,
    pub queue: Seq<Location>,
    pub seeds: Seq<Rc<Room>>,
}

impl Flood {
    /// Every location the flood has reached, placed ones first.
    pub open spec fn reached(&self) -> Seq<Location> {
        self.plane + self.queue
    }
}

/// Whether one of `locs` holds the room with identifier `v`.
pub open spec fn placed(locs: Seq<Location>, v: Vnum) -> bool {
    exists|k: int| 0 <= k < locs.len() && (#[trigger] locs[k]).room.vnum == v
}

/// Whether `room` is one of `pool`, found there under its identifier.
pub open spec fn in_pool(pool: Seq<Rc<Room>>, room: Rc<Room>) -> bool {
    match room_index(pool, room.vnum) {
        Some(i) => pool[i] == room,
        None => false,
    }
}

/// Whether some rule makes the exit from room `from` to room `to` leave
/// its plane.
pub open spec fn overridden(rules: Seq<Rule>, from: Vnum, to: Vnum) -> bool {
    exists|k: int| 0 <= k < rules.len() && (#[trigger] rules[k]).splits(from, to)
}

/// Change of the first coordinate on a step in direction `d`.
pub open spec fn step_x(d: Direction) -> int {
    match d {
        Direction::East => 1,
        Direction::West => -1,
        _ => 0,
    }
}

/// Change of the second coordinate on a step in direction `d`.
pub open spec fn step_y(d: Direction) -> int {
    match d {
        Direction::North => 1,
        Direction::South => -1,
        _ => 0,
    }
}

/// `seeds` without the room that has identifier `v`.
pub open spec fn unseeded(seeds: Seq<Rc<Room>>, v: Vnum) -> Seq<Rc<Room>> {
    match room_index(seeds, v) {
        Some(k) => seeds.remove(k),
        None => seeds,
    }
}

/// The flood after the exit in direction `d` of the room at `at` has
/// been looked at. An exit to a room outside the pool, or to one the
/// flood has reached, changes nothing. An exit that a rule overrides, or
/// one that goes up or down, queues its destination to start another
/// plane, once. Any other exit queues it for this plane, one step from
/// `at`, and it no longer starts another.
pub open spec fn visit(
    s: Flood,
    at: Location,
    d: Direction,
    pool: Seq<Rc<Room>>,
    rules: Seq<Rule>,
) -> Flood {
    match at.room.exit_at(d) {
        None => s,
        Some((dest, _)) => match room_index(pool, dest) {
            None => s,
            Some(i) => if placed(s.reached(), dest) {
                s
            } else if overridden(rules, at.room.vnum, dest) || d.spec_is_vertical() {
                if room_index(s.seeds, dest) is Some {
                    s
                } else {
                    Flood { plane: s.plane, queue: s.queue, seeds: s.seeds.push(pool[i]) }
                }
            } else {
                Flood {
                    plane: s.plane,
                    queue: s.queue.push(
                        Location {
                            x: (at.x + step_x(d)) as i32,
                            y: (at.y + step_y(d)) as i32,
                            room: pool[i],
                        },
                    ),
                    seeds: unseeded(s.seeds, dest),
                }
            },
        },
    }
}

/// The flood after the first `n` exits, in walking order, of the room at
/// `at` have been looked at.
pub open spec fn visit_upto(
    s: Flood,
    at: Location,
    pool: Seq<Rc<Room>>,
    rules: Seq<Rule>,
    n: nat,
) -> Flood
    decreases n,
{
    if n == 0 || n > 6 {
        s
    } else {
        visit(
            visit_upto(s, at, pool, rules, (n - 1) as nat),
            at,
            direction_order()[n - 1],
            pool,
            rules,
        )
    }
}

/// One round of the flood: the head of the queue is placed on the plane
/// and its six exits are looked at.
pub open spec fn expand(s: Flood, pool: Seq<Rc<Room>>, rules: Seq<Rule>) -> Flood {
    let at = s.queue[0];
    visit_upto(
        Flood { plane: s.plane.push(at), queue: s.queue.drop_first(), seeds: s.seeds },
        at,
        pool,
        rules,
        6,
    )
}

/// The flood after at most `rounds` more rounds, fewer where the queue
/// runs empty before.
pub open spec fn drain(s: Flood, pool: Seq<Rc<Room>>, rules: Seq<Rule>, rounds: nat) -> Flood
    decreases rounds,
{
    if rounds == 0 || s.queue.len() == 0 {
        s
    } else {
        drain(expand(s, pool, rules), pool, rules, (rounds - 1) as nat)
    }
}

/// The flood that starts at `root`, run for as many rounds as the pool
/// has rooms; its queue is empty by then.
pub open spec fn flood(root: Location, pool: Seq<Rc<Room>>, rules: Seq<Rule>) -> Flood {
    drain(flood_start(root), pool, rules, pool.len())
}

/// Whether `loc` lies within `k` steps of `root` along either axis.
pub open spec fn near(root: Location, loc: Location, k: int) -> bool {
    &&& -k <= loc.x - root.x <= k
    &&& -k <= loc.y - root.y <= k
}

/// Whether a flood from `root` over `pool` cannot leave the range of the
/// coordinates.
pub open spec fn fits(root: Location, pool: Seq<Rc<Room>>) -> bool {
    &&& -(i32::MAX - pool.len()) <= root.x <= i32::MAX - pool.len()
    &&& -(i32::MAX - pool.len()) <= root.y <= i32::MAX - pool.len()
}

/// Whether no two of `locs` hold rooms with the same identifier.
pub open spec fn distinct_rooms(locs: Seq<Location>) -> bool {
    forall|j: int, k: int|
        0 <= j < k < locs.len() ==> (#[trigger] locs[j]).room.vnum != (#[trigger] locs[k]).room.vnum
}

/// What holds of the locations that a flood from `root` over `pool` has
/// reached: they start with the root, hold rooms of the pool only, each
/// once, and each lies no more steps from the root than locations were
/// reached before it.
pub open spec fn reached_ok(all: Seq<Location>, root: Location, pool: Seq<Rc<Room>>) -> bool {
    &&& all.len() > 0
    &&& all[0] == root
    &&& forall|k: int| 0 <= k < all.len() ==> in_pool(pool, (#[trigger] all[k]).room)
    &&& distinct_rooms(all)
    &&& forall|k: int| 0 <= k < all.len() ==> near(root, #[trigger] all[k], k)
}

/// What holds of the rooms queued to start other planes: they are rooms
/// of the pool that the flood has not reached, each queued once.
pub open spec fn seeds_ok(seeds: Seq<Rc<Room>>, all: Seq<Location>, pool: Seq<Rc<Room>>) -> bool {
    &&& forall|k: int| 0 <= k < seeds.len() ==> in_pool(pool, #[trigger] seeds[k])
    &&& forall|k: int| 0 <= k < seeds.len() ==> !placed(all, (#[trigger] seeds[k]).vnum)
    &&& distinct_vnums(seeds)
}

/// What holds of a flood from `root` over `pool` at every moment.
pub open spec fn flood_inv(s: Flood, root: Location, pool: Seq<Rc<Room>>) -> bool {
    &&& reached_ok(s.reached(), root, pool)
    &&& seeds_ok(s.seeds, s.reached(), pool)
}

/// Locations that hold distinct rooms of a pool are no more than the
/// pool has rooms.
pub proof fn lemma_reached_fit(locs: Seq<Location>, pool: Seq<Rc<Room>>)
    requires
        distinct_rooms(locs),
        forall|k: int| 0 <= k < locs.len() ==> in_pool(pool, (#[trigger] locs[k]).room),
    ensures
        locs.len() <= pool.len(),
{
    let places = Seq::new(locs.len(), |k: int| room_index(pool, locs[k].room.vnum).unwrap());
    assert forall|j: int, k: int| 0 <= j < places.len() && 0 <= k < places.len() && j
        != k implies places[j] != places[k] by {
        assert(in_pool(pool, locs[j].room));
        assert(in_pool(pool, locs[k].room));
        if j < k {
            assert(locs[j].room.vnum != locs[k].room.vnum);
        } else {
            assert(locs[k].room.vnum != locs[j].room.vnum);
        }
    }
    assert(places.no_duplicates());
    places.unique_seq_to_set();
    let range = vstd::set_lib::set_int_range(0, pool.len() as int);
    vstd::set_lib::lemma_int_range(0, pool.len() as int);
    assert forall|i: int| places.to_set().contains(i) implies range.contains(i) by {
        let k = choose|k: int| 0 <= k < places.len() && places[k] == i;
        assert(in_pool(pool, locs[k].room));
        lemma_room_index(pool, locs[k].room.vnum);
    }
    vstd::set_lib::lemma_len_subset(places.to_set(), range);
}

/// A location is held after a push if it was held before or is the one
/// pushed.
pub proof fn lemma_placed_push(locs: Seq<Location>, new: Location, v: Vnum)
    ensures
        placed(locs.push(new), v) <==> placed(locs, v) || new.room.vnum == v,
{
    let more = locs.push(new);
    if placed(locs, v) {
        let k = choose|k: int| 0 <= k < locs.len() && (#[trigger] locs[k]).room.vnum == v;
        assert(more[k].room.vnum == v);
    }
    if new.room.vnum == v {
        assert(more[locs.len() as int].room.vnum == v);
    }
    if placed(more, v) {
        let k = choose|k: int| 0 <= k < more.len() && (#[trigger] more[k]).room.vnum == v;
        if k < locs.len() {
            assert(locs[k].room.vnum == v);
        }
    }
}

/// Taking the room with identifier `v` out of seeds with distinct
/// identifiers leaves the other seeds, in their order.
pub proof fn lemma_unseeded(seeds: Seq<Rc<Room>>, v: Vnum)
    requires
        distinct_vnums(seeds),
    ensures
        distinct_vnums(unseeded(seeds, v)),
        forall|k: int|
            0 <= k < unseeded(seeds, v).len() ==> (#[trigger] unseeded(seeds, v)[k]).vnum != v
                && exists|j: int| 0 <= j < seeds.len() && seeds[j] == unseeded(seeds, v)[k],
        forall|j: int|
            0 <= j < seeds.len() && (#[trigger] seeds[j]).vnum != v ==> exists|k: int|
                0 <= k < unseeded(seeds, v).len() && unseeded(seeds, v)[k] == seeds[j],
{
    let rest = unseeded(seeds, v);
    lemma_room_index(seeds, v);
    match room_index(seeds, v) {
        None => {
            assert forall|k: int| 0 <= k < rest.len() implies (#[trigger] rest[k]).vnum != v
                && exists|j: int| 0 <= j < seeds.len() && seeds[j] == rest[k] by {
                assert(seeds[k] == rest[k]);
            }
        },
        Some(m) => {
            assert forall|k: int| 0 <= k < rest.len() implies (#[trigger] rest[k]).vnum != v
                && exists|j: int| 0 <= j < seeds.len() && seeds[j] == rest[k] by {
                if k < m {
                    assert(seeds[k] == rest[k]);
                    assert(seeds[k].vnum != seeds[m].vnum);
                } else {
                    assert(seeds[k + 1] == rest[k]);
                    assert(seeds[m].vnum != seeds[k + 1].vnum);
                }
            }
            assert forall|a: int, b: int| 0 <= a < b < rest.len() implies (#[trigger] rest[a]).vnum
                != (#[trigger] rest[b]).vnum by {
                let a0 = if a < m { a } else { a + 1 };
                let b0 = if b < m { b } else { b + 1 };
                assert(rest[a] == seeds[a0]);
                assert(rest[b] == seeds[b0]);
                assert(seeds[a0].vnum != seeds[b0].vnum);
            }
            assert forall|j: int| 0 <= j < seeds.len() && (#[trigger] seeds[j]).vnum
                != v implies exists|k: int| 0 <= k < rest.len() && rest[k] == seeds[j] by {
                let k = if j < m { j } else { j - 1 };
                assert(rest[k] == seeds[j]);
            }
        },
    }
}

/// The room whose exits are being looked at lies at least one step
/// inside the range of the coordinates.
pub proof fn lemma_step_fits(s: Flood, root: Location, pool: Seq<Rc<Room>>)
    requires
        flood_inv(s, root, pool),
        fits(root, pool),
        s.plane.len() > 0,
    ensures
        -i32::MAX < s.plane.last().x < i32::MAX,
        -i32::MAX < s.plane.last().y < i32::MAX,
{
    lemma_reached_fit(s.reached(), pool);
    let k = s.plane.len() - 1;
    assert(s.reached()[k] == s.plane.last());
    assert(near(root, s.reached()[k], k));
}

/// One more location, of a room of the pool not reached before and
/// near enough to the root, keeps what holds of the locations reached.
pub proof fn lemma_reached_push(
    all: Seq<Location>,
    new: Location,
    root: Location,
    pool: Seq<Rc<Room>>,
)
    requires
        reached_ok(all, root, pool),
        in_pool(pool, new.room),
        !placed(all, new.room.vnum),
        near(root, new, all.len() as int),
    ensures
        reached_ok(all.push(new), root, pool),
{
    let more = all.push(new);
    assert forall|k: int| 0 <= k < more.len() implies in_pool(pool, (#[trigger] more[k]).room)
        && near(root, more[k], k) by {
        if k < all.len() {
            assert(more[k] == all[k]);
        }
    }
    assert forall|a: int, b: int| 0 <= a < b < more.len() implies (#[trigger] more[a]).room.vnum
        != (#[trigger] more[b]).room.vnum by {
        assert(more[a] == all[a]);
        if b < all.len() {
            assert(more[b] == all[b]);
        }
    }
}

/// One more seed, a room of the pool neither reached nor queued as a
/// seed before, keeps what holds of the seeds.
pub proof fn lemma_seeds_push(
    seeds: Seq<Rc<Room>>,
    room: Rc<Room>,
    all: Seq<Location>,
    pool: Seq<Rc<Room>>,
)
    requires
        seeds_ok(seeds, all, pool),
        in_pool(pool, room),
        !placed(all, room.vnum),
        room_index(seeds, room.vnum) is None,
    ensures
        seeds_ok(seeds.push(room), all, pool),
{
    let more = seeds.push(room);
    lemma_room_index(seeds, room.vnum);
    assert forall|k: int| 0 <= k < more.len() implies in_pool(pool, #[trigger] more[k])
        && !placed(all, more[k].vnum) by {
        if k < seeds.len() {
            assert(more[k] == seeds[k]);
        }
    }
    assert forall|a: int, b: int| 0 <= a < b < more.len() implies (#[trigger] more[a]).vnum != (
    #[trigger] more[b]).vnum by {
        assert(more[a] == seeds[a]);
        if b < seeds.len() {
            assert(more[b] == seeds[b]);
        }
    }
}

/// Where a location is reached and its room taken from the seeds, what
/// holds of the seeds still holds.
pub proof fn lemma_seeds_claimed(
    seeds: Seq<Rc<Room>>,
    new: Location,
    all: Seq<Location>,
    pool: Seq<Rc<Room>>,
)
    requires
        seeds_ok(seeds, all, pool),
    ensures
        seeds_ok(unseeded(seeds, new.room.vnum), all.push(new), pool),
{
    let rest = unseeded(seeds, new.room.vnum);
    lemma_unseeded(seeds, new.room.vnum);
    assert forall|k: int| 0 <= k < rest.len() implies in_pool(pool, #[trigger] rest[k])
        && !placed(all.push(new), rest[k].vnum) by {
        let j = choose|j: int| 0 <= j < seeds.len() && seeds[j] == rest[k];
        assert(in_pool(pool, seeds[j]));
        assert(!placed(all, seeds[j].vnum));
        lemma_placed_push(all, new, rest[k].vnum);
    }
}

/// Looking at one exit keeps what holds of a flood and leaves the plane
/// as it is.
pub proof fn lemma_visit(
    s: Flood,
    d: Direction,
    root: Location,
    pool: Seq<Rc<Room>>,
    rules: Seq<Rule>,
)
    requires
        flood_inv(s, root, pool),
        fits(root, pool),
        s.plane.len() > 0,
    ensures
        flood_inv(visit(s, s.plane.last(), d, pool, rules), root, pool),
        visit(s, s.plane.last(), d, pool, rules).plane == s.plane,
{
    let at = s.plane.last();
    let next = visit(s, at, d, pool, rules);
    let all = s.reached();
    match at.room.exit_at(d) {
        None => {},
        Some((dest, _)) => match room_index(pool, dest) {
            None => {},
            Some(i) => {
                lemma_room_index(pool, dest);
                if placed(all, dest) {
                } else if overridden(rules, at.room.vnum, dest) || d.spec_is_vertical() {
                    if room_index(s.seeds, dest) is None {
                        assert(next.reached() == all);
                        lemma_seeds_push(s.seeds, pool[i], all, pool);
                    }
                } else {
                    lemma_step_fits(s, root, pool);
                    lemma_reached_fit(all, pool);
                    let new = Location {
                        x: (at.x + step_x(d)) as i32,
                        y: (at.y + step_y(d)) as i32,
                        room: pool[i],
                    };
                    assert(new.x == at.x + step_x(d));
                    assert(new.y == at.y + step_y(d));
                    assert(next.reached() == all.push(new));
                    let last = s.plane.len() - 1;
                    assert(all[last] == at);
                    assert(near(root, all[last], last));
                    lemma_reached_push(all, new, root, pool);
                    lemma_seeds_claimed(s.seeds, new, all, pool);
                }
            },
        },
    }
}

/// Looking at the first `n` exits of the room placed last keeps what
/// holds of a flood and leaves the plane as it is.
pub proof fn lemma_visit_upto(
    s: Flood,
    root: Location,
    pool: Seq<Rc<Room>>,
    rules: Seq<Rule>,
    n: nat,
)
    requires
        flood_inv(s, root, pool),
        fits(root, pool),
        s.plane.len() > 0,
    ensures
        flood_inv(visit_upto(s, s.plane.last(), pool, rules, n), root, pool),
        visit_upto(s, s.plane.last(), pool, rules, n).plane == s.plane,
    decreases n,
{
    if n > 0 && n <= 6 {
        lemma_visit_upto(s, root, pool, rules, (n - 1) as nat);
        let before = visit_upto(s, s.plane.last(), pool, rules, (n - 1) as nat);
        lemma_visit(before, direction_order()[n - 1], root, pool, rules);
    }
}

/// A round keeps what holds of a flood and places one more room.
pub proof fn lemma_expand(s: Flood, root: Location, pool: Seq<Rc<Room>>, rules: Seq<Rule>)
    requires
        flood_inv(s, root, pool),
        fits(root, pool),
        s.queue.len() > 0,
    ensures
        flood_inv(expand(s, pool, rules), root, pool),
        expand(s, pool, rules).plane == s.plane.push(s.queue[0]),
{
    let at = s.queue[0];
    let moved = Flood { plane: s.plane.push(at), queue: s.queue.drop_first(), seeds: s.seeds };
    assert(moved.reached() == s.reached());
    lemma_visit_upto(moved, root, pool, rules, 6);
}

/// Running a flood keeps what holds of it, and empties the queue where
/// the rounds make up for the rooms of the pool not yet placed.
pub proof fn lemma_drain(
    s: Flood,
    root: Location,
    pool: Seq<Rc<Room>>,
    rules: Seq<Rule>,
    rounds: nat,
)
    requires
        flood_inv(s, root, pool),
        fits(root, pool),
    ensures
        flood_inv(drain(s, pool, rules, rounds), root, pool),
        s.plane.len() + rounds >= pool.len() ==> drain(s, pool, rules, rounds).queue.len() == 0,
    decreases rounds,
{
    lemma_reached_fit(s.reached(), pool);
    if rounds > 0 && s.queue.len() > 0 {
        lemma_expand(s, root, pool, rules);
        lemma_drain(expand(s, pool, rules), root, pool, rules, (rounds - 1) as nat);
    }
}

/// Whether a flood may start at `root`: the root is a room of the pool,
/// the rooms of the pool have distinct identifiers, and the coordinates
/// have room for the flood.
pub open spec fn may_flood(root: Location, pool: Seq<Rc<Room>>) -> bool {
    &&& distinct_vnums(pool)
    &&& in_pool(pool, root.room)
    &&& fits(root, pool)
}

/// The flood at its start.
pub open spec fn flood_start(root: Location) -> Flood {
    Flood { plane: Seq::empty(), queue: seq![root], seeds: Seq::empty() }
}

/// What holds of a flood holds of it at its start.
pub proof fn lemma_flood_start(root: Location, pool: Seq<Rc<Room>>)
    requires
        may_flood(root, pool),
    ensures
        flood_inv(flood_start(root), root, pool),
{
    let s = flood_start(root);
    assert(s.reached() == seq![root]);
    assert(distinct_rooms(s.reached()));
}

/// A finished flood has an empty queue and a plane that starts with the
/// root.
pub proof fn lemma_flood(root: Location, pool: Seq<Rc<Room>>, rules: Seq<Rule>)
    requires
        may_flood(root, pool),
    ensures
        flood_inv(flood(root, pool, rules), root, pool),
        flood(root, pool, rules).queue.len() == 0,
        flood(root, pool, rules).plane.len() > 0,
        flood(root, pool, rules).plane[0] == root,
{
    lemma_flood_start(root, pool);
    lemma_drain(flood_start(root), root, pool, rules, pool.len());
    let f = flood(root, pool, rules);
    assert(f.reached() == f.plane);
}

/// What is held by one of two lists is held by the two joined.
pub proof fn lemma_placed_joined(front: Seq<Location>, back: Seq<Location>, v: Vnum)
    ensures
        placed(front + back, v) <==> placed(front, v) || placed(back, v),
{
    let all = front + back;
    if placed(front, v) {
        let k = choose|k: int| 0 <= k < front.len() && (#[trigger] front[k]).room.vnum == v;
        assert(all[k].room.vnum == v);
    }
    if placed(back, v) {
        let k = choose|k: int| 0 <= k < back.len() && (#[trigger] back[k]).room.vnum == v;
        assert(all[front.len() + k].room.vnum == v);
    }
    if placed(all, v) {
        let k = choose|k: int| 0 <= k < all.len() && (#[trigger] all[k]).room.vnum == v;
        if k < front.len() {
            assert(front[k].room.vnum == v);
        } else {
            assert(back[k - front.len()].room.vnum == v);
        }
    }
}

/// Whether one of `locs` holds the room with identifier `v`.
pub(crate) fn holds(locs: &Vec<Location>, v: Vnum) -> (r: bool)
    ensures
        r == placed(locs@, v),
{
    let mut k: usize = 0;
    while k < locs.len()
        invariant
            k <= locs.len(),
            forall|j: int| 0 <= j < k ==> (#[trigger] locs@[j]).room.vnum != v,
        decreases locs.len() - k,
    {
        if locs[k].room.vnum == v {
            return true;
        }
        k = k + 1;
    }
    false
}

/// Whether one of the queued locations holds the room with identifier
/// `v`.
fn queue_holds(queue: &VecDeque<Location>, v: Vnum) -> (r: bool)
    ensures
        r == placed(queue@, v),
{
    let mut k: usize = 0;
    while k < queue.len()
        invariant
            k <= queue.len(),
            forall|j: int| 0 <= j < k ==> (#[trigger] queue@[j]).room.vnum != v,
        decreases queue.len() - k,
    {
        if queue[k].room.vnum == v {
            return true;
        }
        k = k + 1;
    }
    false
}

/// Whether some rule makes the exit from `from` to `to` leave its plane.
fn is_overridden(rules: &[Rule], from: Vnum, to: Vnum) -> (r: bool)
    ensures
        r == overridden(rules@, from, to),
{
    let mut k: usize = 0;
    while k < rules.len()
        invariant
            k <= rules.len(),
            forall|j: int| 0 <= j < k ==> !(#[trigger] rules@[j]).splits(from, to),
        decreases rules.len() - k,
    {
        let hit = match rules[k] {
            Rule::Isolate(v) => v == from,
            Rule::Separate(a, b) => (a == from && b == to) || (b == from && a == to),
        };
        if hit {
            return true;
        }
        k = k + 1;
    }
    false
}

/// Looks at the exit in direction `d` of the room placed last.
fn visit_exit(
    plane: &Vec<Location>,
    queue: &mut VecDeque<Location>,
    seeds: &mut Vec<Rc<Room>>,
    d: Direction,
    pool: &Vec<Rc<Room>>,
    rules: &[Rule],
    Ghost(root): Ghost<Location>,
)
    requires
        flood_inv((Flood { plane: plane@, queue: old(queue)@, seeds: old(seeds)@ }), root, pool@),
        fits(root, pool@),
        plane.len() > 0,
    ensures
        (Flood { plane: plane@, queue: final(queue)@, seeds: final(seeds)@ }) == visit(
            (Flood { plane: plane@, queue: old(queue)@, seeds: old(seeds)@ }),
            plane@.last(),
            d,
            pool@,
            rules@,
        ),
{
    let ghost before = Flood { plane: plane@, queue: queue@, seeds: seeds@ };
    let at = &plane[plane.len() - 1];
    let (dest, _) = match at.room.exit(d) {
        Some(exit) => exit,
        None => { return ; },
    };
    let i = match find_room(pool.as_slice(), dest) {
        Some(i) => i,
        None => { return ; },
    };
    proof {
        lemma_room_index(pool@, dest);
        lemma_placed_joined(plane@, queue@, dest);
    }
    if holds(plane, dest) || queue_holds(queue, dest) {
        return ;
    }
    if is_overridden(rules, at.room.vnum, dest) || d.is_vertical() {
        if find_room(seeds.as_slice(), dest).is_none() {
            seeds.push(share(&pool[i]));
        }
        return ;
    }
    let (dx, dy): (i32, i32) = match d {
        Direction::North => (0, 1),
        Direction::East => (1, 0),
        Direction::South => (0, -1),
        Direction::West => (-1, 0),
        _ => (0, 0),
    };
    proof {
        lemma_step_fits(before, root, pool@);
    }
    if let Some(k) = find_room(seeds.as_slice(), dest) {
        proof {
            lemma_room_index(seeds@, dest);
        }
        seeds.remove(k);
    }
    queue.push_back(Location { x: at.x + dx, y: at.y + dy, room: share(&pool[i]) });
}

/// One round of the flood: places the head of the queue and looks at
/// its six exits.
fn expand_front(
    plane: &mut Vec<Location>,
    queue: &mut VecDeque<Location>,
    seeds: &mut Vec<Rc<Room>>,
    pool: &Vec<Rc<Room>>,
    rules: &[Rule],
    Ghost(root): Ghost<Location>,
)
    requires
        flood_inv(
            (Flood { plane: old(plane)@, queue: old(queue)@, seeds: old(seeds)@ }),
            root,
            pool@,
        ),
        fits(root, pool@),
        old(queue).len() > 0,
    ensures
        (Flood { plane: final(plane)@, queue: final(queue)@, seeds: final(seeds)@ }) == expand(
            (Flood { plane: old(plane)@, queue: old(queue)@, seeds: old(seeds)@ }),
            pool@,
            rules@,
        ),
{
    let ghost before = Flood { plane: plane@, queue: queue@, seeds: seeds@ };
    let at = queue.pop_front().unwrap();
    plane.push(at);
    let ghost moved = Flood { plane: plane@, queue: queue@, seeds: seeds@ };
    proof {
        assert(moved.queue == before.queue.drop_first());
        assert(moved.reached() == before.reached());
    }
    let mut k: usize = 0;
    while k < 6
        invariant
            k <= 6,
            fits(root, pool@),
            flood_inv(moved, root, pool@),
            moved.plane.len() > 0,
            plane@ == moved.plane,
            (Flood { plane: plane@, queue: queue@, seeds: seeds@ }) == visit_upto(
                moved,
                moved.plane.last(),
                pool@,
                rules@,
                k as nat,
            ),
        decreases 6 - k,
    {
        proof {
            lemma_visit_upto(moved, root, pool@, rules@, k as nat);
        }
        visit_exit(plane, queue, seeds, direction_at(k), pool, rules, Ghost(root));
        k = k + 1;
    }
}

/// Floods one plane from `root`: the rooms that cardinal exits which no
/// rule overrides lead to, breadth first, each with its place on the
/// grid, and the rooms that start other planes.
pub(crate) fn flood_plane(root: Location, pool: &Vec<Rc<Room>>, rules: &[Rule]) -> (r: (
    Vec<Location>,
    Vec<Rc<Room>>,
))
    requires
        may_flood(root, pool@),
    ensures
        r.0@ == flood(root, pool@, rules@).plane,
        r.1@ == flood(root, pool@, rules@).seeds,
{
    let ghost start = root;
    let mut plane: Vec<Location> = Vec::new();
    let mut queue: VecDeque<Location> = VecDeque::new();
    let mut seeds: Vec<Rc<Room>> = Vec::new();
    queue.push_back(root);
    proof {
        lemma_flood_start(start, pool@);
        assert(queue@ == seq![start]);
    }
    while queue.len() > 0
        invariant
            fits(start, pool@),
            flood_inv((Flood { plane: plane@, queue: queue@, seeds: seeds@ }), start, pool@),
            plane.len() <= pool.len(),
            drain(
                (Flood { plane: plane@, queue: queue@, seeds: seeds@ }),
                pool@,
                rules@,
                (pool.len() - plane.len()) as nat,
            ) == flood(start, pool@, rules@),
        decreases pool.len() - plane.len(),
    {
        let ghost before = Flood { plane: plane@, queue: queue@, seeds: seeds@ };
        proof {
            lemma_reached_fit(before.reached(), pool@);
            lemma_expand(before, start, pool@, rules@);
        }
        expand_front(&mut plane, &mut queue, &mut seeds, pool, rules, Ghost(start));
        proof {
            let after = Flood { plane: plane@, queue: queue@, seeds: seeds@ };
            lemma_reached_fit(after.reached(), pool@);
        }
    }
    (plane, seeds)
}

} // verus!
