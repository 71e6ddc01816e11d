//! What a flood guarantees of its plane beyond its rooms: how each room
//! was reached, and that no exit of the plane was left unfollowed.

use crate::model::room::{direction_order, lemma_room_index, room_index};
use crate::model::{Direction, Room};
use crate::parser::connection::lemma_direction_order;
use crate::parser::flood::{
    drain, expand, fits, flood, flood_inv, flood_start, lemma_expand, lemma_flood,
    lemma_flood_start, lemma_step_fits, lemma_visit_upto, may_flood, overridden, placed, step_x,
    step_y, visit, visit_upto, Flood,
};
use crate::parser::rule::Rule;
use crate::parser::sort_rooms::Location;
use std::rc::Rc;
use vstd::prelude::*;

verus! {

/// Whether `to` lies one step in direction `d` from `from`, along a
/// cardinal exit of the room at `from` that no rule overrides.
pub open spec fn steps_to(from: Location, to: Location, d: Direction, rules: Seq<Rule>) -> bool {
    &&& !d.spec_is_vertical()
    &&& from.room.exit_at(d) matches Some((v, _)) && v == to.room.vnum
    &&& !overridden(rules, from.room.vnum, to.room.vnum)
    &&& to.x == from.x + step_x(d)
    &&& to.y == from.y + step_y(d)
}

/// Whether the location at place `k` was reached by a step from one
/// before it.
pub open spec fn linked(all: Seq<Location>, k: int, rules: Seq<Rule>) -> bool {
    exists|j: int, d: Direction| 0 <= j < k && #[trigger] steps_to(all[j], all[k], d, rules)
}

/// Whether every location but the first was reached by a step from one
/// before it.
pub open spec fn well_linked(all: Seq<Location>, rules: Seq<Rule>) -> bool {
    forall|k: int| 1 <= k < all.len() ==> #[trigger] linked(all, k, rules)
}

/// Looking at one exit leaves the locations reached linked.
pub proof fn lemma_visit_linked(
    s: Flood,
    d: Direction,
    root: Location,
    pool: Seq<Rc<Room>>,
    rules: Seq<Rule>,
)
    requires
        flood_inv(s, root, pool),
        fits(root, pool),
        s.plane.len() > 0,
        well_linked(s.reached(), rules),
    ensures
        well_linked(visit(s, s.plane.last(), d, pool, rules).reached(), rules),
{
    let at = s.plane.last();
    let next = visit(s, at, d, pool, rules);
    let all = s.reached();
    let more = next.reached();
    if more != all {
        let (dest, _) = at.room.exit_at(d).unwrap();
        let i = room_index(pool, dest).unwrap();
        lemma_room_index(pool, dest);
        lemma_step_fits(s, root, pool);
        let new = Location {
            x: (at.x + step_x(d)) as i32,
            y: (at.y + step_y(d)) as i32,
            room: pool[i],
        };
        assert(more == all.push(new));
        let last = s.plane.len() - 1;
        assert(more[last] == at);
        assert forall|k: int| 1 <= k < more.len() implies #[trigger] linked(more, k, rules) by {
            if k < all.len() {
                assert(linked(all, k, rules));
                let (j, e) = choose|j: int, e: Direction|
                    0 <= j < k && #[trigger] steps_to(all[j], all[k], e, rules);
                assert(more[j] == all[j] && more[k] == all[k]);
                assert(steps_to(more[j], more[k], e, rules));
            } else {
                assert(steps_to(more[last], more[k], d, rules));
            }
        }
    }
}

/// Looking at the first `n` exits of the room placed last leaves the
/// locations reached linked.
pub proof fn lemma_visit_upto_linked(
    s: Flood,
    root: Location,
    pool: Seq<Rc<Room>>,
    rules: Seq<Rule>,
    n: nat,
)
    requires
        flood_inv(s, root, pool),
        fits(root, pool),
        s.plane.len() > 0,
        well_linked(s.reached(), rules),
    ensures
        well_linked(visit_upto(s, s.plane.last(), pool, rules, n).reached(), rules),
    decreases n,
{
    if n > 0 && n <= 6 {
        lemma_visit_upto(s, root, pool, rules, (n - 1) as nat);
        lemma_visit_upto_linked(s, root, pool, rules, (n - 1) as nat);
        let before = visit_upto(s, s.plane.last(), pool, rules, (n - 1) as nat);
        lemma_visit_linked(before, direction_order()[n - 1], root, pool, rules);
    }
}

/// Running a flood leaves the locations reached linked.
pub proof fn lemma_drain_linked(
    s: Flood,
    root: Location,
    pool: Seq<Rc<Room>>,
    rules: Seq<Rule>,
    rounds: nat,
)
    requires
        flood_inv(s, root, pool),
        fits(root, pool),
        well_linked(s.reached(), rules),
    ensures
        well_linked(drain(s, pool, rules, rounds).reached(), rules),
    decreases rounds,
{
    if rounds > 0 && s.queue.len() > 0 {
        let at = s.queue[0];
        let moved = Flood { plane: s.plane.push(at), queue: s.queue.drop_first(), seeds: s.seeds };
        assert(moved.reached() == s.reached());
        lemma_visit_upto_linked(moved, root, pool, rules, 6);
        lemma_expand(s, root, pool, rules);
        lemma_drain_linked(expand(s, pool, rules), root, pool, rules, (rounds - 1) as nat);
    }
}

/// On the plane of a finished flood every room but the first was reached
/// by a step from a room placed before it.
pub proof fn lemma_flood_linked(root: Location, pool: Seq<Rc<Room>>, rules: Seq<Rule>)
    requires
        may_flood(root, pool),
    ensures
        well_linked(flood(root, pool, rules).plane, rules),
{
    lemma_flood_start(root, pool);
    assert(flood_start(root).reached() == seq![root]);
    lemma_drain_linked(flood_start(root), root, pool, rules, pool.len());
    lemma_flood(root, pool, rules);
    let f = flood(root, pool, rules);
    assert(f.reached() == f.plane);
}

/// Whether the exit of the room at `at` in direction `d` has been
/// followed: where it is a cardinal exit to a room of the pool that no
/// rule overrides, one of `all` holds its destination.
pub open spec fn settled(
    all: Seq<Location>,
    at: Location,
    d: Direction,
    pool: Seq<Rc<Room>>,
    rules: Seq<Rule>,
) -> bool {
    match at.room.exit_at(d) {
        Some((dest, _)) => !d.spec_is_vertical() && room_index(pool, dest) is Some && !overridden(
            rules,
            at.room.vnum,
            dest,
        ) ==> placed(all, dest),
        None => true,
    }
}

/// Whether the exits of the first `full` rooms of the plane have all
/// been followed, and the first `dirs` exits, in walking order, of the
/// room after them.
pub open spec fn closed(
    s: Flood,
    pool: Seq<Rc<Room>>,
    rules: Seq<Rule>,
    full: int,
    dirs: int,
) -> bool {
    &&& forall|j: int, d: Direction|
        0 <= j < full && j < s.plane.len() ==> #[trigger] settled(
            s.reached(),
            s.plane[j],
            d,
            pool,
            rules,
        )
    &&& forall|k: int|
        0 <= k < dirs && k < 6 && 0 <= full < s.plane.len() ==> #[trigger] settled(
            s.reached(),
            s.plane[full],
            direction_order()[k],
            pool,
            rules,
        )
}

/// An exit that has been followed stays so when the flood reaches more.
pub proof fn lemma_settled_stays(
    all: Seq<Location>,
    more: Seq<Location>,
    at: Location,
    d: Direction,
    pool: Seq<Rc<Room>>,
    rules: Seq<Rule>,
)
    requires
        settled(all, at, d, pool, rules),
        all.len() <= more.len(),
        forall|k: int| 0 <= k < all.len() ==> all[k] == more[k],
    ensures
        settled(more, at, d, pool, rules),
{
    if at.room.exit_at(d) is Some {
        let dest = at.room.exit_at(d).unwrap().0;
        if placed(all, dest) {
            let k = choose|k: int| 0 <= k < all.len() && (#[trigger] all[k]).room.vnum == dest;
            assert(more[k].room.vnum == dest);
        }
    }
}

/// A visit reaches at most one more location and keeps the others.
pub proof fn lemma_visit_grows(
    s: Flood,
    at: Location,
    d: Direction,
    pool: Seq<Rc<Room>>,
    rules: Seq<Rule>,
)
    ensures
        s.reached().len() <= visit(s, at, d, pool, rules).reached().len(),
        forall|k: int|
            0 <= k < s.reached().len() ==> s.reached()[k] == visit(
                s,
                at,
                d,
                pool,
                rules,
            ).reached()[k],
        visit(s, at, d, pool, rules).plane == s.plane,
{
}

/// Looking at the exit at place `n` of the walking order follows it and
/// leaves followed what was.
pub proof fn lemma_visit_closed(
    s: Flood,
    n: int,
    root: Location,
    pool: Seq<Rc<Room>>,
    rules: Seq<Rule>,
)
    requires
        flood_inv(s, root, pool),
        s.plane.len() > 0,
        0 <= n < 6,
        closed(s, pool, rules, s.plane.len() - 1, n),
    ensures
        closed(
            visit(s, s.plane.last(), direction_order()[n], pool, rules),
            pool,
            rules,
            s.plane.len() - 1,
            n + 1,
        ),
{
    let at = s.plane.last();
    let d = direction_order()[n];
    let next = visit(s, at, d, pool, rules);
    let all = s.reached();
    let more = next.reached();
    let full = s.plane.len() - 1;
    lemma_visit_grows(s, at, d, pool, rules);
    assert forall|j: int, e: Direction| 0 <= j < full && j < next.plane.len() implies #[trigger] settled(
        more,
        next.plane[j],
        e,
        pool,
        rules,
    ) by {
        assert(settled(all, s.plane[j], e, pool, rules));
        lemma_settled_stays(all, more, s.plane[j], e, pool, rules);
    }
    assert forall|k: int|
        0 <= k < n + 1 && k < 6 && 0 <= full < next.plane.len() implies #[trigger] settled(
        more,
        next.plane[full],
        direction_order()[k],
        pool,
        rules,
    ) by {
        if k < n {
            assert(settled(all, s.plane[full], direction_order()[k], pool, rules));
            lemma_settled_stays(all, more, at, direction_order()[k], pool, rules);
        } else {
            if at.room.exit_at(d) is Some {
                let dest = at.room.exit_at(d).unwrap().0;
                if !d.spec_is_vertical() && room_index(pool, dest) is Some && !overridden(
                    rules,
                    at.room.vnum,
                    dest,
                ) {
                    if placed(all, dest) {
                        lemma_settled_stays(all, more, at, d, pool, rules);
                    } else {
                        assert(more[all.len() as int].room.vnum == pool[room_index(
                            pool,
                            dest,
                        ).unwrap()].vnum);
                        lemma_room_index(pool, dest);
                    }
                }
            }
        }
    }
}

/// Looking at the first `n` exits of the room placed last follows them
/// and leaves followed what was.
pub proof fn lemma_visit_upto_closed(
    s: Flood,
    root: Location,
    pool: Seq<Rc<Room>>,
    rules: Seq<Rule>,
    n: nat,
)
    requires
        flood_inv(s, root, pool),
        fits(root, pool),
        s.plane.len() > 0,
        n <= 6,
        closed(s, pool, rules, s.plane.len() - 1, 0),
    ensures
        closed(
            visit_upto(s, s.plane.last(), pool, rules, n),
            pool,
            rules,
            s.plane.len() - 1,
            n as int,
        ),
    decreases n,
{
    if n > 0 {
        lemma_visit_upto(s, root, pool, rules, (n - 1) as nat);
        lemma_visit_upto_closed(s, root, pool, rules, (n - 1) as nat);
        let before = visit_upto(s, s.plane.last(), pool, rules, (n - 1) as nat);
        lemma_visit_closed(before, n - 1, root, pool, rules);
    }
}

/// A round follows the exits of the room it places and leaves followed
/// what was.
pub proof fn lemma_expand_closed(
    s: Flood,
    root: Location,
    pool: Seq<Rc<Room>>,
    rules: Seq<Rule>,
)
    requires
        flood_inv(s, root, pool),
        fits(root, pool),
        s.queue.len() > 0,
        closed(s, pool, rules, s.plane.len() as int, 0),
    ensures
        closed(expand(s, pool, rules), pool, rules, s.plane.len() as int + 1, 0),
{
    let at = s.queue[0];
    let moved = Flood { plane: s.plane.push(at), queue: s.queue.drop_first(), seeds: s.seeds };
    assert(moved.reached() == s.reached());
    assert forall|j: int, d: Direction|
        0 <= j < moved.plane.len() - 1 && j < moved.plane.len() implies #[trigger] settled(
        moved.reached(),
        moved.plane[j],
        d,
        pool,
        rules,
    ) by {
        assert(moved.plane[j] == s.plane[j]);
        assert(settled(s.reached(), s.plane[j], d, pool, rules));
    }
    lemma_visit_upto_closed(moved, root, pool, rules, 6);
    lemma_visit_upto(moved, root, pool, rules, 6);
    let after = expand(s, pool, rules);
    let full = s.plane.len() as int;
    assert forall|j: int, d: Direction|
        0 <= j < full + 1 && j < after.plane.len() implies #[trigger] settled(
        after.reached(),
        after.plane[j],
        d,
        pool,
        rules,
    ) by {
        if j == full {
            let k = lemma_direction_order(d);
            assert(settled(after.reached(), after.plane[full], direction_order()[k], pool, rules));
        }
    }
}

/// Running a flood follows the exits of every room it places.
pub proof fn lemma_drain_closed(
    s: Flood,
    root: Location,
    pool: Seq<Rc<Room>>,
    rules: Seq<Rule>,
    rounds: nat,
)
    requires
        flood_inv(s, root, pool),
        fits(root, pool),
        closed(s, pool, rules, s.plane.len() as int, 0),
    ensures
        closed(
            drain(s, pool, rules, rounds),
            pool,
            rules,
            drain(s, pool, rules, rounds).plane.len() as int,
            0,
        ),
    decreases rounds,
{
    if rounds > 0 && s.queue.len() > 0 {
        lemma_expand(s, root, pool, rules);
        lemma_expand_closed(s, root, pool, rules);
        lemma_drain_closed(expand(s, pool, rules), root, pool, rules, (rounds - 1) as nat);
    }
}

/// The plane of a finished flood is closed under the cardinal exits
/// that no rule overrides: where a room on it has such an exit to a room
/// of the pool, that room is on it too.
pub proof fn lemma_flood_closed(root: Location, pool: Seq<Rc<Room>>, rules: Seq<Rule>)
    requires
        may_flood(root, pool),
    ensures
        forall|j: int, d: Direction|
            0 <= j < flood(root, pool, rules).plane.len() ==> #[trigger] settled(
                flood(root, pool, rules).plane,
                flood(root, pool, rules).plane[j],
                d,
                pool,
                rules,
            ),
{
    lemma_flood_start(root, pool);
    lemma_drain_closed(flood_start(root), root, pool, rules, pool.len());
    lemma_flood(root, pool, rules);
    let f = flood(root, pool, rules);
    assert(f.reached() == f.plane);
}

} // verus!
