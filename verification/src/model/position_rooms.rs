//! From the grid of each plane to one drawing: every plane is scaled to
//! display units, centred on a point of its own along the diagonal, and
//! the rooms of all planes are merged in ascending order of identifier.

use crate::model::{Room, Vnum};
use crate::order::{sort_by_vnum, sorted_by_vnum, Keyed};
use crate::parser;
use crate::parser::sort_rooms::{bounds_upto, plane_views, Rect};
use std::rc::Rc;
use vstd::prelude::*;

verus! {

/// Distance, along either axis, between the centres of two planes that
/// follow each other.
pub const PLANE_SPACING: i128 = 150;

/// A room at its place in the drawing, in display units, with the index
/// of its plane.
#[derive(Debug, Clone)]
pub struct Location {
    pub x: i128,
    pub y: i128,
    pub room: Rc<Room>,
    pub group: usize,
}

/// The rectangle that a plane takes up in the drawing, in display units:
/// its centre, its width and its height.
#[derive(Debug, Clone, Copy, PartialEq, Eq, Structural)]
pub struct Area {
    pub x: i128,
    pub y: i128,
    pub w: i128,
    pub h: i128,
}

impl Keyed for Location {
    open spec fn key(&self) -> Vnum {
        self.room.vnum
    }

    fn sort_key(&self) -> (v: Vnum) {
        self.room.vnum
    }
}

/// Where the centre of the plane with index `index` lies on both axes
/// when there are `count` planes: planes follow each other at the plane
/// spacing, the one in the middle at zero.
pub open spec fn plane_offset(index: int, count: int) -> int {
    (index - count / 2) * PLANE_SPACING
}

/// A grid coordinate in display units: grid lines lie two cells apart.
pub open spec fn scaled(v: int, square_size: int) -> int {
    v * square_size * 2
}

/// The centre, along one axis, of the scaled rectangle between the grid
/// lines `low` and `high`.
pub open spec fn scaled_centre(low: int, high: int, square_size: int) -> int {
    (low + high) * square_size
}

/// A plane scaled to display units, on its own: every location at its
/// scaled grid place, labelled with the plane's index.
pub open spec fn scaled_plane(plane: Seq<parser::Location>, square_size: int, group: usize) -> Seq<
    Location,
> {
    Seq::new(
        plane.len(),
        |j: int|
            Location {
                x: scaled(plane[j].x as int, square_size) as i128,
                y: scaled(plane[j].y as int, square_size) as i128,
                room: plane[j].room,
                group,
            },
    )
}

/// The scaled rectangle around a plane on its own: between the scaled
/// sides of the rectangle around its grid places.
pub open spec fn scaled_area(bounds: Rect, square_size: int) -> Area {
    Area {
        x: scaled_centre(bounds.x1 as int, bounds.x2 as int, square_size) as i128,
        y: scaled_centre(bounds.y1 as int, bounds.y2 as int, square_size) as i128,
        w: scaled(bounds.x2 - bounds.x1, square_size) as i128,
        h: scaled(bounds.y2 - bounds.y1, square_size) as i128,
    }
}

/// The rectangle of a plane in the drawing: centred on the plane's
/// offset, and one cell wider and higher than the scaled rectangle
/// around its grid places, so that it reaches the outer edges of the
/// outermost rooms.
pub open spec fn plane_area(bounds: Rect, square_size: int, offset: int) -> Area {
    Area {
        x: offset as i128,
        y: offset as i128,
        w: (scaled(bounds.x2 - bounds.x1, square_size) + square_size) as i128,
        h: (scaled(bounds.y2 - bounds.y1, square_size) + square_size) as i128,
    }
}

/// A plane in the drawing: every location at its scaled grid place,
/// moved so that the centre of the plane's rectangle comes to lie on the
/// plane's offset.
pub open spec fn drawn_plane(
    plane: Seq<parser::Location>,
    square_size: int,
    index: int,
    count: int,
) -> Seq<Location> {
    let bounds = bounds_upto(plane, plane.len());
    Seq::new(
        plane.len(),
        |j: int|
            Location {
                x: (scaled(plane[j].x as int, square_size) + plane_offset(index, count)
                    - scaled_centre(bounds.x1 as int, bounds.x2 as int, square_size)) as i128,
                y: (scaled(plane[j].y as int, square_size) + plane_offset(index, count)
                    - scaled_centre(bounds.y1 as int, bounds.y2 as int, square_size)) as i128,
                room: plane[j].room,
                group: index as usize,
            },
    )
}

/// The locations of the first `n` planes in the drawing, plane after
/// plane.
pub open spec fn drawn_upto(planes: Seq<Seq<parser::Location>>, square_size: int, n: nat) -> Seq<
    Location,
>
    decreases n,
{
    if n == 0 || n > planes.len() {
        Seq::empty()
    } else {
        drawn_upto(planes, square_size, (n - 1) as nat) + drawn_plane(
            planes[n - 1],
            square_size,
            n - 1,
            planes.len() as int,
        )
    }
}

/// A product is bounded by the product of the bounds of its factors.
proof fn lemma_product_bound(a: int, b: int, bound_a: int, bound_b: int)
    requires
        -bound_a <= a <= bound_a,
        -bound_b <= b <= bound_b,
    ensures
        -(bound_a * bound_b) <= a * b <= bound_a * bound_b,
{
    assert(-(bound_a * bound_b) <= a * b <= bound_a * bound_b) by (nonlinear_arith)
        requires
            -bound_a <= a <= bound_a,
            -bound_b <= b <= bound_b,
    ;
}

/// A scaled coordinate stays far inside the range of the display units.
proof fn lemma_scaled_range(v: int, square_size: int)
    requires
        -0x1_0000_0000 <= v <= 0x1_0000_0000,
        0 <= square_size <= 0x1_0000_0000,
    ensures
        -0x1_0000_0000_0000_0000 <= v * square_size <= 0x1_0000_0000_0000_0000,
        -0x2_0000_0000_0000_0000 <= scaled(v, square_size) <= 0x2_0000_0000_0000_0000,
        v >= 0 ==> scaled(v, square_size) >= 0,
{
    lemma_product_bound(v, square_size, 0x1_0000_0000, 0x1_0000_0000);
    if v >= 0 {
        assert(v * square_size >= 0) by (nonlinear_arith)
            requires
                v >= 0,
                square_size >= 0,
        ;
    }
}

/// Scales a grid coordinate, or a sum or difference of two, to display
/// units.
fn scale(v: i64, square_size: u32) -> (r: i128)
    requires
        -0x1_0000_0000 <= v <= 0x1_0000_0000,
    ensures
        r == v * square_size,
        -0x1_0000_0000_0000_0000 <= r <= 0x1_0000_0000_0000_0000,
{
    proof {
        lemma_product_bound(v as int, square_size as int, 0x1_0000_0000, 0x1_0000_0000);
    }
    (v as i128) * (square_size as i128)
}

/// Scales one plane to display units, on its own: returns the scaled
/// rectangle around its grid places and its locations at their scaled
/// grid places, labelled with `group`.
fn position_rooms_in_plane(plane: Vec<parser::Location>, square_size: u32, group: usize) -> (r: (
    Area,
    Vec<Location>,
))
    ensures
        r.0 == scaled_area(bounds_upto(plane@, plane@.len()), square_size as int),
        r.1@ == scaled_plane(plane@, square_size as int, group),
        -0x2_0000_0000_0000_0000 <= r.0.x <= 0x2_0000_0000_0000_0000,
        -0x2_0000_0000_0000_0000 <= r.0.y <= 0x2_0000_0000_0000_0000,
        0 <= r.0.w <= 0x2_0000_0000_0000_0000,
        0 <= r.0.h <= 0x2_0000_0000_0000_0000,
        forall|j: int|
            0 <= j < r.1.len() ==> -0x2_0000_0000_0000_0000 <= (#[trigger] r.1[j]).x
                <= 0x2_0000_0000_0000_0000 && -0x2_0000_0000_0000_0000 <= r.1[j].y
                <= 0x2_0000_0000_0000_0000,
{
    let bounds = Rect::around(&plane);
    let area = Area {
        x: scale(bounds.x1 as i64 + bounds.x2 as i64, square_size),
        y: scale(bounds.y1 as i64 + bounds.y2 as i64, square_size),
        w: scale(bounds.x2 as i64 - bounds.x1 as i64, square_size) * 2,
        h: scale(bounds.y2 as i64 - bounds.y1 as i64, square_size) * 2,
    };
    proof {
        lemma_scaled_range(bounds.x2 - bounds.x1, square_size as int);
        lemma_scaled_range(bounds.y2 - bounds.y1, square_size as int);
        lemma_scaled_range(bounds.x1 + bounds.x2, square_size as int);
        lemma_scaled_range(bounds.y1 + bounds.y2, square_size as int);
    }
    let ghost given = plane@;
    let mut locations: Vec<Location> = Vec::new();
    for loc in it: plane
        invariant
            it.seq() == given,
            locations@ == scaled_plane(given.take(it.index() as int), square_size as int, group),
            forall|j: int|
                0 <= j < locations.len() ==> -0x2_0000_0000_0000_0000 <= (
                #[trigger] locations[j]).x <= 0x2_0000_0000_0000_0000
                    && -0x2_0000_0000_0000_0000 <= locations[j].y <= 0x2_0000_0000_0000_0000,
    {
        let ghost before = locations@;
        locations.push(
            Location {
                x: scale(loc.x as i64, square_size) * 2,
                y: scale(loc.y as i64, square_size) * 2,
                room: loc.room,
                group,
            },
        );
        proof {
            let done = given.take(it.index() as int);
            let more = given.take(it.index() + 1);
            lemma_scaled_range(loc.x as int, square_size as int);
            lemma_scaled_range(loc.y as int, square_size as int);
            assert(more.drop_last() == done);
            assert(scaled_plane(more, square_size as int, group) == scaled_plane(
                done,
                square_size as int,
                group,
            ).push(locations[it.index() as int]));
        }
    }
    proof {
        assert(given.take(given.len() as int) == given);
    }
    (area, locations)
}

/// Lays the planes out in one drawing. Every plane is scaled to display
/// units, `square_size` to the cell and two cells from one grid line to
/// the next, and moved so that the centre of the rectangle around it
/// comes to lie at the same coordinate on both axes: the planes follow
/// each other along the diagonal at the plane spacing, the one in the
/// middle at zero. Returns the rectangle of every plane, widened to the
/// outer edges of its rooms, and the rooms of all planes in ascending
/// order of identifier, each with the index of its plane.
pub fn position_rooms(planes: Vec<Vec<parser::Location>>, square_size: u32) -> (r: (
    Vec<Area>,
    Vec<Location>,
))
    ensures
        r.0.len() == planes.len(),
        forall|i: int|
            0 <= i < planes.len() ==> #[trigger] r.0[i] == plane_area(
                bounds_upto(planes[i]@, planes[i]@.len()),
                square_size as int,
                plane_offset(i, planes.len() as int),
            ),
        forall|i: int, j: int|
            0 <= i < j < planes.len() ==> (#[trigger] r.0[i]).x < (#[trigger] r.0[j]).x,
        r.1@ == sorted_by_vnum(
            drawn_upto(plane_views(planes@), square_size as int, planes@.len()),
        ),
{
    let ghost given = plane_views(planes@);
    let count = planes.len();
    let shift: i128 = (count / 2) as i128;
    let mut areas: Vec<Area> = Vec::new();
    let mut all_locations: Vec<Location> = Vec::new();
    let mut index: usize = 0;
    for plane in it: planes
        invariant
            it.seq().len() == count,
            forall|i: int| 0 <= i < count ==> (#[trigger] it.seq()[i])@ == given[i],
            given.len() == count,
            shift == count / 2,
            index == it.index(),
            areas.len() == index,
            forall|i: int|
                0 <= i < index ==> #[trigger] areas[i] == plane_area(
                    bounds_upto(given[i], given[i].len()),
                    square_size as int,
                    plane_offset(i, count as int),
                ),
            all_locations@ == drawn_upto(given, square_size as int, index as nat),
    {
        let ghost grid = plane@;
        assert(grid == given[index as int]);
        let (area, locations) = position_rooms_in_plane(plane, square_size, index);
        let pos: i128 = (index as i128 - shift) * PLANE_SPACING;
        let ghost bounds = bounds_upto(grid, grid.len());
        proof {
            lemma_scaled_range(bounds.x2 - bounds.x1, square_size as int);
            lemma_scaled_range(bounds.y2 - bounds.y1, square_size as int);
            lemma_scaled_range(bounds.x1 + bounds.x2, square_size as int);
            lemma_scaled_range(bounds.y1 + bounds.y2, square_size as int);
        }
        let ghost areas_before = areas@;
        areas.push(
            Area {
                x: pos,
                y: pos,
                w: area.w + square_size as i128,
                h: area.h + square_size as i128,
            },
        );
        proof {
            assert forall|i: int| 0 <= i < index + 1 implies #[trigger] areas[i] == plane_area(
                bounds_upto(given[i], given[i].len()),
                square_size as int,
                plane_offset(i, count as int),
            ) by {
                if i < index {
                    assert(areas[i] == areas_before[i]);
                }
            }
        }
        let ghost before = all_locations@;
        let ghost scaled_here = locations@;
        for loc in inner: locations
            invariant
                inner.seq() == scaled_here,
                scaled_here == scaled_plane(grid, square_size as int, index),
                area == scaled_area(bounds_upto(grid, grid.len()), square_size as int),
                pos == plane_offset(index as int, count as int),
                -0x2_0000_0000_0000_0000 <= area.x <= 0x2_0000_0000_0000_0000,
                -0x2_0000_0000_0000_0000 <= area.y <= 0x2_0000_0000_0000_0000,
                forall|j: int|
                    0 <= j < scaled_here.len() ==> -0x2_0000_0000_0000_0000 <= (
                    #[trigger] scaled_here[j]).x <= 0x2_0000_0000_0000_0000
                        && -0x2_0000_0000_0000_0000 <= scaled_here[j].y
                        <= 0x2_0000_0000_0000_0000,
                all_locations@ == before + drawn_plane(
                    grid,
                    square_size as int,
                    index as int,
                    count as int,
                ).take(inner.index() as int),
        {
            let ghost drawn = drawn_plane(grid, square_size as int, index as int, count as int);
            let ghost at = inner.index() as int;
            assert(loc == scaled_here[at]);
            proof {
                let bounds = bounds_upto(grid, grid.len());
                lemma_scaled_range(grid[at].x as int, square_size as int);
                lemma_scaled_range(grid[at].y as int, square_size as int);
                lemma_scaled_range(bounds.x1 + bounds.x2, square_size as int);
                lemma_scaled_range(bounds.y1 + bounds.y2, square_size as int);
            }
            all_locations.push(
                Location {
                    x: loc.x + (pos - area.x),
                    y: loc.y + (pos - area.y),
                    room: loc.room,
                    group: loc.group,
                },
            );
            proof {
                assert(all_locations[before.len() + at] == drawn[at]);
                assert(drawn.take(at + 1) == drawn.take(at).push(drawn[at]));
                assert(all_locations@ == before + drawn.take(at + 1));
            }
        }
        proof {
            let drawn = drawn_plane(grid, square_size as int, index as int, count as int);
            assert(drawn.take(drawn.len() as int) == drawn);
        }
        index = index + 1;
    }
    proof {
        assert forall|i: int, j: int| 0 <= i < j < count implies (#[trigger] areas[i]).x < (
        #[trigger] areas[j]).x by {
            assert(areas[i].x == plane_offset(i, count as int));
            assert(areas[j].x == plane_offset(j, count as int));
        }
    }
    (areas, sort_by_vnum(all_locations))
}

} // verus!
