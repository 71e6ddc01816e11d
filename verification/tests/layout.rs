use area_map::model::position_rooms::PLANE_SPACING;
use area_map::model::{
    position_rooms, press, select_all_in_plane, Area, Direction, Door, Guides, Room, Sector,
    Settle, Vnum,
};
use area_map::parser::{find_rooms_in_plane, Location, ParsedArea, Rect};
use std::rc::Rc;

fn room(vnum: Vnum, exits: &[(Direction, (u32, Door))]) -> Rc<Room> {
    Rc::new(Room {
        vnum,
        name: vnum.to_string(),
        string_vnum: vnum.to_string(),
        sector: Sector::Inside,
        exits: exits.iter().copied().collect(),
    })
}

fn at(x: i32, y: i32, vnum: Vnum) -> Location {
    Location { x, y, room: room(vnum, &[]) }
}

fn corners(r: &Rect) -> (i32, i32, i32, i32) {
    (r.x1, r.x2, r.y1, r.y2)
}

#[test]
fn rectangle_around_a_plane_holds_the_origin() {
    assert_eq!(corners(&Rect::around(&vec![])), (0, 0, 0, 0));
    assert_eq!(corners(&Rect::around(&vec![at(0, 0, 1)])), (0, 0, 0, 0));
    assert_eq!(corners(&Rect::around(&vec![at(3, 4, 1)])), (0, 3, 0, 4));
    assert_eq!(
        corners(&Rect::around(&vec![at(0, 0, 1), at(-2, 1, 2), at(5, -7, 3), at(1, 1, 4)])),
        (-2, 5, -7, 1)
    );
}

#[test]
fn single_plane_is_centred_on_zero() {
    let plane = vec![at(0, 0, 2), at(1, 0, 1), at(2, 0, 3)];
    let (areas, locations) = position_rooms(vec![plane], 30);
    assert_eq!(areas, vec![Area { x: 0, y: 0, w: 150, h: 30 }]);
    let placed: Vec<(Vnum, i128, i128, usize)> =
        locations.iter().map(|l| (l.room.vnum, l.x, l.y, l.group)).collect();
    assert_eq!(placed, vec![(1, 0, 0, 0), (2, -60, 0, 0), (3, 60, 0, 0)]);
}

#[test]
fn planes_follow_each_other_along_the_diagonal() {
    let planes = vec![
        vec![at(0, 0, 10)],
        vec![at(0, 0, 20), at(0, 1, 21)],
        vec![at(0, 0, 30), at(-1, 0, 31)],
        vec![at(0, 0, 5)],
        vec![at(0, 0, 40)],
    ];
    let (areas, locations) = position_rooms(planes, 10);
    assert_eq!(
        areas,
        vec![
            Area { x: -300, y: -300, w: 10, h: 10 },
            Area { x: -150, y: -150, w: 10, h: 30 },
            Area { x: 0, y: 0, w: 30, h: 10 },
            Area { x: 150, y: 150, w: 10, h: 10 },
            Area { x: 300, y: 300, w: 10, h: 10 },
        ]
    );
    let placed: Vec<(Vnum, i128, i128, usize)> =
        locations.iter().map(|l| (l.room.vnum, l.x, l.y, l.group)).collect();
    assert_eq!(
        placed,
        vec![
            (5, 150, 150, 3),
            (10, -300, -300, 0),
            (20, -150, -160, 1),
            (21, -150, -140, 1),
            (30, 10, 0, 2),
            (31, -10, 0, 2),
            (40, 300, 300, 4),
        ]
    );
}

#[test]
fn even_number_of_planes_has_its_upper_middle_at_zero() {
    let planes = vec![vec![at(0, 0, 1)], vec![at(0, 0, 2)], vec![at(0, 0, 3)], vec![at(0, 0, 4)]];
    let (areas, _) = position_rooms(planes, 1);
    let centres: Vec<i128> = areas.iter().map(|a| a.x).collect();
    assert_eq!(centres, vec![-2 * PLANE_SPACING, -PLANE_SPACING, 0, PLANE_SPACING]);
}

#[test]
fn no_planes_make_an_empty_drawing() {
    let (areas, locations) = position_rooms(vec![], 30);
    assert!(areas.is_empty());
    assert!(locations.is_empty());
}

#[test]
fn extreme_sizes_do_not_overflow() {
    let plane = vec![at(0, 0, 1), at(i32::MAX, i32::MIN, 2)];
    let (areas, locations) = position_rooms(vec![plane], u32::MAX);
    let s = u32::MAX as i128;
    let span_x = i32::MAX as i128;
    let span_y = -(i32::MIN as i128);
    assert_eq!(areas, vec![Area { x: 0, y: 0, w: 2 * s * span_x + s, h: 2 * s * span_y + s }]);
    assert_eq!((locations[0].x, locations[0].y), (-s * span_x, s * span_y));
    assert_eq!((locations[1].x, locations[1].y), (s * span_x, -s * span_y));
}

#[test]
fn area_is_laid_out_from_rooms_to_drawing() {
    let rooms = vec![
        room(
            1000,
            &[
                (Direction::North, (1001, Door::Absent)),
                (Direction::West, (500, Door::Absent)),
                (Direction::Up, (1002, Door::Absent)),
            ],
        ),
        room(1001, &[(Direction::South, (1000, Door::Absent))]),
        room(1002, &[(Direction::Down, (1000, Door::Absent))]),
    ];
    let area = ParsedArea::from_rooms(rooms, vec![]);
    let grid: Vec<Vec<(Vnum, i32, i32)>> = area
        .grouped_rooms
        .iter()
        .map(|p| p.iter().map(|l| (l.room.vnum, l.x, l.y)).collect())
        .collect();
    assert_eq!(grid, vec![vec![(1000, 0, 0), (1001, 0, 1)], vec![(1002, 0, 0)]]);
    let (areas, locations) = position_rooms(area.grouped_rooms, 30);
    assert_eq!(
        areas,
        vec![Area { x: -150, y: -150, w: 30, h: 90 }, Area { x: 0, y: 0, w: 30, h: 30 }]
    );
    let placed: Vec<(Vnum, i128, i128, usize)> =
        locations.iter().map(|l| (l.room.vnum, l.x, l.y, l.group)).collect();
    assert_eq!(placed, vec![(1000, -150, -180, 0), (1001, -150, -120, 0), (1002, 0, 0, 1)]);
    for (index, loc) in locations.iter().enumerate() {
        assert_eq!(area.all_rooms[&loc.room.vnum].1, index);
    }
}

#[test]
fn reciprocal_cardinal_exits_share_a_plane_one_step_apart() {
    let mut rooms = vec![
        room(1, &[(Direction::North, (2, Door::Absent))]),
        room(2, &[(Direction::South, (1, Door::Absent))]),
    ];
    let planes = find_rooms_in_plane(None, &mut rooms, &[]);
    assert_eq!(planes.len(), 1);
    let a = &planes[0][0];
    let b = &planes[0][1];
    assert_eq!((a.room.vnum, b.room.vnum), (1, 2));
    assert_eq!((b.x - a.x, b.y - a.y), (0, 1));
}

#[test]
fn vertical_exits_split_planes() {
    let mut rooms = vec![
        room(1, &[(Direction::Up, (3, Door::Absent)), (Direction::East, (2, Door::Absent))]),
        room(2, &[(Direction::West, (1, Door::Absent))]),
        room(3, &[(Direction::Down, (1, Door::Absent)), (Direction::North, (4, Door::Absent))]),
        room(4, &[(Direction::South, (3, Door::Absent))]),
    ];
    let planes = find_rooms_in_plane(None, &mut rooms, &[]);
    let vnums: Vec<Vec<Vnum>> =
        planes.iter().map(|p| p.iter().map(|l| l.room.vnum).collect()).collect();
    assert_eq!(vnums, vec![vec![1, 2], vec![3, 4]]);
}

#[test]
fn room_without_exits_has_a_plane_to_itself() {
    let mut rooms = vec![
        room(1, &[(Direction::East, (3, Door::Absent))]),
        room(2, &[]),
        room(3, &[(Direction::West, (1, Door::Absent))]),
    ];
    let planes = find_rooms_in_plane(None, &mut rooms, &[]);
    let vnums: Vec<Vec<Vnum>> =
        planes.iter().map(|p| p.iter().map(|l| l.room.vnum).collect()).collect();
    assert_eq!(vnums, vec![vec![1, 3], vec![2]]);
}

#[test]
fn second_floor_is_added_as_a_plane_of_its_own() {
    let mut rooms = vec![
        room(
            1000,
            &[
                (Direction::North, (1001, Door::Absent)),
                (Direction::West, (500, Door::Absent)),
                (Direction::Up, (1002, Door::Absent)),
            ],
        ),
        room(1001, &[(Direction::South, (1000, Door::Absent))]),
        room(1002, &[(Direction::Down, (1000, Door::Absent))]),
    ];
    let planes = find_rooms_in_plane(None, &mut rooms, &[]);
    let grid: Vec<Vec<(Vnum, i32, i32)>> =
        planes.iter().map(|p| p.iter().map(|l| (l.room.vnum, l.x, l.y)).collect()).collect();
    assert_eq!(grid, vec![vec![(1000, 0, 0), (1001, 0, 1)], vec![(1002, 0, 0)]]);
}

#[test]
fn selecting_a_plane_adds_its_rooms_to_the_selection() {
    let room_planes = vec![0, 1, 0, 2, 1];
    let mut selected = vec![false, false, false, true, false];
    select_all_in_plane(&room_planes, &mut selected, 1);
    assert_eq!(selected, vec![false, true, false, true, true]);
    select_all_in_plane(&room_planes, &mut selected, 7);
    assert_eq!(selected, vec![false, true, false, true, true]);
    let mut longer = vec![false; 7];
    select_all_in_plane(&room_planes, &mut longer, 0);
    assert_eq!(longer, vec![true, false, true, false, false, false, false]);
    let mut shorter = vec![false; 2];
    select_all_in_plane(&room_planes, &mut shorter, 0);
    assert_eq!(shorter, vec![true, false]);
}

#[test]
fn press_on_an_unselected_room_selects_it_alone() {
    let planes = vec![0, 0, 1, 1];
    let selected = vec![true, false, true, false];
    let outcome = press(&selected, &planes, Some(1), false, false);
    assert_eq!(outcome.settle, Settle::Selection);
    assert_eq!(outcome.selected, vec![false, true, false, false]);
    assert_eq!(outcome.guides, Guides::Recalculate);
}

#[test]
fn press_on_a_selected_room_keeps_the_selection() {
    let planes = vec![0, 0, 1, 1];
    let selected = vec![true, false, true, false];
    let outcome = press(&selected, &planes, Some(2), false, false);
    assert_eq!(outcome.settle, Settle::Nothing);
    assert_eq!(outcome.selected, selected);
    assert_eq!(outcome.guides, Guides::Keep);
}

#[test]
fn press_with_the_modifier_toggles_the_room() {
    let planes = vec![0, 0, 1, 1];
    let selected = vec![true, false, true, false];
    let on = press(&selected, &planes, Some(1), true, false);
    assert_eq!(on.settle, Settle::Selection);
    assert_eq!(on.selected, vec![true, true, true, false]);
    assert_eq!(on.guides, Guides::Recalculate);
    let off = press(&selected, &planes, Some(2), true, false);
    assert_eq!(off.settle, Settle::Room(2));
    assert_eq!(off.selected, vec![true, false, false, false]);
    assert_eq!(off.guides, Guides::Recalculate);
}

#[test]
fn press_off_all_rooms_clears_the_selection_unless_the_modifier_is_held() {
    let planes = vec![0, 0, 1, 1];
    let selected = vec![true, false, true, false];
    let cleared = press(&selected, &planes, None, false, false);
    assert_eq!(cleared.settle, Settle::Selection);
    assert_eq!(cleared.selected, vec![false; 4]);
    assert_eq!(cleared.guides, Guides::Clear);
    let kept = press(&selected, &planes, None, true, true);
    assert_eq!(kept.settle, Settle::Nothing);
    assert_eq!(kept.selected, selected);
    assert_eq!(kept.guides, Guides::Keep);
}

#[test]
fn double_click_selects_the_plane_of_the_room() {
    let planes = vec![0, 0, 1, 1];
    let selected = vec![true, false, false, false];
    let outcome = press(&selected, &planes, Some(3), false, true);
    assert_eq!(outcome.settle, Settle::Selection);
    assert_eq!(outcome.selected, vec![false, false, true, true]);
    assert_eq!(outcome.guides, Guides::Recalculate);
    let toggled = press(&vec![false, false, true, true], &planes, Some(3), true, true);
    assert_eq!(toggled.settle, Settle::Room(3));
    assert_eq!(toggled.selected, vec![false, false, true, true]);
    let kept = press(&vec![false, true, false, false], &planes, Some(1), false, true);
    assert_eq!(kept.settle, Settle::Nothing);
    assert_eq!(kept.selected, vec![true, true, false, false]);
    assert_eq!(kept.guides, Guides::Recalculate);
}
