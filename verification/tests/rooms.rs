use area_map::model::room::{direction_at, find_room, has_distinct_vnums};
use area_map::model::{Direction, Door, Room, Sector, Vnum};
use area_map::order::sort_by_vnum;
use area_map::parser::sort_rooms;
use std::rc::Rc;

fn room(vnum: Vnum, exits: &[(Direction, (u32, Door))]) -> Rc<Room> {
    Rc::new(Room {
        vnum,
        name: format!("room {}", vnum),
        string_vnum: vnum.to_string(),
        sector: Sector::Inside,
        exits: exits.iter().copied().collect(),
    })
}

#[test]
fn opposite_directions_swap() {
    assert_eq!(Direction::North.opposite(), Direction::South);
    assert_eq!(Direction::South.opposite(), Direction::North);
    assert_eq!(Direction::East.opposite(), Direction::West);
    assert_eq!(Direction::West.opposite(), Direction::East);
    assert_eq!(Direction::Up.opposite(), Direction::Down);
    assert_eq!(Direction::Down.opposite(), Direction::Up);
}

#[test]
fn opposite_of_opposite_is_the_direction() {
    for k in 0..6 {
        let d = direction_at(k);
        assert_eq!(d.opposite().opposite(), d);
        assert_ne!(d.opposite(), d);
    }
}

#[test]
fn only_up_and_down_are_vertical() {
    let vertical: Vec<bool> = (0..6).map(|k| direction_at(k).is_vertical()).collect();
    assert_eq!(vertical, vec![false, false, false, false, true, true]);
}

#[test]
fn walking_order_of_directions() {
    let order: Vec<Direction> = (0..6).map(direction_at).collect();
    assert_eq!(
        order,
        vec![
            Direction::North,
            Direction::East,
            Direction::South,
            Direction::West,
            Direction::Up,
            Direction::Down,
        ]
    );
}

#[test]
fn sector_codes() {
    let all = [
        Sector::Inside,
        Sector::City,
        Sector::Field,
        Sector::Forest,
        Sector::Hills,
        Sector::Mountain,
        Sector::WaterSwim,
        Sector::WaterNoswim,
        Sector::House,
        Sector::Air,
        Sector::Desert,
        Sector::Underwater,
        Sector::OnBottom,
        Sector::RogueGuild,
    ];
    for (code, sector) in all.iter().enumerate() {
        assert_eq!(Sector::from_str(&code.to_string()), *sector);
    }
}

#[test]
fn unknown_sector_codes_mean_inside() {
    for code in ["", "14", "20", "01", "1 ", "-1", "x", "100", "+1", "١"] {
        assert_eq!(Sector::from_str(code), Sector::Inside, "{:?}", code);
    }
}

#[test]
fn rooms_are_found_by_identifier() {
    let rooms = vec![room(5, &[]), room(3, &[]), room(5, &[]), room(9, &[])];
    assert_eq!(find_room(&rooms, 5), Some(0));
    assert_eq!(find_room(&rooms, 3), Some(1));
    assert_eq!(find_room(&rooms, 9), Some(3));
    assert_eq!(find_room(&rooms, 4), None);
    assert_eq!(find_room(&[], 4), None);
}

#[test]
fn distinct_identifiers_are_told_from_repeated_ones() {
    assert!(has_distinct_vnums(&[]));
    assert!(has_distinct_vnums(&[room(1, &[])]));
    assert!(has_distinct_vnums(&[room(1, &[]), room(2, &[]), room(0, &[])]));
    assert!(!has_distinct_vnums(&[room(1, &[]), room(2, &[]), room(1, &[])]));
    assert!(!has_distinct_vnums(&[room(2, &[]), room(2, &[])]));
}

#[test]
fn sorting_is_ascending_and_stable() {
    let a = room(2, &[]);
    let b = room(1, &[(Direction::North, (2, Door::Absent))]);
    let c = room(2, &[(Direction::South, (1, Door::Closed))]);
    let d = room(0, &[]);
    let sorted = sort_by_vnum(vec![a.clone(), b.clone(), c.clone(), d.clone()]);
    assert_eq!(sorted, vec![d, b, a, c]);
    assert_eq!(sort_by_vnum(Vec::<Rc<Room>>::new()), vec![]);
}

#[test]
fn sort_rooms_records_places_in_ascending_order() {
    let rooms = vec![
        room(30, &[]),
        room(10, &[(Direction::East, (20, Door::Absent))]),
        room(20, &[]),
    ];
    let (places, planes) = sort_rooms(rooms.clone(), vec![]);
    assert_eq!(places.len(), 3);
    assert_eq!(places[&10], (rooms[1].clone(), 0));
    assert_eq!(places[&20], (rooms[2].clone(), 1));
    assert_eq!(places[&30], (rooms[0].clone(), 2));
    let vnums: Vec<Vec<Vnum>> =
        planes.iter().map(|p| p.iter().map(|l| l.room.vnum).collect()).collect();
    assert_eq!(vnums, vec![vec![10, 20], vec![30]]);
}

#[test]
fn planes_split_the_rooms() {
    let mut rooms = Vec::new();
    for v in 0..60u32 {
        let mut exits = Vec::new();
        if v % 7 != 0 {
            exits.push((Direction::East, (v + 1, Door::Absent)));
        }
        if v % 5 == 0 {
            exits.push((Direction::Up, ((v * 3) % 60, Door::Absent)));
        }
        if v % 4 == 1 {
            exits.push((Direction::South, ((v + 11) % 64, Door::Closed)));
        }
        rooms.push(room(v, &exits));
    }
    let (_, planes) = sort_rooms(rooms.clone(), vec![]);
    let mut seen: Vec<Vnum> = planes.iter().flatten().map(|l| l.room.vnum).collect();
    assert!(planes.iter().all(|p| !p.is_empty()));
    seen.sort();
    let expected: Vec<Vnum> = (0..60).collect();
    assert_eq!(seen, expected);
    for plane in &planes {
        for (k, loc) in plane.iter().enumerate().skip(1) {
            let linked = plane[..k].iter().any(|from| {
                from.room.exits.iter().any(|(d, (to, _))| {
                    let (dx, dy) = match d {
                        Direction::North => (0, 1),
                        Direction::East => (1, 0),
                        Direction::South => (0, -1),
                        Direction::West => (-1, 0),
                        _ => return false,
                    };
                    *to == loc.room.vnum && loc.x == from.x + dx && loc.y == from.y + dy
                })
            });
            assert!(linked, "{:?}", loc);
        }
    }
}
