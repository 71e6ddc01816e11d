use area_map::model::{Direction, Door, Room, Sector, Vnum};
use area_map::parser::{find_rooms_in_plane, Location, Rule};
use std::rc::Rc;

fn make_room(vnum: Vnum, exits: &[(Direction, (u32, Door))]) -> Rc<Room> {
    Rc::new(Room {
        vnum,
        name: vnum.to_string(),
        string_vnum: vnum.to_string(),
        sector: Sector::Inside,
        exits: exits.iter().copied().collect(),
    })
}

fn rooms_from_locations(groups: Vec<Vec<Location>>) -> Vec<Vec<Rc<Room>>> {
    groups
        .into_iter()
        .map(|group| group.into_iter().map(|loc| loc.room).collect::<Vec<_>>())
        .collect()
}

fn vnums(groups: &Vec<Vec<Location>>) -> Vec<Vec<Vnum>> {
    groups
        .iter()
        .map(|group| group.iter().map(|loc| loc.room.vnum).collect())
        .collect()
}

fn places(groups: &Vec<Vec<Location>>) -> Vec<Vec<(Vnum, i32, i32)>> {
    groups
        .iter()
        .map(|group| group.iter().map(|loc| (loc.room.vnum, loc.x, loc.y)).collect())
        .collect()
}

#[test]
fn find_rooms_in_plane_groups_nsew_connections() {
    let mut rooms = vec![
        make_room(
            1000,
            &[
                (Direction::North, (1001u32, Door::Absent)),
                (Direction::West, (500u32, Door::Absent)),
            ],
        ),
        make_room(1001, &[(Direction::South, (1000u32, Door::Absent))]),
    ];

    let all_rooms = vec![rooms.clone()];

    let planes = find_rooms_in_plane(None, &mut rooms, &[]);
    let planes = rooms_from_locations(planes);
    assert_eq!(planes, all_rooms);
}

#[test]
fn find_rooms_in_plane_separates_updown_connections() {
    let mut rooms = vec![
        make_room(
            1000,
            &[
                (Direction::North, (1001u32, Door::Absent)),
                (Direction::Up, (1002u32, Door::Absent)),
            ],
        ),
        make_room(1001, &[(Direction::South, (1000u32, Door::Absent))]),
        make_room(1002, &[(Direction::Down, (1000u32, Door::Absent))]),
    ];

    let planes = find_rooms_in_plane(None, &mut rooms, &[]);
    let planes = rooms_from_locations(planes);
    assert_eq!(
        planes,
        vec![
            vec![
                make_room(
                    1000,
                    &[
                        (Direction::North, (1001u32, Door::Absent)),
                        (Direction::Up, (1002u32, Door::Absent))
                    ]
                ),
                make_room(1001, &[(Direction::South, (1000u32, Door::Absent))]),
            ],
            vec![make_room(1002, &[(Direction::Down, (1000u32, Door::Absent))])],
        ]
    );
}

#[test]
fn find_rooms_in_plane_includes_orphaned_planes() {
    let mut rooms = vec![
        make_room(1000, &[(Direction::North, (1001u32, Door::Absent))]),
        make_room(1001, &[(Direction::South, (1000u32, Door::Absent))]),
        make_room(1002, &[]),
    ];

    let planes = find_rooms_in_plane(None, &mut rooms, &[]);
    let planes = rooms_from_locations(planes);
    assert_eq!(
        planes,
        vec![
            vec![
                make_room(1000, &[(Direction::North, (1001u32, Door::Absent))]),
                make_room(1001, &[(Direction::South, (1000u32, Door::Absent))]),
            ],
            vec![make_room(1002, &[])],
        ]
    )
}

#[test]
fn no_room_is_left_to_visit() {
    let mut rooms = vec![
        make_room(1, &[(Direction::Up, (2, Door::Absent))]),
        make_room(2, &[]),
        make_room(3, &[]),
    ];
    let planes = find_rooms_in_plane(None, &mut rooms, &[]);
    assert!(rooms.is_empty());
    assert_eq!(vnums(&planes), vec![vec![1], vec![2], vec![3]]);
}

#[test]
fn no_rooms_make_no_planes() {
    let mut rooms: Vec<Rc<Room>> = vec![];
    let planes = find_rooms_in_plane(None, &mut rooms, &[]);
    assert!(planes.is_empty());
}

#[test]
fn cardinal_steps_give_grid_places() {
    let mut rooms = vec![
        make_room(
            10,
            &[
                (Direction::North, (11, Door::Absent)),
                (Direction::East, (12, Door::Absent)),
                (Direction::South, (13, Door::Absent)),
                (Direction::West, (14, Door::Absent)),
            ],
        ),
        make_room(11, &[(Direction::East, (15, Door::Absent))]),
        make_room(12, &[(Direction::North, (15, Door::Absent))]),
        make_room(13, &[]),
        make_room(14, &[]),
        make_room(15, &[]),
    ];
    let planes = find_rooms_in_plane(None, &mut rooms, &[]);
    assert_eq!(
        places(&planes),
        vec![vec![
            (10, 0, 0),
            (11, 0, 1),
            (12, 1, 0),
            (13, 0, -1),
            (14, -1, 0),
            (15, 1, 1),
        ]]
    );
}

#[test]
fn plane_starts_at_the_given_location() {
    let mut rooms = vec![
        make_room(1, &[(Direction::East, (2, Door::Absent))]),
        make_room(2, &[(Direction::West, (1, Door::Absent))]),
    ];
    let start = Location { x: 5, y: -3, room: rooms[1].clone() };
    let planes = find_rooms_in_plane(Some(start), &mut rooms, &[]);
    assert_eq!(places(&planes), vec![vec![(2, 5, -3), (1, 4, -3)]]);
}

#[test]
fn separate_rule_splits_a_cardinal_edge() {
    let mut rooms = vec![
        make_room(1, &[(Direction::East, (2, Door::Absent))]),
        make_room(2, &[(Direction::West, (1, Door::Absent))]),
    ];
    let planes = find_rooms_in_plane(None, &mut rooms, &[Rule::Separate(1, 2)]);
    assert_eq!(places(&planes), vec![vec![(1, 0, 0)], vec![(2, 0, 0)]]);

    let mut rooms = vec![
        make_room(1, &[(Direction::East, (2, Door::Absent))]),
        make_room(2, &[(Direction::West, (1, Door::Absent))]),
    ];
    let planes = find_rooms_in_plane(None, &mut rooms, &[Rule::Separate(2, 1)]);
    assert_eq!(vnums(&planes), vec![vec![1], vec![2]]);
}

#[test]
fn isolate_rule_splits_every_exit_of_the_room() {
    let mut rooms = vec![
        make_room(
            1,
            &[
                (Direction::East, (2, Door::Absent)),
                (Direction::North, (3, Door::Absent)),
            ],
        ),
        make_room(2, &[]),
        make_room(3, &[]),
    ];
    let planes = find_rooms_in_plane(None, &mut rooms, &[Rule::Isolate(1)]);
    assert_eq!(vnums(&planes), vec![vec![1], vec![3], vec![2]]);
}

#[test]
fn cardinal_path_wins_over_an_earlier_vertical_one() {
    let mut rooms = vec![
        make_room(
            1,
            &[
                (Direction::Up, (3, Door::Absent)),
                (Direction::East, (2, Door::Absent)),
            ],
        ),
        make_room(2, &[(Direction::North, (3, Door::Absent))]),
        make_room(3, &[]),
    ];
    let planes = find_rooms_in_plane(None, &mut rooms, &[]);
    assert_eq!(places(&planes), vec![vec![(1, 0, 0), (2, 1, 0), (3, 1, 1)]]);
}

#[test]
fn room_queued_twice_for_another_plane_gets_one_plane() {
    let mut rooms = vec![
        make_room(
            1,
            &[
                (Direction::Up, (3, Door::Absent)),
                (Direction::North, (2, Door::Absent)),
            ],
        ),
        make_room(
            2,
            &[
                (Direction::South, (1, Door::Absent)),
                (Direction::Up, (3, Door::Absent)),
                (Direction::East, (3, Door::Absent)),
            ],
        ),
        make_room(3, &[(Direction::Down, (1, Door::Absent))]),
        make_room(4, &[]),
    ];
    let planes = find_rooms_in_plane(None, &mut rooms, &[]);
    assert_eq!(vnums(&planes), vec![vec![1, 2, 3], vec![4]]);
}

#[test]
fn first_visit_keeps_its_place() {
    let mut rooms = vec![
        make_room(
            1,
            &[
                (Direction::North, (2, Door::Absent)),
                (Direction::East, (2, Door::Absent)),
            ],
        ),
        make_room(2, &[]),
    ];
    let planes = find_rooms_in_plane(None, &mut rooms, &[]);
    assert_eq!(places(&planes), vec![vec![(1, 0, 0), (2, 0, 1)]]);
}

#[test]
fn exits_out_of_the_pool_are_passed_over() {
    let mut rooms = vec![make_room(
        1,
        &[
            (Direction::North, (77, Door::Closed)),
            (Direction::Down, (78, Door::Absent)),
        ],
    )];
    let planes = find_rooms_in_plane(None, &mut rooms, &[]);
    assert_eq!(places(&planes), vec![vec![(1, 0, 0)]]);
}

#[test]
fn stacked_floors_make_one_plane_each() {
    let mut rooms: Vec<Rc<Room>> = Vec::new();
    for v in 0..2000u32 {
        rooms.push(make_room(v, &[(Direction::Up, (v + 1, Door::Absent))]));
    }
    let planes = find_rooms_in_plane(None, &mut rooms, &[]);
    let expected: Vec<Vec<Vnum>> = (0..2000u32).map(|v| vec![v]).collect();
    assert_eq!(vnums(&planes), expected);
}

#[test]
fn next_plane_starts_at_the_first_queued_room() {
    let mut rooms = vec![
        make_room(
            1,
            &[
                (Direction::Down, (5, Door::Absent)),
                (Direction::Up, (4, Door::Absent)),
            ],
        ),
        make_room(2, &[]),
        make_room(4, &[]),
        make_room(5, &[]),
    ];
    let planes = find_rooms_in_plane(None, &mut rooms, &[]);
    assert_eq!(vnums(&planes), vec![vec![1], vec![4], vec![2], vec![5]]);
}
