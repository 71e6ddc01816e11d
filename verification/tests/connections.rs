use area_map::model::{self, is_updown_connection, map_connection, Direction, Door, Room, Sector, Vnum};
use area_map::parser::{find_connections, sort_rooms, Connection, Exit, ParsedArea};
use std::rc::Rc;

fn room(vnum: Vnum, exits: &[(Direction, (u32, Door))]) -> Rc<Room> {
    Rc::new(Room {
        vnum,
        name: vnum.to_string(),
        string_vnum: vnum.to_string(),
        sector: Sector::Inside,
        exits: exits.iter().copied().collect(),
    })
}

fn exit(in_room: Vnum, direction: Direction) -> Exit {
    Exit { direction, in_room }
}

fn accounts_for(c: &Connection, e: &Exit) -> bool {
    match c {
        Connection::TwoWay { from, to, .. } => from == e || to == e,
        Connection::OneWay { from, .. } => from == e,
        Connection::External { from, .. } => from == e,
    }
}

fn merged_door(first: Door, second: Door) -> Door {
    let rooms = vec![
        room(1, &[(Direction::North, (2, first))]),
        room(2, &[(Direction::South, (1, second))]),
    ];
    match find_connections(&rooms)[..] {
        [Connection::TwoWay { door, .. }] => door,
        _ => panic!("one two-way connection expected"),
    }
}

#[test]
fn door_merge_of_reciprocal_exits() {
    assert_eq!(merged_door(Door::Absent, Door::Closed), Door::Closed);
    assert_eq!(merged_door(Door::Closed, Door::Absent), Door::Closed);
    assert_eq!(merged_door(Door::Closed, Door::Closed), Door::Closed);
    assert_eq!(merged_door(Door::Absent, Door::Absent), Door::Absent);
}

#[test]
fn door_or_is_closed_as_soon_as_one_is() {
    assert_eq!(Door::Absent.or(&Door::Absent), Door::Absent);
    assert_eq!(Door::Absent.or(&Door::Closed), Door::Closed);
    assert_eq!(Door::Closed.or(&Door::Absent), Door::Closed);
    assert_eq!(Door::Closed.or(&Door::Closed), Door::Closed);
}

#[test]
fn two_rooms_and_a_dangling_exit() {
    let rooms = vec![
        room(
            1000,
            &[
                (Direction::North, (1001, Door::Absent)),
                (Direction::West, (500, Door::Absent)),
            ],
        ),
        room(1001, &[(Direction::South, (1000, Door::Absent))]),
    ];
    assert_eq!(
        find_connections(&rooms),
        vec![
            Connection::TwoWay {
                from: exit(1000, Direction::North),
                to: exit(1001, Direction::South),
                door: Door::Absent,
            },
            Connection::External {
                from: exit(1000, Direction::West),
                to: 500,
                door: Door::Absent,
            },
        ]
    );
}

#[test]
fn one_way_exit_points_back_in_the_opposite_direction() {
    let rooms = vec![
        room(1, &[(Direction::Up, (2, Door::Closed))]),
        room(2, &[(Direction::East, (3, Door::Absent))]),
        room(3, &[]),
    ];
    assert_eq!(
        find_connections(&rooms),
        vec![
            Connection::OneWay {
                from: exit(1, Direction::Up),
                to: exit(2, Direction::Down),
                door: Door::Closed,
            },
            Connection::OneWay {
                from: exit(2, Direction::East),
                to: exit(3, Direction::West),
                door: Door::Absent,
            },
        ]
    );
}

#[test]
fn exact_reciprocal_is_preferred() {
    let rooms = vec![
        room(1, &[(Direction::East, (2, Door::Absent))]),
        room(
            2,
            &[
                (Direction::North, (1, Door::Closed)),
                (Direction::West, (1, Door::Absent)),
            ],
        ),
    ];
    let conns = find_connections(&rooms);
    assert_eq!(
        conns[0],
        Connection::TwoWay {
            from: exit(1, Direction::East),
            to: exit(2, Direction::West),
            door: Door::Absent,
        }
    );
}

#[test]
fn any_exit_back_answers_where_no_exact_one_does() {
    let rooms = vec![
        room(1, &[(Direction::East, (2, Door::Absent))]),
        room(
            2,
            &[
                (Direction::Down, (1, Door::Absent)),
                (Direction::South, (1, Door::Closed)),
            ],
        ),
    ];
    let conns = find_connections(&rooms);
    assert_eq!(
        conns[0],
        Connection::TwoWay {
            from: exit(1, Direction::East),
            to: exit(2, Direction::South),
            door: Door::Closed,
        }
    );
}

#[test]
fn exit_to_the_room_itself_answers_itself() {
    let rooms = vec![room(7, &[(Direction::North, (7, Door::Closed))])];
    assert_eq!(
        find_connections(&rooms),
        vec![Connection::TwoWay {
            from: exit(7, Direction::North),
            to: exit(7, Direction::North),
            door: Door::Closed,
        }]
    );
}

#[test]
fn two_way_connection_is_recorded_once() {
    let rooms = vec![
        room(2, &[(Direction::South, (1, Door::Absent))]),
        room(1, &[(Direction::North, (2, Door::Absent))]),
    ];
    assert_eq!(
        find_connections(&rooms),
        vec![Connection::TwoWay {
            from: exit(2, Direction::South),
            to: exit(1, Direction::North),
            door: Door::Absent,
        }]
    );
}

#[test]
fn exits_are_walked_north_east_south_west_up_down() {
    let rooms = vec![room(
        1,
        &[
            (Direction::Down, (16, Door::Absent)),
            (Direction::Up, (15, Door::Absent)),
            (Direction::West, (14, Door::Absent)),
            (Direction::South, (13, Door::Absent)),
            (Direction::East, (12, Door::Absent)),
            (Direction::North, (11, Door::Absent)),
        ],
    )];
    let targets: Vec<Vnum> = find_connections(&rooms)
        .iter()
        .map(|c| match c {
            Connection::External { to, .. } => *to,
            _ => 0,
        })
        .collect();
    assert_eq!(targets, vec![11, 12, 13, 14, 15, 16]);
}

#[test]
fn every_exit_is_accounted_for() {
    let rooms = vec![
        room(
            1,
            &[
                (Direction::North, (2, Door::Absent)),
                (Direction::East, (2, Door::Absent)),
                (Direction::Up, (9, Door::Absent)),
            ],
        ),
        room(
            2,
            &[
                (Direction::South, (1, Door::Absent)),
                (Direction::Down, (3, Door::Closed)),
            ],
        ),
        room(3, &[(Direction::West, (3, Door::Absent))]),
    ];
    let conns = find_connections(&rooms);
    for r in &rooms {
        for (d, _) in &r.exits {
            let e = exit(r.vnum, *d);
            assert!(conns.iter().any(|c| accounts_for(c, &e)), "{:?}", e);
        }
    }
    for (k, c) in conns.iter().enumerate() {
        let origin = match c {
            Connection::TwoWay { from, .. } => from,
            Connection::OneWay { from, .. } => from,
            Connection::External { from, .. } => from,
        };
        assert!(!conns[..k].iter().any(|earlier| accounts_for(earlier, origin)));
    }
}

#[test]
fn paired_exits_are_accounted_for_exactly_once() {
    let rooms = vec![
        room(
            1,
            &[
                (Direction::North, (2, Door::Absent)),
                (Direction::East, (3, Door::Absent)),
            ],
        ),
        room(2, &[(Direction::South, (1, Door::Absent))]),
        room(3, &[(Direction::Up, (1, Door::Absent))]),
    ];
    let conns = find_connections(&rooms);
    for r in &rooms {
        for (d, _) in &r.exits {
            let e = exit(r.vnum, *d);
            assert_eq!(conns.iter().filter(|c| accounts_for(c, &e)).count(), 1);
        }
    }
}

#[test]
fn unpaired_exits_may_be_accounted_for_twice() {
    let rooms = vec![
        room(
            1,
            &[
                (Direction::North, (2, Door::Absent)),
                (Direction::East, (2, Door::Absent)),
            ],
        ),
        room(2, &[(Direction::South, (1, Door::Absent))]),
    ];
    let conns = find_connections(&rooms);
    let back = exit(2, Direction::South);
    assert_eq!(conns.len(), 2);
    assert_eq!(conns.iter().filter(|c| accounts_for(c, &back)).count(), 2);
}

#[test]
fn external_connection_leads_out_of_the_room_set() {
    let rooms = vec![
        room(1, &[(Direction::North, (2, Door::Absent))]),
        room(3, &[(Direction::South, (1, Door::Absent))]),
    ];
    let conns = find_connections(&rooms);
    assert_eq!(
        conns,
        vec![
            Connection::External { from: exit(1, Direction::North), to: 2, door: Door::Absent },
            Connection::OneWay {
                from: exit(3, Direction::South),
                to: exit(1, Direction::North),
                door: Door::Absent,
            },
        ]
    );
}

#[test]
fn mapped_connections_carry_places_and_text() {
    let rooms = vec![
        room(30, &[(Direction::West, (500, Door::Closed))]),
        room(
            10,
            &[
                (Direction::North, (20, Door::Absent)),
                (Direction::Up, (30, Door::Absent)),
            ],
        ),
        room(20, &[(Direction::South, (10, Door::Absent))]),
    ];
    let conns = find_connections(&rooms);
    let (places, _) = sort_rooms(rooms, vec![]);
    let mapped: Vec<model::Connection> =
        conns.into_iter().map(|c| map_connection(c, &places)).collect();
    assert_eq!(
        mapped,
        vec![
            model::Connection::External {
                from: model::Exit { direction: Direction::West, in_room: 30, index: 2 },
                to: "500".to_string(),
                door: Door::Closed,
            },
            model::Connection::TwoWay {
                from: model::Exit { direction: Direction::North, in_room: 10, index: 0 },
                to: model::Exit { direction: Direction::South, in_room: 20, index: 1 },
                door: Door::Absent,
            },
            model::Connection::OneWay {
                from: model::Exit { direction: Direction::Up, in_room: 10, index: 0 },
                to: model::Exit { direction: Direction::Down, in_room: 30, index: 2 },
                door: Door::Absent,
            },
        ]
    );
}

#[test]
fn external_destination_is_written_in_decimal() {
    for target in [0u32, 7, 10, 99, 100, 4294967295] {
        let rooms = vec![room(1, &[(Direction::North, (target, Door::Absent))])];
        let target = if target == 1 { 2 } else { target };
        let rooms = if rooms[0].exits[&Direction::North].0 == target {
            rooms
        } else {
            vec![room(1, &[(Direction::North, (target, Door::Absent))])]
        };
        let conns = find_connections(&rooms);
        let (places, _) = sort_rooms(rooms, vec![]);
        match map_connection(conns[0], &places) {
            model::Connection::External { to, .. } => assert_eq!(to, target.to_string()),
            other => panic!("{:?}", other),
        }
    }
}

#[test]
fn places_know_the_rooms_of_all_connections() {
    let rooms = vec![
        room(5, &[(Direction::North, (4, Door::Absent)), (Direction::East, (77, Door::Absent))]),
        room(4, &[(Direction::Down, (3, Door::Absent))]),
        room(3, &[]),
    ];
    let area = ParsedArea::from_rooms(rooms, vec![]);
    assert_eq!(area.connections.len(), 3);
    for c in &area.connections {
        assert!(model::connection::knows_exits(c, &area.all_rooms));
    }
    let foreign = Connection::OneWay {
        from: exit(5, Direction::North),
        to: exit(99, Direction::South),
        door: Door::Absent,
    };
    assert!(!model::connection::knows_exits(&foreign, &area.all_rooms));
}

#[test]
fn exits_that_answer_one_to_one_are_accounted_for_exactly_once() {
    let rooms = vec![
        room(
            1,
            &[
                (Direction::North, (2, Door::Absent)),
                (Direction::East, (2, Door::Absent)),
                (Direction::West, (1, Door::Absent)),
            ],
        ),
        room(
            2,
            &[
                (Direction::North, (1, Door::Absent)),
                (Direction::South, (1, Door::Absent)),
                (Direction::Up, (2, Door::Absent)),
                (Direction::Down, (2, Door::Absent)),
            ],
        ),
    ];
    let conns = find_connections(&rooms);
    assert_eq!(conns.len(), 4);
    for r in &rooms {
        for (d, _) in &r.exits {
            let e = exit(r.vnum, *d);
            assert_eq!(conns.iter().filter(|c| accounts_for(c, &e)).count(), 1, "{:?}", e);
        }
    }
}

#[test]
fn exit_of_a_later_room_that_answers_none_is_accounted_for_twice() {
    let rooms = vec![
        room(1, &[(Direction::North, (2, Door::Absent))]),
        room(
            2,
            &[
                (Direction::South, (1, Door::Absent)),
                (Direction::West, (1, Door::Absent)),
            ],
        ),
    ];
    let conns = find_connections(&rooms);
    let first = exit(1, Direction::North);
    assert_eq!(conns.iter().filter(|c| accounts_for(c, &first)).count(), 2);
}

#[test]
fn connections_that_go_up_or_down_are_told_apart() {
    let flat = model::Exit { direction: Direction::East, in_room: 1, index: 0 };
    let back = model::Exit { direction: Direction::West, in_room: 2, index: 1 };
    let up = model::Exit { direction: Direction::Up, in_room: 1, index: 0 };
    let down = model::Exit { direction: Direction::Down, in_room: 2, index: 1 };
    assert!(!is_updown_connection(&flat, &back));
    assert!(is_updown_connection(&up, &back));
    assert!(is_updown_connection(&flat, &down));
    assert!(is_updown_connection(&up, &down));
}
