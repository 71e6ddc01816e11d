//! From a list of rooms to connections and planes.

pub mod connection;
pub mod connection_laws;
pub mod flood;
pub mod flood_laws;
pub mod plane_laws;
pub mod rule;
pub mod sort_rooms;

pub use connection::{find_connections, Connection, Exit};
pub use rule::{read_rules, ParseRuleError, Rule};
pub use sort_rooms::{find_rooms_in_plane, sort_rooms, Location, Rect};

use crate::model::room::{distinct_vnums, lemma_room_index, room_index};
use crate::model::{Room, Vnum};
use crate::order::{lemma_sorted_members, occurs, sorted_by_vnum};
use crate::parser::connection::{connections_of, genuine, lemma_connections_sound, made_from};
use crate::parser::flood_laws::well_linked;
use crate::parser::sort_rooms::{partitions, plane_views, planes_from, room_places};
use fnv::FnvHashMap;
use std::rc::Rc;
use vstd::prelude::*;

verus! {

/// What is worked out of the rooms of an area: the place of every room in
/// ascending order of identifier, the planes, and the connections.
pub struct ParsedArea {
    pub all_rooms: FnvHashMap<Vnum, (Rc<Room>, usize)>,
    pub grouped_rooms: Vec<Vec<Location>>,
    pub connections: Vec<Connection>,
}

/// Whether the room of every exit of `c` is one of `rooms`.
pub open spec fn ends_in(c: Connection, rooms: Seq<Rc<Room>>) -> bool {
    match c {
        Connection::TwoWay { from, to, .. } => room_index(rooms, from.in_room) is Some
            && room_index(rooms, to.in_room) is Some,
        Connection::OneWay { from, to, .. } => room_index(rooms, from.in_room) is Some
            && room_index(rooms, to.in_room) is Some,
        Connection::External { from, .. } => room_index(rooms, from.in_room) is Some,
    }
}

/// Every connection of a room set starts in a room of the set and,
/// unless it is external, ends in one.
pub proof fn lemma_connections_end_in_rooms(rooms: Seq<Rc<Room>>, k: int)
    requires
        0 <= k < connections_of(rooms).len(),
    ensures
        ends_in(connections_of(rooms)[k], rooms),
{
    let c = connections_of(rooms)[k];
    lemma_connections_sound(rooms);
    assert(genuine(c, rooms));
    let (i, d) = choose|i: int, d: crate::model::Direction| made_from(c, rooms, i, d);
    lemma_room_index(rooms, rooms[i].vnum);
}

/// A room is found among the sorted rooms exactly when it is found among
/// the rooms as given.
pub proof fn lemma_sorted_finds_same(rooms: Seq<Rc<Room>>, v: Vnum)
    ensures
        room_index(sorted_by_vnum(rooms), v) is Some <==> room_index(rooms, v) is Some,
{
    let sorted = sorted_by_vnum(rooms);
    lemma_sorted_members(rooms);
    lemma_room_index(rooms, v);
    lemma_room_index(sorted, v);
    if room_index(rooms, v) is Some {
        let i = room_index(rooms, v).unwrap();
        assert(occurs(sorted, rooms[i]));
        let k = choose|k: int| 0 <= k < sorted.len() && #[trigger] sorted[k] == rooms[i];
        assert(sorted[k].vnum == v);
    }
    if room_index(sorted, v) is Some {
        let k = room_index(sorted, v).unwrap();
        assert(occurs(rooms, sorted[k]));
        let i = choose|i: int| 0 <= i < rooms.len() && #[trigger] rooms[i] == sorted[k];
        assert(rooms[i].vnum == v);
    }
}

impl ParsedArea {
    /// Works out the connections of the rooms, in the order given, and
    /// their places and planes in ascending order of identifier. The
    /// places know the room of every exit of every connection.
    pub fn from_rooms(rooms: Vec<Rc<Room>>, rules: Vec<Rule>) -> (area: ParsedArea)
        requires
            distinct_vnums(rooms@),
            rooms.len() <= i32::MAX,
        ensures
            area.connections@ == connections_of(rooms@),
            area.all_rooms@ == room_places(sorted_by_vnum(rooms@)),
            plane_views(area.grouped_rooms@) == planes_from(
                None,
                sorted_by_vnum(rooms@),
                rules@,
            ),
            partitions(plane_views(area.grouped_rooms@), rooms@),
            forall|k: int|
                0 <= k < area.grouped_rooms.len() ==> well_linked(
                    (#[trigger] area.grouped_rooms[k])@,
                    rules@,
                ),
            forall|k: int|
                0 <= k < area.connections.len() ==> crate::model::connection::exits_known(
                    #[trigger] area.connections[k],
                    area.all_rooms@,
                ),
    {
        let connections = find_connections(rooms.as_slice());
        let ghost given = rooms@;
        let (all_rooms, grouped_rooms) = sort_rooms(rooms, rules);
        proof {
            assert forall|k: int|
                0 <= k < connections.len() implies crate::model::connection::exits_known(
                #[trigger] connections[k],
                all_rooms@,
            ) by {
                lemma_connections_end_in_rooms(given, k);
                match connections[k] {
                    Connection::TwoWay { from, to, .. } => {
                        lemma_sorted_finds_same(given, from.in_room);
                        lemma_sorted_finds_same(given, to.in_room);
                    },
                    Connection::OneWay { from, to, .. } => {
                        lemma_sorted_finds_same(given, from.in_room);
                        lemma_sorted_finds_same(given, to.in_room);
                    },
                    Connection::External { from, .. } => {
                        lemma_sorted_finds_same(given, from.in_room);
                    },
                }
            }
        }
        ParsedArea { all_rooms, grouped_rooms, connections }
    }
}

} // verus!
