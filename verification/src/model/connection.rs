//! Connections as the map hands them out: every exit carries the place
//! of its room in the sorted room list, and an external connection names
//! its destination in text.

use crate::model::{Direction, Door, Room, Vnum};
use crate::parser;
use fnv::FnvHashMap;
use std::rc::Rc;
use vstd::prelude::*;

verus! {

/// One end of a connection: a direction out of a room, with the place of
/// the room in the sorted room list.
#[derive(Clone, Debug, Eq, PartialEq)]
pub struct Exit {
    pub direction: Direction,
    pub in_room: Vnum,
    pub index: usize,
}

/// A connection between rooms of the map, or from one of them to a room
/// outside it.
#[derive(Clone, Debug, Eq, PartialEq)]
#[allow(inconsistent_fields)]
pub enum Connection {
    TwoWay { from: Exit, to: Exit, door: Door },
    OneWay { from: Exit, to: Exit, door: Door },
    External { from: Exit, to: String, door: Door },
}

/// The character that writes the decimal digit `d`.
pub open spec fn digit_char(d: nat) -> char {
    if d == 0 {
        '0'
    } else if d == 1 {
        '1'
    } else if d == 2 {
        '2'
    } else if d == 3 {
        '3'
    } else if d == 4 {
        '4'
    } else if d == 5 {
        '5'
    } else if d == 6 {
        '6'
    } else if d == 7 {
        '7'
    } else if d == 8 {
        '8'
    } else {
        '9'
    }
}

/// The decimal digits of `v`, most significant first, without leading
/// zeros.
pub open spec fn decimal_text(v: nat) -> Seq<char>
    decreases v,
{
    if v < 10 {
        seq![digit_char(v)]
    } else {
        decimal_text(v / 10).push(digit_char(v % 10))
    }
}

/// Reading the decimal digits of a number gives the number back.
pub proof fn lemma_decimal_text_reads_back(v: nat)
    ensures
        parser::rule::decimal_value(decimal_text(v)) == v,
        forall|i: int|
            0 <= i < decimal_text(v).len() ==> parser::rule::is_digit(#[trigger] decimal_text(v)[i]),
        decimal_text(v).len() > 0,
    decreases v,
{
    reveal_with_fuel(parser::rule::decimal_value, 2);
    if v < 10 {
        assert(decimal_text(v).drop_last() =~= Seq::<char>::empty());
    } else {
        lemma_decimal_text_reads_back(v / 10);
        let front = decimal_text(v / 10);
        let text = decimal_text(v);
        assert(text.drop_last() =~= front);
        assert(text.last() == digit_char(v % 10));
        assert forall|i: int| 0 <= i < text.len() implies parser::rule::is_digit(
            #[trigger] text[i],
        ) by {
            if i < front.len() {
                assert(text[i] == front[i]);
            }
        }
    }
}

/// The exit with the place of its room looked up in `places`.
pub open spec fn exit_in(e: parser::Exit, places: Map<Vnum, (Rc<Room>, usize)>) -> Exit {
    Exit { direction: e.direction, in_room: e.in_room, index: places[e.in_room].1 }
}

/// Whether `places` knows the room of every exit of `c`.
pub open spec fn exits_known(c: parser::Connection, places: Map<Vnum, (Rc<Room>, usize)>) -> bool {
    match c {
        parser::Connection::TwoWay { from, to, .. } => places.contains_key(from.in_room)
            && places.contains_key(to.in_room),
        parser::Connection::OneWay { from, to, .. } => places.contains_key(from.in_room)
            && places.contains_key(to.in_room),
        parser::Connection::External { from, .. } => places.contains_key(from.in_room),
    }
}

/// Whether `mapped` is `c` with the places of `places` in its exits and,
/// where it is external, its destination written in decimal.
pub open spec fn maps_to(
    c: parser::Connection,
    places: Map<Vnum, (Rc<Room>, usize)>,
    mapped: Connection,
) -> bool {
    match c {
        parser::Connection::TwoWay { from, to, door } => mapped == (Connection::TwoWay {
            from: exit_in(from, places),
            to: exit_in(to, places),
            door,
        }),
        parser::Connection::OneWay { from, to, door } => mapped == (Connection::OneWay {
            from: exit_in(from, places),
            to: exit_in(to, places),
            door,
        }),
        parser::Connection::External { from, to, door } => {
            &&& mapped matches Connection::External { from: origin, to: text, door: flag }
            &&& origin == exit_in(from, places)
            &&& text@ == decimal_text(to as nat)
            &&& flag == door
        },
    }
}

/// Looks up the place of the room with identifier `vnum` with
/// `HashMap::get`. Trusted: the lookup finds the entry stored under
/// `vnum` exactly when the map holds one, which rests on `u32` hashing
/// and comparing by value and on the FNV hasher being a pure function of
/// the bytes written.
#[verifier::external_body]
fn place_of(all_rooms: &FnvHashMap<Vnum, (Rc<Room>, usize)>, vnum: Vnum) -> (r: Option<usize>)
    ensures
        r == (if all_rooms@.contains_key(vnum) {
            Some(all_rooms@[vnum].1)
        } else {
            None
        }),
{
    all_rooms.get(&vnum).map(|entry| entry.1)
}

/// Writes an identifier with `u32::to_string`. Trusted: the text is the
/// number in decimal, without sign and without leading zeros.
#[verifier::external_body]
fn vnum_text(vnum: Vnum) -> (r: String)
    ensures
        r@ == decimal_text(vnum as nat),
{
    vnum.to_string()
}

/// Whether a connection between the two exits leaves its plane, going
/// up or down at either end.
pub fn is_updown_connection(left: &Exit, right: &Exit) -> (r: bool)
    ensures
        r == (left.direction.spec_is_vertical() || right.direction.spec_is_vertical()),
{
    left.direction.is_vertical() || right.direction.is_vertical()
}

/// Gives an exit the place of its room.
fn map_exit(parsed: parser::Exit, all_rooms: &FnvHashMap<Vnum, (Rc<Room>, usize)>) -> (r: Exit)
    requires
        all_rooms@.contains_key(parsed.in_room),
    ensures
        r == exit_in(parsed, all_rooms@),
{
    let index = place_of(all_rooms, parsed.in_room).unwrap();
    Exit { direction: parsed.direction, in_room: parsed.in_room, index }
}

/// Whether the index knows the room of every exit of `c`.
pub fn knows_exits(c: &parser::Connection, all_rooms: &FnvHashMap<Vnum, (Rc<Room>, usize)>) -> (r:
    bool)
    ensures
        r == exits_known(*c, all_rooms@),
{
    match c {
        parser::Connection::TwoWay { from, to, .. } => place_of(all_rooms, from.in_room).is_some()
            && place_of(all_rooms, to.in_room).is_some(),
        parser::Connection::OneWay { from, to, .. } => place_of(all_rooms, from.in_room).is_some()
            && place_of(all_rooms, to.in_room).is_some(),
        parser::Connection::External { from, .. } => place_of(all_rooms, from.in_room).is_some(),
    }
}

/// Turns a classified connection into one of the map: its exits get the
/// places of their rooms, and the destination of an external connection
/// is written in decimal.
pub fn map_connection(c: parser::Connection, all_rooms: &FnvHashMap<Vnum, (Rc<Room>, usize)>) -> (r:
    Connection)
    requires
        exits_known(c, all_rooms@),
    ensures
        maps_to(c, all_rooms@, r),
{
    match c {
        parser::Connection::OneWay { from, to, door } => Connection::OneWay {
            from: map_exit(from, all_rooms),
            to: map_exit(to, all_rooms),
            door,
        },
        parser::Connection::TwoWay { from, to, door } => Connection::TwoWay {
            from: map_exit(from, all_rooms),
            to: map_exit(to, all_rooms),
            door,
        },
        parser::Connection::External { from, to, door } => Connection::External {
            from: map_exit(from, all_rooms),
            to: vnum_text(to),
            door,
        },
    }
}

} // verus!
