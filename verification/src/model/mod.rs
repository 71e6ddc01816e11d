//! The rooms as they are handed in, and the map that is handed out.

pub mod connection;
pub mod drawing;
pub mod position_rooms;
pub mod room;
pub mod selection;

pub use connection::{is_updown_connection, map_connection, Connection, Exit};
pub use position_rooms::{position_rooms, Area, Location};
pub use room::{Direction, Door, Room, Sector, Vnum};
pub use selection::{press, select_all_in_plane, Guides, Press, Settle};
