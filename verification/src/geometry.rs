//! Room names and world positions as plain values.
//!
//! A room name packs its room coordinates the way the game API does: the
//! high byte is `room_x + 128`, the low byte `room_y + 128` (`Wxx` rooms
//! have `room_x = -xx - 1`, `Exx` rooms `room_x = xx`; `Nyy` rooms
//! `room_y = -yy - 1`, `Syy` rooms `room_y = yy`). A position is held by its
//! world coordinates (`50 * room_x + x`, `50 * room_y + y`), which name each
//! tile of the world once.
use vstd::prelude::*;

verus! {

/// A room, by its packed coordinates.
#[derive(Clone, Copy, Debug, PartialEq, Eq, Hash, Structural)]
pub struct RoomName {
    pub packed: u16,
}

/// Chebyshev length of an offset.
pub open spec fn chebyshev(dx: int, dy: int) -> int {
    let ax = if dx < 0 { -dx } else { dx };
    let ay = if dy < 0 { -dy } else { dy };
    if ax >= ay { ax } else { ay }
}

impl RoomName {
    /// East-west room coordinate.
    pub open spec fn room_x(self) -> int {
        self.packed as int / 256 - 128
    }

    /// North-south room coordinate.
    pub open spec fn room_y(self) -> int {
        self.packed as int % 256 - 128
    }

    pub fn from_packed(packed: u16) -> (r: RoomName)
        ensures
            r.packed == packed,
    {
        RoomName { packed }
    }

    pub fn packed_repr(&self) -> (r: u16)
        ensures
            r == self.packed,
    {
        self.packed
    }

    pub fn x_coord(&self) -> (r: i32)
        ensures
            r == self.room_x(),
    {
        (self.packed / 256) as i32 - 128
    }

    pub fn y_coord(&self) -> (r: i32)
        ensures
            r == self.room_y(),
    {
        (self.packed % 256) as i32 - 128
    }
}

/// Rooms between `a` and `b` along the greater axis (Chebyshev hops).
pub open spec fn spec_room_distance(a: RoomName, b: RoomName) -> int {
    chebyshev(a.room_x() - b.room_x(), a.room_y() - b.room_y())
}

/// Chebyshev distance between two rooms, in room hops.
pub fn room_distance(a: RoomName, b: RoomName) -> (d: u32)
    ensures
        d == spec_room_distance(a, b),
        d <= 255,
{
    let dx = a.x_coord() - b.x_coord();
    let dy = a.y_coord() - b.y_coord();
    let ax = if dx < 0 { -dx } else { dx };
    let ay = if dy < 0 { -dy } else { dy };
    if ax >= ay {
        ax as u32
    } else {
        ay as u32
    }
}

/// A tile of the world, by its world coordinates.
#[derive(Clone, Copy, Debug, PartialEq, Eq, Hash, Structural)]
pub struct Position {
    pub world_x: i32,
    pub world_y: i32,
}

impl Position {
    /// Linear (Chebyshev) range to another position, across rooms.
    pub open spec fn range_to(self, target: Position) -> int {
        chebyshev(self.world_x - target.world_x, self.world_y - target.world_y)
    }

    pub fn from_world_coords(world_x: i32, world_y: i32) -> (p: Position)
        ensures
            p.world_x == world_x,
            p.world_y == world_y,
    {
        Position { world_x, world_y }
    }

    /// Linear (Chebyshev) range to another position, across rooms.
    pub fn get_range_to(self, target: Position) -> (r: u32)
        ensures
            r == self.range_to(target),
    {
        let dx = self.world_x as i64 - target.world_x as i64;
        let dy = self.world_y as i64 - target.world_y as i64;
        let ax = if dx < 0 { -dx } else { dx };
        let ay = if dy < 0 { -dy } else { dy };
        if ax >= ay {
            ax as u32
        } else {
            ay as u32
        }
    }
}

} // verus!
