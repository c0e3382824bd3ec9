//! Displays as rectangles of the unified plane, and the geometry between them.

use vstd::prelude::*;

verus! {

/// Identifier of a client host. The server itself is `0`.
pub type Cid = u32;

/// The identifier that the server host uses for itself.
pub const SERVER_CID: Cid = 0;

/// Identifier of a display, unique across every host.
pub type Did = u32;

/// The edge of a display through which the pointer leaves it.
#[derive(Debug, Clone, Copy, PartialEq, Eq, Structural)]
pub enum ZoneDirection {
    HorizontalLeft,
    HorizontalRight,
    VerticalUp,
    VerticalDown,
}

/// The opposite edge: the direction in which a neighbour sees the same crossing.
pub open spec fn reverse_dir(d: ZoneDirection) -> ZoneDirection {
    match d {
        ZoneDirection::HorizontalLeft => ZoneDirection::HorizontalRight,
        ZoneDirection::HorizontalRight => ZoneDirection::HorizontalLeft,
        ZoneDirection::VerticalUp => ZoneDirection::VerticalDown,
        ZoneDirection::VerticalDown => ZoneDirection::VerticalUp,
    }
}

impl ZoneDirection {
    pub fn reverse(&self) -> (r: Self)
        ensures
            r == reverse_dir(*self),
    {
        match self {
            Self::HorizontalLeft => Self::HorizontalRight,
            Self::HorizontalRight => Self::HorizontalLeft,
            Self::VerticalUp => Self::VerticalDown,
            Self::VerticalDown => Self::VerticalUp,
        }
    }
}

/// A stretch `[start, end]` of one edge of a display, in plane coordinates,
/// through which the pointer crosses to the display `to`.
#[derive(Debug, Clone, Copy, PartialEq, Eq, Structural)]
pub struct WarpZone {
    pub start: i32,
    pub end: i32,
    pub direction: ZoneDirection,
    pub to: Did,
}

/// The displays of the plane split by the host that owns them.
#[derive(Debug)]
pub struct AssignedDisplays {
    pub system: Vec<Did>,
    pub client: Vec<Did>,
}

/// A monitor placed in the unified plane. `rotation_bits`, `scale_factor_bits`
/// and `frequency_bits` hold the bit patterns of the monitor's floating-point
/// attributes; they are carried for diagnostics and play no part in routing.
#[derive(Debug)]
pub struct Display {
    pub name: String,
    pub id: Did,
    pub x: i32,
    pub y: i32,
    pub width: i32,
    pub height: i32,
    pub rotation_bits: u32,
    pub scale_factor_bits: u32,
    pub frequency_bits: u32,
    pub is_primary: bool,
    pub warpzones: Vec<WarpZone>,
    pub owner: Cid,
}

pub open spec fn right(d: Display) -> int {
    d.x + d.width
}

pub open spec fn bottom(d: Display) -> int {
    d.y + d.height
}

/// The far edges of the display are coordinates of the plane.
pub open spec fn fits(d: Display) -> bool {
    i32::MIN <= right(d) <= i32::MAX && i32::MIN <= bottom(d) <= i32::MAX
}

/// A proper rectangle: positive size, far edges inside the plane.
pub open spec fn well_formed(d: Display) -> bool {
    d.width > 0 && d.height > 0 && fits(d)
}

/// The two rectangles share an area of positive size.
pub open spec fn overlap(a: Display, b: Display) -> bool {
    a.x < right(b) && right(a) > b.x && a.y < bottom(b) && bottom(a) > b.y
}

pub open spec fn touch_horizontal(a: Display, b: Display) -> bool {
    (right(a) == b.x || a.x == right(b)) && a.y < bottom(b) && bottom(a) > b.y
}

pub open spec fn touch_vertical(a: Display, b: Display) -> bool {
    (bottom(a) == b.y || a.y == bottom(b)) && a.x < right(b) && right(a) > b.x
}

pub open spec fn min_int(a: int, b: int) -> int {
    if a <= b { a } else { b }
}

pub open spec fn max_int(a: int, b: int) -> int {
    if a >= b { a } else { b }
}

/// The segment that `a` shares with `b` along one of `a`'s edges, seen from `a`.
pub open spec fn touch(a: Display, b: Display) -> Option<(int, int, ZoneDirection)> {
    if touch_horizontal(a, b) {
        Some(
            (
                max_int(a.y as int, b.y as int),
                min_int(bottom(a), bottom(b)),
                if right(a) == b.x {
                    ZoneDirection::HorizontalRight
                } else {
                    ZoneDirection::HorizontalLeft
                },
            ),
        )
    } else if touch_vertical(a, b) {
        Some(
            (
                max_int(a.x as int, b.x as int),
                min_int(right(a), right(b)),
                if bottom(a) == b.y {
                    ZoneDirection::VerticalDown
                } else {
                    ZoneDirection::VerticalUp
                },
            ),
        )
    } else {
        None
    }
}

/// The point lies on the display: left and top edges included, right and bottom excluded.
pub open spec fn contains(d: Display, x: int, y: int) -> bool {
    d.x <= x < right(d) && d.y <= y < bottom(d)
}

/// Overlap does not depend on the order of the two displays.
pub proof fn lemma_overlap_symmetric(a: Display, b: Display)
    ensures
        overlap(a, b) == overlap(b, a),
{
}

/// Two proper rectangles see a shared segment alike, each from its own side.
pub proof fn lemma_touch_symmetric(a: Display, b: Display)
    requires
        well_formed(a),
        well_formed(b),
    ensures
        touch(a, b) is None <==> touch(b, a) is None,
        touch(a, b) matches Some((s, e, d)) ==> touch(b, a) == Some((s, e, reverse_dir(d))),
{
}

impl Display {
    /// Whether the two displays share an area of positive size.
    pub fn is_overlap(&self, target: &Display) -> (r: bool)
        ensures
            r == overlap(*self, *target),
    {
        let self_right = self.x as i64 + self.width as i64;
        let self_bottom = self.y as i64 + self.height as i64;
        let target_right = target.x as i64 + target.width as i64;
        let target_bottom = target.y as i64 + target.height as i64;

        (self.x as i64) < target_right && self_right > target.x as i64 && (self.y as i64)
            < target_bottom && self_bottom > target.y as i64
    }

    /// The segment shared with `target` along one of this display's edges,
    /// and the edge it lies on.
    pub fn is_touch(&self, target: &Display) -> (r: Option<(i32, i32, ZoneDirection)>)
        requires
            fits(*self),
            fits(*target),
        ensures
            r is None <==> touch(*self, *target) is None,
            r matches Some((s, e, d)) ==> touch(*self, *target) == Some((s as int, e as int, d)),
    {
        let self_right = self.x + self.width;
        let self_bottom = self.y + self.height;
        let target_right = target.x + target.width;
        let target_bottom = target.y + target.height;

        let horizontal_touch = (self_right == target.x || self.x == target_right) && (self.y
            < target_bottom && self_bottom > target.y);

        let vertical_touch = (self_bottom == target.y || self.y == target_bottom) && (self.x
            < target_right && self_right > target.x);

        if horizontal_touch {
            let start = if self.y >= target.y { self.y } else { target.y };
            let end = if self_bottom <= target_bottom { self_bottom } else { target_bottom };
            let direction = if self_right == target.x {
                ZoneDirection::HorizontalRight
            } else {
                ZoneDirection::HorizontalLeft
            };
            Some((start, end, direction))
        } else if vertical_touch {
            let start = if self.x >= target.x { self.x } else { target.x };
            let end = if self_right <= target_right { self_right } else { target_right };
            let direction = if self_bottom == target.y {
                ZoneDirection::VerticalDown
            } else {
                ZoneDirection::VerticalUp
            };
            Some((start, end, direction))
        } else {
            None
        }
    }

    /// Whether the display is a proper rectangle of the plane.
    pub fn is_well_formed(&self) -> (r: bool)
        ensures
            r == well_formed(*self),
    {
        let right = self.x as i64 + self.width as i64;
        let bottom = self.y as i64 + self.height as i64;
        self.width > 0 && self.height > 0 && i32::MIN as i64 <= right && right <= i32::MAX as i64
            && i32::MIN as i64 <= bottom && bottom <= i32::MAX as i64
    }

    /// Whether the point `(x, y)` of the plane lies on this display.
    pub fn contains(&self, x: i32, y: i32) -> (r: bool)
        ensures
            r == contains(*self, x as int, y as int),
    {
        let right = self.x as i64 + self.width as i64;
        let bottom = self.y as i64 + self.height as i64;
        self.x <= x && (x as i64) < right && self.y <= y && (y as i64) < bottom
    }
}

} // verus!
