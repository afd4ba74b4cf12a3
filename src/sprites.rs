use vstd::prelude::*;

verus! {

/// Side of a tile of the sprite sheet, in pixels.
pub const TILE: u32 = 32;

/// Tiles per row of the sprite sheet.
pub const SHEET_COLS: u32 = 4;

/// The tiles of the sprite sheet, row by row.
#[derive(Clone, Copy, Debug, PartialEq, Eq, Structural)]
pub enum SpriteSheet {
    Cross,
    CrossDot,
    South,
    North,
    East,
    West,
    Northwest,
    Southwest,
    Southeast,
    Northeast,
    RedDot,
    BlueDot,
    GreenDot,
    PinkDot,
    White,
    Black,
}

/// The position of a tile on the sheet, counted row by row.
pub open spec fn sheet_index(s: SpriteSheet) -> int {
    match s {
        SpriteSheet::Cross => 0,
        SpriteSheet::CrossDot => 1,
        SpriteSheet::South => 2,
        SpriteSheet::North => 3,
        SpriteSheet::East => 4,
        SpriteSheet::West => 5,
        SpriteSheet::Northwest => 6,
        SpriteSheet::Southwest => 7,
        SpriteSheet::Southeast => 8,
        SpriteSheet::Northeast => 9,
        SpriteSheet::RedDot => 10,
        SpriteSheet::BlueDot => 11,
        SpriteSheet::GreenDot => 12,
        SpriteSheet::PinkDot => 13,
        SpriteSheet::White => 14,
        SpriteSheet::Black => 15,
    }
}

/// The tile drawn at column `x`, row `y` of an empty board of side `size`: corners,
/// then edges, then the star points, then a plain crossing.
pub open spec fn tile_at(size: int, x: int, y: int) -> SpriteSheet {
    if x == 0 && y == 0 {
        SpriteSheet::Northwest
    } else if x == 0 && y == size - 1 {
        SpriteSheet::Southwest
    } else if x == size - 1 && y == 0 {
        SpriteSheet::Northeast
    } else if x == size - 1 && y == size - 1 {
        SpriteSheet::Southeast
    } else if x == 0 {
        SpriteSheet::West
    } else if x == size - 1 {
        SpriteSheet::East
    } else if y == 0 {
        SpriteSheet::North
    } else if y == size - 1 {
        SpriteSheet::South
    } else if size == 9 && (x == 2 || x == 6) && (y == 2 || y == 6) {
        SpriteSheet::CrossDot
    } else {
        SpriteSheet::Cross
    }
}

/// Whether the crossing at (`x`, `y`) is a star point: only the 9x9 board has them.
pub fn is_dotted(size: u32, x: u32, y: u32) -> (r: bool)
    ensures
        r == (size == 9 && (x == 2 || x == 6) && (y == 2 || y == 6)),
{
    if size == 9 {
        (x == 2 || x == 6) && (y == 2 || y == 6)
    } else {
        false
    }
}

/// The tile drawn at column `x`, row `y` of an empty board of side `size`.
pub fn board_tile(size: u32, x: u32, y: u32) -> (r: SpriteSheet)
    requires
        x < size,
        y < size,
    ensures
        r == tile_at(size as int, x as int, y as int),
{
    if x == 0 && y == 0 {
        SpriteSheet::Northwest
    } else if x == 0 && y == size - 1 {
        SpriteSheet::Southwest
    } else if x == size - 1 && y == 0 {
        SpriteSheet::Northeast
    } else if x == size - 1 && y == size - 1 {
        SpriteSheet::Southeast
    } else if x == 0 {
        SpriteSheet::West
    } else if x == size - 1 {
        SpriteSheet::East
    } else if y == 0 {
        SpriteSheet::North
    } else if y == size - 1 {
        SpriteSheet::South
    } else if is_dotted(size, x, y) {
        SpriteSheet::CrossDot
    } else {
        SpriteSheet::Cross
    }
}

impl SpriteSheet {
    /// The position of this tile on the sheet, counted row by row.
    pub fn index(&self) -> (r: u32)
        ensures
            r as int == sheet_index(*self),
    {
        match self {
            SpriteSheet::Cross => 0,
            SpriteSheet::CrossDot => 1,
            SpriteSheet::South => 2,
            SpriteSheet::North => 3,
            SpriteSheet::East => 4,
            SpriteSheet::West => 5,
            SpriteSheet::Northwest => 6,
            SpriteSheet::Southwest => 7,
            SpriteSheet::Southeast => 8,
            SpriteSheet::Northeast => 9,
            SpriteSheet::RedDot => 10,
            SpriteSheet::BlueDot => 11,
            SpriteSheet::GreenDot => 12,
            SpriteSheet::PinkDot => 13,
            SpriteSheet::White => 14,
            SpriteSheet::Black => 15,
        }
    }

    /// The top-left pixel of this tile on the sheet.
    pub fn origin(&self) -> (r: (i32, i32))
        ensures
            r.0 == (sheet_index(*self) % SHEET_COLS as int) * TILE as int,
            r.1 == (sheet_index(*self) / SHEET_COLS as int) * TILE as int,
    {
        let idx = self.index();
        (((idx % SHEET_COLS) * TILE) as i32, ((idx / SHEET_COLS) * TILE) as i32)
    }
}

} // verus!
