//! Sprite sheets: the options of the packer and the placement of sprites in
//! rows.

use vstd::prelude::*;
use crate::num::max_int;

verus! {

/// Order in which the sprites are placed.
#[derive(Debug, Clone, Copy, PartialEq, Eq, Structural)]
pub enum SortOrder {
    /// Tallest first.
    Height,
    /// Widest first.
    Width,
    /// By name.
    Name,
    /// In the order given.
    Unsorted,
}

/// Options of the packer.
#[derive(Debug, Clone, Copy)]
pub struct PackerSettings {
    /// Width of the sheet.
    pub max_width: u32,
    /// Space after each sprite, to the right and below.
    pub item_padding: u32,
    /// Space between rows.
    pub row_padding: u32,
    /// Space along the border of the sheet.
    pub border_padding: u32,
    /// Colour of the sheet as red, green, blue, alpha.
    pub background_color: (u8, u8, u8, u8),
    pub sort_order: SortOrder,
    /// Write the positions of the sprites beside the sheet.
    pub export_metadata: bool,
}

impl PackerSettings {
    /// A transparent sheet 2048 pixels wide, sprites by height, with a
    /// padding of 2 and a border of 4.
    pub open spec fn standard() -> PackerSettings {
        PackerSettings {
            max_width: 2048,
            item_padding: 2,
            row_padding: 2,
            border_padding: 4,
            background_color: (0u8, 0u8, 0u8, 0u8),
            sort_order: SortOrder::Height,
            export_metadata: true,
        }
    }
}

impl Default for PackerSettings {
    fn default() -> (settings: Self)
        ensures
            settings == PackerSettings::standard(),
    {
        PackerSettings {
            max_width: 2048,
            item_padding: 2,
            row_padding: 2,
            border_padding: 4,
            background_color: (0, 0, 0, 0),
            sort_order: SortOrder::Height,
            export_metadata: true,
        }
    }
}

/// Place and size of one sprite on the sheet.
#[derive(Debug, Clone, Copy, PartialEq, Eq, Structural)]
pub struct SpriteMetadata {
    pub x: u32,
    pub y: u32,
    pub w: u32,
    pub h: u32,
}

/// The sheet that the packer made.
#[derive(Debug, Clone)]
pub struct PackerResult {
    /// Where the sheet was written.
    pub sprite_sheet: String,
    pub width: u32,
    pub height: u32,
    /// Name and place of each sprite.
    pub items: Vec<(String, SpriteMetadata)>,
}

/// The pen of the packer: where the next sprite goes, and how tall the
/// current row is.
pub struct Pen {
    pub x: int,
    pub y: int,
    pub row_height: int,
}

/// Whether a sprite of width `w` begins a new row: it does not fit before
/// the border, and the row is not empty.
pub open spec fn wraps(pen: Pen, w: int, settings: PackerSettings) -> bool {
    pen.x + w + settings.border_padding > settings.max_width && pen.x > settings.border_padding
}

/// Where a sprite of width `w` is placed.
pub open spec fn place(pen: Pen, w: int, settings: PackerSettings) -> (int, int) {
    if wraps(pen, w, settings) {
        (settings.border_padding as int, pen.y + pen.row_height + settings.row_padding)
    } else {
        (pen.x, pen.y)
    }
}

/// The pen after a sprite of `w` by `h` pixels was placed.
pub open spec fn advance(pen: Pen, w: int, h: int, settings: PackerSettings) -> Pen {
    let at = place(pen, w, settings);
    let row = if wraps(pen, w, settings) {
        0
    } else {
        pen.row_height
    };
    Pen { x: at.0 + w + settings.item_padding, y: at.1, row_height: max_int(row, h + settings.item_padding) }
}

/// The pen before any sprite is placed.
pub open spec fn start_pen(settings: PackerSettings) -> Pen {
    Pen { x: settings.border_padding as int, y: settings.border_padding as int, row_height: 0 }
}

/// The pen after the first `count` sprites were placed.
pub open spec fn pen_after(sizes: Seq<(u32, u32)>, count: int, settings: PackerSettings) -> Pen
    decreases count,
{
    if count <= 0 {
        start_pen(settings)
    } else {
        advance(pen_after(sizes, count - 1, settings), sizes[count - 1].0 as int, sizes[count - 1].1 as int, settings)
    }
}

/// Where sprite number `i` is placed.
pub open spec fn position(sizes: Seq<(u32, u32)>, i: int, settings: PackerSettings) -> (int, int) {
    place(pen_after(sizes, i, settings), sizes[i].0 as int, settings)
}

/// Height of the sheet that holds all sprites.
pub open spec fn sheet_height(sizes: Seq<(u32, u32)>, settings: PackerSettings) -> int {
    let pen = pen_after(sizes, sizes.len() as int, settings);
    pen.y + pen.row_height + settings.border_padding
}

/// Placing a sprite of `w` by `h` pixels keeps every coordinate within 32
/// bits: the padded size of the sprite, its right end with the border, the
/// top of a new row where one begins, and the pen behind the sprite.
pub open spec fn step_fits(pen: Pen, w: int, h: int, settings: PackerSettings) -> bool {
    &&& w + settings.item_padding <= u32::MAX
    &&& h + settings.item_padding <= u32::MAX
    &&& pen.x + w + settings.border_padding <= u32::MAX
    &&& wraps(pen, w, settings) ==> pen.y + pen.row_height + settings.row_padding <= u32::MAX
    &&& advance(pen, w, h, settings).x <= u32::MAX
}

/// Every coordinate that the placement computes fits in 32 bits.
pub open spec fn layout_fits(sizes: Seq<(u32, u32)>, settings: PackerSettings) -> bool {
    &&& forall|i: int|
        0 <= i < sizes.len() ==> step_fits(
            pen_after(sizes, i, settings),
            (#[trigger] sizes[i]).0 as int,
            sizes[i].1 as int,
            settings,
        )
    &&& sheet_height(sizes, settings) <= u32::MAX
}

/// The places of the sprites on a sheet and the height of the sheet.
pub struct SheetLayout {
    pub positions: Vec<(u32, u32)>,
    pub height: u32,
}

/// Places sprites of the given sizes on a sheet, row by row from the left:
/// a sprite that does not fit into the width of the sheet begins a new row
/// below the tallest sprite of the row before. Nothing where a coordinate
/// does not fit in 32 bits.
pub fn layout_sprites(sizes: &Vec<(u32, u32)>, settings: &PackerSettings) -> (layout: Option<SheetLayout>)
    ensures
        layout is Some <==> layout_fits(sizes@, *settings),
        layout is Some ==> {
            &&& layout->0.positions@.len() == sizes@.len()
            &&& forall|i: int|
                0 <= i < sizes@.len() ==> (#[trigger] layout->0.positions@[i]).0 == position(sizes@, i, *settings).0
                    && layout->0.positions@[i].1 == position(sizes@, i, *settings).1
            &&& layout->0.height == sheet_height(sizes@, *settings)
        },
{
    let limit: u64 = 0xFFFF_FFFF;
    let border: u64 = settings.border_padding as u64;
    let mut positions: Vec<(u32, u32)> = Vec::new();
    let mut x: u64 = border;
    let mut y: u64 = border;
    let mut row_height: u64 = 0;
    let mut i: usize = 0;
    while i < sizes.len()
        invariant
            i <= sizes@.len(),
            limit == u32::MAX,
            border == settings.border_padding,
            x == pen_after(sizes@, i as int, *settings).x,
            y == pen_after(sizes@, i as int, *settings).y,
            row_height == pen_after(sizes@, i as int, *settings).row_height,
            x <= limit,
            y <= limit,
            row_height <= limit,
            positions@.len() == i,
            forall|k: int|
                0 <= k < i ==> step_fits(
                    pen_after(sizes@, k, *settings),
                    (#[trigger] sizes@[k]).0 as int,
                    sizes@[k].1 as int,
                    *settings,
                ),
            forall|k: int|
                0 <= k < i ==> (#[trigger] positions@[k]).0 == position(sizes@, k, *settings).0 && positions@[k].1
                    == position(sizes@, k, *settings).1,
        decreases sizes@.len() - i,
    {
        let w: u64 = sizes[i].0 as u64;
        let h: u64 = sizes[i].1 as u64;
        let ghost pen = pen_after(sizes@, i as int, *settings);
        let wide: u64 = w + settings.item_padding as u64;
        let tall: u64 = h + settings.item_padding as u64;
        let wrap: bool = x + w + border > settings.max_width as u64 && x > border;
        let fits: bool = wide <= limit && tall <= limit && x + w + border <= limit && (!wrap || y + row_height
            + settings.row_padding as u64 <= limit) && (if wrap {
            border
        } else {
            x
        }) + wide <= limit;
        assert(fits == step_fits(pen, w as int, h as int, *settings));
        if !fits {
            proof {
                assert(!layout_fits(sizes@, *settings)) by {
                    if layout_fits(sizes@, *settings) {
                        assert(step_fits(pen, sizes@[i as int].0 as int, sizes@[i as int].1 as int, *settings));
                    }
                }
            }
            return None;
        }
        if wrap {
            x = border;
            y = y + row_height + settings.row_padding as u64;
            row_height = 0;
        }
        positions.push((x as u32, y as u32));
        x = x + wide;
        if tall > row_height {
            row_height = tall;
        }
        i = i + 1;
    }
    let height: u64 = y + row_height + border;
    if height > limit {
        return None;
    }
    Some(SheetLayout { positions, height: height as u32 })
}

} // verus!
