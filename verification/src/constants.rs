//! Protocol numbers shared with asset compilers, script bindings and backends.
use vstd::prelude::*;

verus! {

// ---- textures ---------------------------------------------------------------

/// Bits of a texture handle that hold the slot index.
pub const TEX_SLOT_BITS: u32 = 20;

/// Slot part of a texture handle, also the largest slot index.
pub const TEX_SLOT_MASK: u32 = 0xf_ffff;

/// Generation part of a texture handle, after shifting. Bit 31 of a handle
/// stays clear, so handles are never negative.
pub const TEX_GEN_MASK: u32 = 0x7ff;

/// Largest texture edge.
pub const TEX_MAX_DIM: u32 = 512;

/// Byte size of a palette: 256 colours of four bytes each.
pub const TEX_PALETTE_BYTES: usize = 1024;

/// 16-bit 5:6:5 pixels.
pub const PSM_5650: u32 = 0;

/// 16-bit 4:4:4:4 pixels.
pub const PSM_4444: u32 = 2;

/// 32-bit 8:8:8:8 pixels.
pub const PSM_8888: u32 = 3;

/// 8-bit palette indices.
pub const PSM_T8: u32 = 5;

/// Image flag: the pixel stream is run-length coded.
pub const IMG_FLAG_RLE: u8 = 1;

/// Image flag: sample with bilinear filtering.
pub const IMG_FLAG_LINEAR: u8 = 2;

/// First word of a tileset entry.
pub const TILESET_MAGIC: u32 = 0x5354_4b50;

/// Layout version of a tileset entry.
pub const TILESET_VERSION: u16 = 1;

/// Tileset flag: tile streams are run-length coded.
pub const TILESET_FLAG_RLE: u16 = 1;

/// Tileset flag: sample tiles with bilinear filtering.
pub const TILESET_FLAG_LINEAR: u16 = 2;

/// Bytes of one tileset directory entry: offset and length.
pub const TILESET_DIR_ENTRY_SIZE: usize = 8;

/// Directory offset of a tile that is not there.
pub const TILESET_ABSENT: u32 = 0xffff_ffff;

// ---- screen -------------------------------------------------------------------

/// Screen width in pixels.
pub const SCREEN_W: u32 = 480;

/// Screen height in pixels.
pub const SCREEN_H: u32 = 272;

// ---- fonts --------------------------------------------------------------------

/// Number of font atlas slots.
pub const MAX_FONT_SLOTS: usize = 16;

// ---- draw list operations -------------------------------------------------------

/// Filled rectangle: xy, wh, colour.
pub const OP_RECT: u32 = 1;

/// Gradient rectangle: xy, wh, from, to, direction.
pub const OP_GRAD_RECT: u32 = 2;

/// Glyphs of one font: slot and count, colour, then xy and glyph for each.
pub const OP_GLYPH_RUN: u32 = 3;

/// Textured rectangle: handle, xy, wh, two texture corners, colour.
pub const OP_TEX_QUAD: u32 = 4;

/// Narrows the drawing area: xy, wh.
pub const OP_SCISSOR: u32 = 5;

/// Restores the drawing area before the last `OP_SCISSOR`.
pub const OP_SCISSOR_POP: u32 = 6;

/// Triangle: three xy, three colours.
pub const OP_TRI: u32 = 7;

/// Textured triangle: handle, three corners of xy, u and v, colour.
pub const OP_TEX_TRI: u32 = 8;

/// Shaped text: seven words, a byte count, then the bytes in whole words.
pub const OP_TEXT_RUN: u32 = 9;

/// Composited surface: handle, full bounds, visible xy and wh, flags.
pub const OP_SURFACE_QUAD: u32 = 10;

// ---- gradient directions --------------------------------------------------------

/// The second colour is at the bottom.
pub const GRAD_TO_BOTTOM: u32 = 0;

/// The second colour is at the top.
pub const GRAD_TO_TOP: u32 = 1;

/// The second colour is at the left.
pub const GRAD_TO_LEFT: u32 = 2;

/// The second colour is at the right; the last direction.
pub const GRAD_TO_RIGHT: u32 = 3;

// ---- host ---------------------------------------------------------------------

/// Bit of the summon button in a button mask.
pub const BTN_SELECT: u32 = 1;

/// Packed position of a stick at rest: both axes in the middle.
pub const ANALOG_CENTER: u32 = 0x8080;

/// Fixed animation steps per second.
pub const CORE_TICKS_PER_SECOND: u32 = 60;

/// The largest number of animation steps per second.
pub const MAX_TICK_HZ: u32 = 240;

/// Frames per second of a package of several apps.
pub const MULTI_APP_SIM_HZ: u32 = 20;

/// Growth of the heap between two forced collections.
pub const GC_BUMP_STEP: usize = 262144;

// ---- nodes --------------------------------------------------------------------

/// Node that lays out and paints a box.
pub const NODE_VIEW: u8 = 0;

/// Node that holds text.
pub const NODE_TEXT: u8 = 1;

/// Node that shows a texture.
pub const NODE_IMAGE: u8 = 2;

/// Node that shows a composited surface; the last sort of node.
pub const NODE_SURFACE: u8 = 3;

/// Gradient direction of a box without a gradient.
pub const NO_GRADIENT: u32 = 0xffff_ffff;

// ---- node ids -------------------------------------------------------------------

/// Slot part of a node id, also the largest slot index.
pub const ID_SLOT_MASK: u32 = 0xffff;

/// Generation part of a node id, after shifting. Bit 31 of an id stays clear.
pub const ID_GEN_MASK: u32 = 0x7fff;

/// Id of the root node: slot 1, never released. Slot 0 is not used, so that 0
/// is no id.
pub const ROOT_ID: i32 = 1;

/// Style id of a node without a style.
pub const STYLE_ID_NONE: i32 = -1;

// ---- floating point patterns ------------------------------------------------------------

/// 1.
pub const F32_ONE: u32 = 0x3f80_0000;

/// 32000, the farthest coordinate that drawing lists hold safely.
pub const F32_COORD_MAX: u32 = 0x46fa_0000;

/// 480, the width of the screen.
pub const F32_SCREEN_W: u32 = 0x43f0_0000;

/// 272, the height of the screen.
pub const F32_SCREEN_H: u32 = 0x4388_0000;

/// -32000.
pub const F32_COORD_MIN: u32 = 0xc6fa_0000;

} // verus!
