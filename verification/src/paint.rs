//! What a node paints, and in which order.
use crate::color::alpha;
use crate::constants::{GRAD_TO_RIGHT, NODE_IMAGE, NODE_TEXT, NO_GRADIENT};
use crate::fbits::{above_zero, below_zero, is_nan, is_zero, nan, negative, positive, zero};
use crate::glyph::color_alpha;
use vstd::prelude::*;

verus! {

// ---- the box ----------------------------------------------------------------------

/// What painting a box depends on. Colours have the opacity in them; widths,
/// the radius and the sweep are bit patterns.
#[derive(Clone, Copy)]
pub struct BoxStyle {
    pub bg: u32,
    pub border: u32,
    pub grad_dir: u32,
    pub radius: u32,
    pub border_width: u32,
    pub shadow: u32,
    pub arc_width: u32,
    pub arc_sweep: u32,
    pub bevel_outer_light: u32,
    pub bevel_outer_dark: u32,
    pub bevel_inner_light: u32,
    pub bevel_inner_dark: u32,
    pub bevel_width: u32,
}

/// One thing painted for a box.
#[derive(Clone, Copy, PartialEq, Eq, Debug)]
pub enum BoxStep {
    /// Soft shadow of this level.
    Shadow(u32),
    /// Annular sector in the background colour.
    Arc,
    /// Rounded box in the border colour, to be filled on the inside.
    Ring,
    /// Gradient inside the ring.
    InnerGradient,
    /// Background colour inside the ring.
    InnerFill,
    /// Gradient over the whole box.
    Gradient,
    /// Background colour over the whole box.
    Fill,
    /// Border that follows rounded corners.
    RoundedBorder,
    /// Border of four strips.
    BorderStrips,
    /// Outer bevel ring.
    BevelOuter,
    /// Inner bevel ring.
    BevelInner,
}

impl BoxStyle {
    pub open spec fn has_grad(self) -> bool {
        self.grad_dir != NO_GRADIENT && self.grad_dir <= GRAD_TO_RIGHT
    }

    pub open spec fn has_bg(self) -> bool {
        color_alpha(self.bg) > 0
    }

    pub open spec fn has_border(self) -> bool {
        above_zero(self.border_width) && color_alpha(self.border) > 0
    }

    /// The border follows rounded corners.
    pub open spec fn rounded_border(self) -> bool {
        above_zero(self.radius) && self.has_border()
    }

    /// A rounded border around something filled is painted as two boxes, one
    /// inside the other.
    pub open spec fn ring(self) -> bool {
        self.rounded_border() && (self.has_grad() || self.has_bg())
    }

    pub open spec fn is_arc(self) -> bool {
        above_zero(self.arc_width) && !is_zero(self.arc_sweep)
    }

    pub open spec fn bevelled(self) -> bool {
        &&& self.bevel_outer_light != 0 || self.bevel_outer_dark != 0 || self.bevel_inner_light != 0
            || self.bevel_inner_dark != 0
        &&& above_zero(self.bevel_width)
        &&& !above_zero(self.radius) && !is_nan(self.radius)
        &&& !self.is_arc()
    }

    pub open spec fn shadow_steps(self) -> Seq<BoxStep> {
        if self.shadow > 0 && (self.has_bg() || self.has_grad()) {
            seq![BoxStep::Shadow(self.shadow)]
        } else {
            Seq::empty()
        }
    }

    pub open spec fn fill_steps(self) -> Seq<BoxStep> {
        if self.is_arc() {
            if self.has_bg() {
                seq![BoxStep::Arc]
            } else {
                Seq::empty()
            }
        } else if self.ring() {
            seq![
                BoxStep::Ring,
                if self.has_grad() {
                    BoxStep::InnerGradient
                } else {
                    BoxStep::InnerFill
                },
            ]
        } else if self.has_grad() {
            seq![BoxStep::Gradient]
        } else if self.has_bg() {
            seq![BoxStep::Fill]
        } else {
            Seq::empty()
        }
    }

    pub open spec fn border_steps(self) -> Seq<BoxStep> {
        if self.ring() || !self.has_border() {
            Seq::empty()
        } else if self.rounded_border() {
            seq![BoxStep::RoundedBorder]
        } else {
            seq![BoxStep::BorderStrips]
        }
    }

    pub open spec fn bevel_steps(self) -> Seq<BoxStep> {
        if self.bevelled() {
            seq![BoxStep::BevelOuter, BoxStep::BevelInner]
        } else {
            Seq::empty()
        }
    }

    /// All that is painted for the box, from back to front.
    pub open spec fn steps(self) -> Seq<BoxStep> {
        self.shadow_steps() + self.fill_steps() + self.border_steps() + self.bevel_steps()
    }

    /// Lists what to paint for the box, from back to front.
    pub fn paint_steps(&self) -> (r: Vec<BoxStep>)
        ensures
            r@ == self.steps(),
    {
        let mut r: Vec<BoxStep> = Vec::new();
        let has_grad: bool = self.grad_dir != NO_GRADIENT && self.grad_dir <= GRAD_TO_RIGHT;
        let has_bg: bool = alpha(self.bg) > 0;
        let has_border: bool = positive(self.border_width) && alpha(self.border) > 0;
        let rounded_border: bool = positive(self.radius) && has_border;
        let ring: bool = rounded_border && (has_grad || has_bg);
        let is_arc: bool = positive(self.arc_width) && !zero(self.arc_sweep);
        if self.shadow > 0 && (has_bg || has_grad) {
            r.push(BoxStep::Shadow(self.shadow));
        }
        proof {
            assert(r@ =~= self.shadow_steps());
        }
        if is_arc {
            if has_bg {
                r.push(BoxStep::Arc);
            }
        } else if ring {
            r.push(BoxStep::Ring);
            if has_grad {
                r.push(BoxStep::InnerGradient);
            } else {
                r.push(BoxStep::InnerFill);
            }
        } else if has_grad {
            r.push(BoxStep::Gradient);
        } else if has_bg {
            r.push(BoxStep::Fill);
        }
        proof {
            assert(r@ =~= self.shadow_steps() + self.fill_steps());
        }
        if !ring && has_border {
            if rounded_border {
                r.push(BoxStep::RoundedBorder);
            } else {
                r.push(BoxStep::BorderStrips);
            }
        }
        proof {
            assert(r@ =~= self.shadow_steps() + self.fill_steps() + self.border_steps());
        }
        let inked: bool = self.bevel_outer_light != 0 || self.bevel_outer_dark != 0
            || self.bevel_inner_light != 0 || self.bevel_inner_dark != 0;
        if inked && positive(self.bevel_width) && !positive(self.radius) && !nan(self.radius)
            && !is_arc {
            r.push(BoxStep::BevelOuter);
            r.push(BoxStep::BevelInner);
        }
        proof {
            assert(r@ =~= self.steps());
        }
        r
    }
}

/// A box without any visible colour paints nothing.
pub proof fn law_invisible_box_paints_nothing(s: BoxStyle)
    requires
        !s.has_bg(),
        !s.has_grad(),
        !s.has_border(),
        !s.bevelled(),
    ensures
        s.steps() == Seq::<BoxStep>::empty(),
{
    assert(s.steps() =~= Seq::<BoxStep>::empty());
}

/// An edge of a bevel ring.
#[derive(Clone, Copy, PartialEq, Eq, Debug)]
pub enum Edge {
    Top,
    Left,
    Bottom,
    Right,
}

/// The edges of a bevel ring with their colours, from back to front. Where the
/// box is too small to hold the ring there are none.
pub open spec fn edges_of(light: u32, dark: u32, fits: bool) -> Seq<(Edge, u32)> {
    if !fits {
        Seq::empty()
    } else {
        (if color_alpha(light) > 0 {
            seq![(Edge::Top, light), (Edge::Left, light)]
        } else {
            Seq::empty()
        }) + (if color_alpha(dark) > 0 {
            seq![(Edge::Bottom, dark), (Edge::Right, dark)]
        } else {
            Seq::empty()
        })
    }
}

/// Lists the edges of a bevel ring. Edges run over its whole length, and the
/// dark ones are painted last, so that they own the corners they share.
pub fn bevel_edges(light: u32, dark: u32, fits: bool) -> (r: Vec<(Edge, u32)>)
    ensures
        r@ == edges_of(light, dark, fits),
{
    let mut r: Vec<(Edge, u32)> = Vec::new();
    if fits {
        if alpha(light) > 0 {
            r.push((Edge::Top, light));
            r.push((Edge::Left, light));
        }
        if alpha(dark) > 0 {
            r.push((Edge::Bottom, dark));
            r.push((Edge::Right, dark));
        }
    }
    proof {
        assert(r@ =~= edges_of(light, dark, fits));
    }
    r
}

/// How a rounded box is painted.
#[derive(Clone, Copy, PartialEq, Eq, Debug)]
pub enum BoxRoute {
    /// As a box with square corners.
    Square,
    /// Not at all.
    Nothing,
    /// With the quadrants of a baked disc, if there is one; else by rows.
    Discs,
    /// By rows.
    Rows,
}

/// Largest radius whose disc is baked: small radii come again and again, but
/// an animated one would bake a disc for every frame.
pub const DISC_MAX_R: u32 = 32;

/// A number of at most one half.
pub open spec fn at_most_half(bits: u32) -> bool {
    bits <= 0x3f00_0000 || (bits >= 0x8000_0000 && !is_nan(bits))
}

/// How a rounded box is painted: `radius` as styled, whether it is upright and
/// whether it is empty on the screen, `r` as it comes out on the screen and
/// rounded to whole pixels.
pub open spec fn route_of(radius: u32, upright: bool, empty: bool, r: u32, r_px: u32, flat: bool) -> BoxRoute {
    if is_zero(radius) || below_zero(radius) || !upright {
        BoxRoute::Square
    } else if empty {
        BoxRoute::Nothing
    } else if at_most_half(r) {
        BoxRoute::Square
    } else if flat && r_px <= DISC_MAX_R {
        BoxRoute::Discs
    } else {
        BoxRoute::Rows
    }
}

/// How a rounded box is painted.
pub fn box_route(radius: u32, upright: bool, empty: bool, r: u32, r_px: u32, flat: bool) -> (route:
    BoxRoute)
    ensures
        route == route_of(radius, upright, empty, r, r_px, flat),
{
    if zero(radius) || negative(radius) || !upright {
        BoxRoute::Square
    } else if empty {
        BoxRoute::Nothing
    } else if r <= 0x3f00_0000 || (r >= 0x8000_0000 && !nan(r)) {
        BoxRoute::Square
    } else if flat && r_px <= DISC_MAX_R {
        BoxRoute::Discs
    } else {
        BoxRoute::Rows
    }
}

/// A box whose radius is not above zero, or that is not upright, is painted
/// square, whatever else there is to it; corners are painted only of upright
/// boxes that are not empty and whose radius comes out above half a pixel, and
/// from discs only where those are small and the fill is flat.
pub proof fn law_square_boxes_have_no_corners(
    radius: u32,
    upright: bool,
    empty: bool,
    r: u32,
    r_px: u32,
    flat: bool,
)
    ensures
        ({
            let route = route_of(radius, upright, empty, r, r_px, flat);
            &&& is_zero(radius) || below_zero(radius) || !upright ==> route == BoxRoute::Square
            &&& route == BoxRoute::Discs || route == BoxRoute::Rows ==> upright && !empty
                && !at_most_half(r) && !is_zero(radius) && !below_zero(radius)
            &&& route == BoxRoute::Discs ==> flat && r_px <= DISC_MAX_R
        }),
{
}

/// One layer of a shadow: how far down, how far out, and its alpha.
#[derive(Clone, Copy, PartialEq, Eq, Debug)]
pub struct ShadowLayer {
    pub down: u32,
    pub spread: u32,
    pub alpha: u32,
}

/// The layers of a shadow of this level, from back to front.
pub open spec fn layers_of(level: u32) -> Seq<ShadowLayer> {
    if level == 1 {
        seq![
            ShadowLayer { down: 1, spread: 0, alpha: 22 },
            ShadowLayer { down: 2, spread: 1, alpha: 10 },
        ]
    } else if level == 2 {
        seq![
            ShadowLayer { down: 2, spread: 1, alpha: 24 },
            ShadowLayer { down: 4, spread: 2, alpha: 12 },
            ShadowLayer { down: 6, spread: 3, alpha: 6 },
        ]
    } else {
        seq![
            ShadowLayer { down: 2, spread: 1, alpha: 28 },
            ShadowLayer { down: 5, spread: 3, alpha: 14 },
            ShadowLayer { down: 9, spread: 5, alpha: 7 },
        ]
    }
}

/// The layers of a shadow.
pub fn shadow_layers(level: u32) -> (r: Vec<ShadowLayer>)
    ensures
        r@ == layers_of(level),
{
    let mut r: Vec<ShadowLayer> = Vec::new();
    if level == 1 {
        r.push(ShadowLayer { down: 1, spread: 0, alpha: 22 });
        r.push(ShadowLayer { down: 2, spread: 1, alpha: 10 });
    } else if level == 2 {
        r.push(ShadowLayer { down: 2, spread: 1, alpha: 24 });
        r.push(ShadowLayer { down: 4, spread: 2, alpha: 12 });
        r.push(ShadowLayer { down: 6, spread: 3, alpha: 6 });
    } else {
        r.push(ShadowLayer { down: 2, spread: 1, alpha: 28 });
        r.push(ShadowLayer { down: 5, spread: 3, alpha: 14 });
        r.push(ShadowLayer { down: 9, spread: 5, alpha: 7 });
    }
    proof {
        assert(r@ =~= layers_of(level));
    }
    r
}

// ---- sprites ----------------------------------------------------------------------

/// The cell that a sprite shows: column and row, and the size of its grid.
#[derive(Clone, Copy, PartialEq, Eq, Debug)]
pub struct SpriteCell {
    pub cx: u32,
    pub cy: u32,
    pub cols: u32,
    pub rows: u32,
}

pub open spec fn nonzero(v: int) -> int {
    if v < 1 {
        1
    } else {
        v
    }
}

/// Cells gone by since a sprite was started, modulo their number.
pub open spec fn sprite_index(frame: u64, start: u64, step: u16, frames: u16) -> int {
    (frame.wrapping_sub(start) as int / nonzero(step as int)) % (frames as int)
}

/// The cell that a sprite shows in a frame. It goes on by one cell every
/// `step` frames and starts over after the last.
pub fn sprite_cell(frame: u64, start: u64, step: u16, frames: u16, cols: u16) -> (c: SpriteCell)
    requires
        frames > 0,
    ensures
        c.cols == nonzero(cols as int),
        c.rows == (frames + c.cols - 1) / (c.cols as int),
        c.cx == sprite_index(frame, start, step, frames) % (c.cols as int),
        c.cy == sprite_index(frame, start, step, frames) / (c.cols as int),
{
    let n: u32 = if cols < 1 {
        1
    } else {
        cols as u32
    };
    let s: u64 = if step < 1 {
        1
    } else {
        step as u64
    };
    let elapsed: u64 = frame.wrapping_sub(start);
    let idx: u32 = ((elapsed / s) % frames as u64) as u32;
    SpriteCell { cx: idx % n, cy: idx / n, cols: n, rows: (frames as u32 + n - 1) / n }
}

/// A sprite shows one of its cells; it shows the first one in the frame it was
/// started in.
pub proof fn law_sprite_cell_in_grid(frame: u64, start: u64, step: u16, frames: u16, cols: int)
    requires
        frames > 0,
        cols >= 1,
    ensures
        ({
            let idx = sprite_index(frame, start, step, frames);
            let rows = (frames + cols - 1) / cols;
            &&& 0 <= idx < frames
            &&& 0 <= idx % cols < cols
            &&& 0 <= idx / cols < rows
        }),
        sprite_index(start, start, step, frames) == 0,
{
    let idx = sprite_index(frame, start, step, frames);
    assert(0 <= idx < frames);
    assert(0 <= idx % cols < cols && 0 <= idx / cols < (frames + cols - 1) / cols) by (
        nonlinear_arith)
        requires
            0 <= idx < frames,
            cols >= 1,
    ;
    assert(0int / nonzero(step as int) == 0) by (nonlinear_arith)
        requires
            nonzero(step as int) >= 1,
    ;
    assert(0int % (frames as int) == 0) by (nonlinear_arith)
        requires
            frames > 0,
    ;
    assert(start.wrapping_sub(start) == 0);
}

// ---- hit claims ---------------------------------------------------------------------

/// What decides whether a node claims a point inside its box.
#[derive(Clone, Copy)]
pub struct Ink {
    pub node_type: u8,
    /// Texture bound to the node, negative for none.
    pub tex: i32,
    pub bg: u32,
    pub grad_dir: u32,
    /// The style has a variant for focus or for a press.
    pub has_variants: bool,
    /// The point lies in the band that a visible border or bevel paints.
    pub in_band: bool,
}

/// A node claims a point where it paints: text, images and filled boxes
/// everywhere in their box, and so do nodes whose looks change under focus or
/// a press; a mere border only along its edge.
pub open spec fn claims(ink: Ink) -> bool {
    ||| ink.node_type == NODE_TEXT
    ||| ink.node_type == NODE_IMAGE && ink.tex >= 0
    ||| color_alpha(ink.bg) > 0
    ||| ink.grad_dir != NO_GRADIENT && ink.grad_dir <= GRAD_TO_RIGHT
    ||| ink.has_variants
    ||| ink.in_band
}

/// Whether a node claims a point inside its box.
pub fn claims_hit(ink: &Ink) -> (r: bool)
    ensures
        r == claims(*ink),
{
    if ink.node_type == NODE_TEXT {
        return true;
    }
    if ink.node_type == NODE_IMAGE && ink.tex >= 0 {
        return true;
    }
    if alpha(ink.bg) > 0 || (ink.grad_dir != NO_GRADIENT && ink.grad_dir <= GRAD_TO_RIGHT)
        || ink.has_variants {
        return true;
    }
    ink.in_band
}

/// A radius that comes out at half a pixel or less makes no corners, and discs
/// are for radii up to 32 pixels.
pub proof fn law_small_radii_are_square(radius: u32, r: u32, r_px: u32, flat: bool)
    requires
        0 < radius <= 0x7f80_0000,
        0 < r <= 0x7f80_0000,
    ensures
        ({
            let route = route_of(radius, true, false, r, r_px, flat);
            &&& r <= 0x3f00_0000 <==> route == BoxRoute::Square
            &&& r > 0x3f00_0000 ==> (route == BoxRoute::Discs <==> flat && r_px <= 32)
            &&& r > 0x3f00_0000 && !(flat && r_px <= 32) ==> route == BoxRoute::Rows
            &&& route_of(radius, true, true, r, r_px, flat) == BoxRoute::Nothing
        }),
{
}

} // verus!
