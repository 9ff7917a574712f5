//! The model of what is edited: media items, their edit parameters and layers.
//!
//! Fractions and angles are stored as numbers by their bit patterns.
use crate::curves::CurvesSettings;
use crate::levels::LevelsSettings;
use crate::number::F32;
use crate::single::{from_int, is_below, over, times, truncated, Single};
use vstd::prelude::*;

verus! {

/// Alignment of a text layer.
#[derive(Clone, Copy, PartialEq, Eq, Structural, Debug)]
pub enum TextAlign {
    Left,
    Center,
    Right,
}

impl TextAlign {
    /// All alignments, in the order in which they are offered.
    pub const ALL: [TextAlign; 3] = [TextAlign::Left, TextAlign::Center, TextAlign::Right];

    /// The name shown for the alignment.
    pub fn label(self) -> (r: &'static str)
        ensures
            r@ == match self {
                TextAlign::Left => "Left"@,
                TextAlign::Center => "Center"@,
                TextAlign::Right => "Right"@,
            },
    {
        match self {
            TextAlign::Left => "Left",
            TextAlign::Center => "Center",
            TextAlign::Right => "Right",
        }
    }

    /// The name of the alignment on a canvas.
    pub fn canvas_value(self) -> (r: &'static str)
        ensures
            r@ == match self {
                TextAlign::Left => "left"@,
                TextAlign::Center => "center"@,
                TextAlign::Right => "right"@,
            },
    {
        match self {
            TextAlign::Left => "left",
            TextAlign::Center => "center",
            TextAlign::Right => "right",
        }
    }
}

/// Aspect presets for crop and export.
#[derive(Clone, Copy, PartialEq, Eq, Structural, Debug)]
pub enum Aspect {
    Original,
    Nine16,
    One1,
    Four5,
    Sixteen9,
}

/// Pixel size of a preset, for those that have one.
pub open spec fn preset_size(aspect: Aspect) -> (int, int) {
    match aspect {
        Aspect::Original => (0, 0),
        Aspect::Nine16 => (1080, 1920),
        Aspect::One1 => (1080, 1080),
        Aspect::Four5 => (1080, 1350),
        Aspect::Sixteen9 => (1920, 1080),
    }
}

/// The smaller of two numbers.
pub open spec fn smaller(a: (int, int), b: (int, int)) -> (int, int) {
    if crate::single::below(b, a) {
        b
    } else {
        a
    }
}

/// How far a preset is scaled down to fit into the source.
pub open spec fn fit_scale(tw: int, th: int, src_w: int, src_h: int) -> (int, int) {
    smaller(
        smaller(
            crate::single::quotient(crate::single::rounded(src_w, 1), crate::single::rounded(tw, 1)),
            crate::single::quotient(crate::single::rounded(src_h, 1), crate::single::rounded(th, 1)),
        ),
        crate::single::rounded(1, 1),
    )
}

/// One side of the export.
pub open spec fn fit_side(t: int, scale: (int, int)) -> int {
    crate::pixels::min_of(
        crate::single::whole(crate::single::product(crate::single::rounded(t, 1), scale)),
        usize::MAX as int,
    )
}

/// Pixel size of an export.
pub open spec fn export_size(aspect: Aspect, src_w: int, src_h: int) -> (int, int) {
    if aspect == Aspect::Original {
        (src_w, src_h)
    } else {
        let (tw, th) = preset_size(aspect);
        let scale = fit_scale(tw, th, src_w, src_h);
        (fit_side(tw, scale), fit_side(th, scale))
    }
}

/// A side of a preset scaled by a number is at most the source side that the
/// number was made from.
proof fn lemma_side_fits(t: int, s: int, scale: (int, int))
    requires
        1080 <= t <= 1920,
        0 <= s < 0x1_0000_0000_0000_0000,
        0 <= scale.0,
        -60 <= scale.1,
        s < 0x40_0000 ==> 0x100_0000 * (t * crate::single::scaled_value(scale)) <= 0x100_0001 * (s * crate::single::p2(
            200,
        )),
        crate::single::scaled_value(scale) <= crate::single::p2(200),
    ensures
        fit_side(t, scale) <= s,
{
    let p = crate::single::product(crate::single::rounded(t, 1), scale);
    let one = crate::single::p2(200);
    let v = crate::single::scaled_value(scale);
    let x = crate::single::scaled_value(p);
    crate::single::lemma_product_above(t, scale);
    vstd::arithmetic::power2::lemma_pow2_pos(200);
    crate::single::lemma_product_exponents(t, scale);
    if s < 0x40_0000 {
        assert(x < (s + 1) * one) by (nonlinear_arith)
            requires
                0x100_0000 * x <= 0x100_0001 * (t * v),
                0x100_0000 * (t * v) <= 0x100_0001 * (s * one),
                0 <= s < 0x40_0000,
                1 <= one,
        ;
        crate::single::lemma_whole_at_most(p, s);
    } else {
        lemma_side_within(t, scale);
    }
}

/// The share of a preset side that a source side allows.
proof fn lemma_share(t: int, s: int)
    requires
        1080 <= t <= 1920,
        0 <= s < 0x1_0000_0000_0000_0000,
    ensures
        ({
            let q = crate::single::quotient(crate::single::rounded(s, 1), crate::single::rounded(t, 1));
            &&& 0 <= q.0
            &&& -60 <= q.1
            &&& s < 0x40_0000 ==> 0x100_0000 * (t * crate::single::scaled_value(q)) <= 0x100_0001 * (s
                * crate::single::p2(200))
        }),
{
    let a = crate::single::rounded(s, 1);
    let b = crate::single::rounded(t, 1);
    let q = crate::single::quotient(a, b);
    let one = crate::single::p2(200);
    vstd::arithmetic::power2::lemma_pow2_pos(200);
    crate::single::lemma_integer_exponents(t);
    crate::single::lemma_small_integers_are_exact(t);
    if s == 0 {
        crate::single::lemma_quotient_above(a, b);
        assert(crate::single::scaled_value(a) == 0 * crate::single::p2(200));
        assert(crate::single::scaled_value(q) == 0 * crate::single::p2(q.1 + 200));
        assert(t * 0 == 0 && 0 * one == 0);
    } else {
        crate::single::lemma_integer_exponents(s);
        crate::single::lemma_quotient_exponent(a.0, b.0);
        crate::single::lemma_quotient_above(a, b);
        let x = crate::single::scaled_value(q);
        if s < 0x40_0000 {
            crate::single::lemma_small_integers_are_exact(s);
            assert(0x100_0000 * (t * x) <= 0x100_0001 * (s * one)) by (nonlinear_arith)
                requires
                    0x100_0000 * ((t * one) * x) <= 0x100_0001 * ((s * one) * one),
                    1 <= one,
            ;
        }
    }
}

/// An export is never larger than its source.
pub proof fn export_never_exceeds_source(aspect: Aspect, src_w: int, src_h: int)
    requires
        0 <= src_w < 0x1_0000_0000_0000_0000,
        0 <= src_h < 0x1_0000_0000_0000_0000,
    ensures
        export_size(aspect, src_w, src_h).0 <= src_w,
        export_size(aspect, src_w, src_h).1 <= src_h,
{
    let one = crate::single::rounded(1, 1);
    crate::single::lemma_small_integers_are_exact(1);
    crate::single::lemma_integer_exponents(1);
    if aspect != Aspect::Original {
        let (tw, th) = preset_size(aspect);
        let qw = crate::single::quotient(crate::single::rounded(src_w, 1), crate::single::rounded(tw, 1));
        let qh = crate::single::quotient(crate::single::rounded(src_h, 1), crate::single::rounded(th, 1));
        lemma_share(tw, src_w);
        lemma_share(th, src_h);
        let q = smaller(qw, qh);
        let scale = smaller(q, one);
        crate::single::lemma_below_is_order(qh, qw);
        crate::single::lemma_below_is_order(one, q);
        let v = crate::single::scaled_value(scale);
        assert(tw * v <= tw * crate::single::scaled_value(qw)) by (nonlinear_arith)
            requires
                v <= crate::single::scaled_value(qw),
                0 <= tw,
        ;
        assert(th * v <= th * crate::single::scaled_value(qh)) by (nonlinear_arith)
            requires
                v <= crate::single::scaled_value(qh),
                0 <= th,
        ;
        lemma_side_fits(tw, src_w, scale);
        lemma_side_fits(th, src_h, scale);
    }
}

/// Without a preset an export has the size of its source, whatever it is.
pub proof fn original_keeps_its_size(src_w: int, src_h: int)
    ensures
        export_size(Aspect::Original, src_w, src_h) == (src_w, src_h),
{
}

/// A preset side that is scaled by at most one is not above itself.
proof fn lemma_side_within(t: int, scale: (int, int))
    requires
        1080 <= t <= 1920,
        0 <= scale.0,
        -60 <= scale.1,
        crate::single::scaled_value(scale) <= crate::single::p2(200),
    ensures
        fit_side(t, scale) <= t,
{
    let p = crate::single::product(crate::single::rounded(t, 1), scale);
    let one = crate::single::p2(200);
    let v = crate::single::scaled_value(scale);
    let x = crate::single::scaled_value(p);
    crate::single::lemma_product_above(t, scale);
    vstd::arithmetic::power2::lemma_pow2_pos(200);
    crate::single::lemma_product_exponents(t, scale);
    assert(t * v <= t * one) by (nonlinear_arith)
        requires
            v <= one,
            0 <= t,
    ;
    assert(x < (t + 1) * one) by (nonlinear_arith)
        requires
            0x100_0000 * x <= 0x100_0001 * (t * v),
            t * v <= t * one,
            0 <= t <= 1920,
            1 <= one,
    ;
    crate::single::lemma_whole_at_most(p, t);
}

/// An export with a preset is never larger than the preset.
pub proof fn export_never_exceeds_its_preset(aspect: Aspect, src_w: int, src_h: int)
    requires
        aspect != Aspect::Original,
        0 <= src_w < 0x1_0000_0000_0000_0000,
        0 <= src_h < 0x1_0000_0000_0000_0000,
    ensures
        export_size(aspect, src_w, src_h).0 <= preset_size(aspect).0,
        export_size(aspect, src_w, src_h).1 <= preset_size(aspect).1,
{
    let (tw, th) = preset_size(aspect);
    let one = crate::single::rounded(1, 1);
    crate::single::lemma_small_integers_are_exact(1);
    crate::single::lemma_integer_exponents(1);
    let qw = crate::single::quotient(crate::single::rounded(src_w, 1), crate::single::rounded(tw, 1));
    let qh = crate::single::quotient(crate::single::rounded(src_h, 1), crate::single::rounded(th, 1));
    lemma_share(tw, src_w);
    lemma_share(th, src_h);
    let q = smaller(qw, qh);
    crate::single::lemma_below_is_order(one, q);
    lemma_side_within(tw, smaller(q, one));
    lemma_side_within(th, smaller(q, one));
}

/// A source that covers a preset is exported at exactly the size of the preset.
pub proof fn large_sources_export_at_preset_size(aspect: Aspect, src_w: int, src_h: int)
    requires
        aspect != Aspect::Original,
        preset_size(aspect).0 <= src_w < 0x1_0000_0000_0000_0000,
        preset_size(aspect).1 <= src_h < 0x1_0000_0000_0000_0000,
    ensures
        export_size(aspect, src_w, src_h) == preset_size(aspect),
{
    let (tw, th) = preset_size(aspect);
    let one = crate::single::rounded(1, 1);
    let qw = crate::single::quotient(crate::single::rounded(src_w, 1), crate::single::rounded(tw, 1));
    let qh = crate::single::quotient(crate::single::rounded(src_h, 1), crate::single::rounded(th, 1));
    lemma_covering_side(tw, src_w);
    lemma_covering_side(th, src_h);
    let q = smaller(qw, qh);
    if !crate::single::below(one, q) {
        crate::single::lemma_one_is_smallest(q);
    }
    assert(fit_scale(tw, th, src_w, src_h) == one);
    lemma_kept_side(tw);
    lemma_kept_side(th);
}

/// A source side that covers a preset side allows all of it.
proof fn lemma_covering_side(t: int, s: int)
    requires
        1080 <= t <= 1920,
        t <= s < 0x1_0000_0000_0000_0000,
    ensures
        ({
            let q = crate::single::quotient(crate::single::rounded(s, 1), crate::single::rounded(t, 1));
            0x80_0000 <= q.0 && -23 <= q.1
        }),
{
    crate::single::lemma_integer_exponents(s);
    crate::single::lemma_integer_exponents(t);
    crate::single::lemma_rounded_at_least(s, t);
    crate::single::lemma_small_integers_are_exact(t);
    crate::single::lemma_quotient_from_one(crate::single::rounded(s, 1), crate::single::rounded(t, 1));
}

/// A preset side that is not scaled is kept.
proof fn lemma_kept_side(t: int)
    requires
        1080 <= t <= 1920,
    ensures
        fit_side(t, crate::single::rounded(1, 1)) == t,
{
    crate::single::lemma_integer_exponents(t);
    crate::single::lemma_times_one(crate::single::rounded(t, 1));
    crate::single::lemma_whole_of_integer(t);
}

impl Aspect {
    /// All presets, in the order in which they are offered.
    pub const ALL: [Aspect; 5] = [
        Aspect::Original,
        Aspect::Nine16,
        Aspect::One1,
        Aspect::Four5,
        Aspect::Sixteen9,
    ];

    /// The name of a preset.
    pub open spec fn name(self) -> Seq<char> {
        match self {
            Aspect::Original => "Orig"@,
            Aspect::Nine16 => "9:16"@,
            Aspect::One1 => "1:1"@,
            Aspect::Four5 => "4:5"@,
            Aspect::Sixteen9 => "16:9"@,
        }
    }

    /// The name of a preset.
    pub fn label(self) -> (r: &'static str)
        ensures
            r@ == self.name(),
    {
        match self {
            Aspect::Original => "Orig",
            Aspect::Nine16 => "9:16",
            Aspect::One1 => "1:1",
            Aspect::Four5 => "4:5",
            Aspect::Sixteen9 => "16:9",
        }
    }

    /// (ratio_w, ratio_h) if locked.
    pub fn ratio(self) -> (r: Option<(u32, u32)>)
        ensures
            r == match self {
                Aspect::Original => None::<(u32, u32)>,
                Aspect::Nine16 => Some((9u32, 16u32)),
                Aspect::One1 => Some((1u32, 1u32)),
                Aspect::Four5 => Some((4u32, 5u32)),
                Aspect::Sixteen9 => Some((16u32, 9u32)),
            },
    {
        match self {
            Aspect::Original => None,
            Aspect::Nine16 => Some((9, 16)),
            Aspect::One1 => Some((1, 1)),
            Aspect::Four5 => Some((4, 5)),
            Aspect::Sixteen9 => Some((16, 9)),
        }
    }

    /// Export pixel dimensions, capped so the long edge <= source long edge
    /// (never upscale past source).
    pub fn export_dims(self, src_w: usize, src_h: usize) -> (r: (usize, usize))
        ensures
            (r.0 as int, r.1 as int) == export_size(self, src_w as int, src_h as int),
    {
        let one: Single = from_int(1);
        let (tw, th): (u64, u64) = match self {
            Aspect::Original => {
                return (src_w, src_h);
            },
            Aspect::Nine16 => (1080, 1920),
            Aspect::One1 => (1080, 1080),
            Aspect::Four5 => (1080, 1350),
            Aspect::Sixteen9 => (1920, 1080),
        };
        let fw: Single = from_int(tw);
        let fh: Single = from_int(th);
        proof {
            crate::single::lemma_rounded_positive(tw as int, 1);
            crate::single::lemma_rounded_positive(th as int, 1);
        }
        let sw: Single = over(from_int(src_w as u64), fw);
        let sh: Single = over(from_int(src_h as u64), fh);
        let s: Single = if is_below(sh, sw) { sh } else { sw };
        let scale: Single = if is_below(one, s) { one } else { s };
        (truncated(times(fw, scale)), truncated(times(fh, scale)))
    }
}

/// Tools on the layers tab.
#[derive(Clone, Copy, PartialEq, Eq, Structural, Debug)]
pub enum Tool {
    Select,
    Pen,
    Brush,
}

impl Tool {
    /// All tools, in the order in which they are offered.
    pub const ALL: [Tool; 3] = [Tool::Select, Tool::Pen, Tool::Brush];

    /// The name of a tool.
    pub fn label(self) -> (r: &'static str)
        ensures
            r@ == match self {
                Tool::Select => "Select"@,
                Tool::Pen => "Pen"@,
                Tool::Brush => "Brush"@,
            },
    {
        match self {
            Tool::Select => "Select",
            Tool::Pen => "Pen",
            Tool::Brush => "Brush",
        }
    }
}

/// Tools on the select tab.
#[derive(Clone, Copy, PartialEq, Eq, Structural, Debug)]
pub enum SelectTool {
    Rect,
    Lasso,
    Wand,
}

impl SelectTool {
    /// All tools, in the order in which they are offered.
    pub const ALL: [SelectTool; 3] = [SelectTool::Rect, SelectTool::Lasso, SelectTool::Wand];

    /// The name of a tool.
    pub fn label(self) -> (r: &'static str)
        ensures
            r@ == match self {
                SelectTool::Rect => "Rect"@,
                SelectTool::Lasso => "Lasso"@,
                SelectTool::Wand => "Wand"@,
            },
    {
        match self {
            SelectTool::Rect => "Rect",
            SelectTool::Lasso => "Lasso",
            SelectTool::Wand => "Wand",
        }
    }
}

/// A line of text.
#[derive(Clone, PartialEq, Debug)]
pub struct TextLayer {
    pub text: String,
    pub x: F32,
    pub y: F32,
    /// Font size as a fraction of the image height.
    pub font_size: F32,
    pub font_family: String,
    pub font_weight: u16,
    pub color: String,
    pub stroke_color: String,
    pub stroke_width: F32,
    pub shadow_color: String,
    pub shadow_blur: F32,
    pub shadow_offset_x: F32,
    pub shadow_offset_y: F32,
    pub alignment: TextAlign,
}

/// White centered text with a soft shadow in the middle of the image, at 8
/// hundredths of its height.
pub open spec fn is_default_text(t: TextLayer) -> bool {
    &&& t.text@ == "Text"@
    &&& t.x.bits == 0x3f00_0000
    &&& t.y.bits == 0x3f00_0000
    &&& t.font_size.bits == 0x3da3_d70a
    &&& t.font_family@ == "Inter"@
    &&& t.font_weight == 700
    &&& t.color@ == "#ffffff"@
    &&& t.stroke_color@ == "#000000"@
    &&& t.stroke_width.bits == 0
    &&& t.shadow_color@ == "rgba(0,0,0,0.5)"@
    &&& t.shadow_blur.bits == 0x4080_0000
    &&& t.shadow_offset_x.bits == 0x4000_0000
    &&& t.shadow_offset_y.bits == 0x4000_0000
    &&& t.alignment == TextAlign::Center
}

impl Default for TextLayer {
    /// White centered text with a soft shadow in the middle of the image, at 8
    /// hundredths of its height.
    fn default() -> (r: Self)
        ensures
            is_default_text(r),
    {
        TextLayer {
            text: "Text".to_string(),
            x: F32 { bits: 0x3f00_0000 },
            y: F32 { bits: 0x3f00_0000 },
            font_size: F32 { bits: 0x3da3_d70a },
            font_family: "Inter".to_string(),
            font_weight: 700,
            color: "#ffffff".to_string(),
            stroke_color: "#000000".to_string(),
            stroke_width: F32 { bits: 0 },
            shadow_color: "rgba(0,0,0,0.5)".to_string(),
            shadow_blur: F32 { bits: 0x4080_0000 },
            shadow_offset_x: F32 { bits: 0x4000_0000 },
            shadow_offset_y: F32 { bits: 0x4000_0000 },
            alignment: TextAlign::Center,
        }
    }
}

/// An anchor of a path.
#[derive(Clone, Copy, PartialEq, Eq, Structural, Debug)]
pub struct PathPoint {
    pub x: F32,
    pub y: F32,
    /// Incoming control handle (relative to point).
    pub in_x: F32,
    pub in_y: F32,
    /// Outgoing control handle (relative to point).
    pub out_x: F32,
    pub out_y: F32,
    /// True for smooth (collinear mirrored handles), false for corner.
    pub smooth: bool,
}

/// A point at `(x, y)` without handles.
pub open spec fn bare_point(x: F32, y: F32, smooth: bool) -> PathPoint {
    let zero = F32 { bits: 0 };
    PathPoint { x, y, in_x: zero, in_y: zero, out_x: zero, out_y: zero, smooth }
}

impl PathPoint {
    /// A smooth point without handles.
    pub fn new(x: F32, y: F32) -> (r: Self)
        ensures
            r == bare_point(x, y, true),
    {
        let zero: F32 = F32 { bits: 0 };
        PathPoint { x, y, in_x: zero, in_y: zero, out_x: zero, out_y: zero, smooth: true }
    }

    /// A corner without handles.
    pub fn corner(x: F32, y: F32) -> (r: Self)
        ensures
            r == bare_point(x, y, false),
    {
        let zero: F32 = F32 { bits: 0 };
        PathPoint { x, y, in_x: zero, in_y: zero, out_x: zero, out_y: zero, smooth: false }
    }
}

/// A vector path.
#[derive(Clone, PartialEq, Debug)]
pub struct PathLayer {
    pub points: Vec<PathPoint>,
    pub closed: bool,
    pub fill_color: String,
    pub stroke_color: String,
    pub stroke_width: F32,
    /// Per-path undo stack of point states.
    pub history: Vec<Vec<PathPoint>>,
}

/// An empty open path, filled red and with a thin black line.
pub open spec fn is_default_path(p: PathLayer) -> bool {
    &&& p.points@.len() == 0
    &&& !p.closed
    &&& p.fill_color@ == "#ff3b30"@
    &&& p.stroke_color@ == "#000000"@
    &&& p.stroke_width.bits == 0x3c23_d70a
    &&& p.history@.len() == 0
}

impl Default for PathLayer {
    /// An empty open path, filled red and with a thin black line.
    fn default() -> (r: Self)
        ensures
            is_default_path(r),
    {
        PathLayer {
            points: Vec::new(),
            closed: false,
            fill_color: "#ff3b30".to_string(),
            stroke_color: "#000000".to_string(),
            stroke_width: F32 { bits: 0x3c23_d70a },
            history: Vec::new(),
        }
    }
}

/// One stroke of a brush.
#[derive(Clone, PartialEq, Debug)]
pub struct BrushStroke {
    pub points: Vec<(F32, F32)>,
}

/// Freehand strokes.
#[derive(Clone, PartialEq, Debug)]
pub struct BrushLayer {
    pub strokes: Vec<BrushStroke>,
    pub color: String,
    pub width: F32,
    /// Per-layer undo stack of stroke states.
    pub history: Vec<Vec<BrushStroke>>,
}

/// No strokes yet, drawn blue.
pub open spec fn is_default_brush(b: BrushLayer) -> bool {
    &&& b.strokes@.len() == 0
    &&& b.color@ == "#0a84ff"@
    &&& b.width.bits == 0x3c75_c28f
    &&& b.history@.len() == 0
}

impl Default for BrushLayer {
    /// No strokes yet, drawn blue.
    fn default() -> (r: Self)
        ensures
            is_default_brush(r),
    {
        BrushLayer {
            strokes: Vec::new(),
            color: "#0a84ff".to_string(),
            width: F32 { bits: 0x3c75_c28f },
            history: Vec::new(),
        }
    }
}

/// Pixels of a layer.
#[derive(Clone, PartialEq, Debug)]
pub struct RasterLayer {
    pub pixels: Vec<u8>,
    pub width: usize,
    pub height: usize,
}

/// What a layer holds.
#[derive(Clone, PartialEq, Debug)]
pub enum LayerKind {
    Text(TextLayer),
    Path(PathLayer),
    Brush(BrushLayer),
    Raster(RasterLayer),
}

/// The shape of a selection, in fractions of the image, or as a mask.
#[derive(Clone, PartialEq, Debug)]
pub enum SelectionKind {
    Rect { x: F32, y: F32, w: F32, h: F32 },
    Lasso(Vec<(F32, F32)>),
    Mask { data: Vec<u8>, width: usize, height: usize },
}

/// A selected part of an image.
#[derive(Clone, PartialEq, Debug)]
pub struct Selection {
    pub kind: SelectionKind,
    /// Feather radius as a fraction of the image diagonal (0..0.25).
    pub feather: F32,
}

/// A layer above the photo.
#[derive(Clone, PartialEq, Debug)]
pub struct Layer {
    pub id: usize,
    pub visible: bool,
    pub opacity: F32,
    pub kind: LayerKind,
}

impl Layer {
    /// Whether the layer is new: visible and opaque.
    pub open spec fn is_fresh(self, id: usize) -> bool {
        self.id == id && self.visible && self.opacity.bits == 0x3f80_0000
    }

    /// A new text layer.
    pub fn new_text(id: usize) -> (r: Self)
        ensures
            r.is_fresh(id),
            r.kind matches LayerKind::Text(t) && is_default_text(t),
    {
        Layer { id, visible: true, opacity: F32 { bits: 0x3f80_0000 }, kind: LayerKind::Text(TextLayer::default()) }
    }

    /// A new path layer.
    pub fn new_path(id: usize) -> (r: Self)
        ensures
            r.is_fresh(id),
            r.kind matches LayerKind::Path(p) && is_default_path(p),
    {
        Layer { id, visible: true, opacity: F32 { bits: 0x3f80_0000 }, kind: LayerKind::Path(PathLayer::default()) }
    }

    /// A new brush layer.
    pub fn new_brush(id: usize) -> (r: Self)
        ensures
            r.is_fresh(id),
            r.kind matches LayerKind::Brush(b) && is_default_brush(b),
    {
        Layer { id, visible: true, opacity: F32 { bits: 0x3f80_0000 }, kind: LayerKind::Brush(BrushLayer::default()) }
    }

    /// A new layer of pixels.
    pub fn new_raster(id: usize, pixels: Vec<u8>, width: usize, height: usize) -> (r: Self)
        ensures
            r.is_fresh(id),
            r.kind == LayerKind::Raster(RasterLayer { pixels, width, height }),
    {
        Layer {
            id,
            visible: true,
            opacity: F32 { bits: 0x3f80_0000 },
            kind: LayerKind::Raster(RasterLayer { pixels, width, height }),
        }
    }

    /// The name of a layer in the list.
    pub fn label(&self) -> (r: String)
        ensures
            r@ == match self.kind {
                LayerKind::Text(t) => "T: "@ + t.text@,
                LayerKind::Path(_) => "Path"@,
                LayerKind::Brush(_) => "Brush"@,
                LayerKind::Raster(_) => "Raster"@,
            },
    {
        match &self.kind {
            LayerKind::Text(t) => {
                let mut s: String = "T: ".to_string();
                s.append(t.text.as_str());
                s
            },
            LayerKind::Path(_) => "Path".to_string(),
            LayerKind::Brush(_) => "Brush".to_string(),
            LayerKind::Raster(_) => "Raster".to_string(),
        }
    }

    /// Whether a layer is drawn: it is visible, and its opacity is not at or
    /// below a hundredth.
    pub open spec fn drawn(self) -> bool {
        self.visible && (self.opacity.nan() || self.opacity.key() > 0x3c23_d70a)
    }

    /// Whether a layer is drawn.
    pub fn is_drawn(&self) -> (r: bool)
        ensures
            r == self.drawn(),
    {
        self.visible && (self.opacity.is_nan() || self.opacity.order() > 0x3c23_d70a)
    }
}

/// Crop rectangle in image coordinates (after rotation), normalized 0..1.
#[derive(Clone, Copy, PartialEq, Eq, Structural, Debug)]
pub struct CropRect {
    pub x: F32,
    pub y: F32,
    pub w: F32,
    pub h: F32,
}

/// The crop that keeps everything.
pub open spec fn full_crop() -> CropRect {
    let one = F32 { bits: 0x3f80_0000 };
    let zero = F32 { bits: 0 };
    CropRect { x: zero, y: zero, w: one, h: one }
}

impl Default for CropRect {
    /// Everything.
    fn default() -> (r: Self)
        ensures
            r == full_crop(),
    {
        let one: F32 = F32 { bits: 0x3f80_0000 };
        let zero: F32 = F32 { bits: 0 };
        CropRect { x: zero, y: zero, w: one, h: one }
    }
}

/// All edits of a media item.
#[derive(Clone, Debug)]
pub struct EditParams {
    pub aspect: Aspect,
    pub crop: CropRect,
    /// 0..3 clockwise quarter-turns applied before fine angle.
    pub rot90: u8,
    /// Fine straighten angle, degrees, clockwise, ±10.
    pub fine_angle: F32,
    pub brightness: F32,
    pub contrast: F32,
    pub saturation: F32,
    pub warmth: F32,
    /// Gaussian blur, 0..=100.
    pub blur: F32,
    pub levels: LevelsSettings,
    pub curves: CurvesSettings,
    /// Grain, 0..=100.
    pub grain: F32,
    pub grain_gaussian: bool,
    pub grain_mono: bool,
    /// Active selection mask (rect, lasso, or derived from ML segmentation).
    pub selection: Option<Selection>,
    /// Video trim (start_s, end_s); None = untrimmed.
    pub trim: Option<(F32, F32)>,
    /// Keep original audio track on export; if false, strip audio.
    pub keep_audio: bool,
}

/// No edits.
pub open spec fn is_unedited(e: EditParams) -> bool {
    &&& e.aspect == Aspect::Original
    &&& e.crop == full_crop()
    &&& e.rot90 == 0
    &&& e.fine_angle.bits == 0
    &&& e.brightness.bits == 0
    &&& e.contrast.bits == 0
    &&& e.saturation.bits == 0
    &&& e.warmth.bits == 0
    &&& e.blur.bits == 0
    &&& forall|c: int| 0 <= c < 4 ==> #[trigger] e.levels.ranges[c] == crate::levels::neutral_range()
    &&& forall|c: int| 0 <= c < 4 ==> (#[trigger] e.curves.channels[c])@ == crate::curves::line_points()
    &&& e.grain.bits == 0
    &&& e.grain_gaussian
    &&& e.grain_mono
    &&& e.selection is None
    &&& e.trim is None
    &&& e.keep_audio
}

impl Default for EditParams {
    /// No edits.
    fn default() -> (r: Self)
        ensures
            is_unedited(r),
    {
        let zero: F32 = F32 { bits: 0 };
        EditParams {
            aspect: Aspect::Original,
            crop: CropRect::default(),
            rot90: 0,
            fine_angle: zero,
            brightness: zero,
            contrast: zero,
            saturation: zero,
            warmth: zero,
            blur: zero,
            levels: LevelsSettings::default(),
            curves: CurvesSettings::default(),
            grain: zero,
            grain_gaussian: true,
            grain_mono: true,
            selection: None,
            trim: None,
            keep_audio: true,
        }
    }
}

impl EditParams {
    /// Whether one of the color values differs from zero.
    pub open spec fn color_touched(self) -> bool {
        ||| self.brightness.magnitude() != 0
        ||| self.contrast.magnitude() != 0
        ||| self.saturation.magnitude() != 0
        ||| self.warmth.magnitude() != 0
    }

    /// Whether one of the color values differs from zero.
    pub fn is_color_touched(&self) -> (r: bool)
        ensures
            r == self.color_touched(),
    {
        self.brightness.is_nonzero() || self.contrast.is_nonzero() || self.saturation.is_nonzero()
            || self.warmth.is_nonzero()
    }
}

/// Photo or video.
#[derive(Clone, Copy, PartialEq, Eq, Structural, Debug)]
pub enum MediaKind {
    Photo,
    Video,
}

/// A photo or video with its edits.
#[derive(Clone, Debug)]
pub struct MediaItem {
    pub id: usize,
    pub kind: MediaKind,
    pub name: String,
    /// Object URL for the source blob (photo preview / video element).
    pub object_url: String,
    /// Size of the source.
    pub width: usize,
    pub height: usize,
    pub edit: EditParams,
    pub layers: Vec<Layer>,
    pub next_layer_id: usize,
}

impl MediaItem {
    /// Layer ids are used once, and the next one is new.
    pub open spec fn well_formed(self) -> bool {
        &&& forall|i: int| 0 <= i < self.layers@.len() ==> (#[trigger] self.layers@[i]).id < self.next_layer_id
        &&& forall|i: int, j: int|
            0 <= i < j < self.layers@.len() ==> (#[trigger] self.layers@[i]).id != (#[trigger] self.layers@[j]).id
    }

    /// An item without edits and layers.
    pub fn new(id: usize, kind: MediaKind, name: String, object_url: String, width: usize, height: usize) -> (r: Self)
        ensures
            r.id == id,
            r.kind == kind,
            r.name@ == name@,
            r.object_url@ == object_url@,
            r.width == width,
            r.height == height,
            is_unedited(r.edit),
            r.layers@.len() == 0,
            r.next_layer_id == 0,
            r.well_formed(),
    {
        MediaItem {
            id,
            kind,
            name,
            object_url,
            width,
            height,
            edit: EditParams::default(),
            layers: Vec::new(),
            next_layer_id: 0,
        }
    }
}

/// The presets have the sizes that platforms ask for.
pub proof fn presets_have_social_sizes()
    ensures
        preset_size(Aspect::Nine16) == (1080int, 1920int),
        preset_size(Aspect::One1) == (1080int, 1080int),
        preset_size(Aspect::Four5) == (1080int, 1350int),
        preset_size(Aspect::Sixteen9) == (1920int, 1080int),
{
}

/// A layer is drawn while it is visible and not fainter than a hundredth, which
/// has this bit pattern.
pub proof fn faint_layers_are_not_drawn(layer: Layer)
    ensures
        layer.drawn() <==> layer.visible && (layer.opacity.bits % 0x8000_0000 > 0x7f80_0000 || 0x3c23_d70a < layer.opacity.bits
            <= 0x7f80_0000),
{
}

/// Colors are touched by any of the four values that is not a zero.
pub proof fn colors_are_touched_by_any_value(e: EditParams)
    ensures
        e.color_touched() <==> !({
            &&& e.brightness.bits == 0 || e.brightness.bits == 0x8000_0000
            &&& e.contrast.bits == 0 || e.contrast.bits == 0x8000_0000
            &&& e.saturation.bits == 0 || e.saturation.bits == 0x8000_0000
            &&& e.warmth.bits == 0 || e.warmth.bits == 0x8000_0000
        }),
{
}

/// An item without edits keeps everything of the photo: all of its pixels, its
/// colors and its audio.
pub proof fn unedited_items_are_neutral(e: EditParams, c: int)
    requires
        is_unedited(e),
        0 <= c < 4,
    ensures
        e.aspect == Aspect::Original && e.crop == full_crop() && e.rot90 == 0,
        e.crop.x.bits == 0 && e.crop.y.bits == 0 && e.crop.w.bits == 0x3f80_0000 && e.crop.h.bits == 0x3f80_0000,
        !crate::editor::straightens(e.fine_angle) && !e.color_touched() && e.blur.bits == 0 && e.grain.bits == 0,
        e.levels.ranges[c] == crate::levels::neutral_range(),
        crate::curves::valid_channel(e.curves.channels[c]@) && crate::curves::identity_channel(e.curves.channels[c]@),
        e.selection is None && e.trim is None && e.keep_audio && e.grain_gaussian && e.grain_mono,
{
    crate::curves::line_is_valid_identity();
    assert(e.curves.channels[c]@ == crate::curves::line_points());
}

/// A preset side scaled by a number is not far below the exact one: for a
/// number that is at least `s / t`, less one part in `2^24`, the side of a
/// preset with the sides `t` and `u` is at least `u * s / t`, less one.
proof fn lemma_side_reaches(t: int, u: int, s: int, scale: (int, int))
    requires
        1080 <= t <= 1920,
        1080 <= u <= 1920,
        1 <= s <= 1920,
        0 <= scale.0,
        -60 <= scale.1,
        0x100_0000 * (t * crate::single::scaled_value(scale)) >= 0xff_ffff * (s * crate::single::p2(200)),
    ensures
        t * (fit_side(u, scale) + 2) >= u * s,
{
    let p = crate::single::product(crate::single::rounded(u, 1), scale);
    let one = crate::single::p2(200);
    let v = crate::single::scaled_value(scale);
    let x = crate::single::scaled_value(p);
    vstd::arithmetic::power2::lemma_pow2_pos(200);
    crate::single::lemma_product_below(u, scale);
    crate::single::lemma_product_above(u, scale);
    crate::single::lemma_product_exponents(u, scale);
    let k = (u * s) / t - 1;
    vstd::arithmetic::div_mod::lemma_fundamental_div_mod(u * s, t);
    assert(u * s <= 1920 * 1920) by (nonlinear_arith)
        requires
            0 <= u <= 1920,
            0 <= s <= 1920,
    ;
    assert(k * one <= x) by (nonlinear_arith)
        requires
            0x100_0000 * x >= 0xff_ffff * (u * v),
            0x100_0000 * (t * v) >= 0xff_ffff * (s * one),
            t * (k + 1) <= u * s,
            u * s <= 1920 * 1920,
            1080 <= t <= 1920,
            1 <= u,
            1 <= one,
    ;
    crate::single::lemma_whole_at_least(p, k);
    let side = fit_side(u, scale);
    assert(k <= 4000) by (nonlinear_arith)
        requires
            t * (k + 1) <= u * s,
            u * s <= 1920 * 1920,
            1080 <= t,
    ;
    assert(side >= k);
    assert(t * (side + 2) >= u * s) by (nonlinear_arith)
        requires
            side >= k,
            u * s < t * (k + 1) + t,
            1080 <= t,
    ;
}

/// A preset side scaled by a number of at most `s / t`, and one part in `2^24`
/// of it, is at most `u * s / t`.
proof fn lemma_side_keeps_ratio(t: int, u: int, s: int, scale: (int, int))
    requires
        1080 <= t <= 1920,
        1080 <= u <= 1920,
        1 <= s <= 1920,
        0 <= scale.0,
        -60 <= scale.1,
        0x100_0000 * (t * crate::single::scaled_value(scale)) <= 0x100_0001 * (s * crate::single::p2(200)),
    ensures
        t * fit_side(u, scale) <= u * s + 1,
{
    let p = crate::single::product(crate::single::rounded(u, 1), scale);
    let one = crate::single::p2(200);
    let v = crate::single::scaled_value(scale);
    let x = crate::single::scaled_value(p);
    vstd::arithmetic::power2::lemma_pow2_pos(200);
    crate::single::lemma_product_above(u, scale);
    crate::single::lemma_product_exponents(u, scale);
    let k = (u * s + 1) / t;
    vstd::arithmetic::div_mod::lemma_fundamental_div_mod(u * s + 1, t);
    assert(u * s <= 1920 * 1920) by (nonlinear_arith)
        requires
            0 <= u <= 1920,
            0 <= s <= 1920,
    ;
    let e = u * s;
    assert(0x100_0000 * (0x100_0000 * (t * x)) <= 0x100_0001 * (0x100_0001 * (e * one))) by (nonlinear_arith)
        requires
            0x100_0000 * x <= 0x100_0001 * (u * v),
            0x100_0000 * (t * v) <= 0x100_0001 * (s * one),
            e == u * s,
            1080 <= t,
            1080 <= u,
    ;
    assert(t * x < (e + 1) * one) by (nonlinear_arith)
        requires
            0x100_0000 * (0x100_0000 * (t * x)) <= 0x100_0001 * (0x100_0001 * (e * one)),
            0 <= e <= 1920 * 1920,
            1 <= one,
    ;
    assert(x < (k + 1) * one) by (nonlinear_arith)
        requires
            t * x < (e + 1) * one,
            e + 1 < t * k + t,
            1080 <= t,
            1 <= one,
    ;
    crate::single::lemma_whole_at_most(p, k);
    let side = fit_side(u, scale);
    assert(t * side <= e + 1) by (nonlinear_arith)
        requires
            side <= k,
            t * k <= e + 1,
            1080 <= t,
    ;
}

/// The share of a preset side that a source side allows, from below.
proof fn lemma_share_below(t: int, s: int)
    requires
        1080 <= t <= 1920,
        1 <= s < 0x40_0000,
    ensures
        ({
            let q = crate::single::quotient(crate::single::rounded(s, 1), crate::single::rounded(t, 1));
            0x100_0000 * (t * crate::single::scaled_value(q)) >= 0xff_ffff * (s * crate::single::p2(200))
        }),
{
    let a = crate::single::rounded(s, 1);
    let b = crate::single::rounded(t, 1);
    let q = crate::single::quotient(a, b);
    let one = crate::single::p2(200);
    vstd::arithmetic::power2::lemma_pow2_pos(200);
    crate::single::lemma_integer_exponents(t);
    crate::single::lemma_integer_exponents(s);
    crate::single::lemma_small_integers_are_exact(t);
    crate::single::lemma_small_integers_are_exact(s);
    crate::single::lemma_quotient_below(a, b);
    let x = crate::single::scaled_value(q);
    assert(0x100_0000 * (t * x) >= 0xff_ffff * (s * one)) by (nonlinear_arith)
        requires
            0x100_0000 * ((t * one) * x) >= 0xff_ffff * ((s * one) * one),
            1 <= one,
    ;
}

/// A source that is narrower than a preset, and not wider for its height, is
/// exported at its full width, and one that is lower at its full height. The
/// other side keeps the ratio of the preset. Each may lose two pixels to
/// rounding, and gains none.
pub proof fn exports_fill_the_source(aspect: Aspect, src_w: int, src_h: int)
    requires
        aspect != Aspect::Original,
        1 <= src_w < 0x40_0000,
        1 <= src_h < 0x40_0000,
    ensures
        ({
            let (tw, th) = preset_size(aspect);
            let (ew, eh) = export_size(aspect, src_w, src_h);
            &&& src_w <= tw && src_w * th <= src_h * tw ==> ew + 2 >= src_w && th * src_w + 1 >= tw * eh && tw * (eh + 2) >= th
                * src_w
            &&& src_h <= th && src_h * tw <= src_w * th ==> eh + 2 >= src_h && tw * src_h + 1 >= th * ew && th * (ew + 2) >= tw
                * src_h
        }),
{
    let (tw, th) = preset_size(aspect);
    let one = crate::single::rounded(1, 1);
    let z = crate::single::p2(200);
    vstd::arithmetic::power2::lemma_pow2_pos(200);
    crate::single::lemma_small_integers_are_exact(1);
    crate::single::lemma_integer_exponents(1);
    let qw = crate::single::quotient(crate::single::rounded(src_w, 1), crate::single::rounded(tw, 1));
    let qh = crate::single::quotient(crate::single::rounded(src_h, 1), crate::single::rounded(th, 1));
    lemma_share(tw, src_w);
    lemma_share(th, src_h);
    lemma_share_below(tw, src_w);
    lemma_share_below(th, src_h);
    let q = smaller(qw, qh);
    let scale = smaller(q, one);
    crate::single::lemma_below_is_order(qh, qw);
    crate::single::lemma_below_is_order(one, q);
    let v = crate::single::scaled_value(scale);
    let (a, b) = (crate::single::scaled_value(qw), crate::single::scaled_value(qh));
    if src_w <= tw && src_w * th <= src_h * tw {
        lemma_reach(tw, th, src_w, src_h, a, b, v, z);
        lemma_side_reaches(tw, tw, src_w, scale);
        lemma_side_reaches(tw, th, src_w, scale);
        assert(tw * v <= tw * a) by (nonlinear_arith)
            requires
                v <= a,
                1080 <= tw,
        ;
        lemma_side_keeps_ratio(tw, th, src_w, scale);
        let side = fit_side(tw, scale);
        assert(side + 2 >= src_w) by (nonlinear_arith)
            requires
                tw * (side + 2) >= tw * src_w,
                1080 <= tw,
        ;
    }
    if src_h <= th && src_h * tw <= src_w * th {
        lemma_reach(th, tw, src_h, src_w, b, a, v, z);
        lemma_side_reaches(th, th, src_h, scale);
        lemma_side_reaches(th, tw, src_h, scale);
        assert(th * v <= th * b) by (nonlinear_arith)
            requires
                v <= b,
                1080 <= th,
        ;
        lemma_side_keeps_ratio(th, tw, src_h, scale);
        let side = fit_side(th, scale);
        assert(side + 2 >= src_h) by (nonlinear_arith)
            requires
                th * (side + 2) >= th * src_h,
                1080 <= th,
        ;
    }
}

/// The smallest of three numbers is not far below the first exact share, if
/// none of the exact ones is below that.
proof fn lemma_reach(t: int, u: int, s: int, r: int, a: int, b: int, v: int, z: int)
    requires
        1080 <= t <= 1920,
        1080 <= u <= 1920,
        1 <= s <= t,
        1 <= z,
        s * u <= r * t,
        0x100_0000 * (t * a) >= 0xff_ffff * (s * z),
        0x100_0000 * (u * b) >= 0xff_ffff * (r * z),
        v == a || v == b || v == z,
    ensures
        0x100_0000 * (t * v) >= 0xff_ffff * (s * z),
{
    if v == b {
        assert(0x100_0000 * (t * b) >= 0xff_ffff * (s * z)) by (nonlinear_arith)
            requires
                0x100_0000 * (u * b) >= 0xff_ffff * (r * z),
                s * u <= r * t,
                1080 <= t,
                1080 <= u,
                1 <= z,
        ;
    } else if v == z {
        assert(0x100_0000 * (t * z) >= 0xff_ffff * (s * z)) by (nonlinear_arith)
            requires
                1 <= s <= t,
                1 <= z,
        ;
    }
}

/// The layers of an item in order have ids of their own, all below the next one.
pub proof fn layers_have_ids_of_their_own(item: MediaItem, i: int, j: int)
    requires
        item.well_formed(),
        0 <= i < item.layers@.len(),
        0 <= j < item.layers@.len(),
    ensures
        item.layers@[i].id < item.next_layer_id,
        item.layers@[i].id == item.layers@[j].id ==> i == j,
{
    if i < j {
        assert(item.layers@[i].id != item.layers@[j].id);
    }
    if j < i {
        assert(item.layers@[j].id != item.layers@[i].id);
    }
}

/// New layers are visible and opaque, under the id that they were given.
pub proof fn fresh_layers_are_visible(layer: Layer, id: usize)
    ensures
        layer.is_fresh(id) <==> layer.id == id && layer.visible && layer.opacity == (F32 { bits: 0x3f80_0000 }),
        layer.is_fresh(id) ==> layer.drawn(),
{
}

} // verus!
