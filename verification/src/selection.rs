//! Selections: from a drag or a click to a mask.
use crate::number::F32;
use crate::ops::feather_mask;
use crate::state::{Selection, SelectionKind};
use vstd::prelude::*;

verus! {

/// A selection in pixels of the image that it is applied to.
pub enum MaskShape {
    /// Columns from `x0` and rows from `y0`, up to but without `x1` and `y1`.
    Rect { x0: usize, y0: usize, x1: usize, y1: usize },
    /// A polygon with this many corners, and for each pixel whether its center
    /// lies inside.
    Lasso { corners: usize, inside: Vec<bool> },
    /// A mask of another size.
    Raster { data: Vec<u8>, width: usize, height: usize },
}

impl MaskShape {
    /// Whether the shape can be applied to an image of this size.
    pub open spec fn fits(self, w: int, h: int) -> bool {
        match self {
            MaskShape::Rect { .. } => true,
            MaskShape::Lasso { inside, .. } => inside@.len() >= w * h,
            MaskShape::Raster { data, width, height } => width > 0 && height > 0 && data@.len() >= width * height,
        }
    }

    /// Whether the shape selects nothing, and is not feathered: a polygon with
    /// less than three corners.
    pub open spec fn degenerate(self) -> bool {
        self matches MaskShape::Lasso { corners, .. } && corners < 3
    }

    /// The mask value of pixel `p`. A mask of another size gives the value of
    /// the cell that the pixel falls into.
    pub open spec fn value(self, w: int, h: int, p: int) -> u8 {
        match self {
            MaskShape::Rect { x0, y0, x1, y1 } => if x0 <= p % w < x1 && y0 <= p / w < y1 {
                255
            } else {
                0
            },
            MaskShape::Lasso { corners, inside } => if corners >= 3 && inside@[p] {
                255
            } else {
                0
            },
            MaskShape::Raster { data, width, height } => data@[crate::pixels::cell(
                width as int,
                (p % w) * width / w,
                (p / w) * height / h,
            )],
        }
    }
}

/// The sharp mask of a shape.
pub open spec fn sharp_mask(shape: MaskShape, w: int, h: int) -> Seq<u8> {
    Seq::new((w * h) as nat, |p: int| shape.value(w, h, p))
}

/// Whether a feather is applied: more than a thousandth of the diagonal.
pub open spec fn feathers(feather: F32) -> bool {
    !feather.nan() && feather.key() > 0x3a83_126f
}

/// The mask of a selection. `radius` is the feather in pixels.
pub open spec fn mask_of(shape: MaskShape, w: int, h: int, feather: F32, radius: int) -> Seq<u8> {
    if feathers(feather) && !shape.degenerate() {
        crate::ops::feathered(sharp_mask(shape, w, h), w, h, radius)
    } else {
        sharp_mask(shape, w, h)
    }
}

/// A coordinate scaled to a raster of another size lies inside it.
proof fn lemma_resampled(v: int, size: int, other: int)
    requires
        0 <= v < size,
        0 < other,
    ensures
        0 <= v * other / size < other,
        0 <= v * other <= size * other,
{
    assert(0 <= v * other < size * other) by (nonlinear_arith)
        requires
            0 <= v < size,
            0 < other,
    ;
    assert(0 <= v * other / size < other) by (nonlinear_arith)
        requires
            0 <= v * other < size * other,
            0 < size,
    ;
}

/// Generate an 8-bit alpha mask from a selection.
/// Result has length w*h; 255 = fully selected, 0 = unselected.
pub fn selection_mask(shape: &MaskShape, w: usize, h: usize, feather: F32, radius: usize) -> (mask: Vec<u8>)
    requires
        w <= 0x7fff_ffff,
        h <= 0x7fff_ffff,
        w * h <= usize::MAX,
        shape.fits(w as int, h as int),
    ensures
        mask@ == mask_of(*shape, w as int, h as int, feather, radius as int),
{
    let ghost (gw, gh) = (w as int, h as int);
    let n: usize = w * h;
    let mut mask: Vec<u8> = Vec::new();
    let mut p: usize = 0;
    while p < n
        invariant
            p <= n,
            n == w * h,
            gw == w,
            gh == h,
            shape.fits(gw, gh),
            mask@ == sharp_mask(*shape, gw, gh).take(p as int),
        decreases n - p,
    {
        proof {
            crate::pixels::lemma_coords(gw, gh, p as int);
        }
        let x: usize = p % w;
        let y: usize = p / w;
        let v: u8 = match shape {
            MaskShape::Rect { x0, y0, x1, y1 } => if *x0 <= x && x < *x1 && *y0 <= y && y < *y1 {
                255
            } else {
                0
            },
            MaskShape::Lasso { corners, inside } => if *corners >= 3 && inside[p] {
                255
            } else {
                0
            },
            MaskShape::Raster { data, width, height } => {
                proof {
                    lemma_resampled(x as int, gw, *width as int);
                    lemma_resampled(y as int, gh, *height as int);
                    assert(x * *width <= usize::MAX * usize::MAX && y * *height <= usize::MAX * usize::MAX)
                        by (nonlinear_arith)
                        requires
                            x <= usize::MAX,
                            y <= usize::MAX,
                            *width <= usize::MAX,
                            *height <= usize::MAX,
                    ;
                }
                let sx: usize = (x as u128 * *width as u128 / w as u128) as usize;
                let sy: usize = (y as u128 * *height as u128 / h as u128) as usize;
                proof {
                    crate::pixels::lemma_cell(*width as int, *height as int, sx as int, sy as int);
                    assert(data@.len() == data.len());
                }
                data[sy * *width + sx]
            },
        };
        mask.push(v);
        assert(mask@ =~= sharp_mask(*shape, gw, gh).take(p + 1));
        p = p + 1;
    }
    assert(mask@ =~= sharp_mask(*shape, gw, gh));
    let thin: bool = match shape {
        MaskShape::Lasso { corners, .. } => *corners < 3,
        _ => false,
    };
    if !thin && !feather.is_nan() && feather.order() > 0x3a83_126f {
        feather_mask(mask.as_mut_slice(), w, h, radius);
    }
    mask
}

/// A mask of the size of the image is used as it is.
pub proof fn mask_of_the_same_size_is_kept(data: Vec<u8>, w: usize, h: usize)
    requires
        data@.len() == w * h,
    ensures
        sharp_mask((MaskShape::Raster { data, width: w, height: h }), w as int, h as int) == data@,
{
    let shape = MaskShape::Raster { data, width: w, height: h };
    let (gw, gh) = (w as int, h as int);
    assert forall|p: int| 0 <= p < gw * gh implies shape.value(gw, gh, p) == data@[p] by {
        crate::pixels::lemma_coords(gw, gh, p);
        vstd::arithmetic::div_mod::lemma_div_by_multiple(p % gw, gw);
        vstd::arithmetic::div_mod::lemma_div_by_multiple(p / gw, gh);
    }
    assert(sharp_mask(shape, gw, gh) =~= data@);
}

/// Whether both sides of a rectangle are more than a hundredth.
pub open spec fn is_wide(w: F32, h: F32) -> bool {
    !w.nan() && !h.nan() && w.key() > 0x3c23_d70a && h.key() > 0x3c23_d70a
}

/// The selection of a dragged rectangle with this left top corner and size, or
/// none if it is too small.
pub fn select_rect(x: F32, y: F32, w: F32, h: F32) -> (r: Option<Selection>)
    ensures
        match r {
            Some(s) => is_wide(w, h) && s.kind == (SelectionKind::Rect { x, y, w, h }) && s.feather.bits == 0,
            None => !is_wide(w, h),
        },
{
    if !w.is_nan() && !h.is_nan() && w.order() > 0x3c23_d70a && h.order() > 0x3c23_d70a {
        Some(Selection { kind: SelectionKind::Rect { x, y, w, h }, feather: F32 { bits: 0 } })
    } else {
        None
    }
}

/// The selection of a dragged polygon, or none if it has less than three
/// corners.
pub fn select_lasso(corners: Vec<(F32, F32)>) -> (r: Option<Selection>)
    ensures
        match r {
            Some(s) => corners@.len() >= 3 && s.kind == SelectionKind::Lasso(corners) && s.feather.bits == 0,
            None => corners@.len() < 3,
        },
{
    if corners.len() >= 3 {
        Some(Selection { kind: SelectionKind::Lasso(corners), feather: F32 { bits: 0 } })
    } else {
        None
    }
}

/// The selection of a mask with this many selected pixels, or none if it is
/// empty.
pub fn select_mask(mask: Vec<u8>, count: usize, width: usize, height: usize) -> (r: Option<Selection>)
    ensures
        match r {
            Some(s) => count > 0 && s.kind == (SelectionKind::Mask { data: mask, width, height }) && s.feather.bits == 0,
            None => count == 0,
        },
{
    if count > 0 {
        Some(Selection { kind: SelectionKind::Mask { data: mask, width, height }, feather: F32 { bits: 0 } })
    } else {
        None
    }
}

/// A rectangle selects exactly the pixels in its columns and rows.
pub proof fn rectangles_select_columns_and_rows(x0: usize, y0: usize, x1: usize, y1: usize, w: int, h: int, x: int, y: int)
    requires
        0 <= x < w,
        0 <= y < h,
    ensures
        ({
            let mask = sharp_mask((MaskShape::Rect { x0, y0, x1, y1 }), w, h);
            &&& mask.len() == w * h
            &&& x0 <= x < x1 && y0 <= y < y1 ==> mask[y * w + x] == 255
            &&& !(x0 <= x < x1 && y0 <= y < y1) ==> mask[y * w + x] == 0
        }),
{
    crate::pixels::lemma_cell(w, h, x, y);
}

/// A polygon with three corners or more selects exactly the pixels inside it,
/// and one with less selects nothing, feathered or not.
pub proof fn polygons_select_their_inside(corners: usize, inside: Vec<bool>, w: int, h: int, feather: F32, radius: int, p: int)
    requires
        0 <= w,
        0 <= h,
        inside@.len() >= w * h,
        0 <= p < w * h,
    ensures
        ({
            let shape = MaskShape::Lasso { corners, inside };
            let mask = sharp_mask(shape, w, h);
            &&& mask.len() == w * h
            &&& corners >= 3 ==> (mask[p] == if inside@[p] { 255u8 } else { 0u8 })
            &&& corners < 3 ==> mask[p] == 0 && mask_of(shape, w, h, feather, radius) == mask
        }),
{
}

/// A mask of another size is stretched over the image: each pixel takes the
/// value of the cell `(u, v)` that its left top corner falls into.
pub proof fn masks_are_stretched(data: Vec<u8>, width: usize, height: usize, w: int, h: int, x: int, y: int, u: int, v: int)
    requires
        width > 0,
        height > 0,
        data@.len() >= width * height,
        0 <= x < w,
        0 <= y < h,
        u * w <= x * width < (u + 1) * w,
        v * h <= y * height < (v + 1) * h,
    ensures
        0 <= u < width,
        0 <= v < height,
        sharp_mask((MaskShape::Raster { data, width, height }), w, h)[y * w + x] == data@[v * width + u],
{
    crate::pixels::lemma_cell(w, h, x, y);
    lemma_resampled(x, w, width as int);
    lemma_resampled(y, h, height as int);
    lemma_quotient(x * width, w, u);
    lemma_quotient(y * height, h, v);
}

proof fn lemma_quotient(n: int, d: int, q: int)
    requires
        0 < d,
        q * d <= n < (q + 1) * d,
    ensures
        n / d == q,
{
    assert((q + 1) * d == q * d + d) by (nonlinear_arith);
    vstd::arithmetic::div_mod::lemma_fundamental_div_mod_converse(n, d, q, n - q * d);
}

/// A mask is feathered where the feather is more than a thousandth, which has
/// this bit pattern, and sharp for any other, as for NaN.
pub proof fn small_feathers_are_sharp(shape: MaskShape, w: int, h: int, feather: F32, radius: int)
    ensures
        feather.bits <= 0x3a83_126f || feather.bits > 0x7f80_0000 ==> mask_of(shape, w, h, feather, radius) == sharp_mask(
            shape,
            w,
            h,
        ),
        0x3a83_126f < feather.bits <= 0x7f80_0000 && !(shape is Lasso) ==> mask_of(shape, w, h, feather, radius)
            == crate::ops::feathered(sharp_mask(shape, w, h), w, h, radius),
        0x3a83_126f < feather.bits <= 0x7f80_0000 && (shape matches MaskShape::Lasso { corners, .. } && corners >= 3)
            ==> mask_of(shape, w, h, feather, radius) == crate::ops::feathered(sharp_mask(shape, w, h), w, h, radius),
{
}

/// A dragged rectangle is selected where both of its sides are more than a
/// hundredth, which has this bit pattern.
pub proof fn wide_drags_are_selected(x: F32, y: F32, w: F32, h: F32, r: Option<Selection>)
    requires
        call_ensures(select_rect, (x, y, w, h), r),
    ensures
        r is Some <==> 0x3c23_d70a < w.bits <= 0x7f80_0000 && 0x3c23_d70a < h.bits <= 0x7f80_0000,
        r matches Some(s) ==> s.kind == (SelectionKind::Rect { x, y, w, h }) && s.feather == (F32 { bits: 0 }),
{
}

} // verus!
