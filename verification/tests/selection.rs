use photo_edit::number::F32;
use photo_edit::ops::feather_mask;
use photo_edit::selection::{select_lasso, select_mask, select_rect, selection_mask, MaskShape};
use photo_edit::state::SelectionKind;

fn f(v: f32) -> F32 {
    F32 { bits: v.to_bits() }
}

#[test]
fn rectangles_select_their_pixels() {
    let shape = MaskShape::Rect { x0: 1, y0: 0, x1: 3, y1: 2 };
    let mask = selection_mask(&shape, 4, 3, f(0.0), 9);
    assert_eq!(mask, vec![0, 255, 255, 0, 0, 255, 255, 0, 0, 0, 0, 0]);
    let beyond = MaskShape::Rect { x0: 3, y0: 2, x1: 99, y1: 99 };
    assert_eq!(selection_mask(&beyond, 4, 3, f(0.0), 0)[11], 255);
}

#[test]
fn polygons_need_three_corners() {
    let inside = vec![true, false, true, true];
    let shape = MaskShape::Lasso { corners: 3, inside: inside.clone() };
    assert_eq!(selection_mask(&shape, 2, 2, f(0.0), 0), vec![255, 0, 255, 255]);
    let line = MaskShape::Lasso { corners: 2, inside };
    assert_eq!(selection_mask(&line, 2, 2, f(0.1), 3), vec![0; 4]);
}

#[test]
fn masks_are_resampled() {
    let data = vec![10, 20, 30, 40];
    let shape = MaskShape::Raster { data: data.clone(), width: 2, height: 2 };
    assert_eq!(selection_mask(&shape, 2, 2, f(0.0), 0), data);
    let big = selection_mask(&shape, 4, 2, f(0.0), 0);
    assert_eq!(big, vec![10, 10, 20, 20, 30, 30, 40, 40]);
    let small = selection_mask(&shape, 1, 1, f(0.0), 0);
    assert_eq!(small, vec![10]);
}

#[test]
fn feathered_masks_are_blurred() {
    let shape = MaskShape::Rect { x0: 2, y0: 2, x1: 6, y1: 6 };
    let sharp = selection_mask(&shape, 8, 8, f(0.0), 3);
    let soft = selection_mask(&shape, 8, 8, f(0.05), 3);
    let mut want = sharp.clone();
    feather_mask(&mut want, 8, 8, 3);
    assert_eq!(soft, want);
    assert_ne!(soft, sharp);
    assert_eq!(selection_mask(&shape, 8, 8, f(f32::NAN), 3), sharp);
    assert_eq!(selection_mask(&shape, 8, 8, f(-1.0), 3), sharp);
}

#[test]
fn small_drags_select_nothing() {
    assert!(select_rect(f(0.1), f(0.1), f(0.01), f(0.5)).is_none());
    assert!(select_rect(f(0.1), f(0.1), f(0.5), f(f32::NAN)).is_none());
    let s = select_rect(f(0.1), f(0.2), f(0.02), f(0.5)).unwrap();
    assert_eq!(s.kind, SelectionKind::Rect { x: f(0.1), y: f(0.2), w: f(0.02), h: f(0.5) });
    assert_eq!(s.feather, f(0.0));
    assert!(select_lasso(vec![(f(0.0), f(0.0)); 2]).is_none());
    assert!(matches!(select_lasso(vec![(f(0.0), f(0.0)); 3]).unwrap().kind, SelectionKind::Lasso(c) if c.len() == 3));
}

#[test]
fn empty_masks_select_nothing() {
    assert!(select_mask(vec![0, 0], 0, 2, 1).is_none());
    let s = select_mask(vec![0, 255], 1, 2, 1).unwrap();
    assert_eq!(s.kind, SelectionKind::Mask { data: vec![0, 255], width: 2, height: 1 });
}
