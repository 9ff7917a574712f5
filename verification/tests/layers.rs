use photo_edit::layers::{
    add_isolated_layers, add_layer, add_raster_layer, clear_brush, clear_path, delete_layer, extend_stroke, find_layer,
    hit_test_path, move_layer, pen_drag, pen_press, push_brush_history, push_path_history, selected_after_delete,
    set_opacity, set_visible, start_stroke, toggle_smooth, tool_for, undo_brush, undo_path, NewLayer, PenDrag, PenHandle,
    PenNear, HISTORY_LIMIT,
};
use photo_edit::number::F32;
use photo_edit::state::{BrushLayer, LayerKind, MediaItem, MediaKind, PathLayer, PathPoint, Tool};

fn f(v: f32) -> F32 {
    F32 { bits: v.to_bits() }
}

fn item() -> MediaItem {
    MediaItem::new(1, MediaKind::Photo, "a".to_string(), "b".to_string(), 10, 10)
}

fn ids(item: &MediaItem) -> Vec<usize> {
    item.layers.iter().map(|l| l.id).collect()
}

fn path(n: usize) -> PathLayer {
    PathLayer {
        points: (0..n).map(|i| PathPoint::corner(f(i as f32), f(0.0))).collect(),
        ..PathLayer::default()
    }
}

#[test]
fn path_undo_restores_points() {
    let mut p = path(2);
    let before = p.points.clone();
    push_path_history(&mut p);
    p.points.push(PathPoint::corner(f(9.0), f(9.0)));
    undo_path(&mut p);
    assert_eq!(p.points, before);
    assert!(p.history.is_empty());
    undo_path(&mut p);
    assert_eq!(p.points, before);
}

#[test]
fn cleared_path_can_be_restored() {
    let mut p = path(3);
    p.closed = true;
    let before = p.points.clone();
    clear_path(&mut p);
    assert!(p.points.is_empty() && !p.closed);
    undo_path(&mut p);
    assert_eq!(p.points, before);
    assert!(!p.closed);
}

#[test]
fn history_is_bounded() {
    let mut p = path(0);
    for i in 0..HISTORY_LIMIT + 5 {
        push_path_history(&mut p);
        p.points.push(PathPoint::corner(f(i as f32), f(0.0)));
    }
    assert_eq!(HISTORY_LIMIT, 50);
    assert_eq!(p.history.len(), 50);
    assert_eq!(p.history[0].len(), 5);
    let mut b = BrushLayer::default();
    for _ in 0..60 {
        push_brush_history(&mut b);
    }
    assert_eq!(b.history.len(), 50);
}

#[test]
fn strokes_grow_and_undo() {
    let mut b = BrushLayer::default();
    extend_stroke(&mut b, f(1.0), f(1.0));
    assert!(b.strokes.is_empty());
    start_stroke(&mut b, f(0.1), f(0.2));
    extend_stroke(&mut b, f(0.3), f(0.4));
    assert_eq!(b.strokes[0].points, vec![(f(0.1), f(0.2)), (f(0.3), f(0.4))]);
    start_stroke(&mut b, f(0.5), f(0.6));
    assert_eq!(b.strokes.len(), 2);
    undo_brush(&mut b);
    assert_eq!(b.strokes.len(), 1);
    clear_brush(&mut b);
    assert!(b.strokes.is_empty());
    undo_brush(&mut b);
    assert_eq!(b.strokes.len(), 1);
    undo_brush(&mut b);
    undo_brush(&mut b);
    assert!(b.strokes.is_empty());
}

#[test]
fn layers_are_added_on_top_with_new_ids() {
    let mut m = item();
    assert_eq!(add_layer(&mut m, NewLayer::Text), 0);
    assert_eq!(add_layer(&mut m, NewLayer::Path), 1);
    assert_eq!(add_layer(&mut m, NewLayer::Brush), 2);
    assert_eq!(add_raster_layer(&mut m, vec![0; 4], 1, 1), 3);
    assert_eq!(ids(&m), vec![0, 1, 2, 3]);
    assert_eq!(find_layer(&m.layers, 2), Some(2));
    assert_eq!(find_layer(&m.layers, 9), None);
    delete_layer(&mut m, 1);
    assert_eq!(ids(&m), vec![0, 2, 3]);
    assert_eq!(add_layer(&mut m, NewLayer::Text), 4);
    assert_eq!([NewLayer::Text, NewLayer::Path, NewLayer::Brush].map(tool_for), [Tool::Select, Tool::Pen, Tool::Brush]);
}

#[test]
fn isolated_subject_stands_over_its_background() {
    let mut m = item();
    add_layer(&mut m, NewLayer::Text);
    let top = add_isolated_layers(&mut m, vec![1, 1, 1, 1], vec![2, 2, 2, 2], 1, 1);
    assert_eq!(top, 2);
    assert_eq!(ids(&m), vec![0, 1, 2]);
    assert!(matches!(&m.layers[1].kind, LayerKind::Raster(r) if r.pixels == vec![1; 4]));
    assert!(matches!(&m.layers[2].kind, LayerKind::Raster(r) if r.pixels == vec![2; 4]));
}

#[test]
fn deleting_the_selected_layer_clears_the_selection() {
    assert_eq!(selected_after_delete(Some(3), 3), None);
    assert_eq!(selected_after_delete(Some(3), 4), Some(3));
    assert_eq!(selected_after_delete(None, 4), None);
}

#[test]
fn layers_move_within_the_stack() {
    let mut m = item();
    for _ in 0..3 {
        add_layer(&mut m, NewLayer::Brush);
    }
    move_layer(&mut m, 0, 1);
    assert_eq!(ids(&m), vec![1, 0, 2]);
    move_layer(&mut m, 0, -1);
    assert_eq!(ids(&m), vec![0, 1, 2]);
    move_layer(&mut m, 0, -1);
    move_layer(&mut m, 2, 1);
    move_layer(&mut m, 7, 1);
    assert_eq!(ids(&m), vec![0, 1, 2]);
    move_layer(&mut m, 2, i32::MIN);
    assert_eq!(ids(&m), vec![2, 1, 0]);
    move_layer(&mut m, 1, i32::MAX);
    assert_eq!(ids(&m), vec![2, 0, 1]);
}

#[test]
fn visibility_and_opacity_change_one_layer() {
    let mut m = item();
    add_layer(&mut m, NewLayer::Brush);
    add_layer(&mut m, NewLayer::Brush);
    set_visible(&mut m, 1, false);
    set_opacity(&mut m, 0, f(0.5));
    set_opacity(&mut m, 5, f(0.25));
    assert_eq!(m.layers.iter().map(|l| (l.visible, l.opacity)).collect::<Vec<_>>(), vec![(true, f(0.5)), (false, f(1.0))]);
}

fn near(point: bool, out_handle: bool, in_handle: bool) -> PenNear {
    PenNear { point, out_handle, in_handle }
}

#[test]
fn pen_hits_the_last_near_part() {
    assert_eq!(hit_test_path(&vec![]), None);
    assert_eq!(hit_test_path(&vec![near(false, false, false)]), None);
    let all = vec![near(true, true, true), near(false, true, true), near(false, false, true)];
    assert_eq!(hit_test_path(&all), Some((0, PenHandle::Point)));
    assert_eq!(hit_test_path(&all[1..].to_vec()), Some((1, PenHandle::In)));
    assert_eq!(hit_test_path(&all[1..2].to_vec()), Some((0, PenHandle::Out)));
    assert_eq!(hit_test_path(&vec![near(true, false, false), near(true, false, false)]), Some((1, PenHandle::Point)));
}

#[test]
fn pen_adds_drags_and_closes() {
    let mut p = path(0);
    let drag = pen_press(&mut p, None, f(0.1), f(0.2));
    assert_eq!(p.points.len(), 1);
    assert_eq!(p.history.len(), 1);
    assert_eq!(drag, None);
    assert_eq!(p.points[0], PathPoint::new(f(0.1), f(0.2)));
    let mut two = path(2);
    assert_eq!(pen_press(&mut two, Some((1, PenHandle::Point)), f(0.0), f(0.0)), Some(PenDrag::MovePoint(1)));
    assert_eq!(pen_press(&mut two, Some((1, PenHandle::Out)), f(0.0), f(0.0)), Some(PenDrag::MoveOut(1)));
    assert_eq!(pen_press(&mut two, Some((0, PenHandle::In)), f(0.0), f(0.0)), Some(PenDrag::MoveIn(0)));
    let mut three = path(3);
    assert_eq!(pen_press(&mut three, Some((0, PenHandle::Point)), f(0.0), f(0.0)), None);
    assert!(three.closed);
}

#[test]
fn smooth_handles_are_mirrored() {
    let mut p = path(2);
    p.points[0].smooth = true;
    let mut to = p.points[0];
    to.out_x = f(0.25);
    to.out_y = f(-0.5);
    pen_drag(&mut p, PenDrag::MoveOut(0), to);
    assert_eq!((p.points[0].out_x, p.points[0].out_y), (f(0.25), f(-0.5)));
    assert_eq!((p.points[0].in_x, p.points[0].in_y), (f(-0.25), f(0.5)));
    pen_drag(&mut p, PenDrag::MoveOut(1), to);
    assert_eq!((p.points[1].in_x, p.points[1].out_x), (f(0.0), f(0.25)));
    pen_drag(&mut p, PenDrag::MovePoint(9), to);
    assert_eq!(p.points.len(), 2);
}

#[test]
fn double_press_toggles_corners() {
    let mut p = path(2);
    toggle_smooth(&mut p, Some((1, PenHandle::Point)));
    assert!(p.points[1].smooth);
    toggle_smooth(&mut p, Some((1, PenHandle::Point)));
    assert!(!p.points[1].smooth);
    let before = p.clone();
    toggle_smooth(&mut p, Some((1, PenHandle::Out)));
    toggle_smooth(&mut p, None);
    assert_eq!(p, before);
}
