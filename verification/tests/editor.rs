use photo_edit::editor::{
    add_font, apply_to_all, current_index, file_kind, font_family_name, is_heic, is_heic_lowercase, is_straightened,
    layer_type, press, push_item, reset_color, reset_geometry, reset_rotation, rotate_left, rotate_right, set_aspect,
    stroke_offset, trim_end, trim_start, FileKind, LayerType, Press, Tab,
};
use photo_edit::number::F32;
use photo_edit::selection::select_rect;
use photo_edit::state::{Aspect, CropRect, EditParams, Layer, MediaItem, MediaKind, SelectTool, Tool};

fn f(v: f32) -> F32 {
    F32 { bits: v.to_bits() }
}

fn crop(x: f32) -> CropRect {
    CropRect { x: f(x), y: f(0.0), w: f(0.5), h: f(0.5) }
}

fn item(id: usize, kind: MediaKind) -> MediaItem {
    MediaItem::new(id, kind, format!("{id}.jpg"), format!("blob:{id}"), 100, 50)
}

#[test]
fn the_first_item_becomes_current() {
    let mut items = vec![];
    let selected = push_item(&mut items, None, item(4, MediaKind::Photo));
    assert_eq!(selected, Some(4));
    assert_eq!(push_item(&mut items, selected, item(5, MediaKind::Photo)), Some(4));
    assert_eq!(current_index(&items, Some(5)), Some(1));
    assert_eq!(current_index(&items, Some(6)), None);
    assert_eq!(current_index(&items, None), None);
}

#[test]
fn turns_start_the_crop_over() {
    let mut e = EditParams::default();
    e.crop = crop(0.25);
    for want in [1, 2, 3, 0] {
        rotate_right(&mut e);
        assert_eq!(e.rot90, want);
    }
    assert_eq!(e.crop, CropRect::default());
    rotate_left(&mut e);
    assert_eq!(e.rot90, 3);
    rotate_right(&mut e);
    assert_eq!(e.rot90, 0);
}

#[test]
fn resets() {
    let mut e = EditParams::default();
    e.rot90 = 2;
    e.fine_angle = f(3.0);
    e.warmth = f(0.5);
    e.crop = crop(0.1);
    e.selection = select_rect(f(0.0), f(0.0), f(0.5), f(0.5));
    let mut a = e.clone();
    reset_rotation(&mut a);
    assert_eq!((a.rot90, a.fine_angle, a.crop), (0, f(0.0), crop(0.1)));
    let mut b = e.clone();
    reset_color(&mut b);
    assert!(!b.is_color_touched());
    assert_eq!(b.rot90, 2);
    let mut c = e.clone();
    reset_geometry(&mut c);
    assert_eq!((c.rot90, c.crop, c.selection.is_none(), c.warmth), (0, CropRect::default(), true, f(0.5)));
    set_aspect(&mut e, Aspect::One1, crop(0.3));
    assert_eq!((e.aspect, e.crop), (Aspect::One1, crop(0.3)));
}

#[test]
fn tiny_angles_do_not_straighten() {
    for angle in [0.0f32, 0.01, -0.01, 0.010001, 0.011, -0.5, 45.0, f32::NAN] {
        let mut e = EditParams::default();
        e.fine_angle = f(angle);
        assert_eq!(is_straightened(&e), angle.abs() > 0.01, "{angle}");
    }
}

#[test]
fn edits_are_copied_to_every_item() {
    let mut items = vec![
        item(0, MediaKind::Photo),
        item(1, MediaKind::Video),
        item(2, MediaKind::Photo),
    ];
    items[0].edit.aspect = Aspect::Four5;
    items[0].edit.rot90 = 1;
    items[0].edit.brightness = f(0.2);
    items[0].edit.grain = f(0.3);
    items[0].edit.curves.channels[2].pop();
    items[0].edit.trim = Some((f(1.0), f(2.0)));
    items[0].edit.keep_audio = false;
    items[2].edit.selection = select_rect(f(0.0), f(0.0), f(0.5), f(0.5));
    let current = format!("{:?}", items[0]);
    let crops = vec![crop(0.0), crop(0.1), crop(0.2)];
    apply_to_all(&mut items, 0, &crops);
    assert_eq!(format!("{:?}", items[0]), current);
    for i in [1usize, 2] {
        let e = &items[i].edit;
        assert_eq!((e.aspect, e.rot90, e.brightness, e.grain), (Aspect::Four5, 1, f(0.2), f(0.3)));
        assert_eq!(e.crop, crops[i]);
        assert_eq!(e.curves.channels[2].len(), 1);
        assert!(e.trim.is_none() && e.keep_audio);
        assert_eq!(e.selection.is_some(), i == 2);
        assert_eq!(items[i].name, format!("{i}.jpg"));
    }
    assert_eq!(items[1].kind, MediaKind::Video);
}

#[test]
fn presses_depend_on_the_tab() {
    let at = |tab, photo, pick, source| press(tab, photo, pick, source, SelectTool::Rect, Tool::Select, None);
    assert_eq!(at(Tab::Clone, true, true, false), Press::PickSource);
    assert_eq!(at(Tab::Clone, true, false, true), Press::StartClone);
    assert_eq!(at(Tab::Clone, true, false, false), Press::Ignore);
    assert_eq!(at(Tab::Clone, false, true, true), Press::Ignore);
    assert_eq!(at(Tab::Heal, true, false, false), Press::StartHeal);
    assert_eq!(at(Tab::Heal, false, false, false), Press::Ignore);
    for tab in [Tab::Crop, Tab::Rotate, Tab::Color, Tab::Trim, Tab::Export] {
        assert_eq!(at(tab, true, true, true), Press::Ignore);
    }
    let pick = |tool| press(Tab::Select, true, false, false, tool, Tool::Pen, None);
    assert_eq!(pick(SelectTool::Rect), Press::StartRect);
    assert_eq!(pick(SelectTool::Lasso), Press::StartLasso);
    assert_eq!(pick(SelectTool::Wand), Press::Wand);
    let layer = |tool, kind| press(Tab::Layers, true, false, false, SelectTool::Rect, tool, kind);
    assert_eq!(layer(Tool::Select, Some(LayerType::Text)), Press::DragText);
    assert_eq!(layer(Tool::Pen, Some(LayerType::Path)), Press::Pen);
    assert_eq!(layer(Tool::Brush, Some(LayerType::Brush)), Press::StartStroke);
    assert_eq!(layer(Tool::Brush, Some(LayerType::Text)), Press::Ignore);
    assert_eq!(layer(Tool::Select, Some(LayerType::Raster)), Press::Ignore);
    assert_eq!(layer(Tool::Select, None), Press::Ignore);
}

#[test]
fn layers_have_types() {
    assert_eq!(layer_type(&Layer::new_text(0).kind), LayerType::Text);
    assert_eq!(layer_type(&Layer::new_path(0).kind), LayerType::Path);
    assert_eq!(layer_type(&Layer::new_brush(0).kind), LayerType::Brush);
    assert_eq!(layer_type(&Layer::new_raster(0, vec![], 0, 0).kind), LayerType::Raster);
}

#[test]
fn aligned_strokes_keep_their_offset() {
    let a = (f(1.0), f(2.0));
    let b = (f(3.0), f(4.0));
    assert_eq!(stroke_offset(true, None, a), (a, Some(a)));
    assert_eq!(stroke_offset(true, Some(a), b), (a, Some(a)));
    assert_eq!(stroke_offset(false, Some(a), b), (b, Some(a)));
    assert_eq!(stroke_offset(false, None, b), (b, None));
}

#[test]
fn trims_stay_in_order() {
    assert_eq!(trim_start(f(5.0), f(2.9)), f(2.9));
    assert_eq!(trim_start(f(1.0), f(2.9)), f(1.0));
    assert_eq!(trim_start(f(-1.0), f(2.9)), f(0.0));
    assert_eq!(trim_start(f(1.0), f(-0.1)), f(0.0));
    assert_eq!(trim_end(f(1.0), f(1.6)), f(1.6));
    assert_eq!(trim_end(f(9.0), f(1.6)), f(9.0));
}

#[test]
fn fonts_are_listed_once() {
    let mut fonts = vec!["Inter".to_string()];
    add_font(&mut fonts, "Lora".to_string());
    add_font(&mut fonts, "Lora".to_string());
    add_font(&mut fonts, "Inter".to_string());
    assert_eq!(fonts, vec!["Inter", "Lora"]);
    assert_eq!(font_family_name("My Font.v2.ttf"), "custom-My-Font.v2");
    assert_eq!(font_family_name("plain"), "custom-plain");
}

#[test]
fn files_are_told_apart() {
    assert_eq!(file_kind("video/mp4", "x.dng"), FileKind::Video);
    assert_eq!(file_kind("", "IMG.NEF"), FileKind::Raw);
    assert_eq!(file_kind("", "A.dng"), FileKind::Raw);
    assert_eq!(file_kind("image/HEIC", "x"), FileKind::Heic);
    assert_eq!(file_kind("", "IMG_1.HEIF"), FileKind::Heic);
    assert_eq!(file_kind("image/jpeg", "x.jpg"), FileKind::Photo);
    assert_eq!(file_kind("VIDEO/mp4", "x"), FileKind::Photo);
    assert!(is_heic("image/heif-sequence", ""));
    assert!(is_heic("", "A.Heic"));
    assert!(!is_heic("image/png", "heic"));
    assert!(!is_heic_lowercase("", "A.HEIC"));
    assert!(is_heic_lowercase("", "a.heic"));
}
