use photo_edit::number::F32;
use photo_edit::state::{
    Aspect, BrushLayer, CropRect, EditParams, Layer, LayerKind, MediaItem, MediaKind, PathLayer, PathPoint, SelectTool,
    TextAlign, TextLayer, Tool,
};

fn f(v: f32) -> F32 {
    F32 { bits: v.to_bits() }
}

fn v(n: F32) -> f32 {
    f32::from_bits(n.bits)
}

#[test]
fn names_of_choices() {
    assert_eq!(Aspect::ALL.map(|a| a.label()), ["Orig", "9:16", "1:1", "4:5", "16:9"]);
    assert_eq!(TextAlign::ALL.map(|a| a.label()), ["Left", "Center", "Right"]);
    assert_eq!(TextAlign::ALL.map(|a| a.canvas_value()), ["left", "center", "right"]);
    assert_eq!(Tool::ALL.map(|t| t.label()), ["Select", "Pen", "Brush"]);
    assert_eq!(SelectTool::ALL.map(|t| t.label()), ["Rect", "Lasso", "Wand"]);
    assert_eq!(
        Aspect::ALL.map(|a| a.ratio()),
        [None, Some((9, 16)), Some((1, 1)), Some((4, 5)), Some((16, 9))]
    );
}

fn preset(aspect: Aspect) -> Option<(usize, usize)> {
    match aspect {
        Aspect::Original => None,
        Aspect::Nine16 => Some((1080, 1920)),
        Aspect::One1 => Some((1080, 1080)),
        Aspect::Four5 => Some((1080, 1350)),
        Aspect::Sixteen9 => Some((1920, 1080)),
    }
}

fn float_dims(aspect: Aspect, src_w: usize, src_h: usize) -> (usize, usize) {
    let Some((tw, th)) = preset(aspect) else {
        return (src_w, src_h);
    };
    let scale = (src_w as f32 / tw as f32).min(src_h as f32 / th as f32).min(1.0);
    ((tw as f32 * scale) as usize, (th as f32 * scale) as usize)
}

#[test]
fn export_sizes_match_singles() {
    let sides = [0usize, 1, 2, 333, 719, 720, 1079, 1080, 1081, 1919, 1920, 4000, 4321, 16777217];
    for aspect in Aspect::ALL {
        for w in sides {
            for h in sides {
                let got = aspect.export_dims(w, h);
                assert_eq!(got, float_dims(aspect, w, h), "{aspect:?} {w} {h}");
                assert!(got.0 <= w && got.1 <= h);
                if let Some((tw, th)) = preset(aspect) {
                    assert!(got.0 <= tw && got.1 <= th);
                }
            }
        }
    }
}

#[test]
fn export_sizes_on_known_sources() {
    assert_eq!(Aspect::Original.export_dims(4032, 3024), (4032, 3024));
    assert_eq!(Aspect::Nine16.export_dims(4000, 4000), (1080, 1920));
    assert_eq!(Aspect::Nine16.export_dims(540, 4000), (540, 960));
    assert_eq!(Aspect::Sixteen9.export_dims(1920, 540), (960, 540));
    // This side has no single-precision value.
    assert_eq!(Aspect::Original.export_dims(16777219, 1), (16777219, 1));
}

#[test]
fn text_layers_start_with_defaults() {
    let t = TextLayer::default();
    assert_eq!((v(t.x), v(t.y), v(t.font_size)), (0.5, 0.5, 0.08));
    assert_eq!(t.font_weight, 700);
    assert_eq!(t.alignment, TextAlign::Center);
    assert_eq!([v(t.stroke_width), v(t.shadow_blur), v(t.shadow_offset_x), v(t.shadow_offset_y)], [0.0, 4.0, 2.0, 2.0]);
    let texts = [t.text, t.font_family, t.color, t.stroke_color, t.shadow_color];
    assert_eq!(texts, ["Text", "Inter", "#ffffff", "#000000", "rgba(0,0,0,0.5)"].map(String::from));
}

#[test]
fn path_points_carry_handles() {
    let p = PathPoint::corner(f(0.25), f(0.75));
    assert_eq!((v(p.x), v(p.y), p.smooth), (0.25, 0.75, false));
    assert_eq!([v(p.in_x), v(p.in_y), v(p.out_x), v(p.out_y)], [0.0; 4]);
    let s = PathPoint::new(f(0.25), f(0.75));
    assert_eq!((v(s.x), v(s.y), s.smooth), (0.25, 0.75, true));
}

#[test]
fn layers_name_themselves() {
    assert_eq!(Layer::new_text(3).label(), format!("T: {}", TextLayer::default().text));
    assert_eq!(Layer::new_path(3).label(), "Path");
    assert_eq!(Layer::new_brush(3).label(), "Brush");
    let raster = Layer::new_raster(4, vec![1, 2, 3, 4], 1, 1);
    assert_eq!(raster.label(), "Raster");
    assert_eq!((raster.id, raster.visible, v(raster.opacity)), (4, true, 1.0));
    assert!(matches!(raster.kind, LayerKind::Raster(r) if r.pixels == vec![1, 2, 3, 4] && r.width == 1));
}

#[test]
fn drawn_layers_are_visible_and_not_faint() {
    let mut layer = Layer::new_brush(0);
    assert!(layer.is_drawn());
    for (opacity, drawn) in [(0.01f32, false), (0.011, true), (0.0, false), (-1.0, false)] {
        layer.opacity = f(opacity);
        assert_eq!(layer.is_drawn(), drawn, "{opacity}");
        assert_eq!(drawn, !(opacity <= 0.01));
    }
    layer.opacity = f(1.0);
    layer.visible = false;
    assert!(!layer.is_drawn());
}

#[test]
fn unedited_items() {
    let item = MediaItem::new(7, MediaKind::Photo, "a.jpg".to_string(), "blob:x".to_string(), 40, 30);
    assert_eq!((item.id, item.kind, item.width, item.height), (7, MediaKind::Photo, 40, 30));
    assert_eq!((item.name.as_str(), item.object_url.as_str()), ("a.jpg", "blob:x"));
    assert!(item.layers.is_empty());
    let e = EditParams::default();
    assert!(!e.is_color_touched());
    assert!(e.keep_audio && e.trim.is_none() && e.selection.is_none());
    let c = CropRect::default();
    assert_eq!([v(c.x), v(c.y), v(c.w), v(c.h)], [0.0, 0.0, 1.0, 1.0]);
    assert_eq!(format!("{:?}", item.edit), format!("{e:?}"));
}

#[test]
fn color_is_touched_by_each_value() {
    let set: [fn(&mut EditParams, F32); 4] = [
        |e, x| e.brightness = x,
        |e, x| e.contrast = x,
        |e, x| e.saturation = x,
        |e, x| e.warmth = x,
    ];
    for put in set {
        let mut e = EditParams::default();
        put(&mut e, f(-0.0));
        assert!(!e.is_color_touched());
        put(&mut e, f(0.001));
        assert!(e.is_color_touched());
    }
}

#[test]
fn new_vector_layers_are_empty() {
    assert!(PathLayer::default().points.is_empty());
    assert!(!PathLayer::default().closed);
    assert!(BrushLayer::default().strokes.is_empty());
    assert_eq!(v(PathLayer::default().stroke_width), 0.01);
    assert_eq!(v(BrushLayer::default().width), 0.015);
    assert_eq!(PathLayer::default().fill_color, "#ff3b30");
    assert_eq!(BrushLayer::default().color, "#0a84ff");
}
