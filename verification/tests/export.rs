use photo_edit::export::{
    build_ffmpeg_args, crop_px, crop_starts_inside, downscaled_size, overlay_name, photo_file_name, preview_size, video_crop_fits,
    video_export_dims, video_file_name, working_dims, VideoNumbers,
};
use photo_edit::number::F32;
use photo_edit::ops::rotate_90;
use photo_edit::state::{Aspect, CropRect, EditParams};

fn f(v: f32) -> F32 {
    F32 { bits: v.to_bits() }
}

fn numbers() -> VideoNumbers {
    let t = |s: &str| s.to_string();
    VideoNumbers {
        radians: t("0.1"),
        straight: (90, 40),
        brightness: t("B"),
        contrast: t("C"),
        saturation: t("S"),
        warmer: t("W"),
        cooler: t("K"),
        start: t("1.5"),
        end: t("3"),
    }
}

#[test]
fn rotation_swaps_the_sides() {
    let mut e = EditParams::default();
    assert_eq!(working_dims(&e, 30, 20, (5, 4)), (30, 20));
    e.rot90 = 1;
    assert_eq!(working_dims(&e, 30, 20, (5, 4)), (20, 30));
    e.rot90 = 2;
    assert_eq!(working_dims(&e, 30, 20, (5, 4)), (30, 20));
    e.fine_angle = f(2.0);
    assert_eq!(working_dims(&e, 30, 20, (5, 4)), (5, 4));
}

#[test]
fn working_size_matches_turned_pixels() {
    let pixels: Vec<u8> = (0..4 * 6).map(|i| i as u8).collect();
    for turns in 0..4u8 {
        let mut e = EditParams::default();
        e.rot90 = turns;
        let (turned, w, h) = rotate_90(&pixels, 3, 2, turns);
        assert_eq!(working_dims(&e, 3, 2, (1, 1)), (w, h));
        assert_eq!(turned.len(), 4 * w * h);
        e.fine_angle = f(3.0);
        assert_eq!(working_dims(&e, 3, 2, (2, 1)), (2, 1));
    }
}

fn float_crop(c: [f32; 4], w: usize, h: usize) -> (usize, usize, usize, usize) {
    let x = (c[0] * w as f32).round() as usize;
    let y = (c[1] * h as f32).round() as usize;
    let cw = ((c[2] * w as f32).round() as usize).max(1).min(w - x);
    let ch = ((c[3] * h as f32).round() as usize).max(1).min(h - y);
    (x, y, cw, ch)
}

#[test]
fn crops_in_pixels_match_singles() {
    for c in [[0.0f32, 0.0, 1.0, 1.0], [0.1, 0.2, 0.3, 0.4], [0.333, 0.667, 0.9, 0.9], [0.5, 0.25, 0.5, 0.0001]] {
        for (w, h) in [(4032usize, 3024usize), (7, 5), (1920, 1080), (1001, 333)] {
            let crop = CropRect { x: f(c[0]), y: f(c[1]), w: f(c[2]), h: f(c[3]) };
            assert!(crop_starts_inside(crop, w, h));
            assert_eq!(crop_px(crop, w, h), float_crop(c, w, h), "{c:?} {w} {h}");
        }
    }
    let out = CropRect { x: f(1.5), y: f(0.0), w: f(1.0), h: f(1.0) };
    assert!(!crop_starts_inside(out, 10, 10));
}

#[test]
fn previews_fit_the_long_edge() {
    assert_eq!(preview_size(4000, 2000, 1000), (1000, 500));
    assert_eq!(preview_size(300, 200, 1000), (300, 200));
    for (w, h) in [(4032usize, 3024usize), (1001, 333), (5000, 1), (1, 9000)] {
        let scale = (1200f32 / w.max(h) as f32).min(1.0);
        let want = ((w as f32 * scale) as usize, (h as f32 * scale) as usize);
        assert_eq!(preview_size(w, h, 1200), want, "{w} {h}");
        assert_eq!(downscaled_size(w, h, 1200), (want.0.max(1), want.1.max(1)));
    }
}

#[test]
fn file_names() {
    assert_eq!(photo_file_name(Aspect::Nine16, "a.b.png"), "edited-9:16-a.b.jpg");
    assert_eq!(photo_file_name(Aspect::Original, "noext"), "edited-Orig-noext.jpg");
    assert_eq!(video_file_name("clip.mov"), "edited-clip.mp4");
    assert_eq!(overlay_name(0), "overlay-0.png");
    assert_eq!(overlay_name(120), "overlay-120.png");
}

#[test]
fn video_sizes() {
    let mut e = EditParams::default();
    e.rot90 = 1;
    e.crop = CropRect { x: f(0.0), y: f(0.0), w: f(0.5), h: f(1.0) };
    e.aspect = Aspect::Nine16;
    let s = video_export_dims(&e, 1920, 1080, (0, 0));
    assert_eq!((s.cw, s.ch, s.px_w, s.px_h, s.ew, s.eh), (1080, 1920, 540, 1920, 540, 960));
    assert!(video_crop_fits(&e, 1920, 1080, (0, 0)));
}

fn tail(audio: bool) -> Vec<&'static str> {
    let mut v = vec![
        "-c:v", "libx264", "-preset", "veryfast", "-crf", "22", "-pix_fmt", "yuv420p", "-movflags", "+faststart",
    ];
    if audio {
        v.extend(["-c:a", "aac"]);
    } else {
        v.push("-an");
    }
    v.push("pes-out.mp4");
    v
}

#[test]
fn plain_transcode() {
    let e = EditParams::default();
    let args = build_ffmpeg_args("in.mov", &e, 640, 480, &numbers(), &vec![]);
    let mut want = vec![
        "-i", "in.mov", "-vf",
        "scale=640:480:force_original_aspect_ratio=decrease,pad=640:480:(ow-iw)/2:(oh-ih)/2",
    ];
    want.extend(tail(true));
    assert_eq!(args, want);
}

#[test]
fn edited_transcode() {
    let mut e = EditParams::default();
    e.rot90 = 2;
    e.fine_angle = f(5.0);
    e.warmth = f(0.2);
    e.keep_audio = false;
    e.trim = Some((f(1.5), f(3.0)));
    e.crop = CropRect { x: f(0.0), y: f(0.0), w: f(0.5), h: f(0.5) };
    let overlays = vec!["o0".to_string(), "o1".to_string(), "o2".to_string()];
    let args = build_ffmpeg_args("in.mov", &e, 640, 480, &numbers(), &overlays);
    let graph = "[0:v]hflip,vflip,rotate=0.1:c=none:ow=rotw(iw):oh=roth(ih),crop=90:40,crop=45:20:0:0,\
        scale=45:20:force_original_aspect_ratio=decrease,pad=45:20:(ow-iw)/2:(oh-ih)/2,\
        eq=brightness=B:contrast=C:saturation=S,colorbalance=rs=W:rm=W:bs=K:bm=K[base];\
        [base][1:v]overlay=0:0[v0];[v0][2:v]overlay=0:0[v1];[v1][3:v]overlay=0:0";
    let mut want = vec![
        "-i", "in.mov", "-i", "o0", "-i", "o1", "-i", "o2", "-ss", "1.5", "-to", "3", "-filter_complex", graph,
    ];
    want.extend(tail(false));
    assert_eq!(args, want);
}

#[test]
fn video_is_cropped_at_its_working_size() {
    let mut e = EditParams::default();
    e.crop = CropRect { x: f(0.25), y: f(0.0), w: f(0.5), h: f(1.0) };
    let filters = &build_ffmpeg_args("a", &e, 1000, 1000, &numbers(), &vec![])[3];
    assert!(filters.starts_with("crop=500:1000:250:0,scale=500:1000:"), "{filters}");
}

#[test]
fn quarter_turns_and_faint_warmth() {
    let mut e = EditParams::default();
    e.rot90 = 3;
    e.warmth = f(0.01);
    let args = build_ffmpeg_args("a", &e, 64, 48, &numbers(), &vec![]);
    assert_eq!(
        args[3],
        "transpose=2,scale=48:64:force_original_aspect_ratio=decrease,pad=48:64:(ow-iw)/2:(oh-ih)/2,\
        eq=brightness=B:contrast=C:saturation=S"
    );
    e.rot90 = 1;
    assert!(build_ffmpeg_args("a", &e, 64, 48, &numbers(), &vec![])[3].starts_with("transpose=1,"));
}
