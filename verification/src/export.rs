//! Export: sizes, file names, and the arguments of a video transcode.
use crate::editor::is_straightened;
use crate::single::{from_int, is_below, over, scale_index, times, truncated, Single};
use crate::state::{Aspect, CropRect, EditParams};
use crate::text::{base_name, decimal, join};
use vstd::prelude::*;

verus! {

/// Size of an item after its quarter turns and straightening. `straight` is the
/// size that straightening leaves, and is used only where that happens.
pub open spec fn working_size(edit: EditParams, w: int, h: int, straight: (int, int)) -> (int, int) {
    if crate::editor::straightens(edit.fine_angle) {
        straight
    } else {
        crate::ops::turned_size(w, h, edit.rot90 as int)
    }
}

/// Size of an item after its quarter turns and straightening.
pub fn working_dims(edit: &EditParams, w: usize, h: usize, straight: (usize, usize)) -> (r: (usize, usize))
    ensures
        (r.0 as int, r.1 as int) == working_size(
            *edit,
            w as int,
            h as int,
            (straight.0 as int, straight.1 as int),
        ),
{
    if is_straightened(edit) {
        straight
    } else if edit.rot90 % 2 == 1 {
        (h, w)
    } else {
        (w, h)
    }
}

/// The pixels of an item after rotation with their size: turned by quarters,
/// and where it is straightened, what straightening made of that.
pub open spec fn arranged(
    edit: EditParams,
    pixels: Seq<u8>,
    w: int,
    h: int,
    straight: (int, int),
    straightened: Seq<u8>,
) -> (Seq<u8>, (int, int)) {
    if crate::editor::straightens(edit.fine_angle) {
        (straightened, straight)
    } else {
        (crate::ops::turned(pixels, w, h, edit.rot90 as int), crate::ops::turned_size(w, h, edit.rot90 as int))
    }
}

/// The size that is computed without pixels is that of the pixels after
/// rotation, and they fill it, whatever size straightening leaves.
pub proof fn working_size_is_that_of_the_pixels(
    edit: EditParams,
    w: int,
    h: int,
    pixels: Seq<u8>,
    straight: (int, int),
    straightened: Seq<u8>,
)
    requires
        0 <= w,
        0 <= h,
        pixels.len() == 4 * (w * h),
        crate::editor::straightens(edit.fine_angle) ==> straightened.len() == 4 * (straight.0 * straight.1),
    ensures
        working_size(edit, w, h, straight) == arranged(edit, pixels, w, h, straight, straightened).1,
        arranged(edit, pixels, w, h, straight, straightened).0.len() == 4 * (working_size(edit, w, h, straight).0
            * working_size(edit, w, h, straight).1),
{
    vstd::arithmetic::mul::lemma_mul_is_commutative(w, h);
}

/// Pixels of a side of a crop that starts at `from`: at least one, and inside
/// the image.
pub open spec fn crop_side(len: int, from: int, size: int) -> int {
    crate::pixels::min_of(crate::pixels::max_of(len, 1), size - from)
}

/// The crop in pixels: left, top, width and height.
pub open spec fn crop_pixels(crop: CropRect, w: int, h: int) -> (int, int, int, int) {
    let x = crate::single::scaled(crop.x, w);
    let y = crate::single::scaled(crop.y, h);
    (
        x,
        y,
        crop_side(crate::single::scaled(crop.w, w), x, w),
        crop_side(crate::single::scaled(crop.h, h), y, h),
    )
}

/// Whether a crop starts inside an image of this size.
pub open spec fn starts_inside(crop: CropRect, w: int, h: int) -> bool {
    crate::single::scaled(crop.x, w) <= w && crate::single::scaled(crop.y, h) <= h
}

/// The crop in pixels: left, top, width and height.
pub fn crop_px(crop: CropRect, w: usize, h: usize) -> (r: (usize, usize, usize, usize))
    requires
        starts_inside(crop, w as int, h as int),
    ensures
        (r.0 as int, r.1 as int, r.2 as int, r.3 as int) == crop_pixels(crop, w as int, h as int),
        r.0 + r.2 <= w,
        r.1 + r.3 <= h,
{
    let x: usize = scale_index(crop.x, w);
    let y: usize = scale_index(crop.y, h);
    let rw: usize = scale_index(crop.w, w);
    let rh: usize = scale_index(crop.h, h);
    let cw: usize = if rw < 1 { 1 } else { rw };
    let ch: usize = if rh < 1 { 1 } else { rh };
    (x, y, if cw < w - x { cw } else { w - x }, if ch < h - y { ch } else { h - y })
}

/// Whether a crop starts inside an image of this size.
pub fn crop_starts_inside(crop: CropRect, w: usize, h: usize) -> (r: bool)
    ensures
        r == starts_inside(crop, w as int, h as int),
{
    scale_index(crop.x, w) <= w && scale_index(crop.y, h) <= h
}

/// The full crop keeps every pixel.
pub proof fn full_crop_keeps_everything(w: int, h: int)
    requires
        1 <= w <= 0x100_0000,
        1 <= h <= 0x100_0000,
    ensures
        starts_inside(crate::state::full_crop(), w, h),
        crop_pixels(crate::state::full_crop(), w, h) == (0int, 0int, w, h),
{
    crate::single::whole_and_empty_shares(w);
    crate::single::whole_and_empty_shares(h);
}

/// Size of an image scaled down to a long edge, in single precision. Smaller
/// images stay.
pub open spec fn preview_pixels(w: int, h: int, long_edge: int) -> (int, int) {
    let longest = crate::pixels::max_of(w, h);
    let one = crate::single::rounded(1, 1);
    let scale = if longest == 0 {
        one
    } else {
        crate::state::smaller(
            crate::single::quotient(crate::single::rounded(long_edge, 1), crate::single::rounded(longest, 1)),
            one,
        )
    };
    (crate::state::fit_side(w, scale), crate::state::fit_side(h, scale))
}

/// Size of a preview with the given long edge.
pub fn preview_size(w: usize, h: usize, long_edge: u32) -> (r: (usize, usize))
    ensures
        (r.0 as int, r.1 as int) == preview_pixels(w as int, h as int, long_edge as int),
{
    let longest: usize = if w >= h { w } else { h };
    let one: Single = from_int(1);
    let scale: Single = if longest == 0 {
        one
    } else {
        let l: Single = from_int(longest as u64);
        proof {
            crate::single::lemma_rounded_positive(longest as int, 1);
        }
        let s: Single = over(from_int(long_edge as u64), l);
        if is_below(one, s) {
            one
        } else {
            s
        }
    };
    (truncated(times(from_int(w as u64), scale)), truncated(times(from_int(h as u64), scale)))
}

/// Size of an image scaled down to a long edge, with at least one pixel in each
/// direction.
pub fn downscaled_size(w: usize, h: usize, long_edge: u32) -> (r: (usize, usize))
    ensures
        r.0 == crate::pixels::max_of(preview_pixels(w as int, h as int, long_edge as int).0, 1),
        r.1 == crate::pixels::max_of(preview_pixels(w as int, h as int, long_edge as int).1, 1),
{
    let (pw, ph) = preview_size(w, h, long_edge);
    (if pw < 1 { 1 } else { pw }, if ph < 1 { 1 } else { ph })
}

/// The file name of an exported photo.
pub fn photo_file_name(aspect: Aspect, name: &str) -> (r: String)
    ensures
        r@ == "edited-"@ + aspect.name() + "-"@ + crate::text::stem(name@) + ".jpg"@,
{
    let mut out: String = "edited-".to_string();
    out.append(aspect.label());
    out.append("-");
    out.append(base_name(name).as_str());
    out.append(".jpg");
    out
}

/// The file name of an exported video.
pub fn video_file_name(name: &str) -> (r: String)
    ensures
        r@ == "edited-"@ + crate::text::stem(name@) + ".mp4"@,
{
    let mut out: String = "edited-".to_string();
    out.append(base_name(name).as_str());
    out.append(".mp4");
    out
}

/// The file name of the overlay of layer `i`.
pub fn overlay_name(i: usize) -> (r: String)
    ensures
        r@ == "overlay-"@ + crate::text::digits(i as int) + ".png"@,
{
    let mut out: String = "overlay-".to_string();
    out.append(decimal(i).as_str());
    out.append(".png");
    out
}

/// Sizes of a video export.
#[derive(Clone, Copy, Debug, PartialEq, Eq, Structural)]
pub struct VideoSize {
    /// Size after rotation.
    pub cw: usize,
    pub ch: usize,
    /// Size of the crop.
    pub px_w: usize,
    pub px_h: usize,
    /// Size of the export.
    pub ew: usize,
    pub eh: usize,
}

/// Whether `size` holds the sizes of a video export.
pub open spec fn is_video_size(edit: EditParams, w: int, h: int, straight: (int, int), size: VideoSize) -> bool {
    &&& (size.cw as int, size.ch as int) == working_size(edit, w, h, straight)
    &&& size.px_w == crop_pixels(edit.crop, size.cw as int, size.ch as int).2
    &&& size.px_h == crop_pixels(edit.crop, size.cw as int, size.ch as int).3
    &&& (size.ew as int, size.eh as int) == crate::state::export_size(edit.aspect, size.px_w as int, size.px_h as int)
}

/// Sizes of a video export.
pub fn video_export_dims(edit: &EditParams, w: usize, h: usize, straight: (usize, usize)) -> (size: VideoSize)
    requires
        starts_inside(
            edit.crop,
            working_size(*edit, w as int, h as int, (straight.0 as int, straight.1 as int)).0,
            working_size(*edit, w as int, h as int, (straight.0 as int, straight.1 as int)).1,
        ),
    ensures
        is_video_size(*edit, w as int, h as int, (straight.0 as int, straight.1 as int), size),
        size.px_w <= size.cw,
        size.px_h <= size.ch,
{
    let (cw, ch) = working_dims(edit, w, h, straight);
    let (_, _, px_w, px_h) = crop_px(edit.crop, cw, ch);
    let (ew, eh) = edit.aspect.export_dims(px_w, px_h);
    VideoSize { cw, ch, px_w, px_h, ew, eh }
}

/// Texts of the numbers that a transcode needs.
pub struct VideoNumbers {
    /// The straightening angle in radians.
    pub radians: String,
    /// Size that straightening leaves.
    pub straight: (usize, usize),
    /// Brightness, contrast and saturation of the color filter.
    pub brightness: String,
    pub contrast: String,
    pub saturation: String,
    /// How much red is added and blue is taken away.
    pub warmer: String,
    pub cooler: String,
    /// Start and end of the trim in seconds.
    pub start: String,
    pub end: String,
}

/// The filters of the quarter turns.
pub open spec fn turn_filters(rot90: int) -> Seq<Seq<char>> {
    if rot90 % 4 == 1 {
        seq!["transpose=1"@]
    } else if rot90 % 4 == 2 {
        seq!["hflip"@, "vflip"@]
    } else if rot90 % 4 == 3 {
        seq!["transpose=2"@]
    } else {
        Seq::empty()
    }
}

/// The filters that straighten.
pub open spec fn straighten_filters(edit: EditParams, numbers: VideoNumbers) -> Seq<Seq<char>> {
    if crate::editor::straightens(edit.fine_angle) {
        seq![
            "rotate="@ + numbers.radians@ + ":c=none:ow=rotw(iw):oh=roth(ih)"@,
            "crop="@ + crate::text::digits(numbers.straight.0 as int) + ":"@ + crate::text::digits(
                numbers.straight.1 as int,
            ),
        ]
    } else {
        Seq::empty()
    }
}

/// The filter that crops an image of the given size, unless it keeps all.
pub open spec fn crop_filters(crop: CropRect, w: int, h: int) -> Seq<Seq<char>> {
    let (x, y, cw, ch) = crop_pixels(crop, w, h);
    if cw != w || ch != h {
        seq![
            "crop="@ + crate::text::digits(cw) + ":"@ + crate::text::digits(ch) + ":"@ + crate::text::digits(x) + ":"@
                + crate::text::digits(y),
        ]
    } else {
        Seq::empty()
    }
}

/// The filter that scales and pads to the size of the export.
pub open spec fn scale_filter(ew: int, eh: int) -> Seq<char> {
    "scale="@ + crate::text::digits(ew) + ":"@ + crate::text::digits(eh)
        + ":force_original_aspect_ratio=decrease,pad="@ + crate::text::digits(ew) + ":"@ + crate::text::digits(eh)
        + ":(ow-iw)/2:(oh-ih)/2"@
}

/// Whether the warmth of an item is filtered: more than a hundredth.
pub open spec fn warms(edit: EditParams) -> bool {
    !edit.warmth.nan() && edit.warmth.magnitude() > 0x3c23_d70a
}

/// The filters of the color values.
pub open spec fn color_filters(edit: EditParams, numbers: VideoNumbers) -> Seq<Seq<char>> {
    if !edit.color_touched() {
        Seq::empty()
    } else {
        let eq = "eq=brightness="@ + numbers.brightness@ + ":contrast="@ + numbers.contrast@ + ":saturation="@
            + numbers.saturation@;
        if warms(edit) {
            seq![
                eq,
                "colorbalance=rs="@ + numbers.warmer@ + ":rm="@ + numbers.warmer@ + ":bs="@ + numbers.cooler@ + ":bm="@
                    + numbers.cooler@,
            ]
        } else {
            seq![eq]
        }
    }
}

/// All filters, in the order in which they are applied.
pub open spec fn filters_of(edit: EditParams, size: VideoSize, numbers: VideoNumbers) -> Seq<Seq<char>> {
    turn_filters(edit.rot90 as int) + straighten_filters(edit, numbers) + crop_filters(
        edit.crop,
        size.cw as int,
        size.ch as int,
    ) + seq![scale_filter(size.ew as int, size.eh as int)] + color_filters(edit, numbers)
}

/// The filters of a transcode.
fn video_filters(edit: &EditParams, size: &VideoSize, numbers: &VideoNumbers) -> (r: Vec<String>)
    requires
        starts_inside(edit.crop, size.cw as int, size.ch as int),
    ensures
        crate::text::texts(r@) == filters_of(*edit, *size, *numbers),
{
    let mut filters: Vec<String> = Vec::new();
    let t: u8 = edit.rot90 % 4;
    if t == 1 {
        filters.push("transpose=1".to_string());
    } else if t == 2 {
        filters.push("hflip".to_string());
        filters.push("vflip".to_string());
    } else if t == 3 {
        filters.push("transpose=2".to_string());
    }
    assert(crate::text::texts(filters@) =~= turn_filters(edit.rot90 as int));
    let ghost a = crate::text::texts(filters@);
    if is_straightened(edit) {
        let mut rotate: String = "rotate=".to_string();
        rotate.append(numbers.radians.as_str());
        rotate.append(":c=none:ow=rotw(iw):oh=roth(ih)");
        let mut crop: String = "crop=".to_string();
        crop.append(decimal(numbers.straight.0).as_str());
        crop.append(":");
        crop.append(decimal(numbers.straight.1).as_str());
        filters.push(rotate);
        filters.push(crop);
    }
    assert(crate::text::texts(filters@) =~= a + straighten_filters(*edit, *numbers));
    let ghost b = crate::text::texts(filters@);
    let (x, y, cw, ch) = crop_px(edit.crop, size.cw, size.ch);
    if cw != size.cw || ch != size.ch {
        let mut crop: String = "crop=".to_string();
        crop.append(decimal(cw).as_str());
        crop.append(":");
        crop.append(decimal(ch).as_str());
        crop.append(":");
        crop.append(decimal(x).as_str());
        crop.append(":");
        crop.append(decimal(y).as_str());
        filters.push(crop);
    }
    assert(crate::text::texts(filters@) =~= b + crop_filters(edit.crop, size.cw as int, size.ch as int));
    let ghost c = crate::text::texts(filters@);
    let mut scale: String = "scale=".to_string();
    scale.append(decimal(size.ew).as_str());
    scale.append(":");
    scale.append(decimal(size.eh).as_str());
    scale.append(":force_original_aspect_ratio=decrease,pad=");
    scale.append(decimal(size.ew).as_str());
    scale.append(":");
    scale.append(decimal(size.eh).as_str());
    scale.append(":(ow-iw)/2:(oh-ih)/2");
    filters.push(scale);
    assert(crate::text::texts(filters@) =~= c + seq![scale_filter(size.ew as int, size.eh as int)]);
    let ghost d = crate::text::texts(filters@);
    if edit.is_color_touched() {
        let mut eq: String = "eq=brightness=".to_string();
        eq.append(numbers.brightness.as_str());
        eq.append(":contrast=");
        eq.append(numbers.contrast.as_str());
        eq.append(":saturation=");
        eq.append(numbers.saturation.as_str());
        filters.push(eq);
        if !edit.warmth.is_nan() && edit.warmth.bits % 0x8000_0000 > 0x3c23_d70a {
            let mut balance: String = "colorbalance=rs=".to_string();
            balance.append(numbers.warmer.as_str());
            balance.append(":rm=");
            balance.append(numbers.warmer.as_str());
            balance.append(":bs=");
            balance.append(numbers.cooler.as_str());
            balance.append(":bm=");
            balance.append(numbers.cooler.as_str());
            filters.push(balance);
        }
    }
    assert(crate::text::texts(filters@) =~= d + color_filters(*edit, *numbers));
    filters
}

/// The input arguments of the first `k` overlays.
pub open spec fn overlay_inputs(overlays: Seq<Seq<char>>, k: int) -> Seq<Seq<char>>
    decreases k,
{
    if k <= 0 {
        Seq::empty()
    } else {
        overlay_inputs(overlays, k - 1) + seq!["-i"@, overlays[k - 1]]
    }
}

/// The name of the stream that overlay `i` is put on.
pub open spec fn stream_below(i: int) -> Seq<char> {
    if i == 0 {
        "base"@
    } else {
        "v"@ + crate::text::digits(i - 1)
    }
}

/// The step of the filter graph that puts on overlay `i` of `n`.
pub open spec fn overlay_step(i: int, n: int) -> Seq<char> {
    let step = "["@ + stream_below(i) + "]["@ + crate::text::digits(i + 1) + ":v]overlay=0:0"@;
    if i == n - 1 {
        step
    } else {
        step + "["@ + stream_below(i + 1) + "]"@
    }
}

/// The steps of the filter graph: the filters of the video, then each overlay.
pub open spec fn graph_steps(filters: Seq<char>, n: int, k: int) -> Seq<Seq<char>>
    decreases k,
{
    if k <= 0 {
        seq!["[0:v]"@ + filters + "[base]"@]
    } else {
        graph_steps(filters, n, k - 1).push(overlay_step(k - 1, n))
    }
}

/// The arguments with the filters: a plain list, or a graph with overlays.
pub open spec fn filter_args(filters: Seq<char>, n: int) -> Seq<Seq<char>> {
    if n == 0 {
        seq!["-vf"@, filters]
    } else {
        seq!["-filter_complex"@, crate::text::joined(graph_steps(filters, n, n), ";"@)]
    }
}

/// The arguments of the trim.
pub open spec fn trim_args(edit: EditParams, numbers: VideoNumbers) -> Seq<Seq<char>> {
    if edit.trim is Some {
        seq!["-ss"@, numbers.start@, "-to"@, numbers.end@]
    } else {
        Seq::empty()
    }
}

/// The arguments of the encoder.
pub open spec fn codec_args() -> Seq<Seq<char>> {
    seq![
        "-c:v"@,
        "libx264"@,
        "-preset"@,
        "veryfast"@,
        "-crf"@,
        "22"@,
        "-pix_fmt"@,
        "yuv420p"@,
        "-movflags"@,
        "+faststart"@,
    ]
}

/// The arguments of the audio track.
pub open spec fn audio_args(keep: bool) -> Seq<Seq<char>> {
    if keep {
        seq!["-c:a"@, "aac"@]
    } else {
        seq!["-an"@]
    }
}

/// All arguments of a transcode.
pub open spec fn transcode_args(
    name: Seq<char>,
    edit: EditParams,
    size: VideoSize,
    numbers: VideoNumbers,
    overlays: Seq<Seq<char>>,
) -> Seq<Seq<char>> {
    let n = overlays.len() as int;
    seq!["-i"@, name] + overlay_inputs(overlays, n) + trim_args(edit, numbers) + filter_args(
        crate::text::joined(filters_of(edit, size, numbers), ","@),
        n,
    ) + codec_args() + audio_args(edit.keep_audio) + seq!["pes-out.mp4"@]
}

/// The step of the filter graph that puts on overlay `i` of `n`.
fn graph_step(i: usize, n: usize) -> (r: String)
    requires
        i < n,
    ensures
        r@ == overlay_step(i as int, n as int),
{
    let mut step: String = "[".to_string();
    if i == 0 {
        step.append("base");
    } else {
        step.append("v");
        step.append(decimal(i - 1).as_str());
    }
    assert(step@ =~= "["@ + stream_below(i as int));
    step.append("][");
    step.append(decimal(i + 1).as_str());
    step.append(":v]overlay=0:0");
    if i != n - 1 {
        let ghost s = step@;
        step.append("[");
        step.append("v");
        step.append(decimal(i).as_str());
        step.append("]");
        assert(step@ =~= s + "["@ + ("v"@ + crate::text::digits(i as int)) + "]"@);
    }
    step
}

/// The arguments with the filters.
fn filter_list(filters: &str, n: usize) -> (r: (String, String))
    ensures
        seq![r.0@, r.1@] == filter_args(filters@, n as int),
{
    if n == 0 {
        return ("-vf".to_string(), filters.to_string());
    }
    let mut graph: Vec<String> = Vec::new();
    let mut first: String = "[0:v]".to_string();
    first.append(filters);
    first.append("[base]");
    graph.push(first);
    assert(crate::text::texts(graph@) =~= graph_steps(filters@, n as int, 0));
    let mut i: usize = 0;
    while i < n
        invariant
            i <= n,
            crate::text::texts(graph@) == graph_steps(filters@, n as int, i as int),
        decreases n - i,
    {
        let ghost before = crate::text::texts(graph@);
        graph.push(graph_step(i, n));
        assert(crate::text::texts(graph@) =~= before.push(overlay_step(i as int, n as int)));
        i = i + 1;
    }
    ("-filter_complex".to_string(), join(&graph, ";"))
}

/// Adds a text to a list.
fn put(list: &mut Vec<String>, text: &str)
    ensures
        crate::text::texts(final(list)@) == crate::text::texts(old(list)@).push(text@),
{
    let ghost before = crate::text::texts(list@);
    list.push(text.to_string());
    assert(crate::text::texts(list@) =~= before.push(text@));
}

/// Adds the inputs of the overlays.
fn put_inputs(args: &mut Vec<String>, overlays: &Vec<String>)
    ensures
        crate::text::texts(final(args)@) == crate::text::texts(old(args)@) + overlay_inputs(
            crate::text::texts(overlays@),
            overlays@.len() as int,
        ),
{
    let ghost all = crate::text::texts(overlays@);
    let ghost start = crate::text::texts(args@);
    let n: usize = overlays.len();
    assert(start =~= start + overlay_inputs(all, 0));
    let mut i: usize = 0;
    while i < n
        invariant
            i <= n,
            n == overlays.len(),
            all == crate::text::texts(overlays@),
            crate::text::texts(args@) == start + overlay_inputs(all, i as int),
        decreases n - i,
    {
        put(args, "-i");
        put(args, overlays[i].as_str());
        assert(crate::text::texts(args@) =~= start + overlay_inputs(all, i + 1));
        i = i + 1;
    }
}

/// Adds the trim.
fn put_trim(args: &mut Vec<String>, edit: &EditParams, numbers: &VideoNumbers)
    ensures
        crate::text::texts(final(args)@) == crate::text::texts(old(args)@) + trim_args(*edit, *numbers),
{
    let ghost start = crate::text::texts(args@);
    if edit.trim.is_some() {
        put(args, "-ss");
        put(args, numbers.start.as_str());
        put(args, "-to");
        put(args, numbers.end.as_str());
    }
    assert(crate::text::texts(args@) =~= start + trim_args(*edit, *numbers));
}

/// Adds the encoder.
fn put_codec(args: &mut Vec<String>)
    ensures
        crate::text::texts(final(args)@) == crate::text::texts(old(args)@) + codec_args(),
{
    let ghost start = crate::text::texts(args@);
    put(args, "-c:v");
    put(args, "libx264");
    put(args, "-preset");
    put(args, "veryfast");
    put(args, "-crf");
    put(args, "22");
    put(args, "-pix_fmt");
    put(args, "yuv420p");
    put(args, "-movflags");
    put(args, "+faststart");
    assert(crate::text::texts(args@) =~= start + codec_args());
}

/// Adds the audio track.
fn put_audio(args: &mut Vec<String>, keep: bool)
    ensures
        crate::text::texts(final(args)@) == crate::text::texts(old(args)@) + audio_args(keep),
{
    let ghost start = crate::text::texts(args@);
    if keep {
        put(args, "-c:a");
        put(args, "aac");
    } else {
        put(args, "-an");
    }
    assert(crate::text::texts(args@) =~= start + audio_args(keep));
}

/// The arguments of a transcode to the given sizes.
fn transcode_list(name: &str, edit: &EditParams, size: &VideoSize, numbers: &VideoNumbers, overlays: &Vec<String>) -> (args: Vec<String>)
    requires
        starts_inside(edit.crop, size.cw as int, size.ch as int),
    ensures
        crate::text::texts(args@) == transcode_args(name@, *edit, *size, *numbers, crate::text::texts(overlays@)),
{
    let filters: Vec<String> = video_filters(edit, size, numbers);
    let chain: String = join(&filters, ",");
    let mut args: Vec<String> = Vec::new();
    put(&mut args, "-i");
    put(&mut args, name);
    assert(crate::text::texts(args@) =~= seq!["-i"@, name@]);
    put_inputs(&mut args, overlays);
    put_trim(&mut args, edit, numbers);
    let ghost b = crate::text::texts(args@);
    let (flag, value) = filter_list(chain.as_str(), overlays.len());
    put(&mut args, flag.as_str());
    put(&mut args, value.as_str());
    assert(crate::text::texts(args@) =~= b + seq![flag@, value@]);
    put_codec(&mut args);
    put_audio(&mut args, edit.keep_audio);
    let ghost e = crate::text::texts(args@);
    put(&mut args, "pes-out.mp4");
    assert(crate::text::texts(args@) =~= e + seq!["pes-out.mp4"@]);
    args
}

/// Whether a video can be cropped: the crop starts inside the rotated video.
pub open spec fn crop_fits(edit: EditParams, w: int, h: int, straight: (int, int)) -> bool {
    let (cw, ch) = working_size(edit, w, h, straight);
    starts_inside(edit.crop, cw, ch)
}

/// Whether a video can be cropped.
pub fn video_crop_fits(edit: &EditParams, w: usize, h: usize, straight: (usize, usize)) -> (r: bool)
    ensures
        r == crop_fits(*edit, w as int, h as int, (straight.0 as int, straight.1 as int)),
{
    let (cw, ch) = working_dims(edit, w, h, straight);
    crop_starts_inside(edit.crop, cw, ch)
}

/// The arguments of the transcode of a video of the given size.
pub fn build_ffmpeg_args(name: &str, edit: &EditParams, w: usize, h: usize, numbers: &VideoNumbers, overlays: &Vec<String>) -> (args: Vec<String>)
    requires
        crop_fits(*edit, w as int, h as int, (numbers.straight.0 as int, numbers.straight.1 as int)),
    ensures
        forall|size: VideoSize|
            #[trigger] is_video_size(
                *edit,
                w as int,
                h as int,
                (numbers.straight.0 as int, numbers.straight.1 as int),
                size,
            ) ==> crate::text::texts(args@) == transcode_args(
                name@,
                *edit,
                size,
                *numbers,
                crate::text::texts(overlays@),
            ),
{
    let size: VideoSize = video_export_dims(edit, w, h, numbers.straight);
    transcode_list(name, edit, &size, numbers, overlays)
}

/// An audio track is either encoded or left out, and the output comes last.
pub proof fn audio_is_kept_or_stripped(
    name: Seq<char>,
    edit: EditParams,
    size: VideoSize,
    numbers: VideoNumbers,
    overlays: Seq<Seq<char>>,
)
    ensures
        transcode_args(name, edit, size, numbers, overlays).last() == "pes-out.mp4"@,
        edit.keep_audio ==> {
            let args = transcode_args(name, edit, size, numbers, overlays);
            args.len() >= 3 && args[args.len() - 3] == "-c:a"@ && args[args.len() - 2] == "aac"@
        },
        !edit.keep_audio ==> {
            let args = transcode_args(name, edit, size, numbers, overlays);
            args.len() >= 2 && args[args.len() - 2] == "-an"@
        },
{
}

/// The filters of a transcode come in this order: the quarter turns, then
/// straightening with the cut to what it leaves, then the crop to exactly its
/// rectangle wherever that has not the width or not the height of the rotated
/// video, then scaling and padding, and last the colors.
pub proof fn filters_come_in_order(edit: EditParams, size: VideoSize, numbers: VideoNumbers)
    ensures
        ({
            let f = filters_of(edit, size, numbers);
            let (x, y, cw, ch) = crop_pixels(edit.crop, size.cw as int, size.ch as int);
            let d = |n: int| crate::text::digits(n);
            let t: int = if edit.rot90 % 4 == 0 { 0 } else if edit.rot90 % 4 == 2 { 2 } else { 1 };
            let s: int = if crate::editor::straightens(edit.fine_angle) { t + 2 } else { t };
            let c: int = if cw != size.cw || ch != size.ch { s + 1 } else { s };
            let warm = edit.warmth.bits % 0x8000_0000 > 0x3c23_d70a && edit.warmth.bits % 0x8000_0000 <= 0x7f80_0000;
            &&& f.len() == c + 1 + if !edit.color_touched() { 0int } else if warm { 2 } else { 1 }
            &&& edit.rot90 % 4 == 1 ==> f[0] == "transpose=1"@
            &&& edit.rot90 % 4 == 2 ==> f[0] == "hflip"@ && f[1] == "vflip"@
            &&& edit.rot90 % 4 == 3 ==> f[0] == "transpose=2"@
            &&& s > t ==> f[t] == "rotate="@ + numbers.radians@ + ":c=none:ow=rotw(iw):oh=roth(ih)"@
            &&& s > t ==> f[t + 1] == "crop="@ + d(numbers.straight.0 as int) + ":"@ + d(numbers.straight.1 as int)
            &&& cw != size.cw || ch != size.ch ==> f[s] == "crop="@ + d(cw) + ":"@ + d(ch) + ":"@ + d(x) + ":"@ + d(y)
            &&& f[c] == "scale="@ + d(size.ew as int) + ":"@ + d(size.eh as int)
                + ":force_original_aspect_ratio=decrease,pad="@ + d(size.ew as int) + ":"@ + d(size.eh as int)
                + ":(ow-iw)/2:(oh-ih)/2"@
            &&& edit.color_touched() ==> f[c + 1] == "eq=brightness="@ + numbers.brightness@ + ":contrast="@
                + numbers.contrast@ + ":saturation="@ + numbers.saturation@
            &&& edit.color_touched() && warm ==> f[c + 2] == "colorbalance=rs="@ + numbers.warmer@ + ":rm="@
                + numbers.warmer@ + ":bs="@ + numbers.cooler@ + ":bm="@ + numbers.cooler@
        }),
{
    let (a, b, c) = (
        turn_filters(edit.rot90 as int),
        straighten_filters(edit, numbers),
        crop_filters(edit.crop, size.cw as int, size.ch as int),
    );
    let f = filters_of(edit, size, numbers);
    let e = color_filters(edit, numbers);
    assert(f.len() == a.len() + b.len() + c.len() + 1 + e.len());
    assert(forall|i: int| 0 <= i < a.len() ==> f[i] == a[i]);
    assert(forall|i: int| 0 <= i < b.len() ==> f[a.len() + i] == #[trigger] b[i]);
    assert(forall|i: int| 0 <= i < c.len() ==> f[a.len() + b.len() + i] == #[trigger] c[i]);
    assert(f[(a.len() + b.len() + c.len()) as int] == scale_filter(size.ew as int, size.eh as int));
    assert(forall|i: int| 0 <= i < e.len() ==> f[a.len() + b.len() + c.len() + 1 + i] == #[trigger] e[i]);
    let (k, l) = (a.len() as int, (a.len() + b.len()) as int);
    if crate::editor::straightens(edit.fine_angle) {
        assert(f[k + 0] == b[0] && f[k + 1] == b[1]);
    }
    if c.len() > 0 {
        assert(f[l + 0] == c[0]);
    }
    if edit.color_touched() {
        assert(f[l + c.len() + 1 + 0] == e[0]);
        if warms(edit) {
            assert(f[l + c.len() + 1 + 1] == e[1]);
        }
    }
}

/// The arguments of a transcode come in this order: the video and each overlay
/// as an input, the trim if there is one, the filters, which are a graph if and
/// only if there are overlays, the encoder, the audio track and the output.
#[verifier::rlimit(60)]
pub proof fn arguments_come_in_order(
    name: Seq<char>,
    edit: EditParams,
    size: VideoSize,
    numbers: VideoNumbers,
    overlays: Seq<Seq<char>>,
    i: int,
)
    ensures
        ({
            let args = transcode_args(name, edit, size, numbers, overlays);
            let n = overlays.len() as int;
            let chain = crate::text::joined(filters_of(edit, size, numbers), ","@);
            let t = 2 + 2 * n;
            let k: int = if edit.trim is Some { t + 4 } else { t };
            &&& args.len() == k + 12 + if edit.keep_audio { 3int } else { 2 }
            &&& args[0] == "-i"@ && args[1] == name
            &&& 0 <= i < n ==> args[2 + 2 * i] == "-i"@ && args[3 + 2 * i] == overlays[i]
            &&& edit.trim is Some ==> args[t] == "-ss"@ && args[t + 1] == numbers.start@ && args[t + 2] == "-to"@ && args[t
                + 3] == numbers.end@
            &&& n == 0 ==> args[k] == "-vf"@ && args[k + 1] == chain
            &&& n > 0 ==> args[k] == "-filter_complex"@ && args[k + 1] == crate::text::joined(
                graph_steps(chain, n, n),
                ";"@,
            )
            &&& args[k + 2] == "-c:v"@ && args[k + 3] == "libx264"@
            &&& args[k + 4] == "-preset"@ && args[k + 5] == "veryfast"@
            &&& args[k + 6] == "-crf"@ && args[k + 7] == "22"@
            &&& args[k + 8] == "-pix_fmt"@ && args[k + 9] == "yuv420p"@
            &&& args[k + 10] == "-movflags"@ && args[k + 11] == "+faststart"@
            &&& edit.keep_audio ==> args[k + 12] == "-c:a"@ && args[k + 13] == "aac"@ && args[k + 14] == "pes-out.mp4"@
            &&& !edit.keep_audio ==> args[k + 12] == "-an"@ && args[k + 13] == "pes-out.mp4"@
        }),
{
    let n = overlays.len() as int;
    let chain = crate::text::joined(filters_of(edit, size, numbers), ","@);
    let a = overlay_inputs(overlays, n);
    let b = trim_args(edit, numbers);
    let c = filter_args(chain, n);
    let d = codec_args();
    let e = audio_args(edit.keep_audio);
    let args = transcode_args(name, edit, size, numbers, overlays);
    lemma_overlay_inputs(overlays, n, 0);
    assert(args.len() == 2 + a.len() + b.len() + 2 + 10 + e.len() + 1);
    assert(forall|i: int| 0 <= i < a.len() ==> args[2 + i] == #[trigger] a[i]);
    if 0 <= i < n {
        lemma_overlay_inputs(overlays, n, i);
        assert(args[2 + 2 * i] == a[2 * i]);
        assert(args[3 + 2 * i] == a[2 * i + 1]);
    }
    let t: int = 2 + a.len() as int;
    assert(forall|i: int| 0 <= i < b.len() ==> args[t + i] == #[trigger] b[i]);
    if edit.trim is Some {
        assert(args[t + 0] == b[0] && args[t + 1] == b[1] && args[t + 2] == b[2] && args[t + 3] == b[3]);
    }
    let k: int = t + b.len() as int;
    assert(args[k as int] == c[0] && args[k + 1] == c[1]);
    assert(forall|i: int| 0 <= i < 10 ==> args[k + 2 + i] == #[trigger] d[i]);
    assert(args[k + 2 + 0] == d[0] && args[k + 2 + 1] == d[1] && args[k + 2 + 2] == d[2] && args[k + 2 + 3] == d[3]);
    assert(args[k + 2 + 4] == d[4] && args[k + 2 + 5] == d[5] && args[k + 2 + 6] == d[6] && args[k + 2 + 7] == d[7]);
    assert(args[k + 2 + 8] == d[8] && args[k + 2 + 9] == d[9]);
    assert(args[k + 12] == e[0]);
    if edit.keep_audio {
        assert(args[k + 13] == e[1]);
        assert(args[k + 14] == "pes-out.mp4"@);
    } else {
        assert(args[k + 13] == "pes-out.mp4"@);
    }
    assert(args[0] == seq!["-i"@, name][0] && args[1] == seq!["-i"@, name][1]);
    assert(a.len() == 2 * n);
    assert(c.len() == 2);
}

proof fn lemma_overlay_inputs(overlays: Seq<Seq<char>>, k: int, i: int)
    requires
        0 <= k <= overlays.len(),
    ensures
        overlay_inputs(overlays, k).len() == 2 * k,
        0 <= i < k ==> overlay_inputs(overlays, k)[2 * i] == "-i"@,
        0 <= i < k ==> overlay_inputs(overlays, k)[2 * i + 1] == overlays[i],
    decreases k,
{
    if k > 0 {
        lemma_overlay_inputs(overlays, k - 1, i);
        let before = overlay_inputs(overlays, k - 1);
        let two = seq!["-i"@, overlays[k - 1]];
        let all = overlay_inputs(overlays, k);
        assert(all == before + two);
        if 0 <= i < k - 1 {
            assert(all[2 * i] == before[2 * i]);
            assert(all[2 * i + 1] == before[2 * i + 1]);
        } else if i == k - 1 {
            assert(all[2 * i] == two[0]);
            assert(all[2 * i + 1] == two[1]);
        }
    }
}

/// The graph starts from the filtered video and puts on the overlays one by
/// one: each takes what the one before it made and the next input, and all but
/// the last name what they make.
pub proof fn overlays_are_stacked_in_order(filters: Seq<char>, n: int, i: int)
    requires
        0 <= i < n,
    ensures
        graph_steps(filters, n, n).len() == n + 1,
        graph_steps(filters, n, n)[0] == "[0:v]"@ + filters + "[base]"@,
        ({
            let d = |k: int| crate::text::digits(k);
            let below = if i == 0 { "base"@ } else { "v"@ + d(i - 1) };
            let step = "["@ + below + "]["@ + d(i + 1) + ":v]overlay=0:0"@;
            graph_steps(filters, n, n)[i + 1] == if i == n - 1 { step } else { step + "["@ + ("v"@ + d(i)) + "]"@ }
        }),
{
    lemma_graph_steps(filters, n, n, i);
}

proof fn lemma_graph_steps(filters: Seq<char>, n: int, k: int, i: int)
    requires
        0 <= i < n,
        0 <= k <= n,
    ensures
        graph_steps(filters, n, k).len() == k + 1,
        graph_steps(filters, n, k)[0] == "[0:v]"@ + filters + "[base]"@,
        i < k ==> graph_steps(filters, n, k)[i + 1] == overlay_step(i, n),
    decreases k,
{
    if k > 0 {
        lemma_graph_steps(filters, n, k - 1, i);
    }
}

/// The crop in pixels starts where its fractions say and stays in the image. It
/// has the size that they say wherever that fits, at least one pixel where there
/// is room for one, and else it ends at the edge.
pub proof fn crop_follows_its_fractions(crop: CropRect, w: int, h: int)
    requires
        starts_inside(crop, w, h),
    ensures
        ({
            let (x, y, cw, ch) = crop_pixels(crop, w, h);
            let (fw, fh) = (crate::single::scaled(crop.w, w), crate::single::scaled(crop.h, h));
            &&& x == crate::single::scaled(crop.x, w) && y == crate::single::scaled(crop.y, h)
            &&& x + cw <= w && y + ch <= h
            &&& 1 <= fw && x + fw <= w ==> cw == fw
            &&& 1 <= fh && y + fh <= h ==> ch == fh
            &&& x + fw > w ==> x + cw == w
            &&& y + fh > h ==> y + ch == h
            &&& x < w ==> 1 <= cw
            &&& y < h ==> 1 <= ch
            &&& fw <= 1 && x < w ==> cw == 1
            &&& fh <= 1 && y < h ==> ch == 1
        }),
{
}

/// A video is cropped at its size after rotation, and what is exported has the
/// size of the crop or of the preset.
pub proof fn video_sizes_follow_the_edit(
    edit: &EditParams,
    w: usize,
    h: usize,
    straight: (usize, usize),
    size: VideoSize,
)
    requires
        call_requires(video_export_dims, (edit, w, h, straight)),
        call_ensures(video_export_dims, (edit, w, h, straight), size),
    ensures
        crate::editor::straightens(edit.fine_angle) ==> (size.cw, size.ch) == straight,
        !crate::editor::straightens(edit.fine_angle) && edit.rot90 % 2 == 0 ==> size.cw == w && size.ch == h,
        !crate::editor::straightens(edit.fine_angle) && edit.rot90 % 2 == 1 ==> size.cw == h && size.ch == w,
        size.px_w == crop_pixels(edit.crop, size.cw as int, size.ch as int).2,
        size.px_h == crop_pixels(edit.crop, size.cw as int, size.ch as int).3,
        edit.aspect == Aspect::Original ==> size.ew == size.px_w && size.eh == size.px_h,
        size.ew <= size.px_w <= size.cw && size.eh <= size.px_h <= size.ch,
{
    crate::state::export_never_exceeds_source(edit.aspect, size.px_w as int, size.px_h as int);
}

/// A side `u` scaled by about `s / t`, of which it is not more than `t`, is at
/// most `s` and at most itself, and at least `u * s / t`, less two.
proof fn lemma_preview_side(t: int, u: int, s: int, scale: (int, int))
    requires
        1 <= u <= t < 0x40_0000,
        1 <= s < 0x40_0000,
        0 <= scale.0,
        -60 <= scale.1,
        0x100_0000 * (t * crate::single::scaled_value(scale)) <= 0x100_0001 * (s * crate::single::p2(200)),
        0x100_0000 * (t * crate::single::scaled_value(scale)) >= 0xff_ffff * (s * crate::single::p2(200)),
        crate::single::scaled_value(scale) <= crate::single::p2(200),
    ensures
        crate::state::fit_side(u, scale) <= s,
        crate::state::fit_side(u, scale) <= u,
        t * (crate::state::fit_side(u, scale) + 2) >= u * s,
{
    let p = crate::single::product(crate::single::rounded(u, 1), scale);
    let one = crate::single::p2(200);
    let v = crate::single::scaled_value(scale);
    let x = crate::single::scaled_value(p);
    vstd::arithmetic::power2::lemma_pow2_pos(200);
    crate::single::lemma_product_below(u, scale);
    crate::single::lemma_product_above(u, scale);
    crate::single::lemma_product_exponents(u, scale);
    assert(0 <= v) by (nonlinear_arith)
        requires
            0x100_0000 * (t * v) >= 0xff_ffff * (s * one),
            1 <= s,
            1 <= t,
            1 <= one,
    ;
    assert(u * v <= t * v) by (nonlinear_arith)
        requires
            0 <= v,
            u <= t,
    ;
    assert(x < (s + 1) * one) by (nonlinear_arith)
        requires
            0x100_0000 * x <= 0x100_0001 * (u * v),
            u * v <= t * v,
            0x100_0000 * (t * v) <= 0x100_0001 * (s * one),
            1 <= s < 0x40_0000,
            1 <= one,
    ;
    crate::single::lemma_whole_at_most(p, s);
    assert(x < (u + 1) * one) by (nonlinear_arith)
        requires
            0x100_0000 * x <= 0x100_0001 * (u * v),
            v <= one,
            1 <= u < 0x40_0000,
            1 <= one,
    ;
    crate::single::lemma_whole_at_most(p, u);
    let k = (u * s) / t - 1;
    vstd::arithmetic::div_mod::lemma_fundamental_div_mod(u * s, t);
    assert(u * s <= t * s) by (nonlinear_arith)
        requires
            u <= t,
            1 <= s,
    ;
    assert(k + 1 <= s) by (nonlinear_arith)
        requires
            t * (k + 1) <= u * s,
            u * s <= t * s,
            1 <= t,
    ;
    assert(k * one <= x) by {
        let d = u * s;
        assert(0x100_0000 * (0x100_0000 * (t * x)) >= 0xff_ffff * (0xff_ffff * (d * one))) by (nonlinear_arith)
            requires
                0x100_0000 * x >= 0xff_ffff * (u * v),
                0x100_0000 * (t * v) >= 0xff_ffff * (s * one),
                d == u * s,
                1 <= t,
                1 <= u,
        ;
        assert(t * x >= t * (k * one)) by (nonlinear_arith)
            requires
                0x100_0000 * (0x100_0000 * (t * x)) >= 0xff_ffff * (0xff_ffff * (d * one)),
                t * (k + 1) <= d <= t * s,
                1 <= s < 0x40_0000,
                1 <= t,
                1 <= one,
        ;
        assert(x >= k * one) by (nonlinear_arith)
            requires
                t * x >= t * (k * one),
                1 <= t,
        ;
    }
    crate::single::lemma_whole_at_least(p, k);
    let side = crate::state::fit_side(u, scale);
    assert(side >= k);
    assert(t * (side + 2) >= u * s) by (nonlinear_arith)
        requires
            side >= k,
            u * s < t * (k + 1) + t,
            1 <= t,
    ;
}

/// A side that single precision holds is its own whole part.
proof fn lemma_exact_side(n: int)
    requires
        1 <= n < 0x40_0000,
    ensures
        crate::single::whole(crate::single::rounded(n, 1)) == n,
{
    let z = crate::single::p2(200);
    vstd::arithmetic::power2::lemma_pow2_pos(200);
    crate::single::lemma_small_integers_are_exact(n);
    crate::single::lemma_integer_exponents(n);
    assert(n * z < (n + 1) * z) by (nonlinear_arith)
        requires
            1 <= z,
    ;
    crate::single::lemma_whole_at_most(crate::single::rounded(n, 1), n);
    crate::single::lemma_whole_at_least(crate::single::rounded(n, 1), n);
}

/// A preview is never larger than its image and never longer than its long
/// edge. An image that fits stays as it is; of any other, both sides are scaled
/// by the same number, which takes the longer one to the long edge. Each may
/// lose two pixels to rounding.
pub proof fn previews_fit_the_long_edge(w: int, h: int, long_edge: int)
    requires
        1 <= w < 0x40_0000,
        1 <= h < 0x40_0000,
        1 <= long_edge < 0x40_0000,
    ensures
        ({
            let (pw, ph) = preview_pixels(w, h, long_edge);
            let longest = if w >= h { w } else { h };
            &&& pw <= w && ph <= h
            &&& pw <= long_edge && ph <= long_edge
            &&& longest <= long_edge ==> pw == w && ph == h
            &&& longest > long_edge ==> longest * (pw + 2) >= w * long_edge && longest * (ph + 2) >= h * long_edge
        }),
{
    let t = crate::pixels::max_of(w, h);
    let s = long_edge;
    let one = crate::single::rounded(1, 1);
    let z = crate::single::p2(200);
    vstd::arithmetic::power2::lemma_pow2_pos(200);
    let (a, b) = (crate::single::rounded(s, 1), crate::single::rounded(t, 1));
    let q = crate::single::quotient(a, b);
    let scale = crate::state::smaller(q, one);
    crate::single::lemma_small_integers_are_exact(1);
    crate::single::lemma_small_integers_are_exact(t);
    crate::single::lemma_small_integers_are_exact(s);
    crate::single::lemma_integer_exponents(1);
    crate::single::lemma_integer_exponents(t);
    crate::single::lemma_integer_exponents(s);
    crate::single::lemma_quotient_exponent(a.0, b.0);
    crate::single::lemma_quotient_above(a, b);
    crate::single::lemma_quotient_below(a, b);
    crate::single::lemma_below_is_order(one, q);
    let x = crate::single::scaled_value(q);
    assert(0x100_0000 * (t * x) <= 0x100_0001 * (s * z) && 0x100_0000 * (t * x) >= 0xff_ffff * (s * z)) by (nonlinear_arith)
        requires
            0x100_0000 * ((t * z) * x) <= 0x100_0001 * ((s * z) * z),
            0x100_0000 * ((t * z) * x) >= 0xff_ffff * ((s * z) * z),
            1 <= z,
    ;
    if t <= s {
        crate::single::lemma_rounded_at_least(s, t);
        crate::single::lemma_quotient_from_one(a, b);
        if !crate::single::below(one, q) {
            crate::single::lemma_one_is_smallest(q);
        }
        assert(scale == one);
        crate::single::lemma_integer_exponents(w);
        crate::single::lemma_times_one(crate::single::rounded(w, 1));
        lemma_exact_side(w);
        crate::single::lemma_integer_exponents(h);
        crate::single::lemma_times_one(crate::single::rounded(h, 1));
        lemma_exact_side(h);
    } else {
        let v = crate::single::scaled_value(scale);
        if scale == one {
            assert(0x100_0000 * (t * v) <= 0x100_0001 * (s * z)) by (nonlinear_arith)
                requires
                    v == z,
                    v <= x,
                    0x100_0000 * (t * x) <= 0x100_0001 * (s * z),
                    1 <= t,
            ;
            assert(0x100_0000 * (t * v) >= 0xff_ffff * (s * z)) by (nonlinear_arith)
                requires
                    v == z,
                    s < t,
                    1 <= s,
                    1 <= z,
            ;
        }
        lemma_preview_side(t, w, s, scale);
        lemma_preview_side(t, h, s, scale);
    }
}

/// Wherever the crop has not the width or not the height of the rotated video,
/// the transcode cuts out exactly the rectangle of the crop right before it
/// scales, so that what is scaled has the size of the crop; and its filters are
/// the ones that the arguments hold.
pub proof fn videos_are_cropped_before_they_are_scaled(
    name: Seq<char>,
    edit: &EditParams,
    w: usize,
    h: usize,
    numbers: VideoNumbers,
    overlays: Seq<Seq<char>>,
    size: VideoSize,
)
    requires
        call_requires(video_export_dims, (edit, w, h, numbers.straight)),
        call_ensures(video_export_dims, (edit, w, h, numbers.straight), size),
    ensures
        ({
            let d = |n: int| crate::text::digits(n);
            let f = filters_of(*edit, size, numbers);
            let (x, y, cw, ch) = crop_pixels(edit.crop, size.cw as int, size.ch as int);
            let cut = "crop="@ + d(size.px_w as int) + ":"@ + d(size.px_h as int) + ":"@ + d(x) + ":"@ + d(y);
            let scale = "scale="@ + d(size.ew as int) + ":"@ + d(size.eh as int)
                + ":force_original_aspect_ratio=decrease,pad="@ + d(size.ew as int) + ":"@ + d(size.eh as int)
                + ":(ow-iw)/2:(oh-ih)/2"@;
            &&& size.px_w != size.cw || size.px_h != size.ch ==> exists|i: int|
                0 <= i < f.len() - 1 && #[trigger] f[i] == cut && f[i + 1] == scale
            &&& f.contains(scale)
            &&& overlays.len() == 0 && edit.trim is None ==> {
                let args = transcode_args(name, *edit, size, numbers, overlays);
                args[2] == "-vf"@ && args[3] == crate::text::joined(f, ","@)
            }
        }),
{
    filters_come_in_order(*edit, size, numbers);
    arguments_come_in_order(name, *edit, size, numbers, overlays, 0);
    let d = |n: int| crate::text::digits(n);
    let f = filters_of(*edit, size, numbers);
    let (x, y, cw, ch) = crop_pixels(edit.crop, size.cw as int, size.ch as int);
    let t: int = if edit.rot90 % 4 == 0 { 0 } else if edit.rot90 % 4 == 2 { 2 } else { 1 };
    let s: int = if crate::editor::straightens(edit.fine_angle) { t + 2 } else { t };
    let c: int = if cw != size.cw || ch != size.ch { s + 1 } else { s };
    let cut = "crop="@ + d(size.px_w as int) + ":"@ + d(size.px_h as int) + ":"@ + d(x) + ":"@ + d(y);
    if size.px_w != size.cw || size.px_h != size.ch {
        assert(f[s] == cut);
    }
    assert(f.contains(f[c]));
}

} // verus!
