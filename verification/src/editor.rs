//! What the editor decides: which item is current, what a press means, and how
//! edits change.
use crate::curves::{CurvePoint, CurvesSettings};
use crate::number::F32;
use crate::state::{Aspect, CropRect, EditParams, LayerKind, MediaItem, SelectTool, Tool};
use vstd::prelude::*;

verus! {

/// Whether `i` is the first item with this id.
pub open spec fn is_item_at(items: Seq<MediaItem>, id: usize, i: int) -> bool {
    &&& 0 <= i < items.len()
    &&& items[i].id == id
    &&& forall|j: int| 0 <= j < i ==> (#[trigger] items[j]).id != id
}

/// The position of the selected item.
pub fn current_index(items: &Vec<MediaItem>, selected: Option<usize>) -> (r: Option<usize>)
    ensures
        match r {
            Some(i) => selected is Some && is_item_at(items@, selected->0, i as int),
            None => selected is Some ==> forall|j: int|
                0 <= j < items@.len() ==> (#[trigger] items@[j]).id != selected->0,
        },
{
    let id: usize = match selected {
        Some(id) => id,
        None => {
            return None;
        },
    };
    let mut i: usize = 0;
    while i < items.len()
        invariant
            i <= items.len(),
            selected == Some(id),
            forall|j: int| 0 <= j < i ==> (#[trigger] items@[j]).id != id,
        decreases items.len() - i,
    {
        if items[i].id == id {
            return Some(i);
        }
        i = i + 1;
    }
    None
}

/// Adds an item and returns what is selected then: the item, if nothing was.
pub fn push_item(items: &mut Vec<MediaItem>, selected: Option<usize>, item: MediaItem) -> (r: Option<usize>)
    ensures
        final(items)@ == old(items)@.push(item),
        r == (if selected is None {
            Some(item.id)
        } else {
            selected
        }),
{
    let id: usize = item.id;
    items.push(item);
    match selected {
        None => Some(id),
        Some(s) => Some(s),
    }
}

/// Turns the item clockwise; the crop starts over.
pub fn rotate_right(edit: &mut EditParams)
    ensures
        *final(edit) == (EditParams {
            rot90: ((old(edit).rot90 + 1) % 4) as u8,
            crop: crate::state::full_crop(),
            ..*old(edit)
        }),
{
    edit.rot90 = (edit.rot90 % 4 + 1) % 4;
    edit.crop = CropRect::default();
}

/// Turns the item counterclockwise; the crop starts over.
pub fn rotate_left(edit: &mut EditParams)
    ensures
        *final(edit) == (EditParams {
            rot90: ((old(edit).rot90 + 3) % 4) as u8,
            crop: crate::state::full_crop(),
            ..*old(edit)
        }),
{
    edit.rot90 = (edit.rot90 % 4 + 3) % 4;
    edit.crop = CropRect::default();
}

/// A turn to the right and one to the left cancel out.
pub proof fn opposite_turns_cancel(rot90: int)
    requires
        0 <= rot90 < 4,
    ensures
        ((rot90 + 1) % 4 + 3) % 4 == rot90,
        ((rot90 + 3) % 4 + 1) % 4 == rot90,
{
}

/// Undoes all rotation.
pub fn reset_rotation(edit: &mut EditParams)
    ensures
        *final(edit) == (EditParams { rot90: 0, fine_angle: (F32 { bits: 0 }), ..*old(edit) }),
{
    edit.fine_angle = F32 { bits: 0 };
    edit.rot90 = 0;
}

/// Sets the color values back to zero.
pub fn reset_color(edit: &mut EditParams)
    ensures
        *final(edit) == (EditParams {
            brightness: (F32 { bits: 0 }),
            contrast: (F32 { bits: 0 }),
            saturation: (F32 { bits: 0 }),
            warmth: (F32 { bits: 0 }),
            ..*old(edit)
        }),
        !final(edit).color_touched(),
{
    let zero: F32 = F32 { bits: 0 };
    edit.brightness = zero;
    edit.contrast = zero;
    edit.saturation = zero;
    edit.warmth = zero;
}

/// After the pixels of a photo were replaced by its edited ones, rotation,
/// crop and selection start over.
pub fn reset_geometry(edit: &mut EditParams)
    ensures
        *final(edit) == (EditParams {
            rot90: 0,
            fine_angle: (F32 { bits: 0 }),
            crop: crate::state::full_crop(),
            selection: None,
            ..*old(edit)
        }),
{
    edit.rot90 = 0;
    edit.fine_angle = F32 { bits: 0 };
    edit.crop = CropRect::default();
    edit.selection = None;
}

/// Chooses a preset, with the crop that goes with it.
pub fn set_aspect(edit: &mut EditParams, aspect: Aspect, crop: CropRect)
    ensures
        *final(edit) == (EditParams { aspect, crop, ..*old(edit) }),
{
    edit.aspect = aspect;
    edit.crop = crop;
}

/// Whether an item is straightened: by more than a hundredth of a degree.
pub open spec fn straightens(angle: F32) -> bool {
    !angle.nan() && angle.magnitude() > 0x3c23_d70a
}

/// Whether an item is straightened.
pub fn is_straightened(edit: &EditParams) -> (r: bool)
    ensures
        r == straightens(edit.fine_angle),
{
    !edit.fine_angle.is_nan() && edit.fine_angle.bits % 0x8000_0000 > 0x3c23_d70a
}

/// Copies curves.
fn copy_curves(curves: &CurvesSettings) -> (r: CurvesSettings)
    ensures
        same_curves(r, *curves),
{
    let a: Vec<CurvePoint> = curves.channels[0].clone();
    let b: Vec<CurvePoint> = curves.channels[1].clone();
    let c: Vec<CurvePoint> = curves.channels[2].clone();
    let d: Vec<CurvePoint> = curves.channels[3].clone();
    assert(a@ =~= curves.channels[0]@);
    assert(b@ =~= curves.channels[1]@);
    assert(c@ =~= curves.channels[2]@);
    assert(d@ =~= curves.channels[3]@);
    CurvesSettings { channels: [a, b, c, d] }
}

/// Whether curves have the same points.
pub open spec fn same_curves(a: CurvesSettings, b: CurvesSettings) -> bool {
    forall|c: int| 0 <= c < 4 ==> (#[trigger] a.channels[c])@ == b.channels[c]@
}

/// Whether `after` is `before` with the preset, rotation and color values of
/// `from`, and with the crop. Selection, trim and audio stay.
pub open spec fn takes_edits(before: EditParams, after: EditParams, from: EditParams, crop: CropRect) -> bool {
    &&& after.aspect == from.aspect
    &&& after.crop == crop
    &&& after.rot90 == from.rot90
    &&& after.fine_angle == from.fine_angle
    &&& after.brightness == from.brightness
    &&& after.contrast == from.contrast
    &&& after.saturation == from.saturation
    &&& after.warmth == from.warmth
    &&& after.blur == from.blur
    &&& after.levels == from.levels
    &&& same_curves(after.curves, from.curves)
    &&& after.grain == from.grain
    &&& after.grain_gaussian == from.grain_gaussian
    &&& after.grain_mono == from.grain_mono
    &&& after.selection == before.selection
    &&& after.trim == before.trim
    &&& after.keep_audio == before.keep_audio
}

/// Whether two items differ at most in their edits.
pub open spec fn same_but_edit(a: MediaItem, b: MediaItem) -> bool {
    &&& a.id == b.id && a.kind == b.kind
    &&& a.name == b.name && a.object_url == b.object_url
    &&& a.width == b.width && a.height == b.height
    &&& a.layers == b.layers && a.next_layer_id == b.next_layer_id
}

/// Applies the edits of one item to all others. Each gets the crop that is given
/// for it, centered on that item.
pub fn apply_to_all(items: &mut Vec<MediaItem>, current: usize, crops: &Vec<CropRect>)
    requires
        current < old(items)@.len(),
        crops@.len() == old(items)@.len(),
    ensures
        final(items)@.len() == old(items)@.len(),
        forall|i: int|
            0 <= i < old(items)@.len() ==> same_but_edit(#[trigger] final(items)@[i], old(items)@[i]),
        forall|i: int|
            0 <= i < old(items)@.len() && old(items)@[i].id != old(items)@[current as int].id ==> takes_edits(
                old(items)@[i].edit,
                #[trigger] final(items)@[i].edit,
                old(items)@[current as int].edit,
                crops@[i],
            ),
        forall|i: int|
            0 <= i < old(items)@.len() && old(items)@[i].id == old(items)@[current as int].id
                ==> #[trigger] final(items)@[i] == old(items)@[i],
{
    let ghost before = items@;
    let ghost cur = items@[current as int];
    let id: usize = items[current].id;
    let n: usize = items.len();
    let mut i: usize = 0;
    while i < n
        invariant
            i <= n,
            n == items@.len(),
            n == before.len(),
            n == crops@.len(),
            current < n,
            cur == before[current as int],
            id == cur.id,
            items@[current as int] == cur,
            forall|k: int| 0 <= k < n ==> same_but_edit(#[trigger] items@[k], before[k]),
            forall|k: int|
                0 <= k < i && before[k].id != id ==> takes_edits(
                    before[k].edit,
                    #[trigger] items@[k].edit,
                    cur.edit,
                    crops@[k],
                ),
            forall|k: int|
                0 <= k < i && before[k].id == id ==> #[trigger] items@[k] == before[k],
            forall|k: int| i <= k < n ==> #[trigger] items@[k] == before[k],
        decreases n - i,
    {
        if items[i].id != id {
            let curves: CurvesSettings = copy_curves(&items[current].edit.curves);
            let aspect: Aspect = items[current].edit.aspect;
            let rot90: u8 = items[current].edit.rot90;
            let fine_angle: F32 = items[current].edit.fine_angle;
            let brightness: F32 = items[current].edit.brightness;
            let contrast: F32 = items[current].edit.contrast;
            let saturation: F32 = items[current].edit.saturation;
            let warmth: F32 = items[current].edit.warmth;
            let blur: F32 = items[current].edit.blur;
            let levels: crate::levels::LevelsSettings = items[current].edit.levels;
            let grain: F32 = items[current].edit.grain;
            let grain_gaussian: bool = items[current].edit.grain_gaussian;
            let grain_mono: bool = items[current].edit.grain_mono;
            let crop: CropRect = crops[i];
            let edit: &mut EditParams = &mut items[i].edit;
            edit.curves = curves;
            edit.aspect = aspect;
            edit.crop = crop;
            edit.rot90 = rot90;
            edit.fine_angle = fine_angle;
            edit.brightness = brightness;
            edit.contrast = contrast;
            edit.saturation = saturation;
            edit.warmth = warmth;
            edit.blur = blur;
            edit.levels = levels;
            edit.grain = grain;
            edit.grain_gaussian = grain_gaussian;
            edit.grain_mono = grain_mono;
        }
        i = i + 1;
    }
}

/// Tabs of the editor.
#[derive(Clone, Copy, PartialEq, Eq, Structural, Debug)]
pub enum Tab {
    Crop,
    Rotate,
    Color,
    Select,
    Heal,
    Clone,
    Layers,
    Trim,
    Export,
}

/// What a press on the photo starts.
#[derive(Clone, Copy, PartialEq, Eq, Structural, Debug)]
pub enum Press {
    /// Nothing.
    Ignore,
    /// Sets the point that the clone stamp copies from.
    PickSource,
    /// A stroke of the clone stamp.
    StartClone,
    /// A stroke of the healing brush.
    StartHeal,
    /// A rectangle selection.
    StartRect,
    /// A polygon selection.
    StartLasso,
    /// Selects with the wand.
    Wand,
    /// Drags the selected text layer.
    DragText,
    /// The pen, on the selected path layer.
    Pen,
    /// A stroke on the selected brush layer.
    StartStroke,
}

/// Kinds of layers.
#[derive(Clone, Copy, PartialEq, Eq, Structural, Debug)]
pub enum LayerType {
    Text,
    Path,
    Brush,
    Raster,
}

/// The kind of a layer.
pub fn layer_type(kind: &LayerKind) -> (r: LayerType)
    ensures
        r == match *kind {
            LayerKind::Text(_) => LayerType::Text,
            LayerKind::Path(_) => LayerType::Path,
            LayerKind::Brush(_) => LayerType::Brush,
            LayerKind::Raster(_) => LayerType::Raster,
        },
{
    match kind {
        LayerKind::Text(_) => LayerType::Text,
        LayerKind::Path(_) => LayerType::Path,
        LayerKind::Brush(_) => LayerType::Brush,
        LayerKind::Raster(_) => LayerType::Raster,
    }
}

/// What a press starts on each tab.
pub open spec fn press_of(
    tab: Tab,
    photo: bool,
    pick: bool,
    has_source: bool,
    select_tool: SelectTool,
    tool: Tool,
    layer: Option<LayerType>,
) -> Press {
    match tab {
        Tab::Clone => if !photo {
            Press::Ignore
        } else if pick {
            Press::PickSource
        } else if has_source {
            Press::StartClone
        } else {
            Press::Ignore
        },
        Tab::Heal => if photo {
            Press::StartHeal
        } else {
            Press::Ignore
        },
        Tab::Select => match select_tool {
            SelectTool::Rect => Press::StartRect,
            SelectTool::Lasso => Press::StartLasso,
            SelectTool::Wand => Press::Wand,
        },
        Tab::Layers => match (tool, layer) {
            (Tool::Select, Some(LayerType::Text)) => Press::DragText,
            (Tool::Pen, Some(LayerType::Path)) => Press::Pen,
            (Tool::Brush, Some(LayerType::Brush)) => Press::StartStroke,
            _ => Press::Ignore,
        },
        _ => Press::Ignore,
    }
}

/// What a press on the photo starts. `pick` is whether a clone source is to be
/// set, and `layer` is the kind of the selected layer.
pub fn press(
    tab: Tab,
    photo: bool,
    pick: bool,
    has_source: bool,
    select_tool: SelectTool,
    tool: Tool,
    layer: Option<LayerType>,
) -> (r: Press)
    ensures
        r == press_of(tab, photo, pick, has_source, select_tool, tool, layer),
{
    match tab {
        Tab::Clone => if !photo {
            Press::Ignore
        } else if pick {
            Press::PickSource
        } else if has_source {
            Press::StartClone
        } else {
            Press::Ignore
        },
        Tab::Heal => if photo {
            Press::StartHeal
        } else {
            Press::Ignore
        },
        Tab::Select => match select_tool {
            SelectTool::Rect => Press::StartRect,
            SelectTool::Lasso => Press::StartLasso,
            SelectTool::Wand => Press::Wand,
        },
        Tab::Layers => match (tool, layer) {
            (Tool::Select, Some(LayerType::Text)) => Press::DragText,
            (Tool::Pen, Some(LayerType::Path)) => Press::Pen,
            (Tool::Brush, Some(LayerType::Brush)) => Press::StartStroke,
            _ => Press::Ignore,
        },
        _ => Press::Ignore,
    }
}

/// The offset of a clone stroke, and the offset that is kept. Aligned strokes
/// keep the offset of the first one; others use a fresh one each time.
pub fn stroke_offset(aligned: bool, kept: Option<(F32, F32)>, fresh: (F32, F32)) -> (r: ((F32, F32), Option<(F32, F32)>))
    ensures
        r == (if !aligned {
            (fresh, kept)
        } else if kept is Some {
            (kept->0, kept)
        } else {
            (fresh, Some(fresh))
        }),
{
    if !aligned {
        return (fresh, kept);
    }
    match kept {
        Some(offset) => (offset, kept),
        None => (fresh, Some(fresh)),
    }
}

/// The start of a trim: at most `latest`, and not negative.
pub open spec fn trim_start_of(v: F32, latest: F32) -> F32 {
    let capped = if latest.key() < v.key() { latest } else { v };
    if capped.key() < 0 {
        F32 { bits: 0 }
    } else {
        capped
    }
}

/// Moves the start of a trim. `latest` is a tenth of a second before the end.
pub fn trim_start(v: F32, latest: F32) -> (r: F32)
    ensures
        r == trim_start_of(v, latest),
        0 <= r.key(),
        0 <= latest.key() ==> r.key() <= latest.key(),
{
    let capped: F32 = if latest.order() < v.order() { latest } else { v };
    if capped.order() < 0 {
        F32 { bits: 0 }
    } else {
        capped
    }
}

/// Moves the end of a trim. `earliest` is a tenth of a second after the start.
pub fn trim_end(v: F32, earliest: F32) -> (r: F32)
    ensures
        r == (if v.key() < earliest.key() {
            earliest
        } else {
            v
        }),
        earliest.key() <= r.key(),
{
    if v.order() < earliest.order() {
        earliest
    } else {
        v
    }
}

/// Whether a list holds a text.
pub open spec fn lists(fonts: Seq<String>, family: Seq<char>) -> bool {
    exists|i: int| 0 <= i < fonts.len() && (#[trigger] fonts[i])@ == family
}

/// Adds a font family to the list, unless it is there.
pub fn add_font(fonts: &mut Vec<String>, family: String)
    ensures
        lists(old(fonts)@, family@) ==> final(fonts)@ == old(fonts)@,
        !lists(old(fonts)@, family@) ==> final(fonts)@ == old(fonts)@.push(family),
        lists(final(fonts)@, family@),
{
    let mut i: usize = 0;
    while i < fonts.len()
        invariant
            i <= fonts.len(),
            fonts@ == old(fonts)@,
            forall|j: int| 0 <= j < i ==> (#[trigger] fonts@[j])@ != family@,
        decreases fonts.len() - i,
    {
        if fonts[i] == family {
            assert(fonts@[i as int]@ == family@);
            return;
        }
        i = i + 1;
    }
    let ghost n = fonts@.len() as int;
    fonts.push(family);
    assert(fonts@[n]@ == family@);
}

/// The family name of an uploaded font file.
pub fn font_family_name(file_name: &str) -> (r: String)
    ensures
        r@ == "custom-"@ + crate::text::hyphenated(crate::text::stem(file_name@)),
{
    let base: String = crate::text::base_name(file_name);
    let mut family: String = "custom-".to_string();
    family.append(crate::text::hyphenate(base.as_str()).as_str());
    family
}

/// What kind of file is imported, and how.
#[derive(Clone, Copy, PartialEq, Eq, Structural, Debug)]
pub enum FileKind {
    Video,
    Raw,
    Heic,
    Photo,
}

/// Whether a lowercase media type and file name are those of a HEIC photo.
pub open spec fn heic_lowercase(media_type: Seq<char>, name: Seq<char>) -> bool {
    ||| crate::text::holds(media_type, "heic"@)
    ||| crate::text::holds(media_type, "heif"@)
    ||| crate::text::ends_with(name, ".heic"@)
    ||| crate::text::ends_with(name, ".heif"@)
}

/// Whether a lowercase media type and file name are those of a HEIC photo.
pub fn is_heic_lowercase(media_type: &str, name: &str) -> (r: bool)
    ensures
        r == heic_lowercase(media_type@, name@),
{
    crate::text::has_part(media_type, "heic") || crate::text::has_part(media_type, "heif") || crate::text::has_suffix(
        name,
        ".heic",
    ) || crate::text::has_suffix(name, ".heif")
}

/// Whether a file is a HEIC photo, by its media type or its name.
pub fn is_heic(media_type: &str, name: &str) -> (r: bool)
    ensures
        r == heic_lowercase(crate::text::lowercase(media_type@), crate::text::lowercase(name@)),
        crate::text::all_ascii(media_type@) && crate::text::all_ascii(name@) ==> r == heic_lowercase(
            crate::text::ascii_lowercase(media_type@),
            crate::text::ascii_lowercase(name@),
        ),
{
    let t: String = crate::text::to_lowercase(media_type);
    let n: String = crate::text::to_lowercase(name);
    is_heic_lowercase(t.as_str(), n.as_str())
}

/// The kind of a file from its media type, and from its media type and name in
/// lower case.
pub open spec fn file_kind_of(media_type: Seq<char>, lower_type: Seq<char>, lower_name: Seq<char>) -> FileKind {
    if crate::text::begins_with(media_type, "video/"@) {
        FileKind::Video
    } else if crate::raw::has_raw_extension(lower_name) {
        FileKind::Raw
    } else if heic_lowercase(lower_type, lower_name) {
        FileKind::Heic
    } else {
        FileKind::Photo
    }
}

/// How a file is imported: as a video by its media type, as a RAW photo by its
/// name, as a HEIC photo by either, and else as a photo.
pub fn file_kind(media_type: &str, name: &str) -> (r: FileKind)
    ensures
        r == file_kind_of(
            media_type@,
            crate::text::lowercase(media_type@),
            crate::text::lowercase(name@),
        ),
        crate::text::all_ascii(media_type@) && crate::text::all_ascii(name@) ==> r == file_kind_of(
            media_type@,
            crate::text::ascii_lowercase(media_type@),
            crate::text::ascii_lowercase(name@),
        ),
{
    if crate::text::has_prefix(media_type, "video/") {
        FileKind::Video
    } else if crate::raw::is_raw_name(name) {
        FileKind::Raw
    } else if is_heic(media_type, name) {
        FileKind::Heic
    } else {
        FileKind::Photo
    }
}

/// An item is straightened by more than a hundredth of a degree in either
/// direction, which has this bit pattern.
pub proof fn small_angles_do_not_straighten(angle: F32)
    ensures
        straightens(angle) <==> 0x3c23_d70a < angle.bits <= 0x7f80_0000 || 0xbc23_d70a < angle.bits <= 0xff80_0000,
{
}

/// Edits that were taken over are those of the other item: its preset, its
/// rotation, all of its color values, its blur, its levels, its curves and its
/// grain. The crop is the one that was given, and selection, trim and audio are
/// the item's own.
pub proof fn taken_edits_are_those_of_the_other(before: EditParams, after: EditParams, from: EditParams, crop: CropRect, c: int)
    requires
        takes_edits(before, after, from, crop),
        0 <= c < 4,
    ensures
        after.aspect == from.aspect && after.crop == crop,
        after.rot90 == from.rot90 && after.fine_angle == from.fine_angle,
        after.brightness == from.brightness && after.contrast == from.contrast,
        after.saturation == from.saturation && after.warmth == from.warmth,
        after.blur == from.blur,
        after.levels == from.levels,
        after.curves.channels[c]@ == from.curves.channels[c]@,
        after.grain == from.grain && after.grain_gaussian == from.grain_gaussian && after.grain_mono == from.grain_mono,
        after.selection == before.selection && after.trim == before.trim && after.keep_audio == before.keep_audio,
        after.color_touched() == from.color_touched(),
{
    assert(after.curves.channels[c]@ == from.curves.channels[c]@);
}

/// Items that differ only in their edits share all the rest.
pub proof fn batch_edits_keep_the_rest(a: MediaItem, b: MediaItem)
    requires
        same_but_edit(a, b),
    ensures
        a.id == b.id && a.kind == b.kind && a.name == b.name && a.object_url == b.object_url,
        a.width == b.width && a.height == b.height && a.layers == b.layers && a.next_layer_id == b.next_layer_id,
{
}

/// A press clones only on a photo and from a source, sets the source wherever
/// that is asked for, heals only on a photo, selects with the chosen tool, and
/// draws only with the tool that goes with the selected layer. Every other press
/// does nothing.
pub proof fn presses_follow_the_tab(
    tab: Tab,
    photo: bool,
    pick: bool,
    has_source: bool,
    select_tool: SelectTool,
    tool: Tool,
    layer: Option<LayerType>,
    r: Press,
)
    requires
        call_ensures(press, (tab, photo, pick, has_source, select_tool, tool, layer), r),
    ensures
        r == Press::PickSource <==> tab == Tab::Clone && photo && pick,
        r == Press::StartClone <==> tab == Tab::Clone && photo && !pick && has_source,
        r == Press::StartHeal <==> tab == Tab::Heal && photo,
        r == Press::StartRect <==> tab == Tab::Select && select_tool == SelectTool::Rect,
        r == Press::StartLasso <==> tab == Tab::Select && select_tool == SelectTool::Lasso,
        r == Press::Wand <==> tab == Tab::Select && select_tool == SelectTool::Wand,
        r == Press::DragText <==> tab == Tab::Layers && tool == Tool::Select && layer == Some(LayerType::Text),
        r == Press::Pen <==> tab == Tab::Layers && tool == Tool::Pen && layer == Some(LayerType::Path),
        r == Press::StartStroke <==> tab == Tab::Layers && tool == Tool::Brush && layer == Some(LayerType::Brush),
{
}

/// The start of a trim is the wanted one wherever that is neither negative nor
/// too late, and else the nearer limit.
pub proof fn trims_start_between_limits(v: F32, latest: F32, r: F32)
    requires
        call_ensures(trim_start, (v, latest), r),
    ensures
        0 <= v.key() <= latest.key() ==> r == v,
        v.key() < 0 ==> r.bits == 0 || r == latest,
        v.key() < 0 <= latest.key() ==> r.bits == 0,
        0 <= latest.key() < v.key() ==> r == latest,
        latest.key() < 0 ==> r.bits == 0,
{
}

/// An item is found at the first place that has its id.
pub proof fn items_are_found_by_id(items: &Vec<MediaItem>, selected: Option<usize>, r: Option<usize>, j: int)
    requires
        call_ensures(current_index, (items, selected), r),
        0 <= j < items@.len(),
    ensures
        selected is None ==> r is None,
        r is Some && items@[j].id == selected->0 ==> r->0 <= j,
        r is Some ==> r->0 < items@.len() && selected == Some(items@[r->0 as int].id),
{
}

/// A file is a HEIC photo by four marks: "heic" or "heif" in its media type, or
/// one of them as the extension of its name. A name without them is not.
pub proof fn heic_files_have_a_mark(media_type: Seq<char>, name: Seq<char>)
    ensures
        crate::text::holds(media_type, "heic"@) ==> heic_lowercase(media_type, name),
        crate::text::holds(media_type, "heif"@) ==> heic_lowercase(media_type, name),
        crate::text::ends_with(name, ".heic"@) ==> heic_lowercase(media_type, name),
        crate::text::ends_with(name, ".heif"@) ==> heic_lowercase(media_type, name),
        heic_lowercase(media_type, name) ==> crate::text::holds(media_type, "heic"@) || crate::text::holds(media_type, "heif"@)
            || crate::text::ends_with(name, ".heic"@) || crate::text::ends_with(name, ".heif"@),
{
}

/// A media type of a video decides before the name does, a RAW name before a
/// mark of HEIC, and a file without any of them is a photo.
pub proof fn kinds_of_files_have_an_order(media_type: Seq<char>, lower_type: Seq<char>, lower_name: Seq<char>)
    ensures
        ({
            let kind = file_kind_of(media_type, lower_type, lower_name);
            let video = crate::text::begins_with(media_type, "video/"@);
            let raw = crate::raw::has_raw_extension(lower_name);
            let heic = heic_lowercase(lower_type, lower_name);
            &&& kind == FileKind::Video <==> video
            &&& kind == FileKind::Raw <==> !video && raw
            &&& kind == FileKind::Heic <==> !video && !raw && heic
            &&& kind == FileKind::Photo <==> !video && !raw && !heic
        }),
{
}

/// A list holds a text wherever one of its texts is that one, from the first to
/// the last.
pub proof fn lists_hold_each_of_their_texts(fonts: Seq<String>, family: Seq<char>, i: int)
    ensures
        0 <= i < fonts.len() && fonts[i]@ == family ==> lists(fonts, family),
        (forall|j: int| 0 <= j < fonts.len() ==> (#[trigger] fonts[j])@ != family) ==> !lists(fonts, family),
{
}

} // verus!
