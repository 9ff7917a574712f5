//! Layers of a media item, and the undo history of paths and brushes.
use crate::number::F32;
use crate::state::{BrushLayer, BrushStroke, Layer, LayerKind, MediaItem, PathLayer, PathPoint, Tool};
use vstd::prelude::*;

verus! {

/// How many states an undo history keeps.
pub const HISTORY_LIMIT: usize = 50;

/// A history with one more state; a full history drops its oldest one.
pub open spec fn remembered<T>(history: Seq<T>, state: T) -> Seq<T> {
    if history.len() >= HISTORY_LIMIT {
        history.remove(0).push(state)
    } else {
        history.push(state)
    }
}

/// A history without its last state.
pub open spec fn recalled<T>(history: Seq<T>) -> Seq<T> {
    if history.len() == 0 {
        history
    } else {
        history.drop_last()
    }
}

/// Recalling what was just remembered gives the history back, unless a full
/// history dropped a state.
pub proof fn recalling_undoes_remembering<T>(history: Seq<T>, state: T)
    requires
        history.len() < HISTORY_LIMIT,
    ensures
        recalled(remembered(history, state)) == history,
        remembered(history, state).last() == state,
{
    assert(recalled(remembered(history, state)) =~= history);
}

/// A history never holds more states than it keeps.
pub proof fn history_stays_within_its_limit<T>(history: Seq<T>, state: T)
    requires
        history.len() <= HISTORY_LIMIT,
    ensures
        remembered(history, state).len() <= HISTORY_LIMIT,
        remembered(history, state).last() == state,
{
}

/// The undo states of a path.
pub open spec fn path_states(p: PathLayer) -> Seq<Seq<PathPoint>> {
    Seq::new(p.history@.len(), |i: int| p.history@[i]@)
}

/// Whether two paths look the same apart from their points, whether they are
/// closed, and their history.
pub open spec fn same_style(a: PathLayer, b: PathLayer) -> bool {
    a.fill_color@ == b.fill_color@ && a.stroke_color@ == b.stroke_color@ && a.stroke_width == b.stroke_width
}

/// Remembers the points of a path.
pub fn push_path_history(layer: &mut PathLayer)
    ensures
        path_states(*final(layer)) == remembered(path_states(*old(layer)), old(layer).points@),
        final(layer).points@ == old(layer).points@,
        final(layer).closed == old(layer).closed,
        same_style(*final(layer), *old(layer)),
{
    let ghost before = path_states(*layer);
    if layer.history.len() >= HISTORY_LIMIT {
        layer.history.remove(0);
        assert(path_states(*layer) =~= before.remove(0));
    }
    let points: Vec<PathPoint> = layer.points.clone();
    assert(points@ =~= layer.points@);
    layer.history.push(points);
    assert(path_states(*layer) =~= remembered(before, layer.points@));
}

/// Goes back to the last remembered points of a path, if there are any.
pub fn undo_path(layer: &mut PathLayer)
    ensures
        path_states(*final(layer)) == recalled(path_states(*old(layer))),
        final(layer).points@ == (if old(layer).history@.len() == 0 {
            old(layer).points@
        } else {
            path_states(*old(layer)).last()
        }),
        final(layer).closed == old(layer).closed,
        same_style(*final(layer), *old(layer)),
{
    let ghost before = path_states(*layer);
    match layer.history.pop() {
        Some(points) => {
            assert(points@ == before.last());
            layer.points = points;
            assert(path_states(*layer) =~= before.drop_last());
        },
        None => {},
    }
}

/// Removes all points of a path; they can be brought back.
pub fn clear_path(layer: &mut PathLayer)
    ensures
        path_states(*final(layer)) == remembered(path_states(*old(layer)), old(layer).points@),
        final(layer).points@.len() == 0,
        !final(layer).closed,
        same_style(*final(layer), *old(layer)),
{
    push_path_history(layer);
    let ghost states = path_states(*layer);
    layer.points = Vec::new();
    layer.closed = false;
    assert(path_states(*layer) =~= states);
}

/// Points of a stroke.
pub open spec fn stroke_points(strokes: Seq<BrushStroke>) -> Seq<Seq<(F32, F32)>> {
    Seq::new(strokes.len(), |i: int| strokes[i].points@)
}

/// The undo states of a brush layer.
pub open spec fn brush_states(b: BrushLayer) -> Seq<Seq<Seq<(F32, F32)>>> {
    Seq::new(b.history@.len(), |i: int| stroke_points(b.history@[i]@))
}

/// Copies strokes.
fn copy_strokes(strokes: &Vec<BrushStroke>) -> (r: Vec<BrushStroke>)
    ensures
        stroke_points(r@) == stroke_points(strokes@),
{
    let mut out: Vec<BrushStroke> = Vec::new();
    let mut i: usize = 0;
    while i < strokes.len()
        invariant
            i <= strokes.len(),
            stroke_points(out@) == stroke_points(strokes@).take(i as int),
        decreases strokes.len() - i,
    {
        let mut points: Vec<(F32, F32)> = Vec::new();
        let n: usize = strokes[i].points.len();
        let mut k: usize = 0;
        while k < n
            invariant
                i < strokes.len(),
                n == strokes@[i as int].points@.len(),
                k <= n,
                points@ == strokes@[i as int].points@.take(k as int),
            decreases n - k,
        {
            points.push(strokes[i].points[k]);
            assert(points@ =~= strokes@[i as int].points@.take(k + 1));
            k = k + 1;
        }
        assert(points@ =~= strokes@[i as int].points@);
        let ghost done = stroke_points(out@);
        out.push(BrushStroke { points });
        assert(stroke_points(out@) =~= done.push(strokes@[i as int].points@));
        assert(stroke_points(out@) =~= stroke_points(strokes@).take(i + 1));
        i = i + 1;
    }
    assert(stroke_points(out@) =~= stroke_points(strokes@));
    out
}

/// Remembers the strokes of a brush layer.
pub fn push_brush_history(layer: &mut BrushLayer)
    ensures
        brush_states(*final(layer)) == remembered(brush_states(*old(layer)), stroke_points(old(layer).strokes@)),
        final(layer).strokes@ == old(layer).strokes@,
        final(layer).color@ == old(layer).color@,
        final(layer).width == old(layer).width,
{
    let ghost before = brush_states(*layer);
    if layer.history.len() >= HISTORY_LIMIT {
        layer.history.remove(0);
        assert(brush_states(*layer) =~= before.remove(0));
    }
    let strokes: Vec<BrushStroke> = copy_strokes(&layer.strokes);
    layer.history.push(strokes);
    assert(brush_states(*layer) =~= remembered(before, stroke_points(layer.strokes@)));
}

/// Goes back to the last remembered strokes, if there are any.
pub fn undo_brush(layer: &mut BrushLayer)
    ensures
        brush_states(*final(layer)) == recalled(brush_states(*old(layer))),
        stroke_points(final(layer).strokes@) == (if old(layer).history@.len() == 0 {
            stroke_points(old(layer).strokes@)
        } else {
            brush_states(*old(layer)).last()
        }),
        final(layer).color@ == old(layer).color@,
        final(layer).width == old(layer).width,
{
    let ghost before = brush_states(*layer);
    match layer.history.pop() {
        Some(strokes) => {
            assert(stroke_points(strokes@) == before.last());
            layer.strokes = strokes;
            assert(brush_states(*layer) =~= before.drop_last());
        },
        None => {},
    }
}

/// Removes all strokes; they can be brought back.
pub fn clear_brush(layer: &mut BrushLayer)
    ensures
        brush_states(*final(layer)) == remembered(brush_states(*old(layer)), stroke_points(old(layer).strokes@)),
        final(layer).strokes@.len() == 0,
        final(layer).color@ == old(layer).color@,
        final(layer).width == old(layer).width,
{
    push_brush_history(layer);
    let ghost states = brush_states(*layer);
    layer.strokes = Vec::new();
    assert(brush_states(*layer) =~= states);
}

/// Starts a stroke at a point.
pub fn start_stroke(layer: &mut BrushLayer, x: F32, y: F32)
    ensures
        brush_states(*final(layer)) == remembered(brush_states(*old(layer)), stroke_points(old(layer).strokes@)),
        stroke_points(final(layer).strokes@) == stroke_points(old(layer).strokes@).push(seq![(x, y)]),
        final(layer).color@ == old(layer).color@,
        final(layer).width == old(layer).width,
{
    push_brush_history(layer);
    let ghost states = brush_states(*layer);
    let ghost strokes = stroke_points(layer.strokes@);
    let mut points: Vec<(F32, F32)> = Vec::new();
    points.push((x, y));
    assert(points@ =~= seq![(x, y)]);
    layer.strokes.push(BrushStroke { points });
    assert(stroke_points(layer.strokes@) =~= strokes.push(seq![(x, y)]));
    assert(brush_states(*layer) =~= states);
}

/// Extends the last stroke, if there is one.
pub fn extend_stroke(layer: &mut BrushLayer, x: F32, y: F32)
    ensures
        stroke_points(final(layer).strokes@) == (if old(layer).strokes@.len() == 0 {
            stroke_points(old(layer).strokes@)
        } else {
            let strokes = stroke_points(old(layer).strokes@);
            strokes.update(strokes.len() - 1, strokes.last().push((x, y)))
        }),
        brush_states(*final(layer)) == brush_states(*old(layer)),
        final(layer).color@ == old(layer).color@,
        final(layer).width == old(layer).width,
{
    let n: usize = layer.strokes.len();
    if n == 0 {
        return;
    }
    let ghost states = brush_states(*layer);
    let ghost strokes = stroke_points(layer.strokes@);
    layer.strokes[n - 1].points.push((x, y));
    assert(stroke_points(layer.strokes@) =~= strokes.update(n - 1, strokes.last().push((x, y))));
    assert(brush_states(*layer) =~= states);
}

/// Whether `i` is the first layer with this id.
pub open spec fn is_layer_at(layers: Seq<Layer>, id: usize, i: int) -> bool {
    &&& 0 <= i < layers.len()
    &&& layers[i].id == id
    &&& forall|j: int| 0 <= j < i ==> (#[trigger] layers[j]).id != id
}

/// Whether no layer has this id.
pub open spec fn no_layer(layers: Seq<Layer>, id: usize) -> bool {
    forall|j: int| 0 <= j < layers.len() ==> (#[trigger] layers[j]).id != id
}

/// The first layer with this id.
pub fn find_layer(layers: &Vec<Layer>, id: usize) -> (r: Option<usize>)
    ensures
        match r {
            Some(i) => is_layer_at(layers@, id, i as int),
            None => no_layer(layers@, id),
        },
{
    let mut i: usize = 0;
    while i < layers.len()
        invariant
            i <= layers.len(),
            forall|j: int| 0 <= j < i ==> (#[trigger] layers@[j]).id != id,
        decreases layers.len() - i,
    {
        if layers[i].id == id {
            return Some(i);
        }
        i = i + 1;
    }
    None
}

/// Whether two items differ at most in their layers and the next layer id.
pub open spec fn same_but_layers(a: MediaItem, b: MediaItem) -> bool {
    &&& a.id == b.id && a.kind == b.kind
    &&& a.name == b.name && a.object_url == b.object_url
    &&& a.width == b.width && a.height == b.height
    &&& a.edit == b.edit
}

/// Kinds of layers that can be added empty.
#[derive(Clone, Copy, PartialEq, Eq, Structural, Debug)]
pub enum NewLayer {
    Text,
    Path,
    Brush,
}

/// The tool that goes with a new layer.
pub fn tool_for(kind: NewLayer) -> (r: Tool)
    ensures
        r == match kind {
            NewLayer::Text => Tool::Select,
            NewLayer::Path => Tool::Pen,
            NewLayer::Brush => Tool::Brush,
        },
{
    match kind {
        NewLayer::Text => Tool::Select,
        NewLayer::Path => Tool::Pen,
        NewLayer::Brush => Tool::Brush,
    }
}

/// Whether a layer is an empty one of this kind.
pub open spec fn is_empty_layer(layer: Layer, kind: NewLayer) -> bool {
    match kind {
        NewLayer::Text => layer.kind matches LayerKind::Text(t) && crate::state::is_default_text(t),
        NewLayer::Path => layer.kind matches LayerKind::Path(p) && crate::state::is_default_path(p),
        NewLayer::Brush => layer.kind matches LayerKind::Brush(b) && crate::state::is_default_brush(b),
    }
}

/// Whether `after` is `before` with one layer on top, which took the next id.
pub open spec fn with_layer_on_top(before: MediaItem, after: MediaItem, id: usize) -> bool {
    &&& id == before.next_layer_id
    &&& after.next_layer_id == before.next_layer_id + 1
    &&& after.layers@.len() == before.layers@.len() + 1
    &&& after.layers@.drop_last() == before.layers@
    &&& after.layers@.last().is_fresh(id)
    &&& same_but_layers(before, after)
}

/// Puts a layer on top of an item.
fn put_on_top(item: &mut MediaItem, layer: Layer)
    requires
        old(item).next_layer_id < usize::MAX,
        layer.is_fresh(old(item).next_layer_id),
    ensures
        with_layer_on_top(*old(item), *final(item), layer.id),
        final(item).layers@.last() == layer,
        old(item).well_formed() ==> final(item).well_formed(),
{
    let ghost before = *item;
    item.next_layer_id = item.next_layer_id + 1;
    item.layers.push(layer);
    proof {
        assert(item.layers@.drop_last() =~= before.layers@);
        if before.well_formed() {
            assert forall|i: int, j: int| 0 <= i < j < item.layers@.len() implies (#[trigger] item.layers@[i]).id != (
            #[trigger] item.layers@[j]).id by {
                assert(item.layers@[i] == before.layers@[i]);
            }
        }
    }
}

/// Adds an empty layer on top and returns its id.
pub fn add_layer(item: &mut MediaItem, kind: NewLayer) -> (id: usize)
    requires
        old(item).next_layer_id < usize::MAX,
    ensures
        with_layer_on_top(*old(item), *final(item), id),
        is_empty_layer(final(item).layers@.last(), kind),
        old(item).well_formed() ==> final(item).well_formed(),
{
    let id: usize = item.next_layer_id;
    let layer: Layer = match kind {
        NewLayer::Text => Layer::new_text(id),
        NewLayer::Path => Layer::new_path(id),
        NewLayer::Brush => Layer::new_brush(id),
    };
    put_on_top(item, layer);
    id
}

/// Adds a layer of pixels on top and returns its id.
pub fn add_raster_layer(item: &mut MediaItem, pixels: Vec<u8>, width: usize, height: usize) -> (id: usize)
    requires
        old(item).next_layer_id < usize::MAX,
    ensures
        with_layer_on_top(*old(item), *final(item), id),
        final(item).layers@.last().kind matches LayerKind::Raster(r) && r.pixels@ == pixels@ && r.width == width
            && r.height == height,
        old(item).well_formed() ==> final(item).well_formed(),
{
    let id: usize = item.next_layer_id;
    put_on_top(item, Layer::new_raster(id, pixels, width, height));
    id
}

/// Adds the background and the subject of a segmented photo as two layers, the
/// subject on top, and returns the id of the subject.
pub fn add_isolated_layers(item: &mut MediaItem, background: Vec<u8>, subject: Vec<u8>, width: usize, height: usize) -> (id: usize)
    requires
        old(item).next_layer_id < usize::MAX - 1,
    ensures
        id == old(item).next_layer_id + 1,
        final(item).next_layer_id == old(item).next_layer_id + 2,
        final(item).layers@.len() == old(item).layers@.len() + 2,
        final(item).layers@.take(old(item).layers@.len() as int) == old(item).layers@,
        final(item).layers@[old(item).layers@.len() as int].is_fresh(old(item).next_layer_id),
        final(item).layers@[old(item).layers@.len() as int].kind matches LayerKind::Raster(r) && r.pixels@ == background@
            && r.width == width && r.height == height,
        final(item).layers@.last().is_fresh(id),
        final(item).layers@.last().kind matches LayerKind::Raster(r) && r.pixels@ == subject@ && r.width == width
            && r.height == height,
        same_but_layers(*old(item), *final(item)),
        old(item).well_formed() ==> final(item).well_formed(),
{
    let ghost before = item.layers@;
    let lower: usize = add_raster_layer(item, background, width, height);
    let ghost mid = item.layers@;
    let id: usize = add_raster_layer(item, subject, width, height);
    proof {
        let n = before.len() as int;
        assert(item.layers@[n] == item.layers@.drop_last()[n]);
        assert(mid[n] == mid.last());
        assert forall|i: int| 0 <= i < n implies item.layers@[i] == before[i] by {
            assert(item.layers@[i] == item.layers@.drop_last()[i]);
            assert(mid[i] == mid.drop_last()[i]);
        }
        assert(item.layers@.take(n) =~= before);
    }
    id
}

/// The layers with another id, in order.
pub open spec fn without(layers: Seq<Layer>, id: usize) -> Seq<Layer>
    decreases layers.len(),
{
    if layers.len() == 0 {
        layers
    } else if layers.last().id == id {
        without(layers.drop_last(), id)
    } else {
        without(layers.drop_last(), id).push(layers.last())
    }
}

proof fn lemma_without(layers: Seq<Layer>, id: usize)
    ensures
        no_layer(without(layers, id), id),
        without(layers, id).len() <= layers.len(),
        forall|i: int| 0 <= i < without(layers, id).len() ==> layers.contains(#[trigger] without(layers, id)[i]),
        (forall|i: int, j: int| 0 <= i < j < layers.len() ==> (#[trigger] layers[i]).id != (#[trigger] layers[j]).id)
            ==> forall|i: int, j: int|
            0 <= i < j < without(layers, id).len() ==> (#[trigger] without(layers, id)[i]).id != (
            #[trigger] without(layers, id)[j]).id,
    decreases layers.len(),
{
    if layers.len() > 0 {
        let rest = layers.drop_last();
        lemma_without(rest, id);
        let out = without(layers, id);
        assert forall|i: int| 0 <= i < out.len() implies layers.contains(#[trigger] out[i]) by {
            if i < without(rest, id).len() {
                let k = choose|k: int| 0 <= k < rest.len() && rest[k] == without(rest, id)[i];
                assert(layers[k] == out[i]);
            } else {
                assert(layers[layers.len() - 1] == out[i]);
            }
        }
        if forall|i: int, j: int| 0 <= i < j < layers.len() ==> (#[trigger] layers[i]).id != (#[trigger] layers[j]).id {
            assert forall|i: int, j: int| 0 <= i < j < out.len() implies (#[trigger] out[i]).id != (#[trigger] out[j]).id by {
                if j == without(rest, id).len() {
                    let k = choose|k: int| 0 <= k < rest.len() && rest[k] == without(rest, id)[i];
                    assert(layers[k].id != layers[layers.len() - 1].id);
                } else {
                    assert(without(rest, id)[i].id != without(rest, id)[j].id);
                }
            }
        }
    }
}

/// Deletes the layer with this id.
pub fn delete_layer(item: &mut MediaItem, id: usize)
    ensures
        final(item).layers@ == without(old(item).layers@, id),
        no_layer(final(item).layers@, id),
        final(item).next_layer_id == old(item).next_layer_id,
        same_but_layers(*old(item), *final(item)),
        old(item).well_formed() ==> final(item).well_formed(),
{
    let ghost before = item.layers@;
    let ghost mut done: int = 0;
    let mut i: usize = 0;
    assert(before.take(0) =~= Seq::empty());
    assert(before.skip(0) =~= before);
    assert(Seq::<Layer>::empty() + before =~= before);
    while i < item.layers.len()
        invariant
            0 <= done <= before.len(),
            i == without(before.take(done), id).len(),
            item.layers@ == without(before.take(done), id) + before.skip(done),
            item.next_layer_id == old(item).next_layer_id,
            same_but_layers(*old(item), *item),
        decreases item.layers.len() - i,
    {
        let ghost head = without(before.take(done), id);
        assert(item.layers@[i as int] == before[done]);
        assert(before.take(done + 1).drop_last() =~= before.take(done));
        if item.layers[i].id == id {
            item.layers.remove(i);
            assert(item.layers@ =~= head + before.skip(done + 1));
        } else {
            i = i + 1;
            assert(head.push(before[done]) + before.skip(done + 1) =~= head + before.skip(done));
        }
        proof {
            done = done + 1;
        }
    }
    proof {
        assert(before.take(done) =~= before);
        assert(item.layers@ =~= without(before, id));
        lemma_without(before, id);
        if old(item).well_formed() {
            assert forall|k: int| 0 <= k < item.layers@.len() implies (#[trigger] item.layers@[k]).id < item.next_layer_id by {
                let j = choose|j: int| 0 <= j < before.len() && before[j] == item.layers@[k];
                assert(before[j].id < old(item).next_layer_id);
            }
        }
    }
}

/// The selected layer after one was deleted.
pub fn selected_after_delete(selected: Option<usize>, id: usize) -> (r: Option<usize>)
    ensures
        r == (if selected == Some(id) {
            None
        } else {
            selected
        }),
{
    match selected {
        Some(s) => if s == id {
            None
        } else {
            Some(s)
        },
        None => None,
    }
}

/// The layers with two of them exchanged.
pub open spec fn exchanged(layers: Seq<Layer>, i: int, j: int) -> Seq<Layer> {
    layers.update(i, layers[j]).update(j, layers[i])
}

/// Exchanges two layers.
fn exchange(layers: &mut Vec<Layer>, i: usize, j: usize)
    requires
        i < j < old(layers)@.len(),
    ensures
        final(layers)@ == exchanged(old(layers)@, i as int, j as int),
{
    let b: Layer = layers.remove(j);
    let a: Layer = layers.remove(i);
    layers.insert(i, b);
    layers.insert(j, a);
    assert(layers@ =~= exchanged(old(layers)@, i as int, j as int));
}

/// Where a layer goes that is moved by `delta`: not past the ends.
pub open spec fn moved_index(len: int, i: int, delta: int) -> int {
    crate::pixels::clamped(i + delta, 0, len - 1)
}

/// Moves the layer with this id up or down the stack, by exchanging it with
/// the layer that is there.
pub fn move_layer(item: &mut MediaItem, id: usize, delta: i32)
    ensures
        final(item).next_layer_id == old(item).next_layer_id,
        same_but_layers(*old(item), *final(item)),
        no_layer(old(item).layers@, id) ==> final(item).layers@ == old(item).layers@,
        forall|i: int|
            #[trigger] is_layer_at(old(item).layers@, id, i) ==> final(item).layers@ == exchanged(
                old(item).layers@,
                i,
                moved_index(old(item).layers@.len() as int, i, delta as int),
            ),
        old(item).well_formed() ==> final(item).well_formed(),
{
    let ghost before = *item;
    let n: usize = item.layers.len();
    match find_layer(&item.layers, id) {
        Some(i) => {
            let t: i128 = i as i128 + delta as i128;
            let k: usize = if t < 0 { 0 } else if t > (n - 1) as i128 { n - 1 } else { t as usize };
            assert(k == moved_index(n as int, i as int, delta as int));
            if k > i {
                exchange(&mut item.layers, i, k);
            } else if k < i {
                exchange(&mut item.layers, k, i);
            }
            proof {
                assert(item.layers@ =~= exchanged(before.layers@, i as int, k as int));
                assert forall|m: int| #[trigger] is_layer_at(before.layers@, id, m) implies m == i by {
                    assert(is_layer_at(before.layers@, id, i as int));
                    if m < i {
                        assert(before.layers@[m].id != id);
                    }
                    if i < m {
                        assert(before.layers@[i as int].id != id);
                    }
                }
                if before.well_formed() {
                    lemma_exchanged_ids(before.layers@, i as int, k as int);
                    assert forall|m: int| 0 <= m < item.layers@.len() implies (#[trigger] item.layers@[m]).id < item.next_layer_id by {
                        assert(before.layers@[m].id < before.next_layer_id && before.layers@[i as int].id < before.next_layer_id
                            && before.layers@[k as int].id < before.next_layer_id);
                    }
                }
            }
        },
        None => {},
    }
}

proof fn lemma_exchanged_ids(layers: Seq<Layer>, i: int, j: int)
    requires
        0 <= i < layers.len(),
        0 <= j < layers.len(),
        forall|a: int, b: int| 0 <= a < b < layers.len() ==> (#[trigger] layers[a]).id != (#[trigger] layers[b]).id,
    ensures
        forall|a: int, b: int|
            0 <= a < b < layers.len() ==> (#[trigger] exchanged(layers, i, j)[a]).id != (#[trigger] exchanged(layers, i, j)[b]).id,
{
    let out = exchanged(layers, i, j);
    assert forall|a: int, b: int| 0 <= a < b < layers.len() implies (#[trigger] out[a]).id != (#[trigger] out[b]).id by {
        let p = if a == i { j } else if a == j { i } else { a };
        let q = if b == i { j } else if b == j { i } else { b };
        assert(out[a] == layers[p] && out[b] == layers[q] && p != q);
        if p < q {
            assert(layers[p].id != layers[q].id);
        } else {
            assert(layers[q].id != layers[p].id);
        }
    }
}

/// Moving a layer one step and back restores the order.
pub proof fn exchanging_twice_restores(layers: Seq<Layer>, i: int, j: int)
    requires
        0 <= i < layers.len(),
        0 <= j < layers.len(),
    ensures
        exchanged(exchanged(layers, i, j), j, i) == layers,
{
    assert(exchanged(exchanged(layers, i, j), j, i) =~= layers);
}

/// Whether the layers differ only in the layer with this id, which is now
/// `layer`.
pub open spec fn only_layer_changed(before: MediaItem, after: MediaItem, i: int, layer: Layer) -> bool {
    &&& after.layers@ == before.layers@.update(i, layer)
    &&& after.next_layer_id == before.next_layer_id
    &&& same_but_layers(before, after)
}

/// Shows or hides the layer with this id.
pub fn set_visible(item: &mut MediaItem, id: usize, visible: bool)
    ensures
        no_layer(old(item).layers@, id) ==> *final(item) == *old(item),
        forall|i: int|
            #[trigger] is_layer_at(old(item).layers@, id, i) ==> only_layer_changed(
                *old(item),
                *final(item),
                i,
                (Layer { visible, ..old(item).layers@[i] }),
            ),
        old(item).well_formed() ==> final(item).well_formed(),
{
    let ghost before = *item;
    if let Some(i) = find_layer(&item.layers, id) {
        item.layers[i].visible = visible;
        proof {
            lemma_same_ids(before, *item, id, i as int);
        }
    }
}

/// Sets the opacity of the layer with this id.
pub fn set_opacity(item: &mut MediaItem, id: usize, opacity: F32)
    ensures
        no_layer(old(item).layers@, id) ==> *final(item) == *old(item),
        forall|i: int|
            #[trigger] is_layer_at(old(item).layers@, id, i) ==> only_layer_changed(
                *old(item),
                *final(item),
                i,
                (Layer { opacity, ..old(item).layers@[i] }),
            ),
        old(item).well_formed() ==> final(item).well_formed(),
{
    let ghost before = *item;
    if let Some(i) = find_layer(&item.layers, id) {
        item.layers[i].opacity = opacity;
        proof {
            lemma_same_ids(before, *item, id, i as int);
        }
    }
}

/// Changing a layer without changing its id keeps the item in order.
proof fn lemma_same_ids(before: MediaItem, after: MediaItem, id: usize, i: int)
    requires
        is_layer_at(before.layers@, id, i),
        after.next_layer_id == before.next_layer_id,
        after.layers@.len() == before.layers@.len(),
        forall|k: int| 0 <= k < before.layers@.len() ==> (#[trigger] after.layers@[k]).id == before.layers@[k].id,
    ensures
        before.well_formed() ==> after.well_formed(),
        forall|m: int| #[trigger] is_layer_at(before.layers@, id, m) ==> m == i,
{
    assert forall|m: int| #[trigger] is_layer_at(before.layers@, id, m) implies m == i by {
        if m < i {
            assert(before.layers@[m].id != id);
        }
        if i < m {
            assert(before.layers@[i].id != id);
        }
    }
    if before.well_formed() {
        assert forall|a: int, b: int| 0 <= a < b < after.layers@.len() implies (#[trigger] after.layers@[a]).id != (
        #[trigger] after.layers@[b]).id by {
            assert(before.layers@[a].id != before.layers@[b].id);
        }
        assert forall|k: int| 0 <= k < after.layers@.len() implies (#[trigger] after.layers@[k]).id < after.next_layer_id by {
            assert(before.layers@[k].id < before.next_layer_id);
        }
    }
}

/// Parts of a path that can be picked up.
#[derive(Clone, Copy, PartialEq, Eq, Structural, Debug)]
pub enum PenHandle {
    Point,
    Out,
    In,
}

/// What the pen drags.
#[derive(Clone, Copy, PartialEq, Eq, Structural, Debug)]
pub enum PenDrag {
    MovePoint(usize),
    MoveOut(usize),
    MoveIn(usize),
}

/// Which parts of a path point are near the pen.
#[derive(Clone, Copy, PartialEq, Eq, Structural, Debug)]
pub struct PenNear {
    pub point: bool,
    pub out_handle: bool,
    pub in_handle: bool,
}

/// Whether the pen hits this part: of points the last near one, and only where
/// no point is near, of handles those of the last point with a near one, the
/// outgoing one first.
pub open spec fn is_hit(near: Seq<PenNear>, i: int, handle: PenHandle) -> bool {
    &&& 0 <= i < near.len()
    &&& if handle == PenHandle::Point {
        near[i].point && forall|j: int| i < j < near.len() ==> !(#[trigger] near[j]).point
    } else {
        &&& forall|j: int| 0 <= j < near.len() ==> !(#[trigger] near[j]).point
        &&& forall|j: int| i < j < near.len() ==> !(#[trigger] near[j]).out_handle && !near[j].in_handle
        &&& if handle == PenHandle::Out {
            near[i].out_handle
        } else {
            near[i].in_handle && !near[i].out_handle
        }
    }
}

/// What the pen hits. Points take priority over handles.
pub fn hit_test_path(near: &Vec<PenNear>) -> (r: Option<(usize, PenHandle)>)
    ensures
        match r {
            Some((i, handle)) => is_hit(near@, i as int, handle),
            None => forall|j: int|
                0 <= j < near@.len() ==> !(#[trigger] near@[j]).point && !near@[j].out_handle && !near@[j].in_handle,
        },
{
    let n: usize = near.len();
    let mut i: usize = n;
    while i > 0
        invariant
            i <= n,
            n == near.len(),
            forall|j: int| i <= j < n ==> !(#[trigger] near@[j]).point,
        decreases i,
    {
        i = i - 1;
        if near[i].point {
            return Some((i, PenHandle::Point));
        }
    }
    i = n;
    while i > 0
        invariant
            i <= n,
            n == near.len(),
            forall|j: int| 0 <= j < n ==> !(#[trigger] near@[j]).point,
            forall|j: int| i <= j < n ==> !(#[trigger] near@[j]).out_handle && !near@[j].in_handle,
        decreases i,
    {
        i = i - 1;
        if near[i].out_handle {
            return Some((i, PenHandle::Out));
        }
        if near[i].in_handle {
            return Some((i, PenHandle::In));
        }
    }
    None
}

/// Whether a press on this part closes the path: its first point, of at least
/// three, while it is open.
pub open spec fn closes(p: PathLayer, hit: Option<(usize, PenHandle)>) -> bool {
    hit == Some((0usize, PenHandle::Point)) && p.points@.len() >= 3 && !p.closed
}

/// A press of the pen at `(x, y)`. On the first point it closes an open path;
/// on any other part it starts to drag it; elsewhere it adds a point.
pub fn pen_press(layer: &mut PathLayer, hit: Option<(usize, PenHandle)>, x: F32, y: F32) -> (drag: Option<PenDrag>)
    ensures
        same_style(*final(layer), *old(layer)),
        closes(*old(layer), hit) ==> {
            &&& drag is None
            &&& final(layer).closed
            &&& final(layer).points@ == old(layer).points@
            &&& path_states(*final(layer)) == remembered(path_states(*old(layer)), old(layer).points@)
        },
        hit is Some && !closes(*old(layer), hit) ==> {
            &&& *final(layer) == *old(layer)
            &&& drag == Some(
                match (hit->0).1 {
                    PenHandle::Point => PenDrag::MovePoint((hit->0).0),
                    PenHandle::Out => PenDrag::MoveOut((hit->0).0),
                    PenHandle::In => PenDrag::MoveIn((hit->0).0),
                },
            )
        },
        hit is None ==> {
            &&& drag is None
            &&& final(layer).closed == old(layer).closed
            &&& final(layer).points@ == old(layer).points@.push(crate::state::bare_point(x, y, true))
            &&& path_states(*final(layer)) == remembered(path_states(*old(layer)), old(layer).points@)
        },
{
    match hit {
        Some((i, handle)) => {
            if i == 0 && handle == PenHandle::Point && layer.points.len() >= 3 && !layer.closed {
                push_path_history(layer);
                let ghost states = path_states(*layer);
                layer.closed = true;
                assert(path_states(*layer) =~= states);
                None
            } else {
                Some(
                    match handle {
                        PenHandle::Point => PenDrag::MovePoint(i),
                        PenHandle::Out => PenDrag::MoveOut(i),
                        PenHandle::In => PenDrag::MoveIn(i),
                    },
                )
            }
        },
        None => {
            push_path_history(layer);
            let ghost states = path_states(*layer);
            layer.points.push(PathPoint::new(x, y));
            assert(path_states(*layer) =~= states);
            None
        },
    }
}

/// A point whose handles mirror each other.
pub open spec fn is_mirrored(p: PathPoint) -> bool {
    p.in_x == p.out_x.opposite() && p.in_y == p.out_y.opposite()
}

/// The point with the other kind of corner: one that becomes smooth gets its
/// incoming handle opposite to its outgoing one.
pub open spec fn toggled(p: PathPoint) -> PathPoint {
    if p.smooth {
        PathPoint { smooth: false, ..p }
    } else {
        PathPoint { smooth: true, in_x: p.out_x.opposite(), in_y: p.out_y.opposite(), ..p }
    }
}

/// A double press on a point makes it smooth, or a corner.
pub fn toggle_smooth(layer: &mut PathLayer, hit: Option<(usize, PenHandle)>)
    requires
        hit is Some ==> (hit->0).0 < old(layer).points@.len(),
    ensures
        same_style(*final(layer), *old(layer)),
        final(layer).closed == old(layer).closed,
        hit is Some && (hit->0).1 == PenHandle::Point ==> {
            &&& final(layer).points@ == old(layer).points@.update(
                (hit->0).0 as int,
                toggled(old(layer).points@[(hit->0).0 as int]),
            )
            &&& path_states(*final(layer)) == remembered(path_states(*old(layer)), old(layer).points@)
        },
        !(hit is Some && (hit->0).1 == PenHandle::Point) ==> *final(layer) == *old(layer),
{
    if let Some((i, PenHandle::Point)) = hit {
        push_path_history(layer);
        let ghost states = path_states(*layer);
        let mut p: PathPoint = layer.points[i];
        p.smooth = !p.smooth;
        if p.smooth {
            p.in_x = p.out_x.negated();
            p.in_y = p.out_y.negated();
        }
        layer.points.set(i, p);
        assert(path_states(*layer) =~= states);
    }
}

/// Points after the pen dragged one of them: to the given place, with the
/// given handles. A smooth point mirrors the handle that was dragged.
pub open spec fn dragged(points: Seq<PathPoint>, drag: PenDrag, to: PathPoint) -> Seq<PathPoint> {
    match drag {
        PenDrag::MovePoint(i) => if i < points.len() {
            points.update(i as int, PathPoint { smooth: points[i as int].smooth, ..to })
        } else {
            points
        },
        PenDrag::MoveOut(i) => if i < points.len() {
            let p = points[i as int];
            points.update(
                i as int,
                if p.smooth {
                    PathPoint {
                        out_x: to.out_x,
                        out_y: to.out_y,
                        in_x: to.out_x.opposite(),
                        in_y: to.out_y.opposite(),
                        ..p
                    }
                } else {
                    PathPoint { out_x: to.out_x, out_y: to.out_y, ..p }
                },
            )
        } else {
            points
        },
        PenDrag::MoveIn(i) => if i < points.len() {
            let p = points[i as int];
            points.update(
                i as int,
                if p.smooth {
                    PathPoint {
                        in_x: to.in_x,
                        in_y: to.in_y,
                        out_x: to.in_x.opposite(),
                        out_y: to.in_y.opposite(),
                        ..p
                    }
                } else {
                    PathPoint { in_x: to.in_x, in_y: to.in_y, ..p }
                },
            )
        } else {
            points
        },
    }
}

/// Drags a part of a path. `to` holds the new values of what is dragged.
pub fn pen_drag(layer: &mut PathLayer, drag: PenDrag, to: PathPoint)
    ensures
        final(layer).points@ == dragged(old(layer).points@, drag, to),
        final(layer).closed == old(layer).closed,
        path_states(*final(layer)) == path_states(*old(layer)),
        same_style(*final(layer), *old(layer)),
{
    let ghost states = path_states(*layer);
    let i: usize = match drag {
        PenDrag::MovePoint(i) => i,
        PenDrag::MoveOut(i) => i,
        PenDrag::MoveIn(i) => i,
    };
    if i >= layer.points.len() {
        return;
    }
    let mut p: PathPoint = layer.points[i];
    match drag {
        PenDrag::MovePoint(_) => {
            p = PathPoint {
                x: to.x,
                y: to.y,
                in_x: to.in_x,
                in_y: to.in_y,
                out_x: to.out_x,
                out_y: to.out_y,
                smooth: p.smooth,
            };
        },
        PenDrag::MoveOut(_) => {
            p.out_x = to.out_x;
            p.out_y = to.out_y;
            if p.smooth {
                p.in_x = to.out_x.negated();
                p.in_y = to.out_y.negated();
            }
        },
        PenDrag::MoveIn(_) => {
            p.in_x = to.in_x;
            p.in_y = to.in_y;
            if p.smooth {
                p.out_x = to.in_x.negated();
                p.out_y = to.in_y.negated();
            }
        },
    }
    layer.points.set(i, p);
    assert(path_states(*layer) =~= states);
}

/// Dragging a handle of a smooth point leaves its handles opposite.
pub proof fn dragging_a_smooth_handle_mirrors_it(points: Seq<PathPoint>, i: usize, to: PathPoint)
    requires
        i < points.len(),
        points[i as int].smooth,
    ensures
        is_mirrored(dragged(points, PenDrag::MoveOut(i), to)[i as int]),
        is_mirrored(dragged(points, PenDrag::MoveIn(i), to)[i as int]),
{
    crate::number::negating_twice_restores(to.in_x);
    crate::number::negating_twice_restores(to.in_y);
}

/// What is remembered comes last in a history, behind all that was there, or
/// from its second state on if it was full with 50.
pub proof fn histories_grow_at_the_end<T>(history: Seq<T>, state: T)
    ensures
        remembered(history, state).last() == state,
        history.len() < 50 ==> remembered(history, state).drop_last() == history,
        history.len() >= 50 ==> remembered(history, state).drop_last() == history.skip(1),
        history.len() > 0 ==> recalled(history) == history.drop_last(),
        history.len() == 0 ==> recalled(history) == history,
{
    if history.len() < 50 {
        assert(remembered(history, state).drop_last() =~= history);
    } else {
        assert(remembered(history, state).drop_last() =~= history.skip(1));
    }
}

/// The states of a path are its points as they were, and those of a brush layer
/// are its strokes.
pub proof fn states_are_what_was_drawn(p: PathLayer, b: BrushLayer, i: int, j: int, k: int)
    ensures
        path_states(p).len() == p.history@.len(),
        0 <= i < p.history@.len() ==> path_states(p)[i] == p.history@[i]@,
        brush_states(b).len() == b.history@.len(),
        0 <= j < b.history@.len() ==> brush_states(b)[j].len() == b.history@[j]@.len(),
        0 <= j < b.history@.len() && 0 <= k < b.history@[j]@.len() ==> brush_states(b)[j][k] == b.history@[j]@[k].points@,
        stroke_points(b.strokes@).len() == b.strokes@.len(),
        0 <= k < b.strokes@.len() ==> stroke_points(b.strokes@)[k] == b.strokes@[k].points@,
{
}

/// Paths of the same style have the same fill, line color and line width.
pub proof fn styles_are_colors_and_widths(a: PathLayer, b: PathLayer)
    ensures
        same_style(a, b) <==> a.fill_color@ == b.fill_color@ && a.stroke_color@ == b.stroke_color@ && a.stroke_width
            == b.stroke_width,
{
}

/// Items that differ only in their layers share all the rest.
pub proof fn layer_edits_keep_the_rest(a: MediaItem, b: MediaItem)
    requires
        same_but_layers(a, b),
    ensures
        a.id == b.id && a.kind == b.kind && a.name == b.name && a.object_url == b.object_url,
        a.width == b.width && a.height == b.height && a.edit == b.edit,
{
}

/// A layer that is put on top is visible and opaque, has an id of its own, and
/// leaves the layers below it as they were.
pub proof fn new_layers_come_on_top(before: MediaItem, after: MediaItem, id: usize, i: int)
    requires
        with_layer_on_top(before, after, id),
    ensures
        after.layers@.len() == before.layers@.len() + 1,
        0 <= i < before.layers@.len() ==> after.layers@[i] == before.layers@[i],
        after.layers@.last().id == id && after.layers@.last().visible && after.layers@.last().opacity.bits == 0x3f80_0000,
        id == before.next_layer_id && after.next_layer_id == id + 1,
        before.well_formed() && 0 <= i < before.layers@.len() ==> before.layers@[i].id != id,
        same_but_layers(before, after),
{
    if 0 <= i < before.layers@.len() {
        assert(after.layers@.drop_last()[i] == before.layers@[i]);
        if before.well_formed() {
            assert(before.layers@[i].id < before.next_layer_id);
        }
    }
}

/// Deleting keeps exactly the layers with another id, in their order.
pub proof fn deleting_filters_layers(layers: Seq<Layer>, id: usize)
    ensures
        without(layers, id) == layers.filter(|l: Layer| l.id != id),
    decreases layers.len(),
{
    reveal(Seq::filter);
    if layers.len() > 0 {
        deleting_filters_layers(layers.drop_last(), id);
    }
}

/// A layer that is moved changes places with the layer that many steps away, or
/// with the last one in that direction, and no other layer moves.
pub proof fn moved_layers_change_places(layers: Seq<Layer>, i: int, delta: int, k: int)
    requires
        0 <= i < layers.len(),
        0 <= k < layers.len(),
    ensures
        ({
            let to = moved_index(layers.len() as int, i, delta);
            let after = exchanged(layers, i, to);
            &&& 0 <= i + delta < layers.len() ==> to == i + delta
            &&& i + delta < 0 ==> to == 0
            &&& i + delta >= layers.len() ==> to == layers.len() - 1
            &&& after.len() == layers.len()
            &&& after[to] == layers[i] && after[i] == layers[to]
            &&& k != i && k != to ==> after[k] == layers[k]
        }),
{
}

/// Changing one layer leaves all others as they were.
pub proof fn one_layer_changes_alone(before: MediaItem, after: MediaItem, i: int, layer: Layer, k: int)
    requires
        only_layer_changed(before, after, i, layer),
        0 <= i < before.layers@.len(),
        0 <= k < before.layers@.len(),
    ensures
        after.layers@.len() == before.layers@.len(),
        after.layers@[i] == layer,
        k != i ==> after.layers@[k] == before.layers@[k],
        after.next_layer_id == before.next_layer_id,
        same_but_layers(before, after),
{
}

/// A layer is found at the first place that has its id.
pub proof fn layers_are_found_by_id(layers: &Vec<Layer>, id: usize, r: Option<usize>, j: int)
    requires
        call_ensures(find_layer, (layers, id), r),
        0 <= j < layers@.len(),
    ensures
        layers@[j].id == id ==> r is Some && r->0 <= j,
        r is Some ==> r->0 < layers@.len() && layers@[r->0 as int].id == id,
{
}

/// The pen hits the last point that is near; only without one it hits a handle
/// of the last point that has one near, the outgoing one before the other.
pub proof fn pens_hit_the_last_part(near: &Vec<PenNear>, r: Option<(usize, PenHandle)>, j: int)
    requires
        call_ensures(hit_test_path, (near,), r),
        0 <= j < near@.len(),
    ensures
        r is Some && near@[j].point ==> (r->0).1 == PenHandle::Point && (r->0).0 >= j,
        r is Some && (near@[j].out_handle || near@[j].in_handle) ==> (r->0).1 == PenHandle::Point || (r->0).0 >= j,
        r matches Some((i, handle)) ==> {
            &&& i < near@.len()
            &&& handle == PenHandle::Point ==> near@[i as int].point
            &&& handle == PenHandle::Out ==> near@[i as int].out_handle
            &&& handle == PenHandle::In ==> near@[i as int].in_handle && !near@[i as int].out_handle
        },
{
}

/// The pen closes a path at its first point, if it is open and has three or
/// more.
pub proof fn paths_close_at_their_first_point(p: PathLayer, hit: Option<(usize, PenHandle)>)
    ensures
        closes(p, hit) <==> hit is Some && (hit->0).0 == 0 && (hit->0).1 == PenHandle::Point && p.points@.len() >= 3 && !p.closed,
{
}

/// A corner that becomes smooth keeps its place and its outgoing handle, and
/// mirrors that; a smooth point that becomes a corner keeps everything.
pub proof fn toggling_mirrors_the_outgoing_handle(p: PathPoint)
    ensures
        toggled(p).smooth == !p.smooth,
        toggled(p).x == p.x && toggled(p).y == p.y && toggled(p).out_x == p.out_x && toggled(p).out_y == p.out_y,
        p.smooth ==> toggled(p).in_x == p.in_x && toggled(p).in_y == p.in_y,
        !p.smooth ==> toggled(p).in_x == p.out_x.opposite() && toggled(p).in_y == p.out_y.opposite(),
{
}

/// A dragged point takes its new place and handles, and stays smooth or a
/// corner. A dragged handle takes its new place; the opposite one mirrors it at
/// a smooth point, and stays at a corner. Nothing else moves.
pub proof fn drags_move_one_point(points: Seq<PathPoint>, i: usize, to: PathPoint, k: int)
    requires
        0 <= k < points.len(),
    ensures
        ({
            let (p, a, b) = (
                dragged(points, PenDrag::MovePoint(i), to),
                dragged(points, PenDrag::MoveOut(i), to),
                dragged(points, PenDrag::MoveIn(i), to),
            );
            let old_point = points[k];
            &&& p.len() == points.len() && a.len() == points.len() && b.len() == points.len()
            &&& k != i ==> p[k] == old_point && a[k] == old_point && b[k] == old_point
            &&& k == i ==> {
                &&& p[k].x == to.x && p[k].y == to.y && p[k].smooth == old_point.smooth
                &&& p[k].in_x == to.in_x && p[k].in_y == to.in_y && p[k].out_x == to.out_x && p[k].out_y == to.out_y
                &&& a[k].x == old_point.x && a[k].y == old_point.y && a[k].smooth == old_point.smooth
                &&& a[k].out_x == to.out_x && a[k].out_y == to.out_y
                &&& old_point.smooth ==> a[k].in_x == to.out_x.opposite() && a[k].in_y == to.out_y.opposite()
                &&& !old_point.smooth ==> a[k].in_x == old_point.in_x && a[k].in_y == old_point.in_y
                &&& b[k].x == old_point.x && b[k].y == old_point.y && b[k].smooth == old_point.smooth
                &&& b[k].in_x == to.in_x && b[k].in_y == to.in_y
                &&& old_point.smooth ==> b[k].out_x == to.in_x.opposite() && b[k].out_y == to.in_y.opposite()
                &&& !old_point.smooth ==> b[k].out_x == old_point.out_x && b[k].out_y == old_point.out_y
            }
        }),
{
}

} // verus!
