//! Edits of the layers that can be taken back: applying one gives back the
//! edit that undoes it, and applying that gives back the edit that redoes it.

use vstd::prelude::*;
use crate::canvas::{lemma_set_back, lemma_set_same, CanvasEffect};
use crate::color::Color;
use crate::filter::Filter;
use crate::geom::Point;
use crate::image::{lemma_set, Image, ImageView};
use crate::layer::{cel_views, Cel, Layer, LayerView, Layers, LayersView};

verus! {

/// An atomic edit as a value.
pub enum AtomicView<G> {
    SetPixel(int, int, Point, Color),
    DestroyLayer(int),
    CreateLayer(int, LayerView<G>),
    SetLayerCanvas(int, int, ImageView),
    SetLayerFilters(int, Seq<Filter>),
    SetLayerGenerator(int, Option<G>),
    SetLayerAdjustment(int, bool),
    RemoveFrame(int),
    InsertFrame(int, Seq<ImageView>),
}

/// Whether an edit can be applied to the layers: the layer and the frame
/// it names are there, the last layer is not destroyed, a layer put in has
/// a cel for every frame, and a frame put back has a cel for every layer.
pub open spec fn applicable<G>(v: LayersView<G>, a: AtomicView<G>) -> bool {
    let n = v.layers.len();
    let fc = v.frame_count();
    match a {
        AtomicView::SetPixel(i, f, _, _) => 0 <= i < n && 0 <= f < fc,
        AtomicView::DestroyLayer(i) => 0 <= i < n && n >= 2,
        AtomicView::CreateLayer(i, l) => 0 <= i <= n && l.cels.len() == fc,
        AtomicView::SetLayerCanvas(i, f, _) => 0 <= i < n && 0 <= f < fc,
        AtomicView::SetLayerFilters(i, _) => 0 <= i < n,
        AtomicView::SetLayerGenerator(i, _) => 0 <= i < n,
        AtomicView::SetLayerAdjustment(i, _) => 0 <= i < n,
        AtomicView::RemoveFrame(f) => fc <= 1 || 0 <= f < fc,
        AtomicView::InsertFrame(f, cels) => 0 <= f <= fc && cels.len() == n,
    }
}

/// The layers after an edit, and the edit that undoes it; none where the
/// edit changed nothing (a pixel set to the color it had or out of bounds,
/// or the only frame removed).
pub open spec fn step<G>(v: LayersView<G>, a: AtomicView<G>) -> (LayersView<G>, Option<AtomicView<G>>) {
    match a {
        AtomicView::SetPixel(i, f, p, c) => {
            let img = v.layers[i].cels[f];
            let inside = img.in_bounds(p.x as int, p.y as int);
            let next = v.with_cel(
                i,
                f,
                if inside {
                    img.set(p.x as int, p.y as int, c)
                } else {
                    img
                },
            );
            if inside && img.at(p.x as int, p.y as int) != c {
                (next, Some(AtomicView::SetPixel(i, f, p, img.at(p.x as int, p.y as int))))
            } else {
                (next, None)
            }
        },
        AtomicView::DestroyLayer(i) => (
            v.deleted(i),
            Some(AtomicView::CreateLayer(i, v.layers[i])),
        ),
        AtomicView::CreateLayer(i, l) => (v.added_at(i, l), Some(AtomicView::DestroyLayer(i))),
        AtomicView::SetLayerCanvas(i, f, img) => (
            v.with_cel(i, f, img),
            Some(AtomicView::SetLayerCanvas(i, f, v.layers[i].cels[f])),
        ),
        AtomicView::SetLayerFilters(i, fs) => (
            v.with_layer(i, LayerView { filters: fs, ..v.layers[i] }),
            Some(AtomicView::SetLayerFilters(i, v.layers[i].filters)),
        ),
        AtomicView::SetLayerGenerator(i, g) => (
            v.with_layer(i, LayerView { generator: g, ..v.layers[i] }),
            Some(AtomicView::SetLayerGenerator(i, v.layers[i].generator)),
        ),
        AtomicView::SetLayerAdjustment(i, b) => (
            v.with_layer(i, LayerView { adjustment: b, ..v.layers[i] }),
            Some(AtomicView::SetLayerAdjustment(i, v.layers[i].adjustment)),
        ),
        AtomicView::RemoveFrame(f) => if v.frame_count() <= 1 {
            (v, None)
        } else {
            (v.frame_removed(f), Some(AtomicView::InsertFrame(f, v.frame_at(f))))
        },
        AtomicView::InsertFrame(f, cels) => (
            v.frame_inserted(f, cels),
            Some(AtomicView::RemoveFrame(f)),
        ),
    }
}

/// Every image held by the layers is a valid image.
pub open spec fn images_wf<G>(v: LayersView<G>) -> bool {
    forall|k: int, f: int|
        0 <= k < v.layers.len() && 0 <= f < v.layers[k].cels.len() ==> (
        #[trigger] v.layers[k].cels[f]).wf()
}

/// Every image an edit carries is a valid image.
pub open spec fn edit_images_wf<G>(a: AtomicView<G>) -> bool {
    match a {
        AtomicView::CreateLayer(_, l) => forall|f: int| 0 <= f < l.cels.len() ==> (#[trigger] l.cels[f]).wf(),
        AtomicView::SetLayerCanvas(_, _, img) => img.wf(),
        AtomicView::InsertFrame(_, cels) => forall|k: int| 0 <= k < cels.len() ==> (#[trigger] cels[k]).wf(),
        _ => true,
    }
}

/// An edit keeps the layers valid, undoing it is possible at once, and
/// undoing it gives back the layers as they were.
pub proof fn lemma_step_undone<G>(v: LayersView<G>, a: AtomicView<G>)
    requires
        v.wf(),
        images_wf(v),
        edit_images_wf(a),
        applicable(v, a),
    ensures
        step(v, a).0.wf(),
        images_wf(step(v, a).0),
        step(v, a).0.filters_enabled == v.filters_enabled,
        step(v, a).1 is None ==> step(v, a).0.layers == v.layers,
        step(v, a).1 matches Some(b) ==> edit_images_wf(b) && applicable(step(v, a).0, b)
            && step(step(v, a).0, b).0.layers == v.layers,
{
    let w = step(v, a).0;
    match a {
        AtomicView::SetPixel(i, f, p, c) => {
            let img = v.layers[i].cels[f];
            assert(img.wf());
            let (x, y) = (p.x as int, p.y as int);
            if img.in_bounds(x, y) {
                lemma_set(img, x, y, c);
                let img2 = img.set(x, y, c);
                if img.at(x, y) != c {
                    lemma_set_back(img, x, y, c);
                    assert(w.layers[i].cels[f] == img2);
                    assert(w.layers[i].cels.update(f, img2.set(x, y, img.at(x, y))) =~= v.layers[i].cels);
                    assert(step(w, step(v, a).1->0).0.layers =~= v.layers);
                } else {
                    lemma_set_same(img, x, y);
                    assert(v.layers[i].cels.update(f, img2) =~= v.layers[i].cels);
                    assert(w.layers =~= v.layers);
                }
            } else {
                assert(v.layers[i].cels.update(f, img) =~= v.layers[i].cels);
                assert(w.layers =~= v.layers);
            }
            assert(w.layers[0].cels.len() == v.frame_count());
        },
        AtomicView::DestroyLayer(i) => {
            assert(w.layers.insert(i, v.layers[i]) =~= v.layers);
            assert(w.layers[0].cels.len() == v.frame_count());
        },
        AtomicView::CreateLayer(i, l) => {
            assert(w.layers.remove(i) =~= v.layers);
            assert(w.layers[0].cels.len() == v.frame_count());
        },
        AtomicView::SetLayerCanvas(i, f, img) => {
            let back = step(w, step(v, a).1->0).0;
            assert(back.layers[i].cels =~= v.layers[i].cels);
            assert(back.layers =~= v.layers);
            assert(w.layers[0].cels.len() == v.frame_count());
        },
        AtomicView::SetLayerFilters(i, fs) => {
            assert(step(w, step(v, a).1->0).0.layers =~= v.layers);
            assert(w.layers[0].cels.len() == v.frame_count());
        },
        AtomicView::SetLayerGenerator(i, g) => {
            assert(step(w, step(v, a).1->0).0.layers =~= v.layers);
            assert(w.layers[0].cels.len() == v.frame_count());
        },
        AtomicView::SetLayerAdjustment(i, b) => {
            assert(step(w, step(v, a).1->0).0.layers =~= v.layers);
            assert(w.layers[0].cels.len() == v.frame_count());
        },
        AtomicView::RemoveFrame(f) => {
            if v.frame_count() > 1 {
                assert(w.frame_count() == v.frame_count() - 1);
                let back = step(w, step(v, a).1->0).0;
                assert forall|k: int| 0 <= k < v.layers.len() implies #[trigger] back.layers[k] == v.layers[k] by {
                    assert(back.layers[k].cels =~= v.layers[k].cels);
                }
                assert(back.layers =~= v.layers);
                assert forall|k: int, g: int|
                    0 <= k < w.layers.len() && 0 <= g < w.layers[k].cels.len() implies (
                    #[trigger] w.layers[k].cels[g]).wf() by {
                    if g < f {
                        assert(w.layers[k].cels[g] == v.layers[k].cels[g]);
                    } else {
                        assert(w.layers[k].cels[g] == v.layers[k].cels[g + 1]);
                    }
                }
            }
        },
        AtomicView::InsertFrame(f, cels) => {
            assert(w.frame_count() == v.frame_count() + 1);
            let back = step(w, step(v, a).1->0).0;
            assert forall|k: int| 0 <= k < v.layers.len() implies #[trigger] back.layers[k] == v.layers[k] by {
                assert(back.layers[k].cels =~= v.layers[k].cels);
            }
            assert(back.layers =~= v.layers);
            assert forall|k: int, g: int|
                0 <= k < w.layers.len() && 0 <= g < w.layers[k].cels.len() implies (
                #[trigger] w.layers[k].cels[g]).wf() by {
                if g < f {
                    assert(w.layers[k].cels[g] == v.layers[k].cels[g]);
                } else if g == f {
                    assert(w.layers[k].cels[g] == cels[k]);
                } else {
                    assert(w.layers[k].cels[g] == v.layers[k].cels[g - 1]);
                }
            }
        },
    }
}

/// Applying and undoing edits depends on the stack of layers alone, not on
/// which layer or frame is active.
proof fn lemma_step_on_stack<G>(v: LayersView<G>, w: LayersView<G>, a: AtomicView<G>)
    requires
        v.layers == w.layers,
    ensures
        applicable(v, a) == applicable(w, a),
        step(v, a).0.layers == step(w, a).0.layers,
        step(v, a).1 == step(w, a).1,
{
}

/// The inverse `i`, where there is one, put before `rest`.
pub open spec fn prepend<G>(i: Option<AtomicView<G>>, rest: Seq<AtomicView<G>>) -> Seq<AtomicView<G>> {
    match i {
        Some(x) => seq![x] + rest,
        None => rest,
    }
}

/// The layers after applying a sequence of edits from the last to the
/// first, and the edits that undo them, in the order they were applied.
pub open spec fn run<G>(v: LayersView<G>, edits: Seq<AtomicView<G>>) -> (LayersView<G>, Seq<AtomicView<G>>)
    decreases edits.len(),
{
    if edits.len() == 0 {
        (v, seq![])
    } else {
        let (v1, i) = step(v, edits.last());
        let (v2, rest) = run(v1, edits.drop_last());
        (v2, prepend(i, rest))
    }
}

/// Whether each edit, from the last to the first, can be applied to the
/// layers the ones after it left.
pub open spec fn runnable<G>(v: LayersView<G>, edits: Seq<AtomicView<G>>) -> bool
    decreases edits.len(),
{
    edits.len() == 0 || (applicable(v, edits.last()) && runnable(
        step(v, edits.last()).0,
        edits.drop_last(),
    ))
}

/// Every image the edits carry is a valid image.
pub open spec fn edits_images_wf<G>(edits: Seq<AtomicView<G>>) -> bool {
    forall|k: int| 0 <= k < edits.len() ==> edit_images_wf(#[trigger] edits[k])
}

/// Applying `s + t` is applying `t`, then `s`.
pub proof fn lemma_run_split<G>(v: LayersView<G>, s: Seq<AtomicView<G>>, t: Seq<AtomicView<G>>)
    ensures
        run(v, s + t).0 == run(run(v, t).0, s).0,
        run(v, s + t).1 == run(v, t).1 + run(run(v, t).0, s).1,
        runnable(v, s + t) == (runnable(v, t) && runnable(run(v, t).0, s)),
    decreases t.len(),
{
    if t.len() == 0 {
        assert(s + t =~= s);
        assert(run(v, t).1 + run(run(v, t).0, s).1 =~= run(run(v, t).0, s).1);
    } else {
        let st = s + t;
        assert(st.last() == t.last());
        assert(st.drop_last() =~= s + t.drop_last());
        let (v1, i) = step(v, t.last());
        lemma_run_split(v1, s, t.drop_last());
        let r = run(v1, t.drop_last());
        let q = run(r.0, s);
        assert(prepend(i, r.1 + q.1) =~= prepend(i, r.1) + q.1);
    }
}

/// An applicable edit keeps the layers valid.
proof fn lemma_step_undone_wf<G>(v: LayersView<G>, a: AtomicView<G>)
    requires
        v.wf(),
        applicable(v, a),
    ensures
        step(v, a).0.wf(),
{
    let w = step(v, a).0;
    match a {
        AtomicView::RemoveFrame(f) => {
            if v.frame_count() > 1 {
                assert(w.frame_count() == v.frame_count() - 1);
            }
        },
        AtomicView::InsertFrame(f, cels) => {
            assert(w.frame_count() == v.frame_count() + 1);
        },
        _ => {
            assert(w.layers[0].cels.len() == v.frame_count());
        },
    }
}

/// Applying edits keeps the layers valid, and keeps valid the images of
/// the edits that undo them.
proof fn lemma_run_wf<G>(v: LayersView<G>, edits: Seq<AtomicView<G>>)
    requires
        v.wf(),
        images_wf(v),
        edits_images_wf(edits),
        runnable(v, edits),
    ensures
        run(v, edits).0.wf(),
        images_wf(run(v, edits).0),
        edits_images_wf(run(v, edits).1),
    decreases edits.len(),
{
    if edits.len() > 0 {
        let a = edits.last();
        lemma_step_undone(v, a);
        let (v1, i) = step(v, a);
        assert(edits_images_wf(edits.drop_last())) by {
            assert forall|k: int| 0 <= k < edits.drop_last().len() implies edit_images_wf(
                #[trigger] edits.drop_last()[k],
            ) by {
                assert(edits.drop_last()[k] == edits[k]);
            }
        }
        lemma_run_wf(v1, edits.drop_last());
        let rest = run(v1, edits.drop_last()).1;
        assert forall|k: int| 0 <= k < prepend(i, rest).len() implies edit_images_wf(
            #[trigger] prepend(i, rest)[k],
        ) by {
            if i is Some && k > 0 {
                assert(prepend(i, rest)[k] == rest[k - 1]);
            } else if i is None {
                assert(prepend(i, rest)[k] == rest[k]);
            }
        }
    }
}

/// Undoing restores: applying the edits that an application of edits gave
/// back is possible, and gives back the stack of layers as it was before.
/// Only the active layer and frame may differ, as deleting and removing
/// keep them in range.
pub proof fn lemma_undo_restores<G>(v: LayersView<G>, edits: Seq<AtomicView<G>>)
    requires
        v.wf(),
        images_wf(v),
        edits_images_wf(edits),
        runnable(v, edits),
    ensures
        run(v, edits).0.wf(),
        runnable(run(v, edits).0, run(v, edits).1),
        run(run(v, edits).0, run(v, edits).1).0.layers == v.layers,
        run(run(v, edits).0, run(v, edits).1).0.filters_enabled == v.filters_enabled,
    decreases edits.len(),
{
    lemma_run_wf(v, edits);
    if edits.len() > 0 {
        let a = edits.last();
        lemma_step_undone(v, a);
        let (v1, i) = step(v, a);
        assert(edits_images_wf(edits.drop_last())) by {
            assert forall|k: int| 0 <= k < edits.drop_last().len() implies edit_images_wf(
                #[trigger] edits.drop_last()[k],
            ) by {
                assert(edits.drop_last()[k] == edits[k]);
            }
        }
        lemma_undo_restores(v1, edits.drop_last());
        lemma_run_wf(v1, edits.drop_last());
        let (w2, rest) = run(v1, edits.drop_last());
        lemma_run_wf(w2, rest);
        let u = run(w2, rest).0;
        assert(run(v, edits) == (w2, prepend(i, rest)));
        assert(u.layers == v1.layers);
        match i {
            Some(x) => {
                lemma_run_split(w2, seq![x], rest);
                assert(prepend(i, rest) == seq![x] + rest);
                lemma_step_on_stack(u, v1, x);
                let one = seq![x];
                assert(one.last() == x);
                assert(one.drop_last() =~= Seq::<AtomicView<G>>::empty());
                assert(run(step(u, x).0, one.drop_last()) == (step(u, x).0, Seq::<AtomicView<G>>::empty()));
                assert(run(u, one).0 == step(u, x).0);
                assert(runnable(step(u, x).0, one.drop_last()));
                assert(runnable(u, one));
                assert(step(u, x).0.layers == v.layers);
            },
            None => {
                assert(prepend(i, rest) == rest);
            },
        }
    }
}

/// One edit of the layers. Pixel edits name the frame they were made on, so
/// that undoing one changes that frame whichever is active by then.
#[derive(Debug)]
pub enum AtomicAction<G> {
    SetPixel(usize, usize, Point, Color),
    DestroyLayer(usize),
    CreateLayer(usize, Layer<G>),
    SetLayerCanvas(usize, usize, Image),
    SetLayerFilters(usize, Vec<Filter>),
    SetLayerGenerator(usize, Option<G>),
    SetLayerAdjustment(usize, bool),
    RemoveFrame(usize),
    /// A frame's worth of cels, one per layer in layer order.
    InsertFrame(usize, Vec<Cel>),
}

impl<G> View for AtomicAction<G> {
    type V = AtomicView<G>;

    open spec fn view(&self) -> AtomicView<G> {
        match self {
            AtomicAction::SetPixel(i, f, p, c) => AtomicView::SetPixel(*i as int, *f as int, *p, *c),
            AtomicAction::DestroyLayer(i) => AtomicView::DestroyLayer(*i as int),
            AtomicAction::CreateLayer(i, l) => AtomicView::CreateLayer(*i as int, l@),
            AtomicAction::SetLayerCanvas(i, f, img) => AtomicView::SetLayerCanvas(
                *i as int,
                *f as int,
                img@,
            ),
            AtomicAction::SetLayerFilters(i, fs) => AtomicView::SetLayerFilters(*i as int, fs@),
            AtomicAction::SetLayerGenerator(i, g) => AtomicView::SetLayerGenerator(*i as int, *g),
            AtomicAction::SetLayerAdjustment(i, b) => AtomicView::SetLayerAdjustment(*i as int, *b),
            AtomicAction::RemoveFrame(f) => AtomicView::RemoveFrame(*f as int),
            AtomicAction::InsertFrame(f, cels) => AtomicView::InsertFrame(*f as int, cel_views(cels@)),
        }
    }
}

/// The value of an edit that may be missing.
pub open spec fn opt_view<G>(a: Option<AtomicAction<G>>) -> Option<AtomicView<G>> {
    match a {
        Some(x) => Some(x@),
        None => None,
    }
}

/// The values of a sequence of edits.
pub open spec fn edit_views<G>(edits: Seq<AtomicAction<G>>) -> Seq<AtomicView<G>> {
    edits.map_values(|a: AtomicAction<G>| a@)
}

impl<G> AtomicAction<G> {
    /// Pixel edits of one layer and frame, one per point and color.
    pub fn set_pixel_vec(i: usize, frame: usize, values: Vec<(Point, Color)>) -> (r: Vec<
        AtomicAction<G>,
    >)
        ensures
            edit_views(r@) == values@.map_values(
                |pc: (Point, Color)| AtomicView::<G>::SetPixel(i as int, frame as int, pc.0, pc.1),
            ),
    {
        let mut r: Vec<AtomicAction<G>> = Vec::new();
        let mut k: usize = 0;
        while k < values.len()
            invariant
                0 <= k <= values@.len(),
                edit_views(r@) =~= values@.subrange(0, k as int).map_values(
                    |pc: (Point, Color)| AtomicView::<G>::SetPixel(i as int, frame as int, pc.0, pc.1),
                ),
            decreases values@.len() - k,
        {
            let (p, c) = values[k];
            let a = AtomicAction::SetPixel(i, frame, p, c);
            let ghost before = r@;
            r.push(a);
            proof {
                assert(edit_views(r@) =~= edit_views(before).push(a@));
            }
            k = k + 1;
        }
        proof {
            assert(values@.subrange(0, values@.len() as int) =~= values@);
        }
        r
    }

    /// Applies this edit, and gives back the edit that undoes it, if it
    /// changed anything.
    pub fn apply(self, layers: &mut Layers<G>) -> (r: (CanvasEffect, Option<AtomicAction<G>>))
        requires
            old(layers)@.wf(),
            applicable(old(layers)@, self@),
        ensures
            r.0 == CanvasEffect::Layer,
            final(layers)@ == step(old(layers)@, self@).0,
            opt_view(r.1) == step(old(layers)@, self@).1,
    {
        let inverse = match self {
            AtomicAction::SetPixel(i, frame, p, color) => {
                let c = layers.cel_mut(i, frame);
                match c.set_pixel(p, color) {
                    Some((q, was)) => Some(AtomicAction::SetPixel(i, frame, q, was)),
                    None => None,
                }
            },
            AtomicAction::DestroyLayer(i) => {
                let l = layers.delete(i);
                Some(AtomicAction::CreateLayer(i, l))
            },
            AtomicAction::CreateLayer(i, layer) => {
                layers.add_at(i, layer);
                Some(AtomicAction::DestroyLayer(i))
            },
            AtomicAction::SetLayerCanvas(i, frame, img) => {
                let was = layers.set_cel_img(i, frame, img);
                Some(AtomicAction::SetLayerCanvas(i, frame, was))
            },
            AtomicAction::SetLayerFilters(i, filters) => {
                let was = layers.set_filters(i, filters);
                Some(AtomicAction::SetLayerFilters(i, was))
            },
            AtomicAction::SetLayerGenerator(i, generator) => {
                let was = layers.set_generator(i, generator);
                Some(AtomicAction::SetLayerGenerator(i, was))
            },
            AtomicAction::SetLayerAdjustment(i, adjustment) => {
                let was = layers.set_adjustment(i, adjustment);
                Some(AtomicAction::SetLayerAdjustment(i, was))
            },
            AtomicAction::RemoveFrame(frame) => match layers.remove_frame(frame) {
                Some(cels) => Some(AtomicAction::InsertFrame(frame, cels)),
                None => None,
            },
            AtomicAction::InsertFrame(frame, cels) => {
                layers.insert_frame(frame, cels);
                Some(AtomicAction::RemoveFrame(frame))
            },
        };
        (CanvasEffect::Layer, inverse)
    }
}

/// A user-level edit: atomic edits, applied from the last to the first.
#[derive(Debug)]
pub struct Action<G>(Vec<AtomicAction<G>>);

impl<G> View for Action<G> {
    type V = Seq<AtomicView<G>>;

    closed spec fn view(&self) -> Seq<AtomicView<G>> {
        edit_views(self.0@)
    }
}

impl<G> Default for Action<G> {
    fn default() -> (a: Action<G>)
        ensures
            a@ == Seq::<AtomicView<G>>::empty(),
    {
        let a = Action(Vec::new());
        assert(a@ =~= Seq::<AtomicView<G>>::empty());
        a
    }
}

impl<G> Action<G> {
    /// An action made of the given atomic edits.
    pub fn from_edits(actions: Vec<AtomicAction<G>>) -> (a: Action<G>)
        ensures
            a@ == edit_views(actions@),
    {
        Action(actions)
    }

    /// Adds an atomic edit, to be applied before those already there.
    pub fn push(&mut self, action: AtomicAction<G>)
        ensures
            final(self)@ == old(self)@.push(action@),
    {
        let ghost before = self.0@;
        self.0.push(action);
        proof {
            assert(edit_views(self.0@) =~= edit_views(before).push(action@));
        }
    }

    /// Adds atomic edits in order.
    pub fn append(&mut self, actions: Vec<AtomicAction<G>>)
        ensures
            final(self)@ == old(self)@ + edit_views(actions@),
    {
        let ghost start = self@;
        let ghost all = actions@;
        let ghost given = edit_views(actions@);
        let total = actions.len();
        let mut rest = actions;
        let mut k: usize = 0;
        while rest.len() > 0
            invariant
                total == all.len(),
                given == edit_views(all),
                k + rest@.len() == all.len(),
                rest@ == all.subrange(k as int, all.len() as int),
                self@ == start + given.subrange(0, k as int),
            decreases rest@.len(),
        {
            let a = rest.remove(0);
            proof {
                assert(a == all[k as int]);
                assert(rest@ =~= all.subrange(k + 1, all.len() as int));
            }
            self.push(a);
            proof {
                assert(given[k as int] == a@);
                assert(start + given.subrange(0, k + 1) =~= (start + given.subrange(0, k as int)).push(
                    given[k as int],
                ));
            }
            k = k + 1;
        }
        proof {
            assert(given.subrange(0, given.len() as int) =~= given);
        }
    }

    /// Whether there is nothing to apply.
    pub fn is_empty(&self) -> (b: bool)
        ensures
            b == (self@.len() == 0),
    {
        self.0.len() == 0
    }

    /// Applies every atomic edit, from the last to the first, and gives back
    /// the action that undoes this one; applying that gives back one that
    /// redoes it.
    pub fn apply(self, layers: &mut Layers<G>) -> (r: (CanvasEffect, Action<G>))
        requires
            old(layers)@.wf(),
            runnable(old(layers)@, self@),
        ensures
            r.0 == if self@.len() == 0 {
                CanvasEffect::Unaffected
            } else {
                CanvasEffect::Layer
            },
            final(layers)@ == run(old(layers)@, self@).0,
            r.1@ == run(old(layers)@, self@).1,
    {
        let ghost all = self@;
        let ghost v0 = layers@;
        let ghost n = all.len();
        let Action(mut edits) = self;
        let mut effect = CanvasEffect::Unaffected;
        let mut inverse: Action<G> = Action::default();
        proof {
            assert(all.subrange(0, n as int) =~= all);
            assert(all.subrange(n as int, n as int) =~= Seq::<AtomicView<G>>::empty());
        }
        while edits.len() > 0
            invariant
                n == all.len(),
                edits@.len() <= n,
                edit_views(edits@) == all.subrange(0, edits@.len() as int),
                layers@ == run(v0, all.subrange(edits@.len() as int, n as int)).0,
                inverse@ == run(v0, all.subrange(edits@.len() as int, n as int)).1,
                layers@.wf(),
                runnable(layers@, all.subrange(0, edits@.len() as int)),
                effect == if edits@.len() == n {
                    CanvasEffect::Unaffected
                } else {
                    CanvasEffect::Layer
                },
            decreases edits@.len(),
        {
            let ghost k = edits@.len() as int;
            let ghost before = edits@;
            let a = edits.pop().unwrap();
            proof {
                assert(edits@ == before.drop_last());
                assert(edit_views(before)[k - 1] == a@);
                assert(all.subrange(0, k)[k - 1] == all[k - 1]);
                assert(edit_views(edits@) =~= all.subrange(0, k - 1));
                let pre = all.subrange(0, k);
                assert(pre.last() == a@);
                assert(pre.drop_last() =~= all.subrange(0, k - 1));
                lemma_step_undone_wf(layers@, a@);
            }
            let ghost w = layers@;
            let (e, inv) = a.apply(layers);
            effect = e;
            let ghost inv_view = opt_view(inv);
            match inv {
                Some(x) => inverse.push(x),
                None => {},
            }
            proof {
                let suffix = all.subrange(k, n as int);
                lemma_run_split(v0, seq![all[k - 1]], suffix);
                assert(seq![all[k - 1]] + suffix =~= all.subrange(k - 1, n as int));
                let one = seq![all[k - 1]];
                assert(one.last() == a@);
                assert(one.drop_last() =~= Seq::<AtomicView<G>>::empty());
                assert(run(step(w, a@).0, one.drop_last()) == (
                    step(w, a@).0,
                    Seq::<AtomicView<G>>::empty(),
                ));
                assert(run(w, one) == (
                    step(w, a@).0,
                    prepend(step(w, a@).1, Seq::<AtomicView<G>>::empty()),
                ));
                assert(prepend(inv_view, Seq::<AtomicView<G>>::empty()) =~= match inv_view {
                    Some(x) => seq![x],
                    None => Seq::<AtomicView<G>>::empty(),
                });
                assert(inverse@ =~= run(v0, suffix).1 + run(w, one).1);
            }
        }
        (effect, inverse)
    }
}

} // verus!
