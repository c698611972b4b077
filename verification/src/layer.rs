//! Layers and frames: the stack of images that makes up a picture, one image
//! (a cel) per layer and frame.

use vstd::prelude::*;
use crate::canvas::{resized, Canvas};
use crate::color::transparent;
use crate::filter::Filter;
use crate::geom::Size;
use crate::image::{Image, ImageView};
use crate::names::{default_layer_name, layer_name, lemma_decimal_injective};
use crate::text::decimal;

verus! {

/// One layer's pixels for one frame.
#[derive(Debug)]
pub struct Cel {
    canvas: Canvas,
}

impl View for Cel {
    type V = ImageView;

    closed spec fn view(&self) -> ImageView {
        self.canvas@
    }
}

impl Cel {
    fn new(size: Size) -> (c: Cel)
        requires
            size.x >= 0,
            size.y >= 0,
            size.x * size.y <= usize::MAX,
        ensures
            c@ == ImageView::filled(size.x as int, size.y as int, transparent()),
    {
        Cel::from_canvas(Canvas::new(size))
    }

    fn from_canvas(canvas: Canvas) -> (c: Cel)
        ensures
            c@ == canvas@,
    {
        Cel { canvas }
    }

    /// A separate cel with the same pixels.
    fn duplicate(&self) -> (c: Cel)
        ensures
            c@ == self@,
    {
        let mut canvas = Canvas::new(Size::new(0, 0));
        canvas.set_img(self.canvas.inner().clone());
        Cel::from_canvas(canvas)
    }

    /// The canvas holding the pixels.
    pub fn canvas(&self) -> (c: &Canvas)
        ensures
            c@ == self@,
    {
        &self.canvas
    }
}

/// A layer as a value: its cels, one per frame, and what it shares across
/// frames.
pub struct LayerView<G> {
    pub cels: Seq<ImageView>,
    pub visible: bool,
    pub opacity: u8,
    pub name: Seq<char>,
    pub filters: Seq<Filter>,
    pub adjustment: bool,
    pub generator: Option<G>,
}

/// The images of a sequence of cels.
pub open spec fn cel_views(cels: Seq<Cel>) -> Seq<ImageView> {
    cels.map_values(|c: Cel| c@)
}

/// A `frames` long run of blank cels of one size.
pub open spec fn blank_cels(size: Size, frames: int) -> Seq<ImageView> {
    Seq::new(frames as nat, |i: int| ImageView::filled(size.x as int, size.y as int, transparent()))
}

/// A layer of the picture: a stack of these, blended by transparency, makes
/// the image. The name, visibility, opacity and filters are shared by every
/// frame; each frame has its own pixels.
#[derive(Debug)]
pub struct Layer<G> {
    cels: Vec<Cel>,
    visible: bool,
    opacity: u8,
    name: String,
    filters: Vec<Filter>,
    adjustment: bool,
    generator: Option<G>,
}

impl<G> View for Layer<G> {
    type V = LayerView<G>;

    closed spec fn view(&self) -> LayerView<G> {
        LayerView {
            cels: cel_views(self.cels@),
            visible: self.visible,
            opacity: self.opacity,
            name: self.name@,
            filters: self.filters@,
            adjustment: self.adjustment,
            generator: self.generator,
        }
    }
}

impl<G> Layer<G> {
    /// A visible, opaque layer of blank cels, one per frame (at least one).
    pub fn new(size: Size, name: String, frames: usize) -> (l: Layer<G>)
        requires
            size.x >= 0,
            size.y >= 0,
            size.x * size.y <= usize::MAX,
        ensures
            l@ == (LayerView::<G> {
                cels: blank_cels(size, if frames == 0 { 1 } else { frames as int }),
                visible: true,
                opacity: 255,
                name: name@,
                filters: seq![],
                adjustment: false,
                generator: None,
            }),
    {
        let n: usize = if frames == 0 {
            1
        } else {
            frames
        };
        let mut cels: Vec<Cel> = Vec::new();
        let mut i: usize = 0;
        while i < n
            invariant
                0 <= i <= n,
                size.x >= 0,
                size.y >= 0,
                size.x * size.y <= usize::MAX,
                cel_views(cels@) =~= blank_cels(size, i as int),
            decreases n - i,
        {
            let c = Cel::new(size);
            let ghost before = cels@;
            cels.push(c);
            proof {
                assert(cel_views(cels@) =~= cel_views(before).push(c@));
            }
            i = i + 1;
        }
        let l = Layer {
            cels,
            visible: true,
            opacity: 255,
            name,
            filters: Vec::new(),
            adjustment: false,
            generator: None,
        };
        assert(l@.filters =~= seq![]);
        l
    }

    /// How many frames this layer holds a cel for.
    pub fn frame_count(&self) -> (n: usize)
        ensures
            n == self@.cels.len(),
    {
        self.cels.len()
    }

    /// Whether this layer filters what is below it instead of drawing.
    pub fn is_adjustment(&self) -> (b: bool)
        ensures
            b == self@.adjustment,
    {
        self.adjustment
    }

    /// Makes this layer filter what is below it, or draw again. Gives back
    /// what it was.
    pub fn set_adjustment(&mut self, adjustment: bool) -> (was: bool)
        ensures
            was == old(self)@.adjustment,
            final(self)@ == (LayerView { adjustment, ..old(self)@ }),
    {
        let was = self.adjustment;
        self.adjustment = adjustment;
        was
    }

    /// The filters of this layer, in the order they run.
    pub fn filters(&self) -> (f: &[Filter])
        ensures
            f@ == self@.filters,
    {
        self.filters.as_slice()
    }

    /// Replaces the filter chain, and gives back the one it had.
    pub fn set_filters(&mut self, filters: Vec<Filter>) -> (was: Vec<Filter>)
        ensures
            was@ == old(self)@.filters,
            final(self)@ == (LayerView { filters: filters@, ..old(self)@ }),
    {
        let mut was = filters;
        std::mem::swap(&mut was, &mut self.filters);
        was
    }

    /// The recipe that produced this layer's pixels, if any.
    pub fn generator(&self) -> (g: Option<&G>)
        ensures
            g == match self@.generator {
                Some(x) => Some(&x),
                None => None::<&G>,
            },
    {
        self.generator.as_ref()
    }

    /// Replaces the recipe, and gives back the one it had.
    pub fn set_generator(&mut self, generator: Option<G>) -> (was: Option<G>)
        ensures
            was == old(self)@.generator,
            final(self)@ == (LayerView { generator, ..old(self)@ }),
    {
        let mut was = generator;
        std::mem::swap(&mut was, &mut self.generator);
        was
    }

    /// The name of this layer.
    pub fn name(&self) -> (s: &str)
        ensures
            s@ == self@.name,
    {
        self.name.as_str()
    }

    /// Renames this layer.
    pub fn set_name(&mut self, name: String)
        ensures
            final(self)@ == (LayerView { name: name@, ..old(self)@ }),
    {
        self.name = name;
    }

    /// The canvas holding a frame's pixels.
    pub fn canvas(&self, frame: usize) -> (c: &Canvas)
        requires
            frame < self@.cels.len(),
        ensures
            c@ == self@.cels[frame as int],
    {
        self.cels[frame].canvas()
    }

    /// Whether this layer is shown.
    pub fn visible(&self) -> (b: bool)
        ensures
            b == self@.visible,
    {
        self.visible
    }

    /// The opacity of this layer, from 0 to 255.
    pub fn opacity(&self) -> (o: u8)
        ensures
            o == self@.opacity,
    {
        self.opacity
    }

    pub fn set_visibility(&mut self, visible: bool)
        ensures
            final(self)@ == (LayerView { visible, ..old(self)@ }),
    {
        self.visible = visible;
    }

    pub fn set_opacity(&mut self, opacity: u8)
        ensures
            final(self)@ == (LayerView { opacity, ..old(self)@ }),
    {
        self.opacity = opacity;
    }
    /// The canvas holding a frame's pixels, for drawing on.
    pub fn canvas_mut(&mut self, frame: usize) -> (c: &mut Canvas)
        requires
            frame < old(self)@.cels.len(),
        ensures
            c@ == old(self)@.cels[frame as int],
            final(self)@ == (LayerView {
                cels: old(self)@.cels.update(frame as int, final(c)@),
                ..old(self)@
            }),
    {
        proof {
            assert(cel_views(self.cels@)[frame as int] == self.cels@[frame as int]@);
        }
        let ghost before = self.cels@;
        let cel = &mut self.cels[frame];
        let c = &mut cel.canvas;
        proof {
            assert(cel_views(before.update(frame as int, Cel { canvas: *final(c) })) =~= cel_views(
                before,
            ).update(frame as int, final(c)@));
        }
        c
    }

    /// Takes a frame's image out, leaving an empty one in its place.
    pub fn take_img(&mut self, frame: usize) -> (img: Image)
        requires
            frame < old(self)@.cels.len(),
        ensures
            img@ == old(self)@.cels[frame as int],
            final(self)@ == (LayerView {
                cels: old(self)@.cels.update(frame as int, ImageView::filled(0, 0, transparent())),
                ..old(self)@
            }),
    {
        let c = self.canvas_mut(frame);
        c.take_inner()
    }

    /// Resizes every frame's canvas, and gives back the images as they were,
    /// in frame order.
    pub fn resize(&mut self, size: Size) -> (imgs: Vec<Image>)
        requires
            size.x >= 0,
            size.y >= 0,
            size.x * size.y <= usize::MAX,
        ensures
            imgs@.map_values(|i: Image| i@) == old(self)@.cels,
            final(self)@ == (LayerView {
                cels: old(self)@.cels.map_values(
                    |v: ImageView| resized(v, size.x as int, size.y as int),
                ),
                ..old(self)@
            }),
    {
        let ghost start = self@;
        let mut imgs: Vec<Image> = Vec::new();
        let mut i: usize = 0;
        while i < self.cels.len()
            invariant
                0 <= i <= self@.cels.len(),
                size.x >= 0,
                size.y >= 0,
                size.x * size.y <= usize::MAX,
                self@.cels.len() == start.cels.len(),
                self@ == (LayerView { cels: self@.cels, ..start }),
                imgs@.len() == i,
                forall|k: int| 0 <= k < i ==> #[trigger] imgs@[k]@ == start.cels[k],
                forall|k: int|
                    0 <= k < i ==> #[trigger] self@.cels[k] == resized(
                        start.cels[k],
                        size.x as int,
                        size.y as int,
                    ),
                forall|k: int| i <= k < start.cels.len() ==> #[trigger] self@.cels[k] == start.cels[k],
            decreases start.cels.len() - i,
        {
            let c = self.canvas_mut(i);
            let img = c.resize(size);
            imgs.push(img);
            i = i + 1;
        }
        proof {
            assert(imgs@.map_values(|i: Image| i@) =~= start.cels);
            assert(self@.cels =~= start.cels.map_values(
                |v: ImageView| resized(v, size.x as int, size.y as int),
            ));
        }
        imgs
    }

    /// Adds a blank cel for a new frame, after the last.
    pub(crate) fn add_cel(&mut self, size: Size)
        requires
            size.x >= 0,
            size.y >= 0,
            size.x * size.y <= usize::MAX,
        ensures
            final(self)@ == (LayerView {
                cels: old(self)@.cels.push(
                    ImageView::filled(size.x as int, size.y as int, transparent()),
                ),
                ..old(self)@
            }),
    {
        let c = Cel::new(size);
        let ghost before = self.cels@;
        self.cels.push(c);
        proof {
            assert(cel_views(self.cels@) =~= cel_views(before).push(c@));
        }
    }

    /// Puts a cel in at a frame index.
    pub(crate) fn insert_cel(&mut self, frame: usize, cel: Cel)
        requires
            frame <= old(self)@.cels.len(),
        ensures
            final(self)@ == (LayerView {
                cels: old(self)@.cels.insert(frame as int, cel@),
                ..old(self)@
            }),
    {
        let ghost before = self.cels@;
        self.cels.insert(frame, cel);
        proof {
            assert(cel_views(self.cels@) =~= cel_views(before).insert(frame as int, cel@));
        }
    }

    /// A copy of a frame's cel.
    pub(crate) fn duplicate_cel(&self, frame: usize) -> (c: Cel)
        requires
            frame < self@.cels.len(),
        ensures
            c@ == self@.cels[frame as int],
    {
        self.cels[frame].duplicate()
    }

    /// Takes a frame's cel out.
    pub(crate) fn remove_cel(&mut self, frame: usize) -> (c: Cel)
        requires
            frame < old(self)@.cels.len(),
        ensures
            c@ == old(self)@.cels[frame as int],
            final(self)@ == (LayerView {
                cels: old(self)@.cels.remove(frame as int),
                ..old(self)@
            }),
    {
        let ghost before = self.cels@;
        let c = self.cels.remove(frame);
        proof {
            assert(cel_views(self.cels@) =~= cel_views(before).remove(frame as int));
        }
        c
    }
}

/// The layers of a picture as a value.
pub struct LayersView<G> {
    pub layers: Seq<LayerView<G>>,
    pub active: int,
    pub active_frame: int,
    pub filters_enabled: bool,
}

impl<G> LayersView<G> {
    /// How many frames the picture has: as many as the first layer has cels.
    pub open spec fn frame_count(self) -> int {
        self.layers[0].cels.len() as int
    }

    /// At least one layer and one frame, every layer with a cel for every
    /// frame, and the active layer and frame among them.
    pub open spec fn wf(self) -> bool {
        &&& self.layers.len() >= 1
        &&& self.frame_count() >= 1
        &&& forall|k: int|
            0 <= k < self.layers.len() ==> #[trigger] self.layers[k].cels.len() == self.frame_count()
        &&& 0 <= self.active < self.layers.len()
        &&& 0 <= self.active_frame < self.frame_count()
    }

    /// The layers, with the one at `i` replaced.
    pub open spec fn with_layer(self, i: int, l: LayerView<G>) -> LayersView<G> {
        LayersView { layers: self.layers.update(i, l), ..self }
    }

    /// The layers, with one cel's image replaced.
    pub open spec fn with_cel(self, i: int, f: int, img: ImageView) -> LayersView<G> {
        self.with_layer(i, LayerView { cels: self.layers[i].cels.update(f, img), ..self.layers[i] })
    }

    /// The layers without the one at `i`; the active index stays among them.
    pub open spec fn deleted(self, i: int) -> LayersView<G> {
        LayersView {
            layers: self.layers.remove(i),
            active: if self.active <= self.layers.len() - 2 {
                self.active
            } else {
                self.layers.len() - 2
            },
            ..self
        }
    }

    /// The layers with `l` put in at `i`.
    pub open spec fn added_at(self, i: int, l: LayerView<G>) -> LayersView<G> {
        LayersView { layers: self.layers.insert(i, l), ..self }
    }

    /// Each layer's cel for frame `f`, in layer order.
    pub open spec fn frame_at(self, f: int) -> Seq<ImageView> {
        Seq::new(self.layers.len(), |k: int| self.layers[k].cels[f])
    }

    /// The layers without frame `f`; the active frame stays among them.
    pub open spec fn frame_removed(self, f: int) -> LayersView<G> {
        LayersView {
            layers: Seq::new(
                self.layers.len(),
                |k: int| LayerView { cels: self.layers[k].cels.remove(f), ..self.layers[k] },
            ),
            active_frame: if self.active_frame <= self.frame_count() - 2 {
                self.active_frame
            } else {
                self.frame_count() - 2
            },
            ..self
        }
    }

    /// The layers with a frame put in at `f`, layer `k` taking `cels[k]`; the
    /// new frame becomes the active one.
    pub open spec fn frame_inserted(self, f: int, cels: Seq<ImageView>) -> LayersView<G> {
        LayersView {
            layers: Seq::new(
                self.layers.len(),
                |k: int| LayerView { cels: self.layers[k].cels.insert(f, cels[k]), ..self.layers[k] },
            ),
            active_frame: if f <= self.frame_count() {
                f
            } else {
                self.frame_count()
            },
            ..self
        }
    }

    /// The size of a cel, from the first layer's first frame.
    pub open spec fn cel_size(self) -> (int, int) {
        (self.layers[0].cels[0].w, self.layers[0].cels[0].h)
    }
}

/// The images of a sequence of layers.
pub open spec fn layer_views<G>(layers: Seq<Layer<G>>) -> Seq<LayerView<G>> {
    layers.map_values(|l: Layer<G>| l@)
}

/// The default names from one to `k`.
spec fn default_names_up_to(k: nat) -> Set<Seq<char>>
    decreases k,
{
    if k == 0 {
        Set::empty()
    } else {
        default_names_up_to((k - 1) as nat).insert(layer_name(k))
    }
}

proof fn lemma_layer_name_injective(a: nat, b: nat)
    requires
        layer_name(a) == layer_name(b),
    ensures
        a == b,
{
    assert(layer_name(a).subrange(6, layer_name(a).len() as int) =~= decimal(a));
    assert(layer_name(b).subrange(6, layer_name(b).len() as int) =~= decimal(b));
    lemma_decimal_injective(a, b);
}

proof fn lemma_default_names_up_to(k: nat)
    ensures
        default_names_up_to(k).finite(),
        default_names_up_to(k).len() == k,
        forall|s: Seq<char>|
            #[trigger] default_names_up_to(k).contains(s) ==> exists|j: nat|
                1 <= j <= k && s == layer_name(j),
    decreases k,
{
    if k > 0 {
        lemma_default_names_up_to((k - 1) as nat);
        if default_names_up_to((k - 1) as nat).contains(layer_name(k)) {
            let j = choose|j: nat| 1 <= j <= k - 1 && layer_name(k) == layer_name(j);
            lemma_layer_name_injective(j, k);
        }
    }
}

/// There are no more default names among `names` than `names` has entries.
proof fn lemma_default_names_bounded(names: Seq<Seq<char>>, k: nat)
    requires
        forall|j: nat| 1 <= j <= k ==> names.contains(#[trigger] layer_name(j)),
    ensures
        k <= names.len(),
{
    lemma_default_names_up_to(k);
    let s = default_names_up_to(k);
    assert forall|x: Seq<char>| s.contains(x) implies names.to_set().contains(x) by {
        let j = choose|j: nat| 1 <= j <= k && x == layer_name(j);
        assert(names.contains(layer_name(j)));
    }
    vstd::set_lib::lemma_len_subset(s, names.to_set());
    names.lemma_cardinality_of_set();
}

/// What resizing every layer hands back: each layer's images as they were,
/// tagged with the layer and the frame, layer by layer and frame by frame.
pub open spec fn resize_record<G>(layers: Seq<LayerView<G>>) -> Seq<(int, int, ImageView)>
    decreases layers.len(),
{
    if layers.len() == 0 {
        seq![]
    } else {
        let k = layers.len() - 1;
        resize_record(layers.drop_last()) + Seq::new(
            layers.last().cels.len(),
            |f: int| (k, f, layers.last().cels[f]),
        )
    }
}

/// The names of a sequence of layers.
pub open spec fn layer_names<G>(layers: Seq<LayerView<G>>) -> Seq<Seq<char>> {
    layers.map_values(|l: LayerView<G>| l.name)
}

/// Whether `n` is the lowest number from one whose default name no layer
/// has.
pub open spec fn is_first_unused(names: Seq<Seq<char>>, n: nat) -> bool {
    &&& n >= 1
    &&& !names.contains(layer_name(n))
    &&& forall|j: nat| 1 <= j < n ==> names.contains(#[trigger] layer_name(j))
}

/// One blank layer, named as the first default, with one frame; filters on.
pub open spec fn fresh_layers<G>(size: Size) -> LayersView<G> {
    LayersView {
        layers: seq![
            LayerView {
                cels: blank_cels(size, 1),
                visible: true,
                opacity: 255,
                name: layer_name(1),
                filters: seq![],
                adjustment: false,
                generator: None,
            },
        ],
        active: 0,
        active_frame: 0,
        filters_enabled: true,
    }
}

/// An ordered stack of layers, all with the same number of frames; one
/// layer and one frame are active.
#[derive(Debug)]
pub struct Layers<G> {
    inner: Vec<Layer<G>>,
    active: usize,
    active_frame: usize,
    filters_enabled: bool,
}

impl<G> View for Layers<G> {
    type V = LayersView<G>;

    closed spec fn view(&self) -> LayersView<G> {
        LayersView {
            layers: layer_views(self.inner@),
            active: self.active as int,
            active_frame: self.active_frame as int,
            filters_enabled: self.filters_enabled,
        }
    }
}

impl<G> Layers<G> {
    /// One blank layer, named as the first default, with one frame.
    pub fn new(size: Size) -> (l: Layers<G>)
        requires
            size.x >= 0,
            size.y >= 0,
            size.x * size.y <= usize::MAX,
        ensures
            l@.wf(),
            l@ == fresh_layers::<G>(size),
    {
        let first: Layer<G> = Layer::new(size, default_layer_name(1), 1);
        let l = Layers { inner: vec![first], active: 0, active_frame: 0, filters_enabled: true };
        assert(l@.layers =~= seq![first@]);
        l
    }

    /// How many frames the picture has.
    pub fn frame_count(&self) -> (n: usize)
        requires
            self@.wf(),
        ensures
            n == self@.frame_count(),
    {
        self.inner[0].frame_count()
    }

    /// The frame being edited and shown.
    pub fn active_frame(&self) -> (f: usize)
        ensures
            f == self@.active_frame,
    {
        self.active_frame
    }

    /// The size a cel has, from the first layer's first frame.
    fn cel_size(&self) -> (s: Size)
        requires
            self@.wf(),
        ensures
            (s.x as int, s.y as int) == self@.cel_size(),
            s.x >= 0,
            s.y >= 0,
            s.x * s.y <= usize::MAX,
    {
        self.inner[0].canvas(0).size()
    }

    /// Switches to another frame, if there is one at that index.
    pub fn switch_frame(&mut self, frame: usize)
        requires
            old(self)@.wf(),
        ensures
            final(self)@ == if frame < old(self)@.frame_count() {
                LayersView { active_frame: frame as int, ..old(self)@ }
            } else {
                old(self)@
            },
    {
        if frame < self.frame_count() {
            self.active_frame = frame;
        }
    }

    /// The number of layers.
    pub fn count(&self) -> (n: usize)
        ensures
            n == self@.layers.len(),
    {
        self.inner.len()
    }

    /// The index of the active layer.
    pub fn active_index(&self) -> (i: usize)
        ensures
            i == self@.active,
    {
        self.active
    }

    /// The layer at an index.
    pub fn get(&self, index: usize) -> (l: &Layer<G>)
        requires
            index < self@.layers.len(),
        ensures
            l@ == self@.layers[index as int],
    {
        &self.inner[index]
    }

    /// The active layer.
    pub fn active(&self) -> (l: &Layer<G>)
        requires
            self@.wf(),
        ensures
            l@ == self@.layers[self@.active],
    {
        &self.inner[self.active]
    }

    /// The layer at an index, for changing it.
    pub fn get_mut(&mut self, index: usize) -> (l: &mut Layer<G>)
        requires
            index < old(self)@.layers.len(),
        ensures
            l@ == old(self)@.layers[index as int],
            final(self)@ == old(self)@.with_layer(index as int, final(l)@),
    {
        let ghost before = self.inner@;
        let l = &mut self.inner[index];
        proof {
            assert(layer_views(before.update(index as int, *final(l))) =~= layer_views(
                before,
            ).update(index as int, final(l)@));
        }
        l
    }

    /// Whether layer filters are applied.
    pub fn filters_enabled(&self) -> (b: bool)
        ensures
            b == self@.filters_enabled,
    {
        self.filters_enabled
    }

    /// Shows the layers with their filters applied, or as they are stored.
    pub fn set_filters_enabled(&mut self, enabled: bool)
        ensures
            final(self)@ == (LayersView { filters_enabled: enabled, ..old(self)@ }),
    {
        self.filters_enabled = enabled;
    }
    /// Replaces a layer's filter chain, and gives back the one it had.
    pub fn set_filters(&mut self, index: usize, filters: Vec<Filter>) -> (was: Vec<Filter>)
        requires
            index < old(self)@.layers.len(),
        ensures
            was@ == old(self)@.layers[index as int].filters,
            final(self)@ == old(self)@.with_layer(
                index as int,
                LayerView { filters: filters@, ..old(self)@.layers[index as int] },
            ),
    {
        self.get_mut(index).set_filters(filters)
    }

    /// Makes a layer filter what is below it, or draw again. Gives back what
    /// it was.
    pub fn set_adjustment(&mut self, index: usize, adjustment: bool) -> (was: bool)
        requires
            index < old(self)@.layers.len(),
        ensures
            was == old(self)@.layers[index as int].adjustment,
            final(self)@ == old(self)@.with_layer(
                index as int,
                LayerView { adjustment, ..old(self)@.layers[index as int] },
            ),
    {
        self.get_mut(index).set_adjustment(adjustment)
    }

    /// Replaces a layer's recipe, and gives back the one it had.
    pub fn set_generator(&mut self, index: usize, generator: Option<G>) -> (was: Option<G>)
        requires
            index < old(self)@.layers.len(),
        ensures
            was == old(self)@.layers[index as int].generator,
            final(self)@ == old(self)@.with_layer(
                index as int,
                LayerView { generator, ..old(self)@.layers[index as int] },
            ),
    {
        self.get_mut(index).set_generator(generator)
    }

    /// Renames a layer.
    pub fn set_name(&mut self, index: usize, name: String)
        requires
            index < old(self)@.layers.len(),
        ensures
            final(self)@ == old(self)@.with_layer(
                index as int,
                LayerView { name: name@, ..old(self)@.layers[index as int] },
            ),
    {
        self.get_mut(index).set_name(name);
    }

    /// Shows or hides a layer.
    pub fn set_visibility(&mut self, index: usize, visible: bool)
        requires
            index < old(self)@.layers.len(),
        ensures
            final(self)@ == old(self)@.with_layer(
                index as int,
                LayerView { visible, ..old(self)@.layers[index as int] },
            ),
    {
        self.get_mut(index).set_visibility(visible);
    }

    /// Sets the opacity of a layer.
    pub fn set_opacity(&mut self, index: usize, opacity: u8)
        requires
            index < old(self)@.layers.len(),
        ensures
            final(self)@ == old(self)@.with_layer(
                index as int,
                LayerView { opacity, ..old(self)@.layers[index as int] },
            ),
    {
        self.get_mut(index).set_opacity(opacity);
    }

    /// The active frame's canvas of a layer.
    pub fn canvas_at(&self, index: usize) -> (c: &Canvas)
        requires
            self@.wf(),
            index < self@.layers.len(),
        ensures
            c@ == self@.layers[index as int].cels[self@.active_frame],
    {
        self.inner[index].canvas(self.active_frame)
    }

    /// The active frame's canvas of the active layer.
    pub fn active_canvas(&self) -> (c: &Canvas)
        requires
            self@.wf(),
        ensures
            c@ == self@.layers[self@.active].cels[self@.active_frame],
    {
        self.canvas_at(self.active)
    }

    /// A frame's canvas of a layer, for drawing on; a change to it is made
    /// on that frame whichever is active.
    pub fn cel_mut(&mut self, index: usize, frame: usize) -> (c: &mut Canvas)
        requires
            index < old(self)@.layers.len(),
            frame < old(self)@.layers[index as int].cels.len(),
        ensures
            c@ == old(self)@.layers[index as int].cels[frame as int],
            final(self)@ == old(self)@.with_cel(index as int, frame as int, final(c)@),
    {
        let l = self.get_mut(index);
        l.canvas_mut(frame)
    }

    /// The active frame's canvas of a layer, for drawing on.
    pub fn canvas_at_mut(&mut self, index: usize) -> (c: &mut Canvas)
        requires
            old(self)@.wf(),
            index < old(self)@.layers.len(),
        ensures
            c@ == old(self)@.layers[index as int].cels[old(self)@.active_frame],
            final(self)@ == old(self)@.with_cel(
                index as int,
                old(self)@.active_frame,
                final(c)@,
            ),
    {
        let frame = self.active_frame;
        self.cel_mut(index, frame)
    }

    /// The active frame's canvas of the active layer, for drawing on.
    pub fn active_canvas_mut(&mut self) -> (c: &mut Canvas)
        requires
            old(self)@.wf(),
        ensures
            c@ == old(self)@.layers[old(self)@.active].cels[old(self)@.active_frame],
            final(self)@ == old(self)@.with_cel(
                old(self)@.active,
                old(self)@.active_frame,
                final(c)@,
            ),
    {
        let (active, frame) = (self.active, self.active_frame);
        self.cel_mut(active, frame)
    }

    /// Replaces a frame's image of a layer, and gives back the one it had.
    pub fn set_cel_img(&mut self, index: usize, frame: usize, img: Image) -> (was: Image)
        requires
            index < old(self)@.layers.len(),
            frame < old(self)@.layers[index as int].cels.len(),
        ensures
            was@ == old(self)@.layers[index as int].cels[frame as int],
            final(self)@ == old(self)@.with_cel(index as int, frame as int, img@),
    {
        let c = self.cel_mut(index, frame);
        let was = c.take_inner();
        c.set_img(img);
        was
    }

    /// Makes another layer the active one.
    pub fn switch_to(&mut self, index: usize)
        requires
            index < old(self)@.layers.len(),
        ensures
            final(self)@ == (LayersView { active: index as int, ..old(self)@ }),
    {
        self.active = index;
    }

    /// Puts a layer in at an index.
    pub fn add_at(&mut self, index: usize, layer: Layer<G>)
        requires
            index <= old(self)@.layers.len(),
        ensures
            final(self)@ == old(self)@.added_at(index as int, layer@),
    {
        let ghost before = self.inner@;
        self.inner.insert(index, layer);
        proof {
            assert(layer_views(self.inner@) =~= layer_views(before).insert(index as int, layer@));
        }
    }

    /// Takes the layer at an index out; the active index stays among the
    /// layers left. The last layer cannot be deleted.
    pub fn delete(&mut self, index: usize) -> (l: Layer<G>)
        requires
            index < old(self)@.layers.len(),
            old(self)@.layers.len() >= 2,
        ensures
            l@ == old(self)@.layers[index as int],
            final(self)@ == old(self)@.deleted(index as int),
    {
        let ghost before = self.inner@;
        let l = self.inner.remove(index);
        proof {
            assert(layer_views(self.inner@) =~= layer_views(before).remove(index as int));
        }
        let last = self.inner.len() - 1;
        if self.active > last {
            self.active = last;
        }
        l
    }

    /// Swaps the positions of two layers.
    pub fn swap(&mut self, first: usize, second: usize)
        requires
            first < old(self)@.layers.len(),
            second < old(self)@.layers.len(),
        ensures
            final(self)@ == (LayersView {
                layers: old(self)@.layers.update(first as int, old(self)@.layers[second as int]).update(
                    second as int,
                    old(self)@.layers[first as int],
                ),
                ..old(self)@
            }),
    {
        if first == second {
            proof {
                assert(self@.layers.update(first as int, self@.layers[second as int]).update(
                    second as int,
                    self@.layers[first as int],
                ) =~= self@.layers);
            }
            return;
        }
        let (lo, hi) = if first < second {
            (first, second)
        } else {
            (second, first)
        };
        let ghost before = self.inner@;
        let b = self.inner.remove(hi);
        let a = self.inner.remove(lo);
        self.inner.insert(lo, b);
        self.inner.insert(hi, a);
        proof {
            assert(self.inner@ =~= before.update(lo as int, before[hi as int]).update(
                hi as int,
                before[lo as int],
            ));
            assert(layer_views(self.inner@) =~= layer_views(before).update(
                first as int,
                layer_views(before)[second as int],
            ).update(second as int, layer_views(before)[first as int]));
        }
    }
    /// Adds a blank frame after the last, in every layer, and switches to
    /// it. Gives back its index.
    pub fn add_frame(&mut self) -> (f: usize)
        requires
            old(self)@.wf(),
        ensures
            f == old(self)@.frame_count(),
            final(self)@.wf(),
            final(self)@ == (LayersView {
                layers: Seq::new(
                    old(self)@.layers.len(),
                    |k: int|
                        LayerView {
                            cels: old(self)@.layers[k].cels.push(
                                ImageView::filled(
                                    old(self)@.cel_size().0,
                                    old(self)@.cel_size().1,
                                    transparent(),
                                ),
                            ),
                            ..old(self)@.layers[k]
                        },
                ),
                active_frame: old(self)@.frame_count(),
                ..old(self)@
            }),
    {
        let ghost start = self@;
        let size = self.cel_size();
        let ghost blank = ImageView::filled(size.x as int, size.y as int, transparent());
        let n = self.inner.len();
        let mut k: usize = 0;
        while k < n
            invariant
                0 <= k <= n,
                n == start.layers.len(),
                start.wf(),
                size.x >= 0,
                size.y >= 0,
                size.x * size.y <= usize::MAX,
                blank == ImageView::filled(size.x as int, size.y as int, transparent()),
                self@ == (LayersView { layers: self@.layers, ..start }),
                self@.layers.len() == n,
                forall|j: int|
                    0 <= j < k ==> #[trigger] self@.layers[j] == (LayerView {
                        cels: start.layers[j].cels.push(blank),
                        ..start.layers[j]
                    }),
                forall|j: int| k <= j < n ==> #[trigger] self@.layers[j] == start.layers[j],
            decreases n - k,
        {
            self.get_mut(k).add_cel(size);
            k = k + 1;
        }
        let f = self.get(0).frame_count() - 1;
        self.active_frame = f;
        proof {
            assert(self@.layers[0].cels.len() == start.frame_count() + 1);
            assert(self@.layers =~= Seq::new(
                start.layers.len(),
                |k: int| LayerView { cels: start.layers[k].cels.push(blank), ..start.layers[k] },
            ));
        }
        f
    }

    /// Puts a frame's cels back in at an index, layer `k` taking the `k`th
    /// cel, and switches to it.
    pub fn insert_frame(&mut self, frame: usize, cels: Vec<Cel>)
        requires
            old(self)@.wf(),
            frame <= old(self)@.frame_count(),
            cels@.len() == old(self)@.layers.len(),
        ensures
            final(self)@.wf(),
            final(self)@ == old(self)@.frame_inserted(frame as int, cel_views(cels@)),
    {
        let ghost start = self@;
        let ghost given = cel_views(cels@);
        let mut cels = cels;
        let mut k: usize = self.inner.len();
        while k > 0
            invariant
                0 <= k <= start.layers.len(),
                start.wf(),
                frame <= start.frame_count(),
                given.len() == start.layers.len(),
                cel_views(cels@) == given.subrange(0, k as int),
                self@ == (LayersView { layers: self@.layers, ..start }),
                self@.layers.len() == start.layers.len(),
                forall|j: int|
                    k <= j < start.layers.len() ==> #[trigger] self@.layers[j] == (LayerView {
                        cels: start.layers[j].cels.insert(frame as int, given[j]),
                        ..start.layers[j]
                    }),
                forall|j: int| 0 <= j < k ==> #[trigger] self@.layers[j] == start.layers[j],
            decreases k,
        {
            let ghost before = cels@;
            assert(cels@.len() == cel_views(cels@).len());
            let c = cels.pop().unwrap();
            proof {
                assert(cels@ == before.drop_last());
                assert(cel_views(before)[k - 1] == c@);
                assert(cel_views(cels@) =~= given.subrange(0, k - 1));
            }
            self.get_mut(k - 1).insert_cel(frame, c);
            k = k - 1;
        }
        let last = self.get(0).frame_count() - 1;
        self.active_frame = if frame <= last {
            frame
        } else {
            last
        };
        proof {
            assert(self@.layers =~= start.frame_inserted(frame as int, given).layers);
        }
    }

    /// Puts a copy of a frame right after it, in every layer, and switches
    /// to the copy. Gives back its index.
    pub fn duplicate_frame(&mut self, frame: usize) -> (f: usize)
        requires
            old(self)@.wf(),
            frame < old(self)@.frame_count(),
        ensures
            f == frame + 1,
            final(self)@.wf(),
            final(self)@ == (LayersView {
                layers: Seq::new(
                    old(self)@.layers.len(),
                    |k: int|
                        LayerView {
                            cels: old(self)@.layers[k].cels.insert(
                                frame + 1,
                                old(self)@.layers[k].cels[frame as int],
                            ),
                            ..old(self)@.layers[k]
                        },
                ),
                active_frame: frame + 1,
                ..old(self)@
            }),
    {
        let ghost start = self@;
        let fc = self.frame_count();
        let n = self.inner.len();
        let mut k: usize = 0;
        while k < n
            invariant
                0 <= k <= n,
                n == start.layers.len(),
                start.wf(),
                frame < start.frame_count(),
                fc == start.frame_count(),
                self@ == (LayersView { layers: self@.layers, ..start }),
                self@.layers.len() == n,
                forall|j: int|
                    0 <= j < k ==> #[trigger] self@.layers[j] == (LayerView {
                        cels: start.layers[j].cels.insert(frame + 1, start.layers[j].cels[frame as int]),
                        ..start.layers[j]
                    }),
                forall|j: int| k <= j < n ==> #[trigger] self@.layers[j] == start.layers[j],
            decreases n - k,
        {
            let copy = self.get(k).duplicate_cel(frame);
            self.get_mut(k).insert_cel(frame + 1, copy);
            k = k + 1;
        }
        self.active_frame = frame + 1;
        proof {
            assert(self@.layers[0].cels.len() == start.frame_count() + 1);
            assert(self@.layers =~= Seq::new(
                start.layers.len(),
                |k: int|
                    LayerView {
                        cels: start.layers[k].cels.insert(frame + 1, start.layers[k].cels[frame as int]),
                        ..start.layers[k]
                    },
            ));
        }
        frame + 1
    }

    /// Takes a frame out of every layer, and gives back its cels in layer
    /// order, so that it can be put back. The only frame is kept: then
    /// nothing happens.
    pub fn remove_frame(&mut self, frame: usize) -> (r: Option<Vec<Cel>>)
        requires
            old(self)@.wf(),
            old(self)@.frame_count() <= 1 || frame < old(self)@.frame_count(),
        ensures
            final(self)@.wf(),
            old(self)@.frame_count() <= 1 ==> r is None && final(self)@ == old(self)@,
            old(self)@.frame_count() > 1 ==> (r matches Some(cels) && cel_views(cels@) == old(
                self,
            )@.frame_at(frame as int) && final(self)@ == old(self)@.frame_removed(frame as int)),
    {
        if self.frame_count() <= 1 {
            return None;
        }
        let ghost start = self@;
        let n = self.inner.len();
        let mut cels: Vec<Cel> = Vec::new();
        let mut k: usize = 0;
        while k < n
            invariant
                0 <= k <= n,
                n == start.layers.len(),
                start.wf(),
                start.frame_count() > 1,
                frame < start.frame_count(),
                self@ == (LayersView { layers: self@.layers, ..start }),
                self@.layers.len() == n,
                cel_views(cels@) == start.frame_at(frame as int).subrange(0, k as int),
                forall|j: int|
                    0 <= j < k ==> #[trigger] self@.layers[j] == (LayerView {
                        cels: start.layers[j].cels.remove(frame as int),
                        ..start.layers[j]
                    }),
                forall|j: int| k <= j < n ==> #[trigger] self@.layers[j] == start.layers[j],
            decreases n - k,
        {
            let c = self.get_mut(k).remove_cel(frame);
            let ghost before = cels@;
            cels.push(c);
            proof {
                assert(cel_views(cels@) =~= cel_views(before).push(c@));
                assert(cel_views(cels@) =~= start.frame_at(frame as int).subrange(0, k + 1));
            }
            k = k + 1;
        }
        let last = self.get(0).frame_count() - 1;
        if self.active_frame > last {
            self.active_frame = last;
        }
        proof {
            assert(self@.layers =~= start.frame_removed(frame as int).layers);
            assert(start.frame_at(frame as int).subrange(0, n as int) =~= start.frame_at(frame as int));
        }
        Some(cels)
    }
    /// Resizes every frame of every layer, and gives back the images as they
    /// were, tagged with their layer and frame.
    pub fn resize_all(&mut self, size: Size) -> (imgs: Vec<(usize, usize, Image)>)
        requires
            size.x >= 0,
            size.y >= 0,
            size.x * size.y <= usize::MAX,
        ensures
            imgs@.map_values(|t: (usize, usize, Image)| (t.0 as int, t.1 as int, t.2@))
                == resize_record(old(self)@.layers),
            final(self)@ == (LayersView {
                layers: Seq::new(
                    old(self)@.layers.len(),
                    |k: int|
                        LayerView {
                            cels: old(self)@.layers[k].cels.map_values(
                                |v: ImageView| resized(v, size.x as int, size.y as int),
                            ),
                            ..old(self)@.layers[k]
                        },
                ),
                ..old(self)@
            }),
    {
        let ghost start = self@;
        let n = self.inner.len();
        let mut out: Vec<(usize, usize, Image)> = Vec::new();
        let mut k: usize = 0;
        while k < n
            invariant
                0 <= k <= n,
                n == start.layers.len(),
                size.x >= 0,
                size.y >= 0,
                size.x * size.y <= usize::MAX,
                self@ == (LayersView { layers: self@.layers, ..start }),
                self@.layers.len() == n,
                out@.map_values(|t: (usize, usize, Image)| (t.0 as int, t.1 as int, t.2@))
                    == resize_record(start.layers.subrange(0, k as int)),
                forall|j: int|
                    0 <= j < k ==> #[trigger] self@.layers[j] == (LayerView {
                        cels: start.layers[j].cels.map_values(
                            |v: ImageView| resized(v, size.x as int, size.y as int),
                        ),
                        ..start.layers[j]
                    }),
                forall|j: int| k <= j < n ==> #[trigger] self@.layers[j] == start.layers[j],
            decreases n - k,
        {
            let mut imgs = self.get_mut(k).resize(size);
            let ghost cels = start.layers[k as int].cels;
            let ghost out0 = out@;
            let count = imgs.len();
            let mut f: usize = 0;
            while f < count
                invariant
                    0 <= f <= count,
                    count == cels.len(),
                    imgs@.len() == count - f,
                    forall|i: int| 0 <= i < imgs@.len() ==> #[trigger] imgs@[i]@ == cels[f + i],
                    out@.len() == out0.len() + f,
                    forall|i: int| 0 <= i < out0.len() ==> #[trigger] out@[i] == out0[i],
                    forall|i: int|
                        0 <= i < f ==> (#[trigger] out@[out0.len() + i]).0 == k && out@[out0.len()
                            + i].1 == i && out@[out0.len() + i].2@ == cels[i],
                decreases count - f,
            {
                let ghost before = imgs@;
                let img = imgs.remove(0);
                proof {
                    assert forall|i: int| 0 <= i < imgs@.len() implies #[trigger] imgs@[i]@ == cels[f
                        + 1 + i] by {
                        assert(imgs@[i] == before[i + 1]);
                    }
                }
                out.push((k, f, img));
                f = f + 1;
            }
            proof {
                let sub = start.layers.subrange(0, k + 1);
                assert(sub.drop_last() =~= start.layers.subrange(0, k as int));
                assert(sub.last() == start.layers[k as int]);
                let tail = Seq::new(cels.len(), |f: int| (k as int, f, cels[f]));
                assert(resize_record(sub) == resize_record(start.layers.subrange(0, k as int))
                    + tail);
                let m = out@.map_values(|t: (usize, usize, Image)| (t.0 as int, t.1 as int, t.2@));
                let m0 = out0.map_values(|t: (usize, usize, Image)| (t.0 as int, t.1 as int, t.2@));
                assert forall|i: int| 0 <= i < m.len() implies #[trigger] m[i] == (m0 + tail)[i] by {
                    if i < out0.len() {
                        assert(out@[i] == out0[i]);
                    } else {
                        assert(out@[out0.len() + (i - out0.len())].1 == i - out0.len());
                    }
                }
                assert(m =~= m0 + tail);
            }
            k = k + 1;
        }
        proof {
            assert(start.layers.subrange(0, n as int) =~= start.layers);
            assert(self@.layers =~= Seq::new(
                start.layers.len(),
                |k: int|
                    LayerView {
                        cels: start.layers[k].cels.map_values(
                            |v: ImageView| resized(v, size.x as int, size.y as int),
                        ),
                        ..start.layers[k]
                    },
            ));
        }
        out
    }

    /// Whether some layer has this name.
    fn has_layer_named(&self, name: &String) -> (b: bool)
        ensures
            b == layer_names(self@.layers).contains(name@),
    {
        let mut i: usize = 0;
        while i < self.inner.len()
            invariant
                0 <= i <= self@.layers.len(),
                forall|j: int| 0 <= j < i ==> self@.layers[j].name != name@,
            decreases self@.layers.len() - i,
        {
            if crate::filter::same_text(self.get(i).name(), name.as_str()) {
                proof {
                    assert(layer_names(self@.layers)[i as int] == name@);
                }
                return true;
            }
            i = i + 1;
        }
        proof {
            if layer_names(self@.layers).contains(name@) {
                let j = choose|j: int|
                    0 <= j < layer_names(self@.layers).len() && layer_names(self@.layers)[j] == name@;
                assert(self@.layers[j].name == name@);
            }
        }
        false
    }

    /// The lowest numbered default name that no layer has, so that adding
    /// layers after deleting some does not give two the same name.
    fn unused_default_name(&self) -> (s: String)
        requires
            self@.layers.len() < usize::MAX,
        ensures
            exists|n: nat| is_first_unused(layer_names(self@.layers), n) && s@ == layer_name(n),
    {
        let ghost names = layer_names(self@.layers);
        let count = self.inner.len();
        let mut n: usize = 1;
        loop
            invariant
                1 <= n <= count + 1,
                count == self@.layers.len(),
                count < usize::MAX,
                names == layer_names(self@.layers),
                forall|j: nat| 1 <= j < n ==> names.contains(#[trigger] layer_name(j)),
            decreases count + 1 - n,
        {
            let candidate = default_layer_name(n);
            if !self.has_layer_named(&candidate) {
                proof {
                    assert(is_first_unused(names, n as nat));
                }
                return candidate;
            }
            proof {
                assert forall|j: nat| 1 <= j <= n implies names.contains(#[trigger] layer_name(j)) by {
                    if j < n {
                    }
                }
                lemma_default_names_bounded(names, n as nat);
            }
            n = n + 1;
        }
    }

    /// Adds a blank layer above all others, with a cel for every frame and
    /// the lowest numbered default name that is free.
    pub fn add_new_above(&mut self)
        requires
            old(self)@.wf(),
            old(self)@.layers.len() < usize::MAX,
        ensures
            final(self)@.wf(),
            exists|n: nat|
                is_first_unused(layer_names(old(self)@.layers), n) && final(self)@ == (LayersView {
                    layers: old(self)@.layers.push(
                        LayerView {
                            cels: Seq::new(
                                old(self)@.frame_count() as nat,
                                |i: int|
                                    ImageView::filled(
                                        old(self)@.cel_size().0,
                                        old(self)@.cel_size().1,
                                        transparent(),
                                    ),
                            ),
                            visible: true,
                            opacity: 255,
                            name: layer_name(n),
                            filters: seq![],
                            adjustment: false,
                            generator: None,
                        },
                    ),
                    ..old(self)@
                }),
    {
        let ghost start = self@;
        let size = self.cel_size();
        let name = self.unused_default_name();
        let frames = self.frame_count();
        let layer: Layer<G> = Layer::new(size, name, frames);
        let ghost before = self.inner@;
        self.inner.push(layer);
        proof {
            assert(layer_views(self.inner@) =~= layer_views(before).push(layer@));
            assert(self@.layers[self@.layers.len() - 1] == layer@);
        }
    }
}

} // verus!
