//! The editor's document state: the layers, the drawing settings, and the
//! history of edits that undo and redo walk through.

use vstd::prelude::*;
use crate::action::{
    edits_images_wf, images_wf, lemma_step_undone, lemma_undo_restores, run, runnable, step, Action,
    AtomicAction, AtomicView, edit_views,
};
use crate::canvas::{
    area_points, area_view, lemma_undo_painting, painted, resized, reversals, Canvas, CanvasEffect,
};
use crate::fill::{filled_region, in_region};
use crate::graphics::{
    brush, delta_fits, line_points, rectangle, rectangle_points, room_for_brush, stamp, thicken,
    thickened, MAX_BRUSH_RADIUS,
};
use crate::names::layer_name;
use crate::color::{black, transparent, Color};
use crate::geom::{Point, Rect, Size};
use crate::image::{lemma_ext, lemma_from_fn, lemma_set, Image, ImageView};
use crate::layer::{
    fresh_layers, is_first_unused, layer_names, resize_record, LayerView, Layers, LayersView,
};
use crate::palette::{default_colors, Palette};

verus! {

/// What is selected.
#[derive(Clone, Copy, Debug, PartialEq, Eq, Structural)]
pub enum Selection {
    /// A rectangular area of the canvas.
    Canvas(Rect),
    /// A free image, not part of the canvas until it is anchored.
    FreeImage,
}

/// The tools the editor draws and selects with.
#[derive(Clone, Copy, Debug, PartialEq, Eq, Structural)]
pub enum Tool {
    Brush,
    Eraser,
    Line,
    Rectangle,
    Ellipse,
    Bucket,
    Eyedropper,
    Selection,
    Move,
    Smooth,
}

/// Why an event could not be carried out.
#[derive(Clone, Copy, Debug, PartialEq, Eq, Structural)]
pub enum StateError {
    /// A shape was finished without having been started.
    DrawingNotStarted,
}

/// Something the user did, for the editor to carry out.
#[derive(Debug)]
pub enum Event {
    /// Makes the active cel transparent.
    ClearCanvas,
    /// Resizes every cel, keeping what stays in bounds.
    ResizeCanvas(Size),
    /// Starts a line at a point.
    LineStart(Point),
    /// Finishes the line started by the previous event.
    LineEnd(Point),
    /// Starts a rectangle at a corner.
    RectStart(Point),
    /// Finishes the rectangle started by the previous event.
    RectEnd(Point),
    /// Starts an ellipse at a corner.
    EllipseStart(Point),
    /// Finishes the ellipse started by the previous event at the opposite
    /// corner, along with the points of its outline, which are worked out
    /// in floating point outside the library.
    EllipseEnd(Point, Vec<Point>),
    /// Starts a brush stroke.
    BrushStart,
    /// Drags the brush to a point.
    BrushStroke(Point),
    /// Finishes a brush stroke.
    BrushEnd,
    /// Starts erasing.
    EraseStart,
    /// Drags the eraser to a point.
    Erase(Point),
    /// Finishes erasing.
    EraseEnd,
    SetTool(Tool),
    SetMainColor(Color),
    /// Sets the brush radius, capped at the largest the brush draws.
    SetBrushRadius(u8),
    AddToPalette(Color),
    RemoveFromPalette(Color),
    /// Fills the region around a point with the main color.
    Bucket(Point),
    ClearSelection,
    /// Starts selecting at a corner.
    StartSelection(Point),
    /// Selects the rectangle from the corner given by the previous event to
    /// this one, within the canvas.
    EndSelection(Point),
    /// Copies the selected part of the canvas.
    Copy,
    /// Makes the selected part of the canvas transparent.
    DeleteSelection,
    NewLayerAbove,
    SwitchLayer(usize),
    ChangeLayerVisibility(usize, bool),
    ChangeLayerOpacity(usize, u8),
    RenameLayer(usize, String),
    DeleteLayer(usize),
    /// Swaps a layer with the one below it.
    MoveLayerDown(usize),
    /// Swaps a layer with the one above it.
    MoveLayerUp(usize),
    /// Frames across and down in the spritesheet.
    SetSpritesheet((u8, u8)),
    AddFrame,
    DuplicateFrame(usize),
    DeleteFrame(usize),
    SwitchFrame(usize),
    Undo,
    Redo,
}

/// The state as a value.
pub struct StateView<G> {
    pub layers: LayersView<G>,
    pub main_color: Color,
    pub brush_radius: u8,
    pub spritesheet: (u8, u8),
    pub selection: Option<Selection>,
    pub clipboard: Option<ImageView>,
    /// The actions that undo, the last one first.
    pub reversals: Seq<Seq<AtomicView<G>>>,
    /// The actions that redo what was undone, the last one first.
    pub redos: Seq<Seq<AtomicView<G>>>,
    /// The action being built up while an edit is in progress.
    pub cur_reversal: Option<Seq<AtomicView<G>>>,
    pub tool: Tool,
    pub palette: Seq<Color>,
    /// The events carried out, in order.
    pub events: Seq<Event>,
}

/// The state after undoing: the last reversal applied to the layers, and
/// what redoes it put on the redo stack, where it changed anything.
pub open spec fn undone<G>(s: StateView<G>) -> StateView<G> {
    if s.reversals.len() == 0 {
        s
    } else {
        let (layers, inverse) = run(s.layers, s.reversals.last());
        StateView {
            layers,
            reversals: s.reversals.drop_last(),
            redos: if inverse.len() == 0 {
                s.redos
            } else {
                s.redos.push(inverse)
            },
            ..s
        }
    }
}

/// The state after redoing: the last redo applied to the layers, and what
/// undoes it put back on the undo stack, where it changed anything.
pub open spec fn redone<G>(s: StateView<G>) -> StateView<G> {
    if s.redos.len() == 0 {
        s
    } else {
        let (layers, inverse) = run(s.layers, s.redos.last());
        StateView {
            layers,
            redos: s.redos.drop_last(),
            reversals: if inverse.len() == 0 {
                s.reversals
            } else {
                s.reversals.push(inverse)
            },
            ..s
        }
    }
}

/// The effect on the canvas of applying an action.
pub open spec fn action_effect<G>(a: Seq<AtomicView<G>>) -> CanvasEffect {
    if a.len() == 0 {
        CanvasEffect::Unaffected
    } else {
        CanvasEffect::Layer
    }
}

/// The event carried out last, if any.
pub open spec fn last_event<G>(s: StateView<G>) -> Option<Event> {
    if s.events.len() == 0 {
        None
    } else {
        Some(s.events.last())
    }
}

/// A drag of the brush or the eraser to the point it was dragged to last:
/// the pointer did not move, and the event is let go.
pub open spec fn unmoved<G>(s: StateView<G>, e: Event) -> bool {
    match e {
        Event::BrushStroke(q) => last_event(s) == Some(Event::BrushStroke(q)),
        Event::Erase(q) => last_event(s) == Some(Event::Erase(q)),
        _ => false,
    }
}

/// The active frame's cel of the active layer.
pub open spec fn active_cel<G>(s: StateView<G>) -> ImageView {
    s.layers.layers[s.layers.active].cels[s.layers.active_frame]
}

/// The state with the active cel replaced.
pub open spec fn with_active_cel<G>(s: StateView<G>, img: ImageView) -> StateView<G> {
    StateView { layers: s.layers.with_cel(s.layers.active, s.layers.active_frame, img), ..s }
}

/// The edits that put back the pixels of `revs` on the active cel.
pub open spec fn pixel_edits<G>(s: StateView<G>, revs: Seq<(Point, Color)>) -> Seq<AtomicView<G>> {
    revs.map_values(
        |pc: (Point, Color)| AtomicView::<G>::SetPixel(s.layers.active, s.layers.active_frame, pc.0, pc.1),
    )
}

/// The undo stack with the action in progress, if any, closed.
pub open spec fn closed_reversals<G>(s: StateView<G>) -> Seq<Seq<AtomicView<G>>> {
    match s.cur_reversal {
        Some(a) => s.reversals.push(a),
        None => s.reversals,
    }
}

/// The state after ending the action in progress, if there is one.
pub open spec fn ended<G>(s: StateView<G>) -> StateView<G> {
    match s.cur_reversal {
        Some(a) => StateView {
            reversals: s.reversals.push(a),
            redos: Seq::<Seq<AtomicView<G>>>::empty(),
            cur_reversal: None,
            ..s
        },
        None => s,
    }
}

/// The state with `edits` recorded as an action of their own.
pub open spec fn with_action<G>(s: StateView<G>, edits: Seq<AtomicView<G>>) -> StateView<G> {
    StateView {
        reversals: closed_reversals(s).push(edits),
        redos: Seq::<Seq<AtomicView<G>>>::empty(),
        cur_reversal: None,
        ..s
    }
}

/// The state with `edits` added to the action in progress, one being
/// started if there is none.
pub open spec fn with_more<G>(s: StateView<G>, edits: Seq<AtomicView<G>>) -> StateView<G> {
    StateView {
        cur_reversal: Some(
            match s.cur_reversal {
                Some(a) => a,
                None => Seq::<AtomicView<G>>::empty(),
            } + edits,
        ),
        ..s
    }
}

/// The state after painting `pts` with `c` on the active cel, recorded as
/// an action of its own.
pub open spec fn drawn<G>(s: StateView<G>, pts: Seq<Point>, c: Color) -> StateView<G> {
    with_action(
        with_active_cel(s, painted(active_cel(s), pts, c)),
        pixel_edits(s, reversals(active_cel(s), pts, c)),
    )
}

/// The state after painting `pts` with `c` on the active cel, as part of
/// the stroke in progress.
pub open spec fn stroked<G>(s: StateView<G>, pts: Seq<Point>, c: Color) -> StateView<G> {
    with_more(
        with_active_cel(s, painted(active_cel(s), pts, c)),
        pixel_edits(s, reversals(active_cel(s), pts, c)),
    )
}

/// The points a brush of `radius` covers dragged from `p0` to `p`.
pub open spec fn dragged(p0: Point, p: Point, radius: u8) -> Seq<Point> {
    if radius == 0 {
        line_points(p0, p)
    } else {
        thickened(line_points(p0, p), radius)
    }
}

/// The outline of the rectangle with corners `p0` and `p`, drawn with a
/// brush of `radius`.
pub open spec fn outlined(p0: Point, p: Point, radius: u8) -> Seq<Point> {
    if radius == 0 {
        rectangle_points(p0, p)
    } else {
        thickened(rectangle_points(p0, p), radius)
    }
}

/// A given outline drawn with a brush of `radius`.
pub open spec fn traced(outline: Seq<Point>, radius: u8) -> Seq<Point> {
    if radius == 0 {
        outline
    } else {
        thickened(outline, radius)
    }
}

/// The points a brush stroke to `p` paints: dragged from the point of the
/// previous stroke, stamped once just after the start, or none.
pub open spec fn brush_trail(last: Option<Event>, p: Point, radius: u8) -> Seq<Point> {
    match last {
        Some(Event::BrushStroke(p0)) => dragged(p0, p, radius),
        Some(Event::BrushStart) => stamp(p, brush(radius)),
        _ => Seq::<Point>::empty(),
    }
}

/// The points an eraser stroke to `p` clears, as for the brush.
pub open spec fn erase_trail(last: Option<Event>, p: Point, radius: u8) -> Seq<Point> {
    match last {
        Some(Event::Erase(p0)) => dragged(p0, p, radius),
        Some(Event::EraseStart) => stamp(p, brush(radius)),
        _ => Seq::<Point>::empty(),
    }
}

/// Whether the brush can be dragged or stamped to `p` without leaving the
/// range of coordinates.
pub open spec fn trail_fits(last: Option<Event>, p: Point, radius: u8, erasing: bool) -> bool {
    match last {
        Some(Event::BrushStroke(p0)) => erasing || (delta_fits(p0, p) && room_for_brush(
            line_points(p0, p),
            radius,
        )),
        Some(Event::Erase(p0)) => !erasing || (delta_fits(p0, p) && room_for_brush(
            line_points(p0, p),
            radius,
        )),
        _ => room_for_brush(seq![p], radius),
    }
}

/// The rectangle with corners `p0` and `p`, both included: its left edge,
/// top edge, width and height.
pub open spec fn spanned(p0: Point, p: Point) -> (int, int, int, int) {
    (
        if p0.x <= p.x { p0.x as int } else { p.x as int },
        if p0.y <= p.y { p0.y as int } else { p.y as int },
        (if p0.x <= p.x { p.x - p0.x } else { p0.x - p.x }) + 1,
        (if p0.y <= p.y { p.y - p0.y } else { p0.y - p.y }) + 1,
    )
}

/// A rectangle given by its left edge, top edge, width and height, cut
/// down to the part inside `w` by `h`; empty where nothing of it is inside.
pub open spec fn clipped(r: (int, int, int, int), w: int, h: int) -> Rect {
    let cx0 = clamp(r.0, 0, w);
    let cy0 = clamp(r.1, 0, h);
    let cx1 = clamp(r.0 + r.2, 0, w);
    let cy1 = clamp(r.1 + r.3, 0, h);
    Rect {
        x: cx0 as i32,
        y: cy0 as i32,
        w: (if cx1 > cx0 { cx1 - cx0 } else { 0 }) as i32,
        h: (if cy1 > cy0 { cy1 - cy0 } else { 0 }) as i32,
    }
}

/// The rectangle with corners `p0` and `p`, both included, cut down to the
/// part inside `w` by `h`.
pub open spec fn selected_rect(p0: Point, p: Point, w: int, h: int) -> Rect {
    clipped(spanned(p0, p), w, h)
}

/// The selection a drag started by the last event would make if it ended
/// at `m`: none when no selection is being dragged.
pub open spec fn selection_preview<G>(s: StateView<G>, m: Point) -> Option<Rect> {
    match last_event(s) {
        Some(Event::StartSelection(p0)) => Some(
            selected_rect(p0, m, active_cel(s).w, active_cel(s).h),
        ),
        _ => None,
    }
}

/// `v` brought within `lo` and `hi`.
pub open spec fn clamp(v: int, lo: int, hi: int) -> int {
    if v < lo {
        lo
    } else if v > hi {
        hi
    } else {
        v
    }
}

/// Whether an area lies where images can be read and written in it.
pub open spec fn usable_area(r: Rect) -> bool {
    &&& r.x >= 0
    &&& r.y >= 0
    &&& r.w >= 0
    &&& r.h >= 0
    &&& r.x + r.w <= i32::MAX
    &&& r.y + r.h <= i32::MAX
    &&& r.w * r.h <= usize::MAX
}

/// What a fill of the region around `p` with `c` gives back for undoing:
/// the old color of each pixel of the region, each pixel once, and what
/// sets them back gives the image as it was.
pub open spec fn fill_record(v: ImageView, p: Point, c: Color, revs: Seq<(Point, Color)>) -> bool {
    &&& v.at(p.x as int, p.y as int) == c ==> revs.len() == 0
    &&& forall|k: int|
        0 <= k < revs.len() ==> in_region(v, p, (#[trigger] revs[k]).0) && revs[k].1 == v.at(
            p.x as int,
            p.y as int,
        )
    &&& forall|q: Point|
        v.at(p.x as int, p.y as int) != c && #[trigger] in_region(v, p, q) ==> exists|k: int|
            0 <= k < revs.len() && revs[k].0 == q
    &&& forall|i: int, j: int| 0 <= i < j < revs.len() ==> revs[i].0 != revs[j].0
    &&& crate::canvas::undone(fill_image(v, p, c), revs) == v
}

/// The image after filling the region around `p` with `c`.
pub open spec fn fill_image(v: ImageView, p: Point, c: Color) -> ImageView {
    if v.at(p.x as int, p.y as int) == c {
        v
    } else {
        filled_region(v, p, c)
    }
}

/// Whether the state can carry out the event: the layers are well formed,
/// the layer, frame and size the event names are there or can be made, a
/// shape or stroke stays within the range of coordinates, and an action
/// to undo or redo fits the layers.
pub open spec fn admissible<G>(s: StateView<G>, e: Event) -> bool {
    let n = s.layers.layers.len();
    &&& s.layers.wf()
    &&& match e {
        Event::ResizeCanvas(size) => size.x >= 0 && size.y >= 0 && size.x * size.y <= usize::MAX,
        Event::LineEnd(p) => match last_event(s) {
            Some(Event::LineStart(p0)) => delta_fits(p0, p) && room_for_brush(
                line_points(p0, p),
                s.brush_radius,
            ),
            _ => true,
        },
        Event::RectEnd(p) => match last_event(s) {
            Some(Event::RectStart(p0)) => delta_fits(p0, p) && room_for_brush(
                rectangle_points(p0, p),
                s.brush_radius,
            ),
            _ => true,
        },
        Event::EllipseEnd(_, outline) => match last_event(s) {
            Some(Event::EllipseStart(_)) => room_for_brush(outline@, s.brush_radius),
            _ => true,
        },
        Event::BrushStroke(p) => trail_fits(last_event(s), p, s.brush_radius, false),
        Event::Erase(p) => trail_fits(last_event(s), p, s.brush_radius, true),
        Event::NewLayerAbove => n < usize::MAX,
        Event::SwitchLayer(i) => i < n,
        Event::ChangeLayerVisibility(i, _) => i < n,
        Event::ChangeLayerOpacity(i, _) => i < n,
        Event::RenameLayer(i, _) => i < n,
        Event::DeleteLayer(i) => i < n && n >= 2,
        Event::MoveLayerDown(i) => 1 <= i < n,
        Event::MoveLayerUp(i) => i + 1 < n,
        Event::SetSpritesheet(size) => size.0 > 0 && size.1 > 0,
        Event::DuplicateFrame(f) => f < s.layers.frame_count(),
        Event::DeleteFrame(f) => s.layers.frame_count() <= 1 || f < s.layers.frame_count(),
        Event::Undo => s.reversals.len() > 0 ==> runnable(s.layers, s.reversals.last()),
        Event::Redo => s.redos.len() > 0 ==> runnable(s.layers, s.redos.last()),
        _ => true,
    }
}

/// What an event asks to be drawn again once carried out: the canvas for
/// what changes pixels, a new canvas for a new size, the layers for what
/// changes layers or frames, and nothing for the rest.
pub open spec fn event_effect(e: Event) -> CanvasEffect {
    match e {
        Event::ClearCanvas | Event::LineEnd(_) | Event::RectEnd(_) | Event::EllipseEnd(_, _)
        | Event::BrushStroke(_)
        | Event::Erase(_) | Event::Bucket(_) | Event::DeleteSelection => CanvasEffect::Update,
        Event::ResizeCanvas(_) => CanvasEffect::New,
        Event::NewLayerAbove | Event::SwitchLayer(_) | Event::ChangeLayerVisibility(_, _)
        | Event::ChangeLayerOpacity(_, _) | Event::RenameLayer(_, _) | Event::DeleteLayer(_)
        | Event::MoveLayerDown(_) | Event::MoveLayerUp(_) | Event::AddFrame
        | Event::DuplicateFrame(_) | Event::DeleteFrame(_) | Event::SwitchFrame(_) => CanvasEffect::Layer,
        _ => CanvasEffect::Unaffected,
    }
}

/// The layer a new layer above all others is: blank in every frame,
/// shown, opaque, and given the `n`th default name.
pub open spec fn blank_layer<G>(v: LayersView<G>, n: nat) -> LayerView<G> {
    LayerView {
        cels: Seq::new(
            v.frame_count() as nat,
            |i: int| ImageView::filled(v.cel_size().0, v.cel_size().1, transparent()),
        ),
        visible: true,
        opacity: 255,
        name: layer_name(n),
        filters: seq![],
        adjustment: false,
        generator: None,
    }
}

/// The layers with every cel resized to `w` by `h`.
pub open spec fn all_resized<G>(v: LayersView<G>, w: int, h: int) -> LayersView<G> {
    LayersView {
        layers: Seq::new(
            v.layers.len(),
            |k: int|
                LayerView {
                    cels: v.layers[k].cels.map_values(|c: ImageView| resized(c, w, h)),
                    ..v.layers[k]
                },
        ),
        ..v
    }
}

/// The edits that put back every cel as it was before resizing.
pub open spec fn resize_edits<G>(v: LayersView<G>) -> Seq<AtomicView<G>> {
    resize_record(v.layers).map_values(
        |t: (int, int, ImageView)| AtomicView::<G>::SetLayerCanvas(t.0, t.1, t.2),
    )
}

/// The layers with a blank frame added at the end, which becomes active.
pub open spec fn frame_added<G>(v: LayersView<G>) -> LayersView<G> {
    LayersView {
        layers: Seq::new(
            v.layers.len(),
            |k: int|
                LayerView {
                    cels: v.layers[k].cels.push(
                        ImageView::filled(v.cel_size().0, v.cel_size().1, transparent()),
                    ),
                    ..v.layers[k]
                },
        ),
        active_frame: v.frame_count(),
        ..v
    }
}

/// The layers with frame `f` copied just after it, the copy active.
pub open spec fn frame_duplicated<G>(v: LayersView<G>, f: int) -> LayersView<G> {
    LayersView {
        layers: Seq::new(
            v.layers.len(),
            |k: int| LayerView { cels: v.layers[k].cels.insert(f + 1, v.layers[k].cels[f]), ..v.layers[k] },
        ),
        active_frame: f + 1,
        ..v
    }
}

/// The layers with the ones at `i` and `j` swapped.
pub open spec fn swapped<G>(v: LayersView<G>, i: int, j: int) -> LayersView<G> {
    LayersView { layers: v.layers.update(i, v.layers[j]).update(j, v.layers[i]), ..v }
}

/// The state with its layers replaced.
pub open spec fn with_layers<G>(s: StateView<G>, l: LayersView<G>) -> StateView<G> {
    StateView { layers: l, ..s }
}

/// What carrying out an event does, apart from recording the event: the
/// state `t` it leaves and what it returns `r`. Filling and adding a layer
/// are stated by what they satisfy; every other event has one outcome.
pub open spec fn carried<G>(
    s: StateView<G>,
    e: Event,
    t: StateView<G>,
    r: Result<CanvasEffect, StateError>,
) -> bool {
    let a = s.layers.active;
    let f = s.layers.active_frame;
    let cel = active_cel(s);
    let n = s.layers.layers.len();
    let done = r == Ok::<CanvasEffect, StateError>(event_effect(e));
    match e {
        Event::ClearCanvas => done && t == StateView {
            reversals: s.reversals.push(seq![AtomicView::<G>::SetLayerCanvas(a, f, cel)]),
            redos: Seq::<Seq<AtomicView<G>>>::empty(),
            cur_reversal: None,
            ..with_active_cel(s, ImageView::filled(cel.w, cel.h, transparent()))
        },
        Event::ResizeCanvas(size) => done && t == StateView {
            reversals: s.reversals.push(resize_edits(s.layers)),
            redos: Seq::<Seq<AtomicView<G>>>::empty(),
            cur_reversal: None,
            ..with_layers(s, all_resized(s.layers, size.x as int, size.y as int))
        },
        Event::LineEnd(p) => match last_event(s) {
            Some(Event::LineStart(p0)) => done && t == drawn(
                s,
                dragged(p0, p, s.brush_radius),
                s.main_color,
            ),
            _ => t == s && r == Err::<CanvasEffect, StateError>(StateError::DrawingNotStarted),
        },
        Event::RectEnd(p) => match last_event(s) {
            Some(Event::RectStart(p0)) => done && t == drawn(
                s,
                outlined(p0, p, s.brush_radius),
                s.main_color,
            ),
            _ => t == s && r == Err::<CanvasEffect, StateError>(StateError::DrawingNotStarted),
        },
        Event::EllipseEnd(_, outline) => match last_event(s) {
            Some(Event::EllipseStart(_)) => done && t == drawn(
                s,
                traced(outline@, s.brush_radius),
                s.main_color,
            ),
            _ => t == s && r == Err::<CanvasEffect, StateError>(StateError::DrawingNotStarted),
        },
        Event::BrushStart | Event::EraseStart => done && t == StateView {
            cur_reversal: Some(Seq::<AtomicView<G>>::empty()),
            ..s
        },
        Event::BrushEnd | Event::EraseEnd => done && t == ended(s),
        Event::BrushStroke(p) => done && t == stroked(
            s,
            brush_trail(last_event(s), p, s.brush_radius),
            s.main_color,
        ),
        Event::Erase(p) => done && t == stroked(
            s,
            erase_trail(last_event(s), p, s.brush_radius),
            transparent(),
        ),
        Event::SetTool(tool) => done && t == StateView { tool, ..s },
        Event::SetMainColor(c) => done && t == StateView { main_color: c, ..s },
        Event::SetBrushRadius(radius) => done && t == StateView {
            brush_radius: if radius > MAX_BRUSH_RADIUS {
                MAX_BRUSH_RADIUS
            } else {
                radius
            },
            ..s
        },
        Event::AddToPalette(c) => done && t == StateView {
            palette: if s.palette.contains(c) {
                s.palette
            } else {
                s.palette.push(c)
            },
            ..s
        },
        Event::RemoveFromPalette(c) => done && t == StateView {
            palette: s.palette.filter(|k: Color| k != c),
            ..s
        },
        Event::Bucket(p) => done && if cel.in_bounds(p.x as int, p.y as int) {
            exists|revs: Seq<(Point, Color)>|
                fill_record(cel, p, s.main_color, revs) && t == with_action(
                    with_active_cel(s, fill_image(cel, p, s.main_color)),
                    pixel_edits(s, revs),
                )
        } else {
            t == s
        },
        Event::ClearSelection => done && t == StateView { selection: None, ..s },
        Event::EndSelection(p) => done && t == match selection_preview(s, p) {
            Some(rect) => StateView { selection: Some(Selection::Canvas(rect)), ..s },
            None => s,
        },
        Event::Copy => done && t == match s.selection {
            Some(Selection::Canvas(rect)) => if usable_area(rect) {
                StateView { clipboard: Some(area_view(cel, rect)), ..s }
            } else {
                s
            },
            _ => s,
        },
        Event::DeleteSelection => done && t == match s.selection {
            Some(Selection::Canvas(rect)) => if usable_area(rect) {
                drawn(s, area_points(rect), transparent())
            } else {
                s
            },
            Some(Selection::FreeImage) => StateView { selection: None, ..s },
            None => s,
        },
        Event::NewLayerAbove => done && exists|k: nat|
            is_first_unused(layer_names(s.layers.layers), k) && t == with_action(
                with_layers(
                    s,
                    LayersView { layers: s.layers.layers.push(blank_layer(s.layers, k)), ..s.layers },
                ),
                seq![AtomicView::<G>::DestroyLayer(n as int)],
            ),
        Event::SwitchLayer(i) => done && t == with_layers(
            s,
            LayersView { active: i as int, ..s.layers },
        ),
        Event::ChangeLayerVisibility(i, visible) => done && t == with_layers(
            s,
            s.layers.with_layer(i as int, LayerView { visible, ..s.layers.layers[i as int] }),
        ),
        Event::ChangeLayerOpacity(i, opacity) => done && t == with_layers(
            s,
            s.layers.with_layer(i as int, LayerView { opacity, ..s.layers.layers[i as int] }),
        ),
        Event::RenameLayer(i, name) => done && t == with_layers(
            s,
            s.layers.with_layer(i as int, LayerView { name: name@, ..s.layers.layers[i as int] }),
        ),
        Event::DeleteLayer(i) => done && t == with_action(
            with_layers(s, s.layers.deleted(i as int)),
            seq![AtomicView::<G>::CreateLayer(i as int, s.layers.layers[i as int])],
        ),
        Event::MoveLayerDown(i) => done && t == with_layers(s, swapped(s.layers, i as int, i - 1)),
        Event::MoveLayerUp(i) => done && t == with_layers(s, swapped(s.layers, i as int, i + 1)),
        Event::SetSpritesheet(size) => done && t == if s.layers.cel_size().0 % (size.0 as int) == 0
            && s.layers.cel_size().1 % (size.1 as int) == 0 {
            StateView { spritesheet: size, ..s }
        } else {
            s
        },
        Event::AddFrame => done && t == with_action(
            with_layers(s, frame_added(s.layers)),
            seq![AtomicView::<G>::RemoveFrame(s.layers.frame_count())],
        ),
        Event::DuplicateFrame(k) => done && t == with_action(
            with_layers(s, frame_duplicated(s.layers, k as int)),
            seq![AtomicView::<G>::RemoveFrame(k + 1)],
        ),
        Event::DeleteFrame(k) => done && t == if s.layers.frame_count() <= 1 {
            s
        } else {
            with_action(
                with_layers(s, s.layers.frame_removed(k as int)),
                seq![AtomicView::<G>::InsertFrame(k as int, s.layers.frame_at(k as int))],
            )
        },
        Event::SwitchFrame(k) => done && t == if k < s.layers.frame_count() {
            with_layers(s, LayersView { active_frame: k as int, ..s.layers })
        } else {
            s
        },
        Event::Undo => t == undone(s) && r == Ok::<CanvasEffect, StateError>(
            if s.reversals.len() == 0 {
                CanvasEffect::Unaffected
            } else {
                action_effect(s.reversals.last())
            },
        ),
        Event::Redo => t == redone(s) && r == Ok::<CanvasEffect, StateError>(
            if s.redos.len() == 0 {
                CanvasEffect::Unaffected
            } else {
                action_effect(s.redos.last())
            },
        ),
        Event::LineStart(_) | Event::RectStart(_) | Event::EllipseStart(_)
        | Event::StartSelection(_) => done && t == s,
    }
}

/// What carrying out an event does: a drag to where the pointer already
/// was is let go; undoing and redoing leave no trace among the events;
/// any other event that succeeds is recorded after it is carried out.
pub open spec fn executes<G>(
    s: StateView<G>,
    e: Event,
    t: StateView<G>,
    r: Result<CanvasEffect, StateError>,
) -> bool {
    if unmoved(s, e) {
        t == s && r == Ok::<CanvasEffect, StateError>(CanvasEffect::Unaffected)
    } else if e is Undo || e is Redo {
        carried(s, e, t, r)
    } else {
        &&& carried(s, e, StateView { events: s.events, ..t }, r)
        &&& t.events == if r is Ok {
            s.events.push(e)
        } else {
            s.events
        }
    }
}

/// Edits whose undoing gives back nothing to redo changed nothing.
pub proof fn lemma_nothing_to_redo<G>(v: LayersView<G>, edits: Seq<AtomicView<G>>)
    requires
        v.wf(),
        images_wf(v),
        edits_images_wf(edits),
        runnable(v, edits),
        run(v, edits).1.len() == 0,
    ensures
        run(v, edits).0.layers == v.layers,
    decreases edits.len(),
{
    if edits.len() > 0 {
        let a = edits.last();
        lemma_step_undone(v, a);
        let (v1, i) = crate::action::step(v, a);
        assert(i is None) by {
            if i is Some {
                assert(crate::action::prepend(i, run(v1, edits.drop_last()).1).len() >= 1);
            }
        }
        assert(edits_images_wf(edits.drop_last())) by {
            assert forall|k: int| 0 <= k < edits.drop_last().len() implies crate::action::edit_images_wf(
                #[trigger] edits.drop_last()[k],
            ) by {
                assert(edits.drop_last()[k] == edits[k]);
            }
        }
        lemma_nothing_to_redo(v1, edits.drop_last());
    }
}

/// Redoing gives back what undoing changed: undoing the last action and
/// then redoing gives back the stack of layers as it was. Where the undoing
/// changed nothing, nothing is put on the redo stack.
pub proof fn lemma_redo_after_undo<G>(s: StateView<G>)
    requires
        s.layers.wf(),
        images_wf(s.layers),
        s.reversals.len() > 0,
        edits_images_wf(s.reversals.last()),
        runnable(s.layers, s.reversals.last()),
    ensures
        run(s.layers, s.reversals.last()).1.len() > 0 ==> redone(undone(s)).layers.layers
            == s.layers.layers,
        run(s.layers, s.reversals.last()).1.len() == 0 ==> undone(s).layers.layers
            == s.layers.layers && undone(s).redos == s.redos,
{
    lemma_undo_restores(s.layers, s.reversals.last());
    if run(s.layers, s.reversals.last()).1.len() == 0 {
        lemma_nothing_to_redo(s.layers, s.reversals.last());
    }
}

/// Undoing gives back what redoing changed: redoing the last undone action
/// and then undoing gives back the stack of layers as it was.
pub proof fn lemma_undo_after_redo<G>(s: StateView<G>)
    requires
        s.layers.wf(),
        images_wf(s.layers),
        s.redos.len() > 0,
        edits_images_wf(s.redos.last()),
        runnable(s.layers, s.redos.last()),
    ensures
        run(s.layers, s.redos.last()).1.len() > 0 ==> undone(redone(s)).layers.layers
            == s.layers.layers,
        run(s.layers, s.redos.last()).1.len() == 0 ==> redone(s).layers.layers
            == s.layers.layers && redone(s).reversals == s.reversals,
{
    lemma_undo_restores(s.layers, s.redos.last());
    if run(s.layers, s.redos.last()).1.len() == 0 {
        lemma_nothing_to_redo(s.layers, s.redos.last());
    }
}

/// A color with its alpha scaled by an opacity from 0 to 255.
pub open spec fn faded(c: Color, opacity: u8) -> Color {
    Color { a: (c.a as int * opacity as int / 255) as u8, ..c }
}

/// Scales the alpha of every pixel by an opacity.
fn fade(image: &mut Image, opacity: u8)
    ensures
        final(image)@ == ImageView::from_fn(
            old(image)@.w,
            old(image)@.h,
            |x: int, y: int| faded(old(image)@.at(x, y), opacity),
        ),
{
    let ghost v = image@;
    let ghost target = ImageView::from_fn(v.w, v.h, |x: int, y: int| faded(v.at(x, y), opacity));
    proof {
        use_type_invariant(&*image);
        lemma_from_fn(v.w, v.h, |x: int, y: int| faded(v.at(x, y), opacity));
    }
    let w = image.width();
    let h = image.height();
    let mut x: i32 = 0;
    while x < w
        invariant
            v.wf(),
            w == v.w,
            h == v.h,
            target.wf(),
            target.w == v.w && target.h == v.h,
            forall|i: int, j: int|
                v.in_bounds(i, j) ==> #[trigger] target.at(i, j) == faded(v.at(i, j), opacity),
            image@.wf(),
            image@.w == v.w && image@.h == v.h,
            0 <= x <= w,
            forall|i: int, j: int|
                image@.in_bounds(i, j) ==> #[trigger] image@.at(i, j) == if i < x {
                    target.at(i, j)
                } else {
                    v.at(i, j)
                },
        decreases w - x,
    {
        let mut y: i32 = 0;
        while y < h
            invariant
                v.wf(),
                w == v.w,
                h == v.h,
                target.wf(),
                target.w == v.w && target.h == v.h,
                forall|i: int, j: int|
                    v.in_bounds(i, j) ==> #[trigger] target.at(i, j) == faded(v.at(i, j), opacity),
                image@.wf(),
                image@.w == v.w && image@.h == v.h,
                0 <= x < w,
                0 <= y <= h,
                forall|i: int, j: int|
                    image@.in_bounds(i, j) ==> #[trigger] image@.at(i, j) == if i < x || (i == x
                        && j < y) {
                        target.at(i, j)
                    } else {
                        v.at(i, j)
                    },
            decreases h - y,
        {
            let p = Point::new(x, y);
            let mut color = image.pixel(p);
            assert(color.a as u16 * opacity as u16 <= 255 * 255) by (nonlinear_arith)
                requires
                    color.a <= 255,
                    opacity <= 255,
            ;
            color.a = ((color.a as u16) * (opacity as u16) / 255) as u8;
            proof {
                lemma_set(image@, x as int, y as int, color);
                assert(color == faded(v.at(x as int, y as int), opacity));
            }
            image.set_pixel(p, color);
            y = y + 1;
        }
        x = x + 1;
    }
    proof {
        lemma_ext(image@, target);
    }
}

/// The values of a stack of actions.
pub open spec fn action_views<G>(actions: Seq<Action<G>>) -> Seq<Seq<AtomicView<G>>> {
    actions.map_values(|a: Action<G>| a@)
}

/// The document state of the editor: the layers being drawn, the drawing
/// settings, and the history of edits.
#[derive(Debug)]
pub struct State<G> {
    layers: Layers<G>,
    main_color: Color,
    brush_radius: u8,
    spritesheet: (u8, u8),
    selection: Option<Selection>,
    clipboard: Option<Image>,
    reversals: Vec<Action<G>>,
    redos: Vec<Action<G>>,
    cur_reversal: Option<Action<G>>,
    tool: Tool,
    palette: Palette,
    events: Vec<Event>,
}

impl<G> View for State<G> {
    type V = StateView<G>;

    closed spec fn view(&self) -> StateView<G> {
        StateView {
            layers: self.layers@,
            main_color: self.main_color,
            brush_radius: self.brush_radius,
            spritesheet: self.spritesheet,
            selection: self.selection,
            clipboard: match self.clipboard {
                Some(img) => Some(img@),
                None => None,
            },
            reversals: action_views(self.reversals@),
            redos: action_views(self.redos@),
            cur_reversal: match self.cur_reversal {
                Some(a) => Some(a@),
                None => None,
            },
            tool: self.tool,
            palette: self.palette@,
            events: self.events@,
        }
    }
}

impl<G> State<G> {
    /// A new document of one blank layer, drawing in black with a single
    /// pixel brush, with nothing to undo.
    pub fn new(size: Size) -> (s: State<G>)
        requires
            size.x >= 0,
            size.y >= 0,
            size.x * size.y <= usize::MAX,
        ensures
            s@.layers == fresh_layers::<G>(size),
            s@.layers.wf(),
            s@.main_color == black(),
            s@.brush_radius == 0,
            s@.spritesheet == (1u8, 1u8),
            s@.selection is None,
            s@.clipboard is None,
            s@.reversals.len() == 0,
            s@.redos.len() == 0,
            s@.cur_reversal is None,
            s@.tool == Tool::Brush,
            s@.palette == default_colors(),
            s@.events.len() == 0,
    {
        State {
            layers: Layers::new(size),
            main_color: Color::black(),
            brush_radius: 0,
            spritesheet: (1, 1),
            selection: None,
            clipboard: None,
            reversals: Vec::new(),
            redos: Vec::new(),
            cur_reversal: None,
            tool: Tool::Brush,
            palette: Palette::default(),
            events: Vec::new(),
        }
    }

    /// The layers.
    pub fn layers(&self) -> (l: &Layers<G>)
        ensures
            l@ == self@.layers,
    {
        &self.layers
    }

    /// The layers, for changing them.
    pub fn layers_mut(&mut self) -> (l: &mut Layers<G>)
        ensures
            l@ == old(self)@.layers,
            final(self)@ == (StateView { layers: final(l)@, ..old(self)@ }),
    {
        &mut self.layers
    }

    /// The color most tools draw with.
    pub fn main_color(&self) -> (c: Color)
        ensures
            c == self@.main_color,
    {
        self.main_color
    }

    /// The radius of the brush and the eraser, in pixels.
    pub fn brush_radius(&self) -> (r: u8)
        ensures
            r == self@.brush_radius,
    {
        self.brush_radius
    }

    /// How many frames across and down the spritesheet has; `(1, 1)` for a
    /// still image.
    pub fn spritesheet(&self) -> (s: (u8, u8))
        ensures
            s == self@.spritesheet,
    {
        self.spritesheet
    }

    /// The tool in use.
    pub fn selected_tool(&self) -> (t: Tool)
        ensures
            t == self@.tool,
    {
        self.tool
    }

    /// The palette colors are picked from.
    pub fn palette(&self) -> (p: &Palette)
        ensures
            p@ == self@.palette,
    {
        &self.palette
    }

    /// What is selected.
    pub fn selection(&self) -> (s: Option<Selection>)
        ensures
            s == self@.selection,
    {
        self.selection
    }

    /// The active frame's canvas of the active layer.
    pub fn canvas(&self) -> (c: &Canvas)
        requires
            self@.layers.wf(),
        ensures
            c@ == self@.layers.layers[self@.layers.active].cels[self@.layers.active_frame],
    {
        self.layers.active_canvas()
    }

    /// The active frame's canvas of the active layer, for drawing on.
    pub fn canvas_mut(&mut self) -> (c: &mut Canvas)
        requires
            old(self)@.layers.wf(),
        ensures
            c@ == old(self)@.layers.layers[old(self)@.layers.active].cels[old(
                self,
            )@.layers.active_frame],
            final(self)@ == (StateView {
                layers: old(self)@.layers.with_cel(
                    old(self)@.layers.active,
                    old(self)@.layers.active_frame,
                    final(c)@,
                ),
                ..old(self)@
            }),
    {
        self.layers.active_canvas_mut()
    }

    /// Sets how many frames across and down the spritesheet has. A size the
    /// canvas cannot be cut into evenly is ignored.
    pub fn set_spritesheet(&mut self, size: (u8, u8))
        requires
            old(self)@.layers.wf(),
            size.0 > 0,
            size.1 > 0,
        ensures
            final(self)@ == if old(self)@.layers.cel_size().0 % (size.0 as int) == 0 && old(
                self,
            )@.layers.cel_size().1 % (size.1 as int) == 0 {
                StateView { spritesheet: size, ..old(self)@ }
            } else {
                old(self)@
            },
    {
        let c = self.layers.get(0).canvas(0);
        let w = c.width();
        let h = c.height();
        if w % (size.0 as i32) != 0 || h % (size.1 as i32) != 0 {
            return;
        }
        self.spritesheet = size;
    }

    /// Starts building up an action for an edit in progress.
    pub fn start_action(&mut self)
        ensures
            final(self)@ == (StateView { cur_reversal: Some(Seq::<AtomicView<G>>::empty()), ..old(self)@ }),
    {
        self.cur_reversal = Some(Action::default());
    }

    /// Adds atomic edits to the action in progress, starting one if there is
    /// none.
    pub fn add_to_action(&mut self, actions: Vec<AtomicAction<G>>)
        ensures
            final(self)@ == (StateView {
                cur_reversal: Some(
                    match old(self)@.cur_reversal {
                        Some(a) => a,
                        None => Seq::<AtomicView<G>>::empty(),
                    } + edit_views(actions@),
                ),
                ..old(self)@
            }),
    {
        let mut cur = match self.cur_reversal.take() {
            Some(a) => a,
            None => Action::default(),
        };
        cur.append(actions);
        self.cur_reversal = Some(cur);
    }

    /// Ends the action in progress, if there is one: it goes on the undo
    /// stack, and a new edit leaves nothing to redo.
    pub fn end_action(&mut self)
        ensures
            final(self)@ == match old(self)@.cur_reversal {
                Some(a) => StateView {
                    reversals: old(self)@.reversals.push(a),
                    redos: Seq::<Seq<AtomicView<G>>>::empty(),
                    cur_reversal: None,
                    ..old(self)@
                },
                None => old(self)@,
            },
    {
        match self.cur_reversal.take() {
            Some(a) => {
                let ghost before = self.reversals@;
                self.reversals.push(a);
                self.redos.clear();
                proof {
                    assert(action_views(self.reversals@) =~= action_views(before).push(a@));
                    assert(action_views(self.redos@) =~= Seq::<Seq<AtomicView<G>>>::empty());
                }
            },
            None => {},
        }
    }

    /// Records an edit made at once: ends any action in progress, puts this
    /// one on the undo stack, and leaves nothing to redo.
    pub fn single_action(&mut self, action: Action<G>)
        ensures
            final(self)@ == (StateView {
                reversals: match old(self)@.cur_reversal {
                    Some(a) => old(self)@.reversals.push(a),
                    None => old(self)@.reversals,
                }.push(action@),
                redos: Seq::<Seq<AtomicView<G>>>::empty(),
                cur_reversal: None,
                ..old(self)@
            }),
    {
        self.end_action();
        let ghost before = self.reversals@;
        self.reversals.push(action);
        self.redos.clear();
        proof {
            assert(action_views(self.reversals@) =~= action_views(before).push(action@));
            assert(action_views(self.redos@) =~= Seq::<Seq<AtomicView<G>>>::empty());
        }
    }

    /// Adds what undoes pixel changes on the active layer and frame to the
    /// action in progress.
    pub fn add_to_pixels_action(&mut self, reversals: Vec<(Point, Color)>)
        ensures
            final(self)@ == (StateView {
                cur_reversal: Some(
                    match old(self)@.cur_reversal {
                        Some(a) => a,
                        None => Seq::<AtomicView<G>>::empty(),
                    } + reversals@.map_values(
                        |pc: (Point, Color)|
                            AtomicView::<G>::SetPixel(
                                old(self)@.layers.active,
                                old(self)@.layers.active_frame,
                                pc.0,
                                pc.1,
                            ),
                    ),
                ),
                ..old(self)@
            }),
    {
        let actions = AtomicAction::set_pixel_vec(
            self.layers.active_index(),
            self.layers.active_frame(),
            reversals,
        );
        self.add_to_action(actions);
    }

    /// Records pixel changes on the active layer and frame, made at once,
    /// as an action of its own.
    pub fn single_pixels_action(&mut self, reversals: Vec<(Point, Color)>)
        ensures
            final(self)@ == (StateView {
                reversals: match old(self)@.cur_reversal {
                    Some(a) => old(self)@.reversals.push(a),
                    None => old(self)@.reversals,
                }.push(
                    reversals@.map_values(
                        |pc: (Point, Color)|
                            AtomicView::<G>::SetPixel(
                                old(self)@.layers.active,
                                old(self)@.layers.active_frame,
                                pc.0,
                                pc.1,
                            ),
                    ),
                ),
                redos: Seq::<Seq<AtomicView<G>>>::empty(),
                cur_reversal: None,
                ..old(self)@
            }),
    {
        let actions = AtomicAction::set_pixel_vec(
            self.layers.active_index(),
            self.layers.active_frame(),
            reversals,
        );
        self.single_action(Action::from_edits(actions));
    }

    /// Whether there is an action to undo.
    pub fn can_undo(&self) -> (b: bool)
        ensures
            b == (self@.reversals.len() > 0),
    {
        self.reversals.len() > 0
    }

    /// Whether there is an action to redo.
    pub fn can_redo(&self) -> (b: bool)
        ensures
            b == (self@.redos.len() > 0),
    {
        self.redos.len() > 0
    }

    /// Undoes the last action, if there is one.
    pub fn undo(&mut self) -> (e: CanvasEffect)
        requires
            old(self)@.layers.wf(),
            old(self)@.reversals.len() > 0 ==> runnable(
                old(self)@.layers,
                old(self)@.reversals.last(),
            ),
        ensures
            final(self)@ == undone(old(self)@),
            e == if old(self)@.reversals.len() == 0 {
                CanvasEffect::Unaffected
            } else {
                action_effect(old(self)@.reversals.last())
            },
    {
        let ghost before = self.reversals@;
        match self.reversals.pop() {
            Some(action) => {
                proof {
                    assert(action_views(self.reversals@) =~= action_views(before).drop_last());
                    assert(action@ == action_views(before).last());
                }
                let (effect, inverse) = action.apply(&mut self.layers);
                if !inverse.is_empty() {
                    let ghost redos = self.redos@;
                    self.redos.push(inverse);
                    proof {
                        assert(action_views(self.redos@) =~= action_views(redos).push(inverse@));
                    }
                }
                effect
            },
            None => CanvasEffect::Unaffected,
        }
    }

    /// Redoes the last undone action, if there is one.
    pub fn redo(&mut self) -> (e: CanvasEffect)
        requires
            old(self)@.layers.wf(),
            old(self)@.redos.len() > 0 ==> runnable(old(self)@.layers, old(self)@.redos.last()),
        ensures
            final(self)@ == redone(old(self)@),
            e == if old(self)@.redos.len() == 0 {
                CanvasEffect::Unaffected
            } else {
                action_effect(old(self)@.redos.last())
            },
    {
        let ghost before = self.redos@;
        match self.redos.pop() {
            Some(action) => {
                proof {
                    assert(action_views(self.redos@) =~= action_views(before).drop_last());
                    assert(action@ == action_views(before).last());
                }
                let (effect, inverse) = action.apply(&mut self.layers);
                if !inverse.is_empty() {
                    let ghost reversals = self.reversals@;
                    self.reversals.push(inverse);
                    proof {
                        assert(action_views(self.reversals@) =~= action_views(reversals).push(
                            inverse@,
                        ));
                    }
                }
                effect
            },
            None => CanvasEffect::Unaffected,
        }
    }
    /// The image of a layer's active frame as it is seen, its opacity baked
    /// into the alpha of every pixel.
    pub fn layer_image(&self, index: usize) -> (img: Image)
        requires
            self@.layers.wf(),
            index < self@.layers.layers.len(),
        ensures
            img@ == ImageView::from_fn(
                self@.layers.layers[index as int].cels[self@.layers.active_frame].w,
                self@.layers.layers[index as int].cels[self@.layers.active_frame].h,
                |x: int, y: int|
                    faded(
                        self@.layers.layers[index as int].cels[self@.layers.active_frame].at(x, y),
                        self@.layers.layers[index as int].opacity,
                    ),
            ),
    {
        let canvas = self.layers.canvas_at(index);
        let opacity = self.layers.get(index).opacity();
        let mut img = canvas.inner().clone();
        fade(&mut img, opacity);
        img
    }
}


/// A layer's active cel put back in its place changes nothing.
proof fn lemma_same_cel<G>(s: StateView<G>)
    requires
        s.layers.wf(),
    ensures
        with_active_cel(s, active_cel(s)) == s,
{
    let l = s.layers.layers[s.layers.active];
    assert(l.cels.update(s.layers.active_frame, l.cels[s.layers.active_frame]) =~= l.cels);
    assert(s.layers.layers.update(s.layers.active, l) =~= s.layers.layers);
}

/// Replacing a cel twice keeps the second image only.
proof fn lemma_cel_twice<G>(l: LayersView<G>, a: int, f: int, x: ImageView, y: ImageView)
    requires
        0 <= a < l.layers.len(),
        0 <= f < l.layers[a].cels.len(),
    ensures
        l.with_cel(a, f, x).with_cel(a, f, y) == l.with_cel(a, f, y),
        l.with_cel(a, f, x).layers[a].cels[f] == x,
{
    let m = l.with_cel(a, f, x);
    assert(m.layers[a].cels.update(f, y) =~= l.layers[a].cels.update(f, y));
    assert(m.layers.update(a, LayerView { cels: m.layers[a].cels.update(f, y), ..m.layers[a] })
        =~= l.layers.update(a, LayerView { cels: l.layers[a].cels.update(f, y), ..l.layers[a] }));
}

/// Running the edits that set pixels of one cel back sets them as
/// `undone` does, from the last to the first.
proof fn lemma_run_pixel_edits<G>(
    l: LayersView<G>,
    a: int,
    f: int,
    img: ImageView,
    revs: Seq<(Point, Color)>,
)
    requires
        0 <= a < l.layers.len(),
        0 <= f < l.layers[a].cels.len(),
    ensures
        run(
            l.with_cel(a, f, img),
            revs.map_values(|pc: (Point, Color)| AtomicView::<G>::SetPixel(a, f, pc.0, pc.1)),
        ).0 == l.with_cel(a, f, crate::canvas::undone(img, revs)),
    decreases revs.len(),
{
    if revs.len() > 0 {
        let edits = revs.map_values(|pc: (Point, Color)| AtomicView::<G>::SetPixel(a, f, pc.0, pc.1));
        let (p, c) = revs.last();
        let next = if img.in_bounds(p.x as int, p.y as int) {
            img.set(p.x as int, p.y as int, c)
        } else {
            img
        };
        lemma_cel_twice(l, a, f, img, next);
        assert(edits.last() == AtomicView::<G>::SetPixel(a, f, p, c));
        assert(step(l.with_cel(a, f, img), edits.last()).0 == l.with_cel(a, f, next));
        assert(edits.drop_last() =~= revs.drop_last().map_values(
            |pc: (Point, Color)| AtomicView::<G>::SetPixel(a, f, pc.0, pc.1),
        ));
        lemma_run_pixel_edits(l, a, f, next, revs.drop_last());
    }
}

/// Undoing right after a shape is drawn at once gives back the layers as
/// they were: drawing can always be taken back exactly.
pub proof fn lemma_undo_drawing<G>(s: StateView<G>, pts: Seq<Point>, c: Color)
    requires
        s.layers.wf(),
        images_wf(s.layers),
    ensures
        undone(drawn(s, pts, c)).layers == s.layers,
{
    let a = s.layers.active;
    let f = s.layers.active_frame;
    let cel = active_cel(s);
    assert(cel.wf());
    lemma_undo_painting(cel, pts, c);
    let t = drawn(s, pts, c);
    assert(t.reversals.last() == pixel_edits(s, reversals(cel, pts, c)));
    lemma_run_pixel_edits(s.layers, a, f, painted(cel, pts, c), reversals(cel, pts, c));
    lemma_same_cel(s);
}

/// Whether the event changes pixels of the active cel and records that as
/// an action of its own: finishing a line or a rectangle, clearing the
/// canvas, filling inside it, or deleting a selected area.
pub open spec fn draws_at_once<G>(s: StateView<G>, e: Event) -> bool {
    match e {
        Event::LineEnd(_) | Event::RectEnd(_) | Event::EllipseEnd(_, _) | Event::ClearCanvas => true,
        Event::Bucket(p) => active_cel(s).in_bounds(p.x as int, p.y as int),
        Event::DeleteSelection => match s.selection {
            Some(Selection::Canvas(rect)) => usable_area(rect),
            _ => false,
        },
        _ => false,
    }
}

/// Finishing a line or a rectangle, clearing the canvas, filling inside
/// it or deleting a selected area, and then undoing gives back the layers
/// as they were before the event.
pub proof fn lemma_undo_after_event<G>(
    s: StateView<G>,
    e: Event,
    t: StateView<G>,
    r: Result<CanvasEffect, StateError>,
    u: StateView<G>,
    r2: Result<CanvasEffect, StateError>,
)
    requires
        draws_at_once(s, e),
        admissible(s, e),
        images_wf(s.layers),
        executes(s, e, t, r),
        r is Ok,
        executes(t, Event::Undo, u, r2),
    ensures
        u.layers == s.layers,
{
    let t0 = StateView { events: s.events, ..t };
    assert(u == undone(t));
    match e {
        Event::LineEnd(p) => {
            let p0 = last_event(s)->0->LineStart_0;
            lemma_undo_drawing(s, dragged(p0, p, s.brush_radius), s.main_color);
            assert(t0 == drawn(s, dragged(p0, p, s.brush_radius), s.main_color));
        },
        Event::RectEnd(p) => {
            let p0 = last_event(s)->0->RectStart_0;
            lemma_undo_drawing(s, outlined(p0, p, s.brush_radius), s.main_color);
            assert(t0 == drawn(s, outlined(p0, p, s.brush_radius), s.main_color));
        },
        Event::EllipseEnd(_, outline) => {
            lemma_undo_drawing(s, traced(outline@, s.brush_radius), s.main_color);
        },
        Event::Bucket(p) => {
            let cel = active_cel(s);
            let c = s.main_color;
            let revs = choose|revs: Seq<(Point, Color)>|
                fill_record(cel, p, c, revs) && t0 == with_action(
                    with_active_cel(s, fill_image(cel, p, c)),
                    pixel_edits(s, revs),
                );
            assert(t.reversals.last() == pixel_edits(s, revs));
            lemma_run_pixel_edits(s.layers, s.layers.active, s.layers.active_frame, fill_image(cel, p, c), revs);
            lemma_same_cel(s);
        },
        Event::DeleteSelection => {
            let rect = s.selection->0->Canvas_0;
            lemma_undo_drawing(s, area_points(rect), transparent());
            assert(t0 == drawn(s, area_points(rect), transparent()));
        },
        _ => {
            let a = s.layers.active;
            let f = s.layers.active_frame;
            let cel = active_cel(s);
            let blank = ImageView::filled(cel.w, cel.h, transparent());
            let edits = seq![AtomicView::<G>::SetLayerCanvas(a, f, cel)];
            lemma_cel_twice(s.layers, a, f, blank, cel);
            lemma_same_cel(s);
            assert(edits.last() == AtomicView::<G>::SetLayerCanvas(a, f, cel));
            assert(edits.drop_last() =~= Seq::<AtomicView<G>>::empty());
            assert(t.layers == s.layers.with_cel(a, f, blank));
            let v1 = step(t.layers, edits.last()).0;
            assert(v1 == s.layers.with_cel(a, f, cel));
            assert(run(v1, edits.drop_last()).0 == v1);
            assert(t.reversals.last() == edits);
            assert(run(t.layers, edits).0 == v1);
        },
    }
}

/// Ending a selection drag selects what was shown while dragging: the
/// preview where a drag was started by the last event, and otherwise the
/// selection stays as it was.
pub proof fn lemma_preview_is_selection<G>(
    s: StateView<G>,
    m: Point,
    t: StateView<G>,
    r: Result<CanvasEffect, StateError>,
)
    requires
        executes(s, Event::EndSelection(m), t, r),
    ensures
        r == Ok::<CanvasEffect, StateError>(CanvasEffect::Unaffected),
        t.selection == match selection_preview(s, m) {
            Some(rect) => Some(Selection::Canvas(rect)),
            None => s.selection,
        },
        t.layers == s.layers,
{
}

/// Replacing a cel keeps the layers well formed.
proof fn lemma_with_cel_wf<G>(l: LayersView<G>, a: int, f: int, img: ImageView)
    requires
        l.wf(),
        0 <= a < l.layers.len(),
        0 <= f < l.frame_count(),
    ensures
        l.with_cel(a, f, img).wf(),
{
    let m = l.with_cel(a, f, img);
    assert(m.layers[0].cels.len() == l.frame_count());
    assert forall|k: int| 0 <= k < m.layers.len() implies #[trigger] m.layers[k].cels.len()
        == m.frame_count() by {
        assert(l.layers[k].cels.len() == l.frame_count());
    }
}

/// Every event keeps the layers well formed; undoing and redoing need the
/// images of the layers and of the action applied to be valid as well.
pub proof fn lemma_execute_keeps_layers_wf<G>(
    s: StateView<G>,
    e: Event,
    t: StateView<G>,
    r: Result<CanvasEffect, StateError>,
)
    requires
        admissible(s, e),
        executes(s, e, t, r),
        e is Undo && s.reversals.len() > 0 ==> images_wf(s.layers) && edits_images_wf(
            s.reversals.last(),
        ),
        e is Redo && s.redos.len() > 0 ==> images_wf(s.layers) && edits_images_wf(s.redos.last()),
    ensures
        t.layers.wf(),
{
    let l = s.layers;
    let a = l.active;
    let f = l.active_frame;
    if unmoved(s, e) {
        return;
    }
    match e {
        Event::Undo => {
            if s.reversals.len() > 0 {
                lemma_undo_restores(l, s.reversals.last());
            }
        },
        Event::Redo => {
            if s.redos.len() > 0 {
                lemma_undo_restores(l, s.redos.last());
            }
        },
        Event::ResizeCanvas(size) => {
            let m = t.layers;
            assert(m.layers[0].cels.len() == l.frame_count());
            assert forall|k: int| 0 <= k < m.layers.len() implies #[trigger] m.layers[k].cels.len()
                == m.frame_count() by {
                assert(l.layers[k].cels.len() == l.frame_count());
            }
        },
        Event::NewLayerAbove => {
            let m = t.layers;
            assert(m.layers[0] == l.layers[0]);
            assert forall|k: int| 0 <= k < m.layers.len() implies #[trigger] m.layers[k].cels.len()
                == m.frame_count() by {
                if k < l.layers.len() {
                    assert(m.layers[k] == l.layers[k]);
                }
            }
        },
        Event::ChangeLayerVisibility(i, _) | Event::ChangeLayerOpacity(i, _) | Event::RenameLayer(
            i,
            _,
        ) => {
            let m = t.layers;
            assert(m.layers[0].cels == l.layers[0].cels);
            assert forall|k: int| 0 <= k < m.layers.len() implies #[trigger] m.layers[k].cels.len()
                == m.frame_count() by {
                assert(m.layers[k].cels == l.layers[k].cels);
            }
        },
        Event::DeleteLayer(i) => {
            let m = t.layers;
            assert(m.layers[0].cels.len() == l.frame_count()) by {
                if i == 0 {
                    assert(m.layers[0] == l.layers[1]);
                } else {
                    assert(m.layers[0] == l.layers[0]);
                }
            }
            assert forall|k: int| 0 <= k < m.layers.len() implies #[trigger] m.layers[k].cels.len()
                == m.frame_count() by {
                if k < i {
                    assert(m.layers[k] == l.layers[k]);
                } else {
                    assert(m.layers[k] == l.layers[k + 1]);
                }
            }
        },
        Event::MoveLayerDown(_) | Event::MoveLayerUp(_) => {
            let m = t.layers;
            assert(m.layers[0].cels.len() == l.frame_count());
            assert forall|k: int| 0 <= k < m.layers.len() implies #[trigger] m.layers[k].cels.len()
                == m.frame_count() by {
                assert(l.layers[k].cels.len() == l.frame_count());
            }
        },
        Event::AddFrame => {
            let m = t.layers;
            assert(m.layers[0].cels.len() == l.frame_count() + 1);
            assert forall|k: int| 0 <= k < m.layers.len() implies #[trigger] m.layers[k].cels.len()
                == m.frame_count() by {
                assert(l.layers[k].cels.len() == l.frame_count());
            }
        },
        Event::DuplicateFrame(_) => {
            let m = t.layers;
            assert(m.layers[0].cels.len() == l.frame_count() + 1);
            assert forall|k: int| 0 <= k < m.layers.len() implies #[trigger] m.layers[k].cels.len()
                == m.frame_count() by {
                assert(l.layers[k].cels.len() == l.frame_count());
            }
        },
        Event::DeleteFrame(_) => {
            if l.frame_count() > 1 {
                let m = t.layers;
                assert(m.layers[0].cels.len() == l.frame_count() - 1);
                assert forall|k: int| 0 <= k < m.layers.len() implies #[trigger] m.layers[k].cels.len()
                    == m.frame_count() by {
                    assert(l.layers[k].cels.len() == l.frame_count());
                }
            }
        },
        _ => {
            lemma_with_cel_wf(l, a, f, active_cel(t));
        },
    }
}

/// Whether an area lies where images can be read and written in it.
fn is_usable_area(r: Rect) -> (b: bool)
    ensures
        b == usable_area(r),
{
    if r.x < 0 || r.y < 0 || r.w < 0 || r.h < 0 {
        return false;
    }
    if r.x as i64 + r.w as i64 > i32::MAX as i64 || r.y as i64 + r.h as i64 > i32::MAX as i64 {
        return false;
    }
    assert((r.w as u64) * (r.h as u64) <= 0x4000_0000_0000_0000u64) by (nonlinear_arith)
        requires
            0 <= r.w <= i32::MAX,
            0 <= r.h <= i32::MAX,
    ;
    (r.w as u64) * (r.h as u64) <= usize::MAX as u64
}

/// `v` brought within `lo` and `hi`.
fn clamp_to(v: i64, lo: i64, hi: i64) -> (r: i64)
    requires
        lo <= hi,
    ensures
        r == clamp(v as int, lo as int, hi as int),
{
    if v < lo {
        lo
    } else if v > hi {
        hi
    } else {
        v
    }
}

impl<G> State<G> {
    /// Whether the event is a drag to where the pointer already was.
    fn is_unmoved(&self, event: &Event) -> (b: bool)
        ensures
            b == unmoved(self@, *event),
    {
        let n = self.events.len();
        if n == 0 {
            return false;
        }
        let prev = &self.events[n - 1];
        proof {
            assert(last_event(self@) == Some(*prev));
        }
        match (event, prev) {
            (Event::BrushStroke(q), Event::BrushStroke(p)) => *p == *q,
            (Event::Erase(q), Event::Erase(p)) => *p == *q,
            (Event::BrushStroke(q), _) => {
                proof {
                    assert(Some(*prev) != Some(Event::BrushStroke(*q)));
                }
                false
            },
            (Event::Erase(q), _) => {
                proof {
                    assert(Some(*prev) != Some(Event::Erase(*q)));
                }
                false
            },
            _ => false,
        }
    }

    /// Carries out an event that changes a drawing setting or the palette.
    fn change_setting(&mut self, event: &Event) -> (r: Result<CanvasEffect, StateError>)
        requires
            event is SetTool || event is SetMainColor || event is SetBrushRadius
                || event is AddToPalette || event is RemoveFromPalette || event is SetSpritesheet,
            admissible(old(self)@, *event),
        ensures
            carried(old(self)@, *event, final(self)@, r),
    {
        match event {
            Event::SetTool(tool) => self.tool = *tool,
            Event::SetMainColor(c) => self.main_color = *c,
            Event::SetBrushRadius(radius) => {
                self.brush_radius = if *radius > MAX_BRUSH_RADIUS {
                    MAX_BRUSH_RADIUS
                } else {
                    *radius
                };
            },
            Event::AddToPalette(c) => self.palette.add_color(*c),
            Event::RemoveFromPalette(c) => self.palette.remove_color(*c),
            Event::SetSpritesheet(size) => self.set_spritesheet(*size),
            _ => {},
        }
        Ok(CanvasEffect::Unaffected)
    }

    /// Carries out an event about the selection.
    fn change_selection(&mut self, event: &Event) -> (r: Result<CanvasEffect, StateError>)
        requires
            event is ClearSelection || event is StartSelection || event is EndSelection
                || event is Copy || event is LineStart || event is RectStart || event is EllipseStart,
            admissible(old(self)@, *event),
        ensures
            carried(old(self)@, *event, final(self)@, r),
    {
        match event {
            Event::ClearSelection => self.selection = None,
            Event::EndSelection(p) => {
                let n = self.events.len();
                if n > 0 {
                    let prev = &self.events[n - 1];
                    proof {
                        assert(last_event(self@) == Some(*prev));
                    }
                    match prev {
                        Event::StartSelection(p0) => {
                            let rect = self.selection_between(*p0, *p);
                            self.selection = Some(Selection::Canvas(rect));
                        },
                        _ => {},
                    }
                }
            },
            Event::Copy => {
                match self.selection {
                    Some(Selection::Canvas(rect)) => {
                        if is_usable_area(rect) {
                            let img = self.layers.active_canvas().img_from_area(rect);
                            self.clipboard = Some(img);
                        }
                    },
                    _ => {},
                }
            },
            _ => {},
        }
        Ok(CanvasEffect::Unaffected)
    }

    /// Carries out an event that draws on the active cel at once.
    fn draw(&mut self, event: &Event) -> (r: Result<CanvasEffect, StateError>)
        requires
            event is ClearCanvas || event is LineEnd || event is RectEnd || event is EllipseEnd
                || event is Bucket || event is DeleteSelection,
            admissible(old(self)@, *event),
        ensures
            carried(old(self)@, *event, final(self)@, r),
    {
        let ghost s = self@;
        let color = self.main_color;
        match event {
            Event::ClearCanvas => {
                let a = self.layers.active_index();
                let f = self.layers.active_frame();
                let img = self.layers.active_canvas_mut().clear();
                self.start_action();
                let edits = vec![AtomicAction::SetLayerCanvas(a, f, img)];
                proof {
                    assert(edit_views(edits@) =~= seq![AtomicView::<G>::SetLayerCanvas(a as int, f as int, active_cel(s))]);
                    assert(Seq::<AtomicView<G>>::empty() + edit_views(edits@) =~= edit_views(edits@));
                }
                self.add_to_action(edits);
                self.end_action();
            },
            Event::LineEnd(p) | Event::RectEnd(p) | Event::EllipseEnd(p, _) => {
                let n = self.events.len();
                if n == 0 {
                    return Err(StateError::DrawingNotStarted);
                }
                let prev = &self.events[n - 1];
                proof {
                    assert(last_event(s) == Some(*prev));
                }
                let p = *p;
                let radius = self.brush_radius;
                let revs = match (event, prev) {
                    (Event::LineEnd(_), Event::LineStart(p0)) => {
                        let p0 = *p0;
                        self.layers.active_canvas_mut().brush_line(p0, p, color, radius)
                    },
                    (Event::EllipseEnd(_, outline), Event::EllipseStart(_)) => {
                        let mut pts: Vec<Point> = Vec::new();
                        let mut i: usize = 0;
                        while i < outline.len()
                            invariant
                                0 <= i <= outline@.len(),
                                pts@ == outline@.subrange(0, i as int),
                            decreases outline@.len() - i,
                        {
                            pts.push(outline[i]);
                            proof {
                                assert(pts@ =~= outline@.subrange(0, i + 1));
                            }
                            i = i + 1;
                        }
                        proof {
                            assert(outline@.subrange(0, outline@.len() as int) =~= outline@);
                        }
                        if radius != 0 {
                            pts = thicken(pts, radius);
                        }
                        self.layers.active_canvas_mut().paint_points(&pts, color)
                    },
                    (Event::RectEnd(_), Event::RectStart(p0)) => {
                        let p0 = *p0;
                        if radius == 0 {
                            self.layers.active_canvas_mut().rectangle(p0, p, color)
                        } else {
                            let pts = thicken(rectangle(p0, p), radius);
                            self.layers.active_canvas_mut().paint_points(&pts, color)
                        }
                    },
                    _ => {
                        return Err(StateError::DrawingNotStarted);
                    },
                };
                self.single_pixels_action(revs);
            },
            Event::Bucket(p) => {
                let p = *p;
                if self.layers.active_canvas().is_in_bounds(p) {
                    let revs = self.layers.active_canvas_mut().bucket(p, color);
                    self.single_pixels_action(revs);
                    proof {
                        let cel = active_cel(s);
                        assert(fill_record(cel, p, color, revs@));
                    }
                }
            },
            Event::DeleteSelection => {
                match self.selection {
                    Some(Selection::Canvas(rect)) => {
                        if is_usable_area(rect) {
                            let revs = self.layers.active_canvas_mut().set_area(
                                rect,
                                Color::transparent(),
                            );
                            self.single_pixels_action(revs);
                        }
                    },
                    Some(Selection::FreeImage) => self.selection = None,
                    None => {},
                }
            },
            _ => {},
        }
        Ok(CanvasEffect::Update)
    }

    /// Carries out an event of a brush or eraser stroke.
    #[verifier::rlimit(40)]
    fn stroke(&mut self, event: &Event) -> (r: Result<CanvasEffect, StateError>)
        requires
            event is BrushStart || event is BrushStroke || event is BrushEnd || event is EraseStart
                || event is Erase || event is EraseEnd,
            admissible(old(self)@, *event),
        ensures
            carried(old(self)@, *event, final(self)@, r),
    {
        let ghost s = self@;
        match event {
            Event::BrushStart | Event::EraseStart => {
                self.start_action();
                return Ok(CanvasEffect::Unaffected);
            },
            Event::BrushEnd | Event::EraseEnd => {
                self.end_action();
                return Ok(CanvasEffect::Unaffected);
            },
            _ => {},
        }
        let radius = self.brush_radius;
        let erasing = match event {
            Event::Erase(_) => true,
            _ => false,
        };
        let color = if erasing {
            Color::transparent()
        } else {
            self.main_color
        };
        let p = match event {
            Event::BrushStroke(p) => *p,
            Event::Erase(p) => *p,
            _ => Point::new(0, 0),
        };
        let ghost trail = if erasing {
            erase_trail(last_event(s), p, radius)
        } else {
            brush_trail(last_event(s), p, radius)
        };
        let n = self.events.len();
        let mut revs: Vec<(Point, Color)> = Vec::new();
        let mut painted_any = false;
        if n > 0 {
            let prev = &self.events[n - 1];
            proof {
                assert(last_event(s) == Some(*prev));
            }
            match prev {
                Event::BrushStroke(p0) => {
                    if !erasing {
                        let p0 = *p0;
                        revs = self.layers.active_canvas_mut().brush_line(p0, p, color, radius);
                        painted_any = true;
                    }
                },
                Event::Erase(p0) => {
                    if erasing {
                        let p0 = *p0;
                        revs = self.layers.active_canvas_mut().brush_line(p0, p, color, radius);
                        painted_any = true;
                    }
                },
                Event::BrushStart => {
                    if !erasing {
                        revs = self.layers.active_canvas_mut().brush(p, color, radius);
                        painted_any = true;
                    }
                },
                Event::EraseStart => {
                    if erasing {
                        revs = self.layers.active_canvas_mut().brush(p, color, radius);
                        painted_any = true;
                    }
                },
                _ => {},
            }
        }
        proof {
            if !painted_any {
                assert(trail =~= Seq::<Point>::empty());
                lemma_same_cel(s);
                assert(pixel_edits(s, revs@) =~= Seq::<AtomicView<G>>::empty());
                assert(reversals(active_cel(s), trail, color) =~= Seq::<(Point, Color)>::empty());
            }
            assert(self@ == with_active_cel(s, painted(active_cel(s), trail, color)));
            assert(revs@ == reversals(active_cel(s), trail, color));
        }
        self.add_to_pixels_action(revs);
        Ok(CanvasEffect::Update)
    }

    /// Carries out an event that adds, removes, rearranges or changes
    /// layers.
    fn change_layers(&mut self, event: &Event) -> (r: Result<CanvasEffect, StateError>)
        requires
            event is NewLayerAbove || event is SwitchLayer || event is ChangeLayerVisibility
                || event is ChangeLayerOpacity || event is RenameLayer || event is DeleteLayer
                || event is MoveLayerDown || event is MoveLayerUp,
            admissible(old(self)@, *event),
        ensures
            carried(old(self)@, *event, final(self)@, r),
    {
        let ghost s = self@;
        match event {
            Event::NewLayerAbove => {
                let count = self.layers.count();
                self.layers.add_new_above();
                let ghost k = choose|k: nat|
                    is_first_unused(layer_names(s.layers.layers), k) && self.layers@ == (LayersView {
                        layers: s.layers.layers.push(
                            LayerView {
                                cels: Seq::new(
                                    s.layers.frame_count() as nat,
                                    |i: int|
                                        ImageView::filled(
                                            s.layers.cel_size().0,
                                            s.layers.cel_size().1,
                                            transparent(),
                                        ),
                                ),
                                visible: true,
                                opacity: 255,
                                name: layer_name(k),
                                filters: seq![],
                                adjustment: false,
                                generator: None,
                            },
                        ),
                        ..s.layers
                    });
                let edits = vec![AtomicAction::DestroyLayer(count)];
                proof {
                    assert(edit_views(edits@) =~= seq![AtomicView::<G>::DestroyLayer(count as int)]);
                }
                self.single_action(Action::from_edits(edits));
                proof {
                    assert(is_first_unused(layer_names(s.layers.layers), k) && self@ == with_action(
                        with_layers(
                            s,
                            LayersView {
                                layers: s.layers.layers.push(blank_layer(s.layers, k)),
                                ..s.layers
                            },
                        ),
                        seq![AtomicView::<G>::DestroyLayer(count as int)],
                    ));
                }
            },
            Event::SwitchLayer(i) => self.layers.switch_to(*i),
            Event::ChangeLayerVisibility(i, visible) => self.layers.set_visibility(*i, *visible),
            Event::ChangeLayerOpacity(i, opacity) => self.layers.set_opacity(*i, *opacity),
            Event::RenameLayer(i, name) => self.layers.set_name(*i, name.clone()),
            Event::DeleteLayer(i) => {
                let l = self.layers.delete(*i);
                let edits = vec![AtomicAction::CreateLayer(*i, l)];
                proof {
                    assert(edit_views(edits@) =~= seq![
                        AtomicView::<G>::CreateLayer(*i as int, s.layers.layers[*i as int]),
                    ]);
                }
                self.single_action(Action::from_edits(edits));
            },
            Event::MoveLayerDown(i) => self.layers.swap(*i, *i - 1),
            Event::MoveLayerUp(i) => {
                let count = self.layers.count();
                assert(*i + 1 < count);
                self.layers.swap(*i, *i + 1);
            },
            _ => {},
        }
        Ok(CanvasEffect::Layer)
    }

    /// Carries out an event that adds, removes or switches frames.
    fn change_frames(&mut self, event: &Event) -> (r: Result<CanvasEffect, StateError>)
        requires
            event is AddFrame || event is DuplicateFrame || event is DeleteFrame
                || event is SwitchFrame,
            admissible(old(self)@, *event),
        ensures
            carried(old(self)@, *event, final(self)@, r),
    {
        let ghost s = self@;
        match event {
            Event::AddFrame => {
                let f = self.layers.add_frame();
                let edits = vec![AtomicAction::RemoveFrame(f)];
                proof {
                    assert(edit_views(edits@) =~= seq![AtomicView::<G>::RemoveFrame(f as int)]);
                    assert(self.layers@ == frame_added(s.layers));
                }
                self.single_action(Action::from_edits(edits));
            },
            Event::DuplicateFrame(k) => {
                let f = self.layers.duplicate_frame(*k);
                let edits = vec![AtomicAction::RemoveFrame(f)];
                proof {
                    assert(edit_views(edits@) =~= seq![AtomicView::<G>::RemoveFrame(f as int)]);
                    assert(self.layers@ == frame_duplicated(s.layers, *k as int));
                }
                self.single_action(Action::from_edits(edits));
            },
            Event::DeleteFrame(k) => {
                match self.layers.remove_frame(*k) {
                    Some(cels) => {
                        let edits = vec![AtomicAction::InsertFrame(*k, cels)];
                        proof {
                            assert(edit_views(edits@) =~= seq![
                                AtomicView::<G>::InsertFrame(*k as int, s.layers.frame_at(*k as int)),
                            ]);
                        }
                        self.single_action(Action::from_edits(edits));
                    },
                    None => {},
                }
            },
            Event::SwitchFrame(k) => self.layers.switch_frame(*k),
            _ => {},
        }
        Ok(CanvasEffect::Layer)
    }

    /// Resizes every cel, recording how to put each back.
    fn resize(&mut self, size: Size) -> (r: Result<CanvasEffect, StateError>)
        requires
            admissible(old(self)@, Event::ResizeCanvas(size)),
        ensures
            carried(old(self)@, Event::ResizeCanvas(size), final(self)@, r),
    {
        let ghost s = self@;
        self.start_action();
        let imgs = self.layers.resize_all(size);
        let ghost target = resize_edits(s.layers);
        let ghost record = imgs@.map_values(|t: (usize, usize, Image)| (t.0 as int, t.1 as int, t.2@));
        let total = imgs.len();
        let mut rest = imgs;
        let mut edits: Vec<AtomicAction<G>> = Vec::new();
        while rest.len() > 0
            invariant
                record == resize_record(s.layers.layers),
                target == record.map_values(
                    |t: (int, int, ImageView)| AtomicView::<G>::SetLayerCanvas(t.0, t.1, t.2),
                ),
                record.len() == total,
                edits@.len() + rest@.len() == total,
                forall|k: int| 0 <= k < edits@.len() ==> #[trigger] edits@[k]@ == target[k],
                forall|k: int|
                    0 <= k < rest@.len() ==> (#[trigger] rest@[k].0 as int, rest@[k].1 as int, rest@[k].2@)
                        == record[edits@.len() + k],
            decreases rest@.len(),
        {
            let ghost done = edits@.len();
            let ghost before = rest@;
            let t = rest.remove(0);
            proof {
                assert((t.0 as int, t.1 as int, t.2@) == record[done as int]);
            }
            edits.push(AtomicAction::SetLayerCanvas(t.0, t.1, t.2));
            proof {
                assert forall|k: int| 0 <= k < rest@.len() implies (#[trigger] rest@[k].0 as int, rest@[k].1 as int, rest@[k].2@)
                    == record[edits@.len() + k] by {
                    assert(rest@[k] == before[k + 1]);
                }
            }
        }
        proof {
            assert(edit_views(edits@) =~= target);
            assert(Seq::<AtomicView<G>>::empty() + edit_views(edits@) =~= edit_views(edits@));
            assert(self.layers@ == all_resized(s.layers, size.x as int, size.y as int));
        }
        self.add_to_action(edits);
        self.end_action();
        Ok(CanvasEffect::New)
    }

    /// Carries out an event: the main way of changing the editor's state.
    /// What is returned says what must be drawn again. A drag to where the
    /// pointer already was is let go; a line or rectangle finished without
    /// being started is refused with [`StateError::DrawingNotStarted`].
    pub fn execute(&mut self, event: Event) -> (r: Result<CanvasEffect, StateError>)
        requires
            admissible(old(self)@, event),
        ensures
            executes(old(self)@, event, final(self)@, r),
    {
        if self.is_unmoved(&event) {
            return Ok(CanvasEffect::Unaffected);
        }
        let ghost s = self@;
        let r = match &event {
            Event::Undo => {
                let effect = self.undo();
                return Ok(effect);
            },
            Event::Redo => {
                let effect = self.redo();
                return Ok(effect);
            },
            Event::ResizeCanvas(size) => self.resize(*size),
            Event::ClearCanvas | Event::LineEnd(_) | Event::RectEnd(_) | Event::EllipseEnd(_, _)
            | Event::Bucket(_)
            | Event::DeleteSelection => self.draw(&event),
            Event::BrushStart | Event::BrushStroke(_) | Event::BrushEnd | Event::EraseStart
            | Event::Erase(_) | Event::EraseEnd => self.stroke(&event),
            Event::SetTool(_) | Event::SetMainColor(_) | Event::SetBrushRadius(_)
            | Event::AddToPalette(_) | Event::RemoveFromPalette(_)
            | Event::SetSpritesheet(_) => self.change_setting(&event),
            Event::ClearSelection | Event::StartSelection(_) | Event::EndSelection(_)
            | Event::Copy | Event::LineStart(_) | Event::RectStart(_) | Event::EllipseStart(_) => {
                self.change_selection(&event)
            },
            Event::NewLayerAbove | Event::SwitchLayer(_) | Event::ChangeLayerVisibility(_, _)
            | Event::ChangeLayerOpacity(_, _) | Event::RenameLayer(_, _) | Event::DeleteLayer(_)
            | Event::MoveLayerDown(_) | Event::MoveLayerUp(_) => self.change_layers(&event),
            Event::AddFrame | Event::DuplicateFrame(_) | Event::DeleteFrame(_)
            | Event::SwitchFrame(_) => self.change_frames(&event),
        };
        proof {
            assert(self@.events == s.events);
            assert(StateView { events: s.events, ..self@ } == self@);
        }
        if r.is_ok() {
            self.events.push(event);
        }
        r
    }

    /// The rectangle with corners `p0` and `p` cut down to the active cel.
    fn selection_between(&self, p0: Point, p: Point) -> (rect: Rect)
        requires
            self@.layers.wf(),
        ensures
            rect == selected_rect(p0, p, active_cel(self@).w, active_cel(self@).h),
    {
        let c = self.layers.active_canvas();
        let w = c.width() as i64;
        let h = c.height() as i64;
        let (x0, x1) = if p0.x <= p.x {
            (p0.x as i64, p.x as i64 + 1)
        } else {
            (p.x as i64, p0.x as i64 + 1)
        };
        let (y0, y1) = if p0.y <= p.y {
            (p0.y as i64, p.y as i64 + 1)
        } else {
            (p.y as i64, p0.y as i64 + 1)
        };
        let cx0 = clamp_to(x0, 0, w);
        let cy0 = clamp_to(y0, 0, h);
        let cx1 = clamp_to(x1, 0, w);
        let cy1 = clamp_to(y1, 0, h);
        let rw = if cx1 > cx0 {
            cx1 - cx0
        } else {
            0
        };
        let rh = if cy1 > cy0 {
            cy1 - cy0
        } else {
            0
        };
        Rect::new(cx0 as i32, cy0 as i32, rw as i32, rh as i32)
    }

    /// The selection a drag started by the last event would make if it
    /// ended at `p`; none when no selection is being dragged.
    pub fn selection_in_progress(&self, p: Point) -> (r: Option<Rect>)
        requires
            self@.layers.wf(),
        ensures
            r == selection_preview(self@, p),
    {
        let n = self.events.len();
        if n == 0 {
            return None;
        }
        let prev = &self.events[n - 1];
        proof {
            assert(last_event(self@) == Some(*prev));
        }
        match prev {
            Event::StartSelection(p0) => Some(self.selection_between(*p0, p)),
            _ => None,
        }
    }
}

} // verus!
