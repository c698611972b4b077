use spriterize::action::{Action, AtomicAction};
use spriterize::canvas::{Canvas, CanvasEffect};
use spriterize::color::Color;
use spriterize::filter::Filter;
use spriterize::geom::{Point, Rect, Size};
use spriterize::image::Image;
use spriterize::layer::{Layer, Layers};
use spriterize::state::State;

fn pt(x: i32, y: i32) -> Point {
    Point::new(x, y)
}

fn red() -> Color {
    Color::new(255, 0, 0, 255)
}

fn blue() -> Color {
    Color::new(0, 0, 255, 255)
}

fn pixels(canvas: &Canvas) -> Vec<Color> {
    let mut out = Vec::new();
    for y in 0..canvas.height() {
        for x in 0..canvas.width() {
            out.push(canvas.pixel(pt(x, y)));
        }
    }
    out
}

/// Everything about the stack that undoing must give back.
fn snapshot(layers: &Layers<String>) -> Vec<(String, bool, u8, bool, Option<String>, usize, Vec<Vec<Color>>)> {
    (0..layers.count())
        .map(|i| {
            let l = layers.get(i);
            let cels = (0..l.frame_count()).map(|f| pixels(l.canvas(f))).collect();
            (
                l.name().to_string(),
                l.visible(),
                l.opacity(),
                l.is_adjustment(),
                l.generator().cloned(),
                l.filters().len(),
                cels,
            )
        })
        .collect()
}

#[test]
fn new_layers_have_one_named_layer_and_frame() {
    let layers: Layers<String> = Layers::new(Size::new(4, 3));
    assert_eq!(layers.count(), 1);
    assert_eq!(layers.frame_count(), 1);
    assert_eq!(layers.active_index(), 0);
    assert_eq!(layers.active_frame(), 0);
    assert_eq!(layers.get(0).name(), "Layer 1");
    assert!(layers.get(0).visible());
    assert_eq!(layers.get(0).opacity(), 255);
    assert_eq!(layers.active_canvas().size(), Size::new(4, 3));
    assert!(layers.filters_enabled());
}

#[test]
fn new_layers_take_the_lowest_free_default_name() {
    let mut layers: Layers<String> = Layers::new(Size::new(2, 2));
    layers.add_new_above();
    layers.add_new_above();
    assert_eq!(layers.get(1).name(), "Layer 2");
    assert_eq!(layers.get(2).name(), "Layer 3");
    layers.delete(1);
    layers.add_new_above();
    assert_eq!(layers.get(2).name(), "Layer 2");
}

#[test]
fn deleting_keeps_the_active_index_in_range() {
    let mut layers: Layers<String> = Layers::new(Size::new(2, 2));
    layers.add_new_above();
    layers.switch_to(1);
    layers.delete(1);
    assert_eq!(layers.active_index(), 0);
}

#[test]
fn frames_are_added_duplicated_and_removed_in_every_layer() {
    let mut layers: Layers<String> = Layers::new(Size::new(2, 2));
    layers.add_new_above();
    layers.cel_mut(0, 0).set_pixel(pt(1, 1), red());
    assert_eq!(layers.add_frame(), 1);
    assert_eq!(layers.active_frame(), 1);
    assert_eq!(layers.get(1).frame_count(), 2);
    assert_eq!(layers.duplicate_frame(0), 1);
    assert_eq!(layers.frame_count(), 3);
    assert_eq!(layers.get(0).canvas(1).pixel(pt(1, 1)), red());
    let cels = layers.remove_frame(0).unwrap();
    assert_eq!(cels.len(), 2);
    assert_eq!(cels[0].canvas().pixel(pt(1, 1)), red());
    assert_eq!(layers.frame_count(), 2);
    layers.insert_frame(0, cels);
    assert_eq!(layers.frame_count(), 3);
    assert_eq!(layers.active_frame(), 0);
    assert_eq!(layers.get(0).canvas(0).pixel(pt(1, 1)), red());
}

#[test]
fn the_only_frame_is_not_removed() {
    let mut layers: Layers<String> = Layers::new(Size::new(2, 2));
    assert!(layers.remove_frame(0).is_none());
    assert_eq!(layers.frame_count(), 1);
}

#[test]
fn switching_to_a_missing_frame_does_nothing() {
    let mut layers: Layers<String> = Layers::new(Size::new(2, 2));
    layers.add_frame();
    layers.switch_frame(0);
    layers.switch_frame(5);
    assert_eq!(layers.active_frame(), 0);
}

#[test]
fn swapping_exchanges_two_layers() {
    let mut layers: Layers<String> = Layers::new(Size::new(2, 2));
    layers.add_new_above();
    layers.swap(0, 1);
    assert_eq!(layers.get(0).name(), "Layer 2");
    assert_eq!(layers.get(1).name(), "Layer 1");
}

#[test]
fn resizing_all_hands_back_every_image_by_layer_and_frame() {
    let mut layers: Layers<String> = Layers::new(Size::new(2, 2));
    layers.add_new_above();
    layers.add_frame();
    let old = layers.resize_all(Size::new(3, 1));
    let tags: Vec<(usize, usize)> = old.iter().map(|(l, f, _)| (*l, *f)).collect();
    assert_eq!(tags, vec![(0, 0), (0, 1), (1, 0), (1, 1)]);
    assert!(old.iter().all(|(_, _, img)| img.width() == 2));
    assert_eq!(layers.get(1).canvas(1).size(), Size::new(3, 1));
}

#[test]
fn setters_hand_back_what_they_replace() {
    let mut layers: Layers<String> = Layers::new(Size::new(2, 2));
    assert!(!layers.set_adjustment(0, true));
    assert!(layers.get(0).is_adjustment());
    assert_eq!(layers.set_generator(0, Some("noise".to_string())), None);
    assert_eq!(layers.set_generator(0, None), Some("noise".to_string()));
    let was = layers.set_filters(0, vec![Filter::smooth()]);
    assert!(was.is_empty());
    assert_eq!(layers.get(0).filters().len(), 1);
    let img = Image::new(Size::new(1, 1), red());
    let old = layers.set_cel_img(0, 0, img);
    assert_eq!(old.size(), Size::new(2, 2));
    assert_eq!(layers.active_canvas().pixel(pt(0, 0)), red());
}

#[test]
fn undoing_an_action_restores_the_layers() {
    let mut layers: Layers<String> = Layers::new(Size::new(3, 3));
    layers.add_new_above();
    layers.add_frame();
    let before = snapshot(&layers);

    // Applied from the last to the first: pixels, settings, a canvas, a
    // frame, and then a whole layer.
    let mut action: Action<String> = Action::default();
    action.push(AtomicAction::DestroyLayer(0));
    action.push(AtomicAction::RemoveFrame(0));
    action.push(AtomicAction::SetLayerCanvas(0, 0, Image::new(Size::new(3, 3), blue())));
    action.push(AtomicAction::SetLayerAdjustment(1, true));
    action.push(AtomicAction::SetLayerGenerator(1, Some("graph".to_string())));
    action.append(vec![
        AtomicAction::SetPixel(0, 1, pt(1, 1), red()),
        AtomicAction::SetPixel(0, 1, pt(1, 1), red()),
    ]);

    let (effect, undo) = action.apply(&mut layers);
    assert_eq!(effect, CanvasEffect::Layer);
    assert_ne!(snapshot(&layers), before);
    let (_, redo) = undo.apply(&mut layers);
    assert_eq!(snapshot(&layers), before);
    let (_, undo_again) = redo.apply(&mut layers);
    assert!(!undo_again.is_empty());
    undo_again.apply(&mut layers);
    assert_eq!(snapshot(&layers), before);
}

#[test]
fn an_empty_action_affects_nothing() {
    let mut layers: Layers<String> = Layers::new(Size::new(2, 2));
    let (effect, inverse) = Action::<String>::default().apply(&mut layers);
    assert_eq!(effect, CanvasEffect::Unaffected);
    assert!(inverse.is_empty());
}

#[test]
fn setting_a_pixel_to_its_own_color_leaves_nothing_to_undo() {
    let mut layers: Layers<String> = Layers::new(Size::new(2, 2));
    let (effect, inverse) = AtomicAction::SetPixel(0, 0, pt(0, 0), Color::transparent()).apply(&mut layers);
    assert_eq!(effect, CanvasEffect::Layer);
    assert!(inverse.is_none());
}

#[test]
fn creating_and_destroying_a_layer_undo_each_other() {
    let mut layers: Layers<String> = Layers::new(Size::new(2, 2));
    let layer: Layer<String> = Layer::new(Size::new(2, 2), "extra".to_string(), 1);
    let (_, inverse) = AtomicAction::CreateLayer(0, layer).apply(&mut layers);
    assert_eq!(layers.count(), 2);
    assert_eq!(layers.get(0).name(), "extra");
    assert!(matches!(inverse, Some(AtomicAction::DestroyLayer(0))));
    inverse.unwrap().apply(&mut layers);
    assert_eq!(layers.count(), 1);
    assert_eq!(layers.get(0).name(), "Layer 1");
}

#[test]
fn pixel_edits_are_tagged_with_layer_and_frame() {
    let edits: Vec<AtomicAction<String>> = AtomicAction::set_pixel_vec(2, 3, vec![(pt(1, 2), red()), (pt(0, 0), blue())]);
    assert_eq!(edits.len(), 2);
    assert!(matches!(edits[0], AtomicAction::SetPixel(2, 3, p, c) if p == pt(1, 2) && c == red()));
    assert!(matches!(edits[1], AtomicAction::SetPixel(2, 3, p, c) if p == pt(0, 0) && c == blue()));
}

#[test]
fn undo_and_redo_walk_the_history() {
    let mut state: State<String> = State::new(Size::new(4, 4));
    assert!(!state.can_undo());
    let reversals = state.canvas_mut().set_area(Rect::new(0, 0, 2, 2), red());
    state.single_pixels_action(reversals);
    assert!(state.can_undo());
    assert!(!state.can_redo());

    assert_eq!(state.undo(), CanvasEffect::Layer);
    assert_eq!(state.canvas().pixel(pt(1, 1)), Color::transparent());
    assert!(state.can_redo());
    assert!(!state.can_undo());

    assert_eq!(state.redo(), CanvasEffect::Layer);
    assert_eq!(state.canvas().pixel(pt(1, 1)), red());
    assert!(state.can_undo());
    assert!(!state.can_redo());

    // Nothing left to redo: the effect says nothing changed.
    assert_eq!(state.redo(), CanvasEffect::Unaffected);
}

#[test]
fn a_new_edit_clears_what_could_be_redone() {
    let mut state: State<String> = State::new(Size::new(4, 4));
    let reversals = state.canvas_mut().set_area(Rect::new(0, 0, 1, 1), red());
    state.single_pixels_action(reversals);
    state.undo();
    assert!(state.can_redo());
    state.start_action();
    let reversals = state.canvas_mut().set_area(Rect::new(2, 2, 1, 1), blue());
    state.add_to_pixels_action(reversals);
    state.end_action();
    assert!(!state.can_redo());
    state.undo();
    assert_eq!(state.canvas().pixel(pt(2, 2)), Color::transparent());
}

#[test]
fn a_new_state_draws_black_with_a_single_pixel_brush() {
    let state: State<String> = State::new(Size::new(4, 4));
    assert_eq!(state.main_color(), Color::black());
    assert_eq!(state.brush_radius(), 0);
    assert_eq!(state.spritesheet(), (1, 1));
    assert!(state.selection().is_none());
    assert_eq!(state.layers().count(), 1);
}

#[test]
fn a_spritesheet_must_divide_the_canvas() {
    let mut state: State<String> = State::new(Size::new(4, 6));
    state.set_spritesheet((3, 3));
    assert_eq!(state.spritesheet(), (1, 1));
    state.set_spritesheet((2, 3));
    assert_eq!(state.spritesheet(), (2, 3));
}

#[test]
fn a_bucket_fill_stops_at_other_colors() {
    let mut canvas = Canvas::new(Size::new(5, 5));
    // A wall down the middle column.
    canvas.set_area(Rect::new(2, 0, 1, 5), blue());
    let before = pixels(&canvas);
    let reversals = canvas.bucket(pt(0, 0), red());
    assert_eq!(reversals.len(), 10);
    assert_eq!(canvas.pixel(pt(1, 4)), red());
    assert_eq!(canvas.pixel(pt(2, 2)), blue());
    assert_eq!(canvas.pixel(pt(3, 3)), Color::transparent());
    assert!(reversals.iter().all(|(_, c)| *c == Color::transparent()));
    for (p, c) in reversals.iter().rev() {
        canvas.set_pixel(*p, *c);
    }
    assert_eq!(pixels(&canvas), before);
}

#[test]
fn a_bucket_fill_does_not_leak_through_corners() {
    let mut canvas = Canvas::new(Size::new(3, 3));
    canvas.set_pixel(pt(1, 0), blue());
    canvas.set_pixel(pt(0, 1), blue());
    let reversals = canvas.bucket(pt(0, 0), red());
    assert_eq!(reversals, vec![(pt(0, 0), Color::transparent())]);
    assert_eq!(canvas.pixel(pt(1, 1)), Color::transparent());
}

#[test]
fn a_bucket_fill_with_the_same_color_changes_nothing() {
    let mut canvas = Canvas::new(Size::new(3, 3));
    assert!(canvas.bucket(pt(1, 1), Color::transparent()).is_empty());
}

#[test]
fn a_layer_image_carries_the_layer_opacity() {
    let mut state: State<String> = State::new(Size::new(2, 1));
    state.canvas_mut().set_pixel(pt(0, 0), Color::new(10, 20, 30, 200));
    let full = state.layer_image(0);
    assert_eq!(full.pixel(pt(0, 0)), Color::new(10, 20, 30, 200));
    state.layers_mut().set_opacity(0, 128);
    let faded = state.layer_image(0);
    // 200 * 128 / 255, rounded down.
    assert_eq!(faded.pixel(pt(0, 0)), Color::new(10, 20, 30, 100));
    assert_eq!(faded.pixel(pt(1, 0)), Color::transparent());
}
