use spriterize::canvas::CanvasEffect;
use spriterize::color::Color;
use spriterize::geom::{Point, Rect, Size};
use spriterize::state::{Event, Selection, State, StateError, Tool};

const SIDE: i32 = 10;

fn transparent() -> Color {
    Color::transparent()
}

fn black() -> Color {
    Color::black()
}

fn red() -> Color {
    Color::new(255, 0, 0, 255)
}

fn fresh(side: i32) -> State<String> {
    State::new(Size::new(side, side))
}

fn draw_diagonal(state: &mut State<String>) {
    state.execute(Event::LineStart(Point::new(0, 0))).unwrap();
    state.execute(Event::LineEnd(Point::new(SIDE - 1, SIDE - 1))).unwrap();
}

fn assert_diagonal(state: &State<String>, on: Color) {
    for i in 0..SIDE {
        for j in 0..SIDE {
            let color = if i == j { on } else { transparent() };
            assert_eq!(state.canvas().pixel(Point::new(i, j)), color);
        }
    }
}

/// The pixel of the bottom layer in a frame, which is what shows where the
/// layers above are blank.
fn bottom_pixel(state: &State<String>, frame: usize, p: Point) -> Color {
    state.layers().get(0).canvas(frame).pixel(p)
}

fn stroke(state: &mut State<String>, points: &[Point]) {
    state.execute(Event::BrushStart).unwrap();
    for p in points {
        state.execute(Event::BrushStroke(*p)).unwrap();
    }
    state.execute(Event::BrushEnd).unwrap();
}

#[test]
fn empty_canvas() {
    let state = fresh(SIDE);
    for i in 0..SIDE {
        for j in 0..SIDE {
            assert_eq!(state.canvas().pixel(Point::new(i, j)), transparent());
        }
    }
}

#[test]
fn draw_line() {
    let mut state = fresh(SIDE);
    draw_diagonal(&mut state);
    assert_diagonal(&state, black());
}

#[test]
fn draw_red_line() {
    let mut state = fresh(SIDE);
    state.execute(Event::SetMainColor(red())).unwrap();
    draw_diagonal(&mut state);
    assert_diagonal(&state, red());
}

#[test]
fn draw_line_then_clear_canvas() {
    let mut state = fresh(SIDE);
    draw_diagonal(&mut state);
    assert_eq!(state.execute(Event::ClearCanvas), Ok(CanvasEffect::Update));
    assert_diagonal(&state, transparent());
    state.execute(Event::Undo).unwrap();
    assert_diagonal(&state, black());
}

#[test]
fn bucket() {
    let mut state = fresh(SIDE);
    state.execute(Event::Bucket(Point::new(0, 0))).unwrap();
    for i in 0..SIDE {
        for j in 0..SIDE {
            assert_eq!(state.canvas().pixel(Point::new(i, j)), black());
        }
    }
}

#[test]
fn undo_restores_previous_canvas() {
    let mut state = fresh(SIDE);
    draw_diagonal(&mut state);
    assert!(state.can_undo());
    assert!(!state.can_redo());
    state.execute(Event::Undo).unwrap();
    assert_diagonal(&state, transparent());
    assert!(state.can_redo());
}

#[test]
fn redo_reapplies_undone_action() {
    let mut state = fresh(SIDE);
    draw_diagonal(&mut state);
    state.execute(Event::Undo).unwrap();
    state.execute(Event::Redo).unwrap();
    assert_diagonal(&state, black());
    assert!(!state.can_redo());
    assert!(state.can_undo());
}

#[test]
fn undo_redo_round_trip_with_overlapping_strokes() {
    let mut state = fresh(SIDE);
    state.execute(Event::Bucket(Point::new(0, 0))).unwrap();
    state.execute(Event::SetMainColor(red())).unwrap();
    draw_diagonal(&mut state);

    let expected: Vec<Color> = (0..SIDE)
        .flat_map(|i| (0..SIDE).map(move |j| if i == j { red() } else { black() }))
        .collect();

    state.execute(Event::Undo).unwrap();
    state.execute(Event::Redo).unwrap();

    let actual: Vec<Color> = (0..SIDE)
        .flat_map(|i| (0..SIDE).map(move |j| (i, j)))
        .map(|(i, j)| state.canvas().pixel(Point::new(i, j)))
        .collect();
    assert_eq!(actual, expected);
}

#[test]
fn new_action_clears_the_redo_stack() {
    let mut state = fresh(SIDE);
    draw_diagonal(&mut state);
    state.execute(Event::Undo).unwrap();
    assert!(state.can_redo());
    state.execute(Event::Bucket(Point::new(0, 0))).unwrap();
    assert!(!state.can_redo());
}

#[test]
fn cannot_undo_or_redo_on_a_fresh_state() {
    let state = fresh(SIDE);
    assert!(!state.can_undo());
    assert!(!state.can_redo());
}

#[test]
fn a_wider_brush_paints_a_disc() {
    let side = 11;
    let mut state = fresh(side);
    let centre = Point::new(5, 5);
    state.execute(Event::SetBrushRadius(2)).unwrap();
    stroke(&mut state, &[centre]);

    for i in 0..side {
        for j in 0..side {
            let (dx, dy) = (i - centre.x, j - centre.y);
            let inside = dx * dx + dy * dy <= 4;
            let color = if inside { black() } else { transparent() };
            assert_eq!(state.canvas().pixel(Point::new(i, j)), color, "at {i},{j} with radius 2");
        }
    }
}

#[test]
fn undo_reverts_a_whole_wide_stroke() {
    let side = 12;
    let mut state = fresh(side);
    state.execute(Event::SetBrushRadius(2)).unwrap();
    stroke(&mut state, &[Point::new(2, 2), Point::new(9, 9)]);
    state.execute(Event::Undo).unwrap();

    for i in 0..side {
        for j in 0..side {
            assert_eq!(state.canvas().pixel(Point::new(i, j)), transparent(), "at {i},{j} after undo");
        }
    }
}

#[test]
fn selection_preview_matches_the_selection_it_makes() {
    let mut state = fresh(SIDE);
    let (from, to) = (Point::new(2, 3), Point::new(6, 8));

    state.execute(Event::StartSelection(from)).unwrap();
    let preview = state.selection_in_progress(to);

    state.execute(Event::EndSelection(to)).unwrap();
    let selection = match state.selection() {
        Some(Selection::Canvas(rect)) => rect,
        other => panic!("expected a canvas selection, got {other:?}"),
    };

    assert_eq!(preview, Some(selection));
}

#[test]
fn there_is_no_selection_preview_when_nothing_is_being_dragged() {
    let mut state = fresh(SIDE);
    assert_eq!(state.selection_in_progress(Point::new(1, 1)), None);
    state.execute(Event::BrushStart).unwrap();
    assert_eq!(state.selection_in_progress(Point::new(1, 1)), None);
}

#[test]
fn a_wider_stroke_thickens_a_line() {
    let side = 11;
    let mut state = fresh(side);
    state.execute(Event::SetBrushRadius(1)).unwrap();
    state.execute(Event::LineStart(Point::new(5, 2))).unwrap();
    state.execute(Event::LineEnd(Point::new(5, 8))).unwrap();

    for y in 2..=8 {
        for x in 4..=6 {
            assert_eq!(state.canvas().pixel(Point::new(x, y)), black(), "at {x},{y} on a thick line");
        }
    }
    assert_eq!(state.canvas().pixel(Point::new(3, 5)), transparent());
    assert_eq!(state.canvas().pixel(Point::new(7, 5)), transparent());
}

/// An ellipse outline between two corners, sampled by angle; where the
/// outline comes from is up to the caller of the library.
fn ellipse_outline(p1: Point, p2: Point) -> Vec<Point> {
    let (cx, cy) = ((p1.x + p2.x) as f32 / 2.0, (p1.y + p2.y) as f32 / 2.0);
    let (a, b) = ((p2.x - p1.x).abs() as f32 / 2.0, (p2.y - p1.y).abs() as f32 / 2.0);
    let mut points: Vec<Point> = Vec::new();
    for step in 0..360 {
        let t = (step as f32).to_radians();
        let p = Point::new((cx + a * t.cos()).round() as i32, (cy + b * t.sin()).round() as i32);
        if !points.contains(&p) {
            points.push(p);
        }
    }
    points
}

#[test]
fn a_wider_stroke_thickens_rectangles_and_ellipses() {
    let side = 16;
    let painted = |state: &State<String>| {
        (0..side)
            .flat_map(|i| (0..side).map(move |j| (i, j)))
            .filter(|(i, j)| state.canvas().pixel(Point::new(*i, *j)) != transparent())
            .count()
    };
    let (from, to) = (Point::new(3, 3), Point::new(12, 12));

    for ellipse in [false, true] {
        let (start, end) = if ellipse {
            (Event::EllipseStart(from), Event::EllipseEnd(to, ellipse_outline(from, to)))
        } else {
            (Event::RectStart(from), Event::RectEnd(to))
        };
        let end_again = match &end {
            Event::EllipseEnd(p, outline) => Event::EllipseEnd(*p, outline.clone()),
            _ => Event::RectEnd(to),
        };

        let mut thin = fresh(side);
        thin.execute(match &start {
            Event::EllipseStart(p) => Event::EllipseStart(*p),
            _ => Event::RectStart(from),
        })
        .unwrap();
        thin.execute(end).unwrap();

        let mut thick = fresh(side);
        thick.execute(Event::SetBrushRadius(2)).unwrap();
        thick.execute(start).unwrap();
        thick.execute(end_again).unwrap();

        assert!(painted(&thick) > painted(&thin), "ellipse: {ellipse}");
    }
}

#[test]
fn an_ellipse_needs_a_start_and_can_be_undone() {
    let mut state = fresh(SIDE);
    let outline = ellipse_outline(Point::new(1, 1), Point::new(8, 6));
    assert_eq!(
        state.execute(Event::EllipseEnd(Point::new(8, 6), outline.clone())),
        Err(StateError::DrawingNotStarted)
    );
    state.execute(Event::EllipseStart(Point::new(1, 1))).unwrap();
    assert_eq!(
        state.execute(Event::EllipseEnd(Point::new(8, 6), outline.clone())),
        Ok(CanvasEffect::Update)
    );
    for p in &outline {
        assert_eq!(state.canvas().pixel(*p), black());
    }
    state.execute(Event::Undo).unwrap();
    assert_diagonal(&state, transparent());
}

#[test]
fn a_project_starts_with_one_frame() {
    let mut state = fresh(8);
    assert_eq!(state.layers().frame_count(), 1);
    assert_eq!(state.layers().active_frame(), 0);

    state.execute(Event::AddFrame).unwrap();

    assert_eq!(state.layers().frame_count(), 2);
    assert_eq!(state.layers().active_frame(), 1);
}

#[test]
fn each_frame_holds_its_own_pixels_but_shares_the_layers() {
    let blue = Color::new(0, 0, 255, 255);
    let dot = Point::new(4, 4);
    let mut state = fresh(8);

    state.execute(Event::SetMainColor(red())).unwrap();
    stroke(&mut state, &[dot]);

    state.execute(Event::AddFrame).unwrap();
    state.execute(Event::SetMainColor(blue)).unwrap();
    stroke(&mut state, &[dot]);

    state.execute(Event::NewLayerAbove).unwrap();
    assert_eq!(state.layers().get(0).frame_count(), 2);
    assert_eq!(state.layers().get(1).frame_count(), 2);

    state.execute(Event::SwitchFrame(0)).unwrap();
    assert_eq!(bottom_pixel(&state, state.layers().active_frame(), dot), red());

    state.execute(Event::SwitchFrame(1)).unwrap();
    assert_eq!(bottom_pixel(&state, state.layers().active_frame(), dot), blue);
}

#[test]
fn undo_applies_to_the_frame_the_edit_was_made_on() {
    let dot = Point::new(3, 3);
    let mut state = fresh(8);

    state.execute(Event::AddFrame).unwrap();
    assert_eq!(state.layers().active_frame(), 1);

    state.execute(Event::SetMainColor(red())).unwrap();
    stroke(&mut state, &[dot]);

    state.execute(Event::SwitchFrame(0)).unwrap();
    state.execute(Event::Undo).unwrap();

    state.execute(Event::SwitchFrame(1)).unwrap();
    assert_eq!(state.canvas().pixel(dot), transparent());
}

#[test]
fn a_duplicated_frame_copies_the_pixels_then_diverges() {
    let dot = Point::new(2, 2);
    let mut state = fresh(8);

    state.execute(Event::SetMainColor(red())).unwrap();
    stroke(&mut state, &[dot]);

    state.execute(Event::DuplicateFrame(0)).unwrap();
    assert_eq!(state.layers().frame_count(), 2);
    assert_eq!(state.layers().active_frame(), 1);
    assert_eq!(state.canvas().pixel(dot), red());

    state.execute(Event::ClearCanvas).unwrap();
    assert_eq!(state.canvas().pixel(dot), transparent());
    state.execute(Event::SwitchFrame(0)).unwrap();
    assert_eq!(state.canvas().pixel(dot), red());
}

#[test]
fn deleting_a_frame_can_be_undone() {
    let dot = Point::new(5, 5);
    let mut state = fresh(8);

    state.execute(Event::AddFrame).unwrap();
    state.execute(Event::SetMainColor(red())).unwrap();
    stroke(&mut state, &[dot]);

    state.execute(Event::DeleteFrame(1)).unwrap();
    assert_eq!(state.layers().frame_count(), 1);

    state.execute(Event::Undo).unwrap();
    assert_eq!(state.layers().frame_count(), 2);
    state.execute(Event::SwitchFrame(1)).unwrap();
    assert_eq!(state.canvas().pixel(dot), red());
}

#[test]
fn the_last_frame_cannot_be_deleted() {
    let mut state = fresh(8);
    state.execute(Event::DeleteFrame(0)).unwrap();
    assert_eq!(state.layers().frame_count(), 1);
    assert!(!state.can_undo(), "a refused delete records nothing to undo");
}

#[test]
fn layers_start_with_distinct_default_names() {
    let mut state = fresh(4);
    state.execute(Event::NewLayerAbove).unwrap();
    state.execute(Event::NewLayerAbove).unwrap();
    let names: Vec<&str> = (0..state.layers().count()).map(|i| state.layers().get(i).name()).collect();
    assert_eq!(names, vec!["Layer 1", "Layer 2", "Layer 3"]);
}

#[test]
fn a_new_layer_avoids_a_name_already_in_use() {
    let mut state = fresh(4);
    state.execute(Event::RenameLayer(0, "Layer 2".to_owned())).unwrap();
    state.execute(Event::NewLayerAbove).unwrap();
    assert_eq!(state.layers().get(1).name(), "Layer 1");
}

#[test]
fn layers_can_be_renamed() {
    let mut state = fresh(4);
    state.execute(Event::RenameLayer(0, "head".to_owned())).unwrap();
    assert_eq!(state.layers().get(0).name(), "head");
}

#[test]
fn bucket_then_erase() {
    let mut state = fresh(SIDE);
    state.execute(Event::Bucket(Point::new(0, 0))).unwrap();
    state.execute(Event::EraseStart).unwrap();
    state.execute(Event::Erase(Point::new(0, 0))).unwrap();
    state.execute(Event::Erase(Point::new(SIDE - 1, SIDE - 1))).unwrap();
    state.execute(Event::EraseEnd).unwrap();

    for i in 0..SIDE {
        for j in 0..SIDE {
            let color = if i == j { transparent() } else { black() };
            assert_eq!(state.canvas().pixel(Point::new(i, j)), color);
        }
    }
}

#[test]
fn finishing_a_line_that_was_never_started_is_refused() {
    let mut state = fresh(SIDE);
    assert_eq!(
        state.execute(Event::LineEnd(Point::new(3, 3))),
        Err(StateError::DrawingNotStarted)
    );
    assert!(!state.can_undo());
    assert_eq!(
        state.execute(Event::RectEnd(Point::new(3, 3))),
        Err(StateError::DrawingNotStarted)
    );
}

#[test]
fn a_drag_to_where_the_brush_already_is_changes_nothing() {
    let mut state = fresh(SIDE);
    state.execute(Event::BrushStart).unwrap();
    assert_eq!(state.execute(Event::BrushStroke(Point::new(2, 2))), Ok(CanvasEffect::Update));
    assert_eq!(state.execute(Event::BrushStroke(Point::new(2, 2))), Ok(CanvasEffect::Unaffected));
    state.execute(Event::BrushEnd).unwrap();
    assert_eq!(state.canvas().pixel(Point::new(2, 2)), black());
}

#[test]
fn a_selection_is_cut_down_to_the_canvas_and_deleting_it_clears_it() {
    let mut state = fresh(SIDE);
    state.execute(Event::Bucket(Point::new(0, 0))).unwrap();
    state.execute(Event::StartSelection(Point::new(12, 8))).unwrap();
    state.execute(Event::EndSelection(Point::new(7, -3))).unwrap();
    assert_eq!(state.selection(), Some(Selection::Canvas(Rect::new(7, 0, 3, 9))));

    assert_eq!(state.execute(Event::DeleteSelection), Ok(CanvasEffect::Update));
    assert_eq!(state.canvas().pixel(Point::new(8, 4)), transparent());
    assert_eq!(state.canvas().pixel(Point::new(8, 9)), black());
    assert_eq!(state.canvas().pixel(Point::new(6, 4)), black());

    state.execute(Event::ClearSelection).unwrap();
    assert_eq!(state.selection(), None);
}

#[test]
fn layer_events_change_the_layers() {
    let mut state = fresh(4);
    assert_eq!(state.execute(Event::NewLayerAbove), Ok(CanvasEffect::Layer));
    state.execute(Event::RenameLayer(1, "top".to_owned())).unwrap();
    state.execute(Event::MoveLayerDown(1)).unwrap();
    assert_eq!(state.layers().get(0).name(), "top");
    state.execute(Event::MoveLayerUp(0)).unwrap();
    assert_eq!(state.layers().get(1).name(), "top");
    state.execute(Event::ChangeLayerOpacity(1, 9)).unwrap();
    assert_eq!(state.layers().get(1).opacity(), 9);
    state.execute(Event::ChangeLayerVisibility(1, false)).unwrap();
    assert!(!state.layers().get(1).visible());
    state.execute(Event::SwitchLayer(1)).unwrap();
    assert_eq!(state.layers().active_index(), 1);
    state.execute(Event::DeleteLayer(1)).unwrap();
    assert_eq!(state.layers().count(), 1);
    state.execute(Event::Undo).unwrap();
    assert_eq!(state.layers().count(), 2);
    assert_eq!(state.layers().get(1).name(), "top");
}

#[test]
fn settings_events_change_the_settings() {
    let mut state = fresh(4);
    state.execute(Event::SetBrushRadius(200)).unwrap();
    assert_eq!(state.brush_radius(), 16);
    state.execute(Event::SetSpritesheet((2, 2))).unwrap();
    assert_eq!(state.spritesheet(), (2, 2));
    state.execute(Event::SetSpritesheet((3, 1))).unwrap();
    assert_eq!(state.spritesheet(), (2, 2));
}

#[test]
fn resizing_keeps_what_fits_and_can_be_undone() {
    let mut state = fresh(4);
    state.execute(Event::Bucket(Point::new(0, 0))).unwrap();
    assert_eq!(state.execute(Event::ResizeCanvas(Size::new(6, 2))), Ok(CanvasEffect::New));
    assert_eq!(state.canvas().width(), 6);
    assert_eq!(state.canvas().height(), 2);
    assert_eq!(state.canvas().pixel(Point::new(3, 1)), black());
    assert_eq!(state.canvas().pixel(Point::new(5, 1)), transparent());
    state.execute(Event::Undo).unwrap();
    assert_eq!(state.canvas().width(), 4);
    assert_eq!(state.canvas().pixel(Point::new(3, 3)), black());
}

#[test]
fn undoing_a_fill_or_a_deleted_selection_gives_the_pixels_back() {
    let mut state = fresh(SIDE);
    draw_diagonal(&mut state);
    state.execute(Event::SetMainColor(red())).unwrap();
    state.execute(Event::Bucket(Point::new(0, 5))).unwrap();
    assert_eq!(state.canvas().pixel(Point::new(0, 5)), red());
    assert_eq!(state.canvas().pixel(Point::new(5, 0)), transparent());
    state.execute(Event::Undo).unwrap();
    assert_diagonal(&state, black());

    state.execute(Event::StartSelection(Point::new(0, 0))).unwrap();
    state.execute(Event::EndSelection(Point::new(4, 4))).unwrap();
    state.execute(Event::DeleteSelection).unwrap();
    assert_eq!(state.canvas().pixel(Point::new(2, 2)), transparent());
    assert_eq!(state.canvas().pixel(Point::new(6, 6)), black());
    state.execute(Event::Undo).unwrap();
    assert_diagonal(&state, black());
}

#[test]
fn copying_a_selection_keeps_the_canvas_as_it_is() {
    let mut state = fresh(SIDE);
    draw_diagonal(&mut state);
    state.execute(Event::StartSelection(Point::new(1, 1))).unwrap();
    state.execute(Event::EndSelection(Point::new(3, 3))).unwrap();
    assert_eq!(state.execute(Event::Copy), Ok(CanvasEffect::Unaffected));
    assert_diagonal(&state, black());
}

#[test]
fn the_tool_and_the_palette_follow_their_events() {
    let mut state = fresh(4);
    assert_eq!(state.selected_tool(), Tool::Brush);
    state.execute(Event::SetTool(Tool::Bucket)).unwrap();
    assert_eq!(state.selected_tool(), Tool::Bucket);

    let n = state.palette().colors().len();
    let odd = Color::new(1, 2, 3, 4);
    state.execute(Event::AddToPalette(odd)).unwrap();
    state.execute(Event::AddToPalette(odd)).unwrap();
    assert_eq!(state.palette().colors().len(), n + 1);
    assert_eq!(state.palette().colors()[n], odd);
    state.execute(Event::RemoveFromPalette(odd)).unwrap();
    assert_eq!(state.palette().colors().len(), n);
}
