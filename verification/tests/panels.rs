use spriterize::color::Color;
use spriterize::export::{prepare, Scale};
use spriterize::image::Image;
use spriterize::geom::Size;
use spriterize::panels::{
    selected_ids, set_all, sync_checks, CollectionSync, CollectionWindow, ElementSummary,
    ExportSettings, Launcher, MenuBar,
};

#[test]
fn export_settings_start_neutral() {
    let s = ExportSettings::new();
    assert!(s.options.is_identity());
    assert_eq!((s.padding_str.as_str(), s.up_str.as_str(), s.down_str.as_str()), ("0", "1", "1"));
    assert_eq!(s.resulting_size(Size::new(7, 5)), Size::new(7, 5));
}

#[test]
fn the_resulting_size_pads_scales_and_rounds() {
    let mut s = ExportSettings::new();
    s.edit_padding("2".to_string());
    s.set_scale(3, 2);
    assert_eq!((s.up_str.as_str(), s.down_str.as_str()), ("3", "2"));
    // 5 + 4 = 9, times 3 is 27, over 2 rounded up is 14.
    assert_eq!(s.resulting_size(Size::new(5, 1)), Size::new(14, 8));
    s.options.power_of_two = true;
    assert_eq!(s.resulting_size(Size::new(5, 1)), Size::new(16, 8));
}

#[test]
fn half_typed_fields_leave_the_options_alone() {
    let mut s = ExportSettings::new();
    s.edit_padding("1x".to_string());
    assert_eq!(s.options.padding, 0);
    assert_eq!(s.padding_str, "1x");
    s.edit_scale("4".to_string(), "".to_string());
    assert_eq!(s.options.scale, Scale::new(1, 1));
    s.edit_scale("4".to_string(), "0".to_string());
    assert_eq!(s.options.scale, Scale::new(4, 1));
}

#[test]
fn checks_survive_a_refresh() {
    let mut values = vec![("a".to_string(), false), ("b".to_string(), true)];
    sync_checks(&mut values, vec!["b".to_string(), "c".to_string(), "a".to_string()]);
    assert_eq!(
        values,
        vec![("b".to_string(), true), ("c".to_string(), true), ("a".to_string(), false)]
    );
    set_all(&mut values, false);
    assert!(values.iter().all(|(_, checked)| !checked));
}

#[test]
fn selected_ids_list_outputs_then_projects() {
    let assets = vec![("a".to_string(), true), ("b".to_string(), false)];
    let projects = vec![("p".to_string(), "P".to_string(), true)];
    assert_eq!(selected_ids(&assets, &projects), vec!["a".to_string(), "p".to_string()]);
}

#[test]
fn the_collection_window_follows_the_collection() {
    let mut w = CollectionWindow::new();
    assert!(!w.open);
    w.open();
    w.sync(Some(CollectionSync {
        name: "game".into(),
        active_project: Some("p".into()),
        elements: vec![ElementSummary { id: "e".into(), name: "Element".into() }],
        assets: vec!["a".into()],
        projects: vec![("p".into(), "Project".into())],
    }));
    assert!(w.open);
    assert_eq!(w.name, "game");
    assert_eq!(w.assets, vec![("a".to_string(), true)]);
    assert_eq!(w.projects, vec![("p".to_string(), "Project".to_string(), true)]);
    assert_eq!(w.elements, vec![("e".to_string(), "Element".to_string())]);
    w.select_everything(false);
    assert_eq!(w.projects[0].2, false);
    w.sync(None);
    assert!(!w.open);
    assert!(w.assets.is_empty());
}

#[test]
fn the_new_project_form_needs_a_name_and_a_size() {
    let mut w = CollectionWindow::new();
    assert_eq!(w.new_project_request(), Some(("New Asset".to_string(), 64, 64)));
    w.new_width = "0".into();
    assert_eq!(w.new_project_request(), None);
    w.new_width = "70000".into();
    assert_eq!(w.new_project_request(), None);
    w.new_width = "+12".into();
    w.new_name = "  Hero ".into();
    assert_eq!(w.new_project_request(), Some(("Hero".to_string(), 12, 64)));
    w.new_element_name = "   ".into();
    assert_eq!(w.new_element_request(), None);
}

#[test]
fn the_menu_opens_what_was_asked_for() {
    let mut m = MenuBar::new();
    m.sync(Size::new(8, 8), (2, 1), true, false, vec!["x".into()], true, true, false, 3, true);
    assert!(m.show_confirm_new_window);
    assert!(m.show_export_layers_window);
    assert!(!m.show_export_image_window);
    assert_eq!(m.sheet_str, ("3".to_string(), "1".to_string()));
    assert_eq!(m.canvas_size_for_export, Size::new(8, 8));

    let mut l = Launcher::new();
    l.sync(vec!["a".into()]);
    assert_eq!(l.recent, vec!["a".to_string()]);
}

#[test]
fn the_resulting_size_is_what_preparing_makes() {
    let mut s = ExportSettings::new();
    s.edit_padding("2".to_string());
    s.set_scale(3, 2);
    for power_of_two in [false, true] {
        s.options.power_of_two = power_of_two;
        let img = Image::new(Size::new(5, 1), Color::new(9, 9, 9, 255));
        let out = prepare(&img, &s.options, None);
        assert_eq!(Size::new(out.width(), out.height()), s.resulting_size(Size::new(5, 1)));
    }
}

#[test]
fn trimming_only_makes_the_export_smaller() {
    let mut s = ExportSettings::new();
    s.edit_padding("1".to_string());
    s.set_scale(3, 2);
    s.options.crop = true;
    for power_of_two in [false, true] {
        s.options.power_of_two = power_of_two;
        let mut img = Image::new(Size::new(9, 5), Color::new(0, 0, 0, 0));
        img.set_pixel(spriterize::geom::Point::new(4, 2), Color::new(9, 9, 9, 255));
        let out = prepare(&img, &s.options, None);
        let bound = s.resulting_size(Size::new(9, 5));
        assert!(out.width() <= bound.x && out.height() <= bound.y);
        assert!(out.width() < bound.x);
    }
}
