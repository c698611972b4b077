use spriterize::files::{
    export_image, is_collection, is_project, open_document, open_project, save_collection,
    save_project, is_same_path, DialogKind, RecentFiles, MAX_RECENT,
};
use spriterize::paths::{extension, png_path, safe_relative};

#[test]
fn recognizes_project_paths() {
    assert!(is_project("hero.spriterize"));
    assert!(is_project("HERO.SPRITERIZE"));
    assert!(!is_project("hero.png"));
    assert!(!is_project("hero"));
}

#[test]
fn recognizes_collection_paths() {
    assert!(is_collection("game.spriterize-collection"));
    assert!(is_collection("GAME.SPRITERIZE-COLLECTION"));
    assert!(!is_collection("game.spriterize"));
}

#[test]
fn extensions_follow_the_last_component() {
    let ext = |p: &str| extension(p).map(|e| e.into_iter().collect::<String>());
    assert_eq!(ext("dir/hero.png"), Some("png".to_string()));
    assert_eq!(ext("dir.x/hero"), None);
    assert_eq!(ext(".hidden"), None);
    assert_eq!(ext("archive.tar.gz"), Some("gz".to_string()));
    assert_eq!(ext("a.b/"), Some("b".to_string()));
    assert_eq!(ext("a.b/."), Some("b".to_string()));
    assert_eq!(ext("a.b/.."), None);
    assert_eq!(ext("name."), Some(String::new()));
}

#[test]
fn safe_paths_stay_inside() {
    assert!(safe_relative("inside.png"));
    assert!(safe_relative("ui/dot-small"));
    assert!(!safe_relative("../outside.png"));
    assert!(!safe_relative("/etc/passwd"));
    assert!(!safe_relative("./here"));
    assert!(!safe_relative("a/../b"));
    assert!(!safe_relative("   "));
    assert!(safe_relative("a/./b"));
}

#[test]
fn png_paths_get_their_extension() {
    assert_eq!(png_path("ui/dot-small"), "ui/dot-small.png");
    assert_eq!(png_path("ui/dot.PNG"), "ui/dot.PNG");
    assert_eq!(png_path("ui/dot.jpg"), "ui/dot.png");
    assert_eq!(png_path("dir/"), "dir.png");
    assert_eq!(png_path(".."), "..");
}

#[test]
fn dialogs_offer_the_right_files() {
    let d = open_project(Some("work/hero.spriterize"));
    assert_eq!(d.kind, DialogKind::PickFile);
    assert_eq!(d.near.as_deref(), Some("work/hero.spriterize"));
    assert_eq!(d.filters.len(), 2);
    assert_eq!(d.filters[0].name, "Spriterize projects");
    assert_eq!(d.filters[0].extensions, vec!["spriterize".to_string()]);
    assert_eq!(d.filters[1].extensions, vec!["*".to_string()]);

    let d = save_project(None);
    assert_eq!(d.kind, DialogKind::SaveFile);
    assert_eq!(d.file_name.as_deref(), Some("project.spriterize"));

    let d = save_collection(None);
    assert_eq!(d.file_name.as_deref(), Some("assets.spriterize-collection"));

    let d = open_document(None);
    assert_eq!(d.filters.len(), 5);
    assert_eq!(d.filters[0].extensions.len(), 5);

    let d = export_image(None);
    assert_eq!(d.filters[1].extensions, vec!["jpg".to_string(), "jpeg".to_string()]);
}

#[test]
fn most_recent_comes_first() {
    let mut recent = RecentFiles::default();
    recent.remember("a".into());
    recent.remember("b".into());

    assert_eq!(recent.paths(), &["b".to_string(), "a".to_string()]);
}

#[test]
fn reopening_moves_a_path_up_instead_of_duplicating_it() {
    let mut recent = RecentFiles::default();
    recent.remember("a".into());
    recent.remember("b".into());
    recent.remember("a".into());

    assert_eq!(recent.paths(), &["a".to_string(), "b".to_string()]);
}

#[test]
fn oldest_paths_fall_off_the_end() {
    let mut recent = RecentFiles::default();

    for i in 0..MAX_RECENT + 5 {
        recent.remember(format!("file{i}"));
    }

    assert_eq!(recent.paths().len(), MAX_RECENT);
    assert_eq!(recent.paths()[0], format!("file{}", MAX_RECENT + 4));
}

#[test]
fn the_saved_list_reads_back() {
    let mut recent = RecentFiles::default();
    recent.remember("one/a.spriterize".into());
    let text = recent.push("two/b.png".into());
    assert_eq!(text, "two/b.png\none/a.spriterize\n");

    let loaded = RecentFiles::from_text(&text);
    assert_eq!(loaded.paths(), recent.paths());

    let loaded = RecentFiles::from_text("  x  \r\n\n y\n");
    assert_eq!(loaded.paths(), &["x".to_string(), "y".to_string()]);

    assert_eq!(recent.clear(), "");
    assert!(recent.paths().is_empty());
}

#[test]
fn spellings_of_one_path_are_remembered_once() {
    let mut recent = RecentFiles::default();
    recent.remember("art/hero.spriterize".into());
    recent.remember("art//./hero.spriterize/".into());
    assert_eq!(recent.paths(), ["art//./hero.spriterize/".to_string()]);
}

#[test]
fn paths_are_compared_by_their_components() {
    let same = |a: &str, b: &str| is_same_path(&a.to_string(), &b.to_string());
    assert!(same("a/b", "a/b/"));
    assert!(same("a//b", "a/./b"));
    assert!(same("/a", "//a"));
    assert!(!same("./a", "a"));
    assert!(!same("/a", "a"));
    assert!(!same("a/../b", "b"));
    assert!(same(".", "./"));
    assert!(!same(".a", "a"));
}
