use spriterize::collection::{
    slug, AssetCollection, AssetMetadata, AssetOutput, ExportError, ExportSource, GeneratorKind,
    GeneratorResource, IdKind, Invalid, ScriptLibrary,
};
use spriterize::export::ExportOptions;

fn script_collection() -> AssetCollection {
    let mut collection = AssetCollection::new("test assets".to_string());
    collection.script_libraries.push(ScriptLibrary {
        id: "shared-shapes".into(),
        source: "fn shared_shape(w, h) { disk(w as f64 / 2.0, h as f64 / 2.0, 3.0) }".into(),
    });
    collection.generators.push(GeneratorResource {
        id: "dot".into(),
        kind: GeneratorKind::Script,
        libraries: vec!["shared-shapes".into()],
        script: "fn main(w, h) { shared_shape(w, h) }".into(),
    });
    collection.assets.push(AssetOutput {
        id: "dot-small".into(),
        generator: "dot".into(),
        width: 16,
        height: 16,
        output: "ui/dot-small".into(),
        value_ids: Vec::new(),
        export: ExportOptions::default(),
        metadata: AssetMetadata { slice9: None, tags: vec!["ui".into()] },
    });
    collection
}

#[test]
fn a_well_formed_collection_validates() {
    assert_eq!(script_collection().validate(), Ok(()));
}

#[test]
fn validation_rejects_traversal_and_missing_resources() {
    let mut collection = script_collection();
    collection.assets[0].output = "../outside.png".into();
    assert!(collection.validate().is_err());
    collection.assets[0].output = "inside.png".into();
    collection.assets[0].generator = "missing".into();
    assert!(collection.validate().is_err());
}

#[test]
fn validation_names_the_first_rule_broken() {
    let mut collection = script_collection();
    collection.assets[0].output = "../outside.png".into();
    assert_eq!(collection.validate(), Err(Invalid::UnsafeAssetOutput(0)));

    let mut collection = script_collection();
    collection.format_version = 3;
    assert_eq!(collection.validate(), Err(Invalid::UnsupportedVersion));

    let mut collection = script_collection();
    collection.name = "  ".into();
    assert_eq!(collection.validate(), Err(Invalid::EmptyName));

    let mut collection = script_collection();
    collection.generators[0].libraries.push("shared-shapes".into());
    assert_eq!(collection.validate(), Err(Invalid::RepeatedLibrary(0, 1)));

    let mut collection = script_collection();
    collection.generators[0].libraries = vec!["nope".into()];
    assert_eq!(collection.validate(), Err(Invalid::MissingLibrary(0, 0)));

    let mut collection = script_collection();
    collection.generators[0].kind = GeneratorKind::Graph;
    assert_eq!(collection.validate(), Err(Invalid::GraphWithLibraries(0)));

    let mut collection = script_collection();
    collection.script_libraries.push(ScriptLibrary { id: "shared-shapes".into(), source: String::new() });
    assert_eq!(collection.validate(), Err(Invalid::DuplicateId(IdKind::ScriptLibrary, 1)));

    let mut collection = script_collection();
    collection.assets[0].metadata.slice9 = Some([10, 0, 7, 0]);
    assert_eq!(collection.validate(), Err(Invalid::Slice9TooLarge(0)));

    let mut collection = script_collection();
    collection.assets[0].value_ids = vec!["a".into(), "a".into()];
    assert_eq!(collection.validate(), Err(Invalid::BadValueId(0)));

    let mut collection = script_collection();
    collection.assets[0].width = 0;
    assert_eq!(collection.validate(), Err(Invalid::ZeroDimension(0)));
}

#[test]
fn outputs_compare_without_case_or_backslashes() {
    let mut collection = script_collection();
    let mut second = AssetOutput {
        id: "dot-large".into(),
        generator: "dot".into(),
        width: 32,
        height: 32,
        output: "UI\\Dot-Small".into(),
        value_ids: Vec::new(),
        export: ExportOptions::default(),
        metadata: AssetMetadata::new(),
    };
    second.output = "UI\\Dot-Small".into();
    collection.assets.push(second);
    assert_eq!(collection.validate(), Err(Invalid::DuplicateAssetOutput(1)));
}

#[test]
fn embedded_project_ids_are_stable_and_unique() {
    let bytes = vec![1, 2, 3];
    let mut collection = AssetCollection::new("ids".to_string());
    assert_eq!(
        collection.add_project("Magic Orb".into(), bytes.clone(), true).unwrap(),
        "magic-orb"
    );
    assert_eq!(collection.add_project("Magic Orb".into(), bytes, true).unwrap(), "magic-orb-2");
    assert_eq!(collection.projects[1].entry, "projects/magic-orb-2.spriterize");
    assert_eq!(collection.projects[1].output, "magic-orb-2.png");
}

#[test]
fn malformed_embedded_projects_are_rejected() {
    let mut collection = AssetCollection::new("broken".to_string());
    assert_eq!(
        collection.add_project("Broken".into(), vec![1, 2, 3, 4], false),
        Err(Invalid::Undecodable(0))
    );
    assert!(collection.projects.is_empty());
}

#[test]
fn a_project_may_not_take_an_outputs_id() {
    let mut collection = script_collection();
    let id = collection.add_project("Dot Small".into(), vec![9], true).unwrap();
    assert_eq!(id, "dot-small-2");
    assert_eq!(collection.format_version, 2);
}

#[test]
fn slugs_keep_only_safe_characters() {
    assert_eq!(slug("Tiny Hero"), "tiny-hero");
    assert_eq!(slug("  --Hello, World!--  "), "hello--world");
    assert_eq!(slug("snake_case"), "snake_case");
    assert_eq!(slug("???"), "project");
    assert_eq!(slug(""), "project");
}

fn two_outputs() -> AssetCollection {
    let mut collection = script_collection();
    collection.assets.push(AssetOutput {
        id: "dot-large".into(),
        generator: "dot".into(),
        width: 32,
        height: 32,
        output: "ui/dot-large.PNG".into(),
        value_ids: Vec::new(),
        export: ExportOptions::default(),
        metadata: AssetMetadata::new(),
    });
    collection
}

#[test]
fn exporting_nothing_selected_exports_everything() {
    let jobs = two_outputs().export_selected(&Vec::new()).unwrap();
    let plan: Vec<(ExportSource, String)> = jobs.into_iter().map(|j| (j.source, j.path)).collect();
    assert_eq!(
        plan,
        vec![
            (ExportSource::Asset(0), "ui/dot-small.png".to_string()),
            (ExportSource::Asset(1), "ui/dot-large.PNG".to_string()),
        ]
    );
}

#[test]
fn exporting_a_selection_exports_only_it() {
    let jobs = two_outputs().export_selected(&vec!["dot-large".to_string()]).unwrap();
    assert_eq!(jobs.len(), 1);
    assert_eq!(jobs[0].source, ExportSource::Asset(1));
}

#[test]
fn exporting_an_unknown_id_is_refused_before_anything_is_written() {
    match two_outputs().export_selected(&vec!["dot-large".to_string(), "nope".to_string()]) {
        Err(ExportError::UnknownSelection(id)) => assert_eq!(id, "nope"),
        other => panic!("expected an unknown selection, got {other:?}"),
    }
}

#[test]
fn exporting_an_invalid_collection_is_refused() {
    let mut collection = two_outputs();
    collection.assets[1].output = "ui/dot-small".into();
    assert!(matches!(collection.export_selected(&Vec::new()), Err(ExportError::Invalid(_))));
}

#[test]
fn a_script_generator_runs_after_its_libraries() {
    let mut collection = script_collection();
    collection.script_libraries.push(ScriptLibrary { id: "extra".into(), source: "let k = 2;".into() });
    collection.generators[0].libraries.push("extra".into());
    assert_eq!(
        collection.generator_script("dot").as_deref(),
        Some(
            "fn shared_shape(w, h) { disk(w as f64 / 2.0, h as f64 / 2.0, 3.0) }\nlet k = 2;\nfn main(w, h) { shared_shape(w, h) }"
        )
    );
    assert_eq!(collection.generator_script("missing"), None);
    collection.generators[0].kind = GeneratorKind::Graph;
    assert_eq!(collection.generator_script("dot"), None);
}
