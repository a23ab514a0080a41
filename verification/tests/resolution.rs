use blueprint_render::tweaks::{
    internal_name_mapping_adjustments, resolution_candidates, Model, ModelLoader, ResolveStep,
};

/// Drive a resolution to completion against a fixed set of available file
/// names, recording the order in which loads were attempted.
fn resolve(
    loader: &mut ModelLoader,
    name: &str,
    available: &[&str],
    attempts: &mut Vec<String>,
) -> Vec<Model> {
    let mut step = loader.begin_resolve(name);
    loop {
        match step {
            ResolveStep::Done(models) => return models,
            ResolveStep::Load(task) => {
                let file = task.pending_file().to_string();
                attempts.push(file.clone());
                let loaded = available.contains(&file.as_str());
                step = loader.resolve_step(task, loaded);
            }
        }
    }
}

#[test]
fn alias_table_simple_entry() {
    let maps = internal_name_mapping_adjustments("BeltDefaultForwardInternalVariant").unwrap();
    assert_eq!(maps.len(), 1);
    assert_eq!(maps[0].file, "Belt_Straight");
    assert_eq!(maps[0].offset_hundredths, (0, 0, 0));
}

#[test]
fn alias_table_composite_entries() {
    let maps = internal_name_mapping_adjustments("RotatorOneQuadInternalVariant").unwrap();
    assert_eq!(maps.len(), 2);
    assert_eq!(maps[0].file, "Rotator1Quad");
    assert_eq!(maps[0].offset_hundredths, (0, 0, 0));
    assert_eq!(maps[1].file, "Rotator1QuadPlatform90CC");
    assert_eq!(maps[1].offset_hundredths, (0, 5, 0));

    let maps = internal_name_mapping_adjustments("PinPusherDefaultInternalVariant").unwrap();
    assert_eq!(maps.len(), 4);
    assert_eq!(maps[2].file, "PinPusherClampR");
    assert_eq!(maps[2].offset_hundredths, (0, 16, 0));
    assert_eq!(maps[3].file, "PinPusherClampL");
    assert_eq!(maps[3].offset_hundredths, (0, 15, 0));
}

#[test]
fn alias_table_unknown_name() {
    assert!(internal_name_mapping_adjustments("BeltDefaultForward").is_none());
    assert!(internal_name_mapping_adjustments("").is_none());
}

#[test]
fn suffix_fallback_order() {
    // No exact or aliased file: try the full name, then the name with
    // `InternalVariant` stripped, in that order.
    let c = resolution_candidates("FooBarInternalVariant");
    assert_eq!(c, vec!["FooBarInternalVariant".to_string(), "FooBar".to_string()]);

    let c = resolution_candidates("FooBarDefault");
    assert_eq!(c, vec!["FooBarDefault".to_string(), "FooBar".to_string()]);

    // `InternalVariant` is stripped before `Default` at each stage.
    let c = resolution_candidates("FooDefaultInternalVariant");
    assert_eq!(
        c,
        vec![
            "FooDefaultInternalVariant".to_string(),
            "FooDefault".to_string(),
            "Foo".to_string(),
        ]
    );

    let c = resolution_candidates("Plain");
    assert_eq!(c, vec!["Plain".to_string()]);
}

#[test]
fn fallback_attempts_in_order() {
    let mut loader = ModelLoader::new();
    let mut attempts = Vec::new();
    let models = resolve(
        &mut loader,
        "FooBarInternalVariant",
        &["FooBar"],
        &mut attempts,
    );
    // The exact name is attempted first, then the stripped name succeeds.
    assert_eq!(attempts, vec!["FooBarInternalVariant".to_string(), "FooBar".to_string()]);
    assert_eq!(models.len(), 1);
    assert_eq!(models[0].offset_hundredths, (0, 0, 0));
}

#[test]
fn alias_resolution_all_parts() {
    let mut loader = ModelLoader::new();
    let mut attempts = Vec::new();
    let models = resolve(
        &mut loader,
        "RotatorOneQuadInternalVariant",
        &["Rotator1Quad", "Rotator1QuadPlatform90CC"],
        &mut attempts,
    );
    assert_eq!(attempts, vec![
        "Rotator1Quad".to_string(),
        "Rotator1QuadPlatform90CC".to_string(),
    ]);
    assert_eq!(models.len(), 2);
    assert_ne!(models[0].mesh, models[1].mesh);
    assert_eq!(models[0].offset_hundredths, (0, 0, 0));
    assert_eq!(models[1].offset_hundredths, (0, 5, 0));
}

#[test]
fn alias_resolution_drops_missing_part() {
    // A composite building with one part missing still renders the rest.
    let mut loader = ModelLoader::new();
    let mut attempts = Vec::new();
    let models = resolve(
        &mut loader,
        "RotatorOneQuadInternalVariant",
        &["Rotator1Quad"],
        &mut attempts,
    );
    assert_eq!(models.len(), 1);
    assert_eq!(models[0].offset_hundredths, (0, 0, 0));
    let (resolved, total) = loader.load_counts();
    assert_eq!((resolved, total), (1, 1));
}

#[test]
fn unresolved_name_is_empty_and_counted() {
    let mut loader = ModelLoader::new();
    let mut attempts = Vec::new();
    let models = resolve(&mut loader, "NoSuchBuildingInternalVariant", &[], &mut attempts);
    assert!(models.is_empty());
    let (resolved, total) = loader.load_counts();
    assert_eq!((resolved, total), (0, 1));
}

#[test]
fn cache_idempotence() {
    let mut loader = ModelLoader::new();
    let mut attempts = Vec::new();
    let first = resolve(&mut loader, "FooBarInternalVariant", &["FooBar"], &mut attempts);
    let loads_after_first = attempts.len();

    let second = resolve(&mut loader, "FooBarInternalVariant", &["FooBar"], &mut attempts);
    // The second resolution is answered from the cache: no further load is
    // attempted and the very same mesh handles come back.
    assert_eq!(attempts.len(), loads_after_first);
    assert_eq!(first, second);
    assert_eq!(first[0].mesh, second[0].mesh);

    let cached = loader.load_model_cached("FooBarInternalVariant").unwrap();
    assert_eq!(cached, first);
}

#[test]
fn shared_canonical_file_shares_handle() {
    // Two names that fall back to the same canonical file share one mesh:
    // the file is loaded once and its handle reused.
    let mut loader = ModelLoader::new();
    let mut attempts = Vec::new();
    let a = resolve(&mut loader, "StoneInternalVariant", &["Stone"], &mut attempts);
    let b = resolve(&mut loader, "StoneDefault", &["Stone"], &mut attempts);
    assert_eq!(a[0].mesh, b[0].mesh);
    // "Stone" itself was attempted only once.
    let stone_loads = attempts.iter().filter(|f| f.as_str() == "Stone").count();
    assert_eq!(stone_loads, 1);
}
