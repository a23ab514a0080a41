use blueprint_render::blueprint::BlueprintEntry;
use blueprint_render::render::plan_instances;
use blueprint_render::tweaks::{ModelLoader, ResolveStep};

fn entry(name: &str, x: i32, y: i32) -> BlueprintEntry {
    BlueprintEntry::new(x, y, 0, 0, name.to_string(), String::new())
}

fn resolve_all(loader: &mut ModelLoader, name: &str, available: &[&str]) {
    let mut step = loader.begin_resolve(name);
    loop {
        match step {
            ResolveStep::Done(_) => return,
            ResolveStep::Load(task) => {
                let loaded = available.contains(&task.pending_file());
                step = loader.resolve_step(task, loaded);
            }
        }
    }
}

#[test]
fn repeated_placements_share_one_upload() {
    // Five placements of one building: five instances, one upload.
    let mut loader = ModelLoader::new();
    resolve_all(&mut loader, "Belt", &["Belt"]);
    let entries: Vec<BlueprintEntry> = (0..5).map(|i| entry("Belt", i, 0)).collect();
    let instances = plan_instances(&loader, &entries);
    assert_eq!(instances.len(), 5);
    let uploads = instances.iter().filter(|s| s.needs_upload).count();
    assert_eq!(uploads, 1);
    assert!(instances[0].needs_upload);
    for (i, inst) in instances.iter().enumerate() {
        assert_eq!(inst.entry_index, i);
        assert_eq!(inst.part_index, 0);
        assert_eq!(inst.mesh, instances[0].mesh);
    }
}

#[test]
fn distinct_meshes_each_upload_once() {
    let mut loader = ModelLoader::new();
    resolve_all(&mut loader, "Belt", &["Belt", "Wall"]);
    resolve_all(&mut loader, "Wall", &["Belt", "Wall"]);
    let entries = vec![
        entry("Belt", 0, 0),
        entry("Wall", 1, 0),
        entry("Belt", 2, 0),
        entry("Wall", 3, 0),
    ];
    let instances = plan_instances(&loader, &entries);
    assert_eq!(instances.len(), 4);
    let uploads: Vec<bool> = instances.iter().map(|s| s.needs_upload).collect();
    assert_eq!(uploads, vec![true, true, false, false]);
}

#[test]
fn composite_building_contributes_each_part() {
    let mut loader = ModelLoader::new();
    resolve_all(
        &mut loader,
        "RotatorOneQuadInternalVariant",
        &["Rotator1Quad", "Rotator1QuadPlatform90CC"],
    );
    let entries = vec![
        entry("RotatorOneQuadInternalVariant", 0, 0),
        entry("RotatorOneQuadInternalVariant", 1, 0),
    ];
    let instances = plan_instances(&loader, &entries);
    assert_eq!(instances.len(), 4);
    // Both parts upload once, on the first placement only.
    let uploads: Vec<bool> = instances.iter().map(|s| s.needs_upload).collect();
    assert_eq!(uploads, vec![true, true, false, false]);
    assert_eq!(instances[1].part_index, 1);
    assert_eq!(instances[1].offset_hundredths, (0, 5, 0));
    assert_eq!(instances[3].offset_hundredths, (0, 5, 0));
}

#[test]
fn unresolved_placements_are_skipped() {
    let mut loader = ModelLoader::new();
    resolve_all(&mut loader, "Belt", &["Belt"]);
    resolve_all(&mut loader, "Ghost", &[]);
    let entries = vec![entry("Ghost", 0, 0), entry("Belt", 1, 0), entry("Missing", 2, 0)];
    let instances = plan_instances(&loader, &entries);
    // "Ghost" resolved to nothing and "Missing" was never resolved: only the
    // belt draws, and its entry index still points at its placement.
    assert_eq!(instances.len(), 1);
    assert_eq!(instances[0].entry_index, 1);
    assert!(instances[0].needs_upload);
}
