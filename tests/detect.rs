use mc_map_tools::args::{Area, GrothRate, SearchDupeStashes, SearchDupeStashesMode};
use mc_map_tools::config::{Config, SearchDupeStashesConfig};
use mc_map_tools::bounds::Bounds;
use mc_map_tools::detect::{
    build_index, find_dupe_stashes, overlap, search_dupe_stashes, warnings_for_cluster, window, Member, SearchError,
    StashRecord, Warning,
};

fn record(group: &str, count: u64, x: i64, y: i64) -> StashRecord {
    StashRecord { group: group.to_string(), count, bounds: Bounds { x, y, width: 1, height: 1 } }
}

#[test]
fn one_warning_per_cluster() {
    let records = vec![
        record("minecraft:diamond", 10, 0, 0),
        record("minecraft:diamond", 15, 1, 0),
        record("minecraft:diamond", 40, 0, 1),
        record("minecraft:diamond", 100, 100, 100),
    ];
    let area = Area { x1: 0, z1: 0, x2: 127, z2: 127 }.to_bounds().unwrap();
    let refs: Vec<&StashRecord> = records.iter().collect();
    let index = build_index(area, &refs);
    let warnings = find_dupe_stashes(&index, 1, 50);
    assert_eq!(warnings.len(), 2);
    assert_eq!(warnings[0].group, "minecraft:diamond");
    assert_eq!(warnings[0].total, 65);
    assert_eq!(warnings[0].threshold, 50);
    assert_eq!(warnings[0].members.len(), 3);
    assert_eq!(warnings[1].total, 100);
    assert_eq!(
        warnings[1].members,
        vec![Member { bounds: Bounds { x: 100, y: 100, width: 1, height: 1 }, count: 100 }]
    );
}

#[test]
fn below_threshold_gives_nothing() {
    let records = vec![record("a", 20, 0, 0), record("a", 30, 1, 1)];
    let refs: Vec<&StashRecord> = records.iter().collect();
    let index = build_index(Bounds { x: 0, y: 0, width: 64, height: 64 }, &refs);
    assert!(find_dupe_stashes(&index, 1, 50).is_empty());
    // equal to the threshold is not more than it
    assert!(find_dupe_stashes(&index, 1, 50).is_empty());
    assert_eq!(find_dupe_stashes(&index, 1, 49).len(), 1);
}

#[test]
fn groups_summed_apart() {
    let a = record("a", 30, 0, 0);
    let b = record("b", 40, 1, 0);
    let c = record("a", 25, 0, 1);
    let cluster = vec![&a, &b, &c];
    let ws = warnings_for_cluster(&cluster, 50);
    assert_eq!(ws.len(), 1);
    assert_eq!(ws[0].group, "a");
    assert_eq!(ws[0].total, 55);
    assert_eq!(ws[0].members.len(), 2);
    let ws = warnings_for_cluster(&cluster, 10);
    assert_eq!(ws.len(), 2);
    assert_eq!(ws[1].group, "b");
    assert_eq!(ws[1].total, 40);
}

#[test]
fn window_grows_by_radius() {
    let b = Bounds { x: 5, y: -3, width: 1, height: 2 };
    assert_eq!(window(&b, 2), Bounds { x: 3, y: -5, width: 5, height: 6 });
    let edge = Bounds { x: i64::MIN, y: 0, width: 1, height: 1 };
    assert_eq!(window(&edge, 1).x, i64::MIN);
}

#[test]
fn overlap_is_strict() {
    let a = Bounds { x: 0, y: 0, width: 2, height: 2 };
    assert!(overlap(&a, &Bounds { x: 1, y: 1, width: 2, height: 2 }));
    assert!(!overlap(&a, &Bounds { x: 2, y: 0, width: 2, height: 2 }));
}

fn search(area: Option<Area>, mode: Option<SearchDupeStashesMode>) -> SearchDupeStashes {
    SearchDupeStashes { area, radius: 1, mode }
}

#[test]
fn search_over_area() {
    let records = vec![record("a", 30, 0, 0), record("a", 25, 1, 1), record("b", 99, 1, 0)];
    let refs: Vec<&StashRecord> = records.iter().collect();
    let config = Config { search_dupe_stashes: SearchDupeStashesConfig { threshold: 50 } };
    let area = Some(Area { x1: 0, z1: 0, x2: 15, z2: 15 });
    let ws = search_dupe_stashes(&search(area, None), &config, &refs).ok().unwrap();
    assert_eq!(ws.len(), 2);
    assert_eq!(ws[0].group, "a");
    assert_eq!(ws[0].total, 55);
    assert_eq!(ws[1].group, "b");
    assert_eq!(ws[1].total, 99);
    let ws = search_dupe_stashes(&search(area, Some(SearchDupeStashesMode::Absolute)), &config, &refs);
    assert_eq!(ws.ok().unwrap().len(), 2);
}

#[test]
fn search_errors() {
    let records = vec![record("a", 30, 0, 0)];
    let refs: Vec<&StashRecord> = records.iter().collect();
    let config = Config::default();
    let area = Some(Area { x1: 0, z1: 0, x2: 15, z2: 15 });
    let err = |r: Result<Vec<Warning>, SearchError>| r.err().unwrap();
    assert_eq!(err(search_dupe_stashes(&search(None, None), &config, &refs)), SearchError::MissingArea);
    let huge = Some(Area { x1: i64::MIN, z1: 0, x2: 0, z2: 0 });
    assert_eq!(err(search_dupe_stashes(&search(huge, None), &config, &refs)), SearchError::AreaTooLarge);
    let growth = Some(SearchDupeStashesMode::GrothRate(GrothRate { file_location: None }));
    assert_eq!(err(search_dupe_stashes(&search(area, growth), &config, &refs)), SearchError::NotImplemented);
}
