use roommate::comparison::{compare_milestones, values_agree, ComparisonResponse};
use roommate::contract::{Field, Model, Project, Prop, PropertyValue, Snapshot};
use roommate::records::{Payload, Room};
use roommate::reference::load_reference_from_bytes;
use roommate::settings::{Milestone, ProjectEntry, ProjectSettings, ReferenceEntity, ReferenceSource, SettingsRegistry};
use roommate::state::AppState;

const BASE_TS: &str = "2026-06-01T00:00:00Z";
const LATER_TS: &str = "2026-07-01T00:00:00Z";

fn make_room(id: &str, props: &[(&str, &str)]) -> Room {
    Room {
        id: id.to_string(),
        name: id.to_string(),
        level_id: "1".to_string(),
        building: None,
        properties: props
            .iter()
            .map(|(k, v)| Prop { name: k.to_string(), value: PropertyValue { value: v.to_string(), storage_type: None } })
            .collect(),
    }
}

fn milestone(name: &str, model_id: &str, taken_at: &str, reference: Option<(&str, &str)>) -> Milestone {
    Milestone {
        name: name.to_string(),
        date: "2026-06-30".to_string(),
        reference_snapshots: reference
            .map(|(source, ts)| vec![Field { name: source.to_string(), value: ts.to_string() }])
            .unwrap_or_default(),
        attachments: vec![Field { name: model_id.to_string(), value: taken_at.to_string() }],
        door_attachments: vec![],
        window_attachments: vec![],
        ffe_attachments: vec![],
        space_attachments: vec![],
        ceiling_attachments: vec![],
        floor_attachments: vec![],
    }
}

fn make_bundle(key: Option<&str>, properties: &[&str], milestones: Vec<Milestone>) -> ProjectSettings {
    let mut settings = ProjectSettings::new();
    settings.comparison_key = key.map(str::to_string);
    settings.comparison_properties = properties.iter().map(|s| s.to_string()).collect();
    settings.milestones = milestones;
    settings
}

fn payload_at(model_id: &str, taken_at: &str, rooms: Vec<Room>) -> Payload<Room> {
    Payload {
        project: Project { id: "p1".to_string(), name: "P".to_string() },
        model: Model { id: model_id.to_string(), name: "M".to_string(), source: "revit".to_string() },
        snapshot: Snapshot { taken_at: taken_at.to_string() },
        phase: None,
        levels: vec![],
        elements: rooms,
    }
}

fn state_with(bundle: ProjectSettings) -> AppState {
    AppState::new(SettingsRegistry { projects: vec![ProjectEntry { id: "p1".to_string(), settings: bundle }] })
}

fn compare(state: &AppState) -> ComparisonResponse {
    match compare_milestones(state, "p1", "Base", &["Later".to_string()]) {
        Ok(r) => r,
        Err(_) => panic!("a comparison does not fail"),
    }
}

fn two_milestones() -> Vec<Milestone> {
    vec![milestone("Base", "m1", BASE_TS, None), milestone("Later", "m1", LATER_TS, None)]
}

#[test]
fn test_compare_no_key_configured() {
    let state = state_with(make_bundle(None, &["Area"], vec![]));
    let result = compare(&state);
    assert!(!result.comparison_key_configured);
    assert!(result.comparison_key.is_none());
    assert!(result.comparisons.is_empty());
    assert_eq!(result.baseline, "Base");
}

#[test]
fn test_compare_unregistered_project_is_not_configured() {
    let state = AppState::new(SettingsRegistry { projects: vec![] });
    let result = compare(&state);
    assert!(!result.comparison_key_configured);
    assert!(result.comparisons.is_empty());
}

#[test]
fn test_compare_added_removed_changed_missing() {
    let mut state = state_with(make_bundle(Some("Number"), &["Area", "Dept"], two_milestones()));
    state.set_snapshot(payload_at(
        "m1",
        BASE_TS,
        vec![
            make_room("r1", &[("Number", "101"), ("Area", "10"), ("Dept", "Cardio")]),
            make_room("r2", &[("Number", "102"), ("Area", "20")]),
        ],
    ));
    state.set_snapshot(payload_at(
        "m1",
        LATER_TS,
        vec![make_room("r1b", &[("Number", "101"), ("Area", "15")]), make_room("r3", &[("Number", "103"), ("Area", "30")])],
    ));
    let result = compare(&state);
    assert!(result.comparison_key_configured);
    assert_eq!(result.comparison_key.as_deref(), Some("Number"));
    assert_eq!(result.comparisons.len(), 1);
    let cmp = &result.comparisons[0];
    assert_eq!(cmp.milestone, "Later");
    assert_eq!(cmp.rooms_added, vec!["103".to_string()]);
    assert_eq!(cmp.rooms_removed, vec!["102".to_string()]);
    assert_eq!(cmp.changed_rooms.len(), 1);
    let changed = &cmp.changed_rooms[0];
    assert_eq!(changed.key, "101");
    assert_eq!(changed.room_id, "r1", "reports the baseline room's id");
    assert_eq!(changed.differences.len(), 1);
    assert_eq!(changed.differences[0].property, "Area");
    assert_eq!(changed.differences[0].baseline_value, "10");
    assert_eq!(changed.differences[0].other_value, "15");
    assert_eq!(changed.missing_properties.len(), 1);
    assert_eq!(changed.missing_properties[0].property, "Dept");
    assert_eq!(changed.missing_properties[0].baseline_value, "Cardio");
}

#[test]
fn test_compare_numeric_values_agree() {
    let mut state = state_with(make_bundle(Some("Number"), &["Area"], two_milestones()));
    state.set_snapshot(payload_at("m1", BASE_TS, vec![make_room("r1", &[("Number", "1"), ("Area", "10")])]));
    state.set_snapshot(payload_at("m1", LATER_TS, vec![make_room("r1", &[("Number", "1"), ("Area", "10.0")])]));
    let result = compare(&state);
    assert!(result.comparisons[0].changed_rooms.is_empty(), "10 and 10.0 agree numerically");
}

#[test]
fn test_compare_duplicate_key_excluded() {
    let mut state = state_with(make_bundle(Some("Number"), &["Area"], two_milestones()));
    state.set_snapshot(payload_at(
        "m1",
        BASE_TS,
        vec![make_room("r1", &[("Number", "101"), ("Area", "10")]), make_room("r2", &[("Number", "101"), ("Area", "20")])],
    ));
    state.set_snapshot(payload_at("m1", LATER_TS, vec![make_room("r1", &[("Number", "101"), ("Area", "99")])]));
    let result = compare(&state);
    assert_eq!(result.baseline_duplicate_key_values.len(), 1);
    assert_eq!(result.baseline_duplicate_key_values[0].value, "101");
    assert_eq!(result.baseline_duplicate_key_values[0].room_ids, vec!["r1".to_string(), "r2".to_string()]);
    let cmp = &result.comparisons[0];
    assert!(cmp.rooms_removed.is_empty());
    assert!(cmp.changed_rooms.is_empty());
    assert_eq!(cmp.rooms_added, vec!["101".to_string()]);
}

fn with_drofus(mut bundle: ProjectSettings, csv: &[u8]) -> ProjectSettings {
    let data = load_reference_from_bytes(csv).expect("csv loads");
    bundle.reference = vec![ReferenceSource { name: "drofus".to_string(), entity: ReferenceEntity::Rooms, data: Some(data) }];
    bundle
}

#[test]
fn test_compare_drofus_property_uses_pinned_snapshots() {
    let d_base = "2026-06-01T09:00:00Z";
    let d_later = "2026-07-01T09:00:00Z";
    let bundle = make_bundle(
        Some("Number"),
        &["drofus.NetArea"],
        vec![
            milestone("Base", "m1", BASE_TS, Some(("drofus", d_base))),
            milestone("Later", "m1", LATER_TS, Some(("drofus", d_later))),
        ],
    );
    let bundle = with_drofus(bundle, b"DrofusRoomId,NetArea\nNumber,NetArea\n101,99\n");
    let mut state = state_with(bundle);
    state.set_snapshot(payload_at("m1", BASE_TS, vec![make_room("r1", &[("Number", "101")])]));
    state.set_snapshot(payload_at("m1", LATER_TS, vec![make_room("r1b", &[("Number", "101")])]));
    state.put_drofus("p1", "drofus", d_base, b"DrofusRoomId,NetArea\nNumber,NetArea\n101,20\n");
    state.put_drofus("p1", "drofus", d_later, b"DrofusRoomId,NetArea\nNumber,NetArea\n101,25\n");
    let result = compare(&state);
    let cmp = &result.comparisons[0];
    assert_eq!(cmp.changed_rooms.len(), 1);
    let changed = &cmp.changed_rooms[0];
    assert_eq!(changed.differences.len(), 1);
    assert_eq!(changed.differences[0].property, "drofus.NetArea");
    assert_eq!(changed.differences[0].baseline_value, "20", "the pinned value, not the current 99");
    assert_eq!(changed.differences[0].other_value, "25");
    assert!(changed.unjoined_sources.is_empty(), "both sides joined");
}

#[test]
fn test_compare_unjoined_source_collapses_to_one_entry() {
    let bundle = make_bundle(Some("Number"), &["drofus.NetArea", "drofus.Dept"], two_milestones());
    let bundle = with_drofus(bundle, b"DrofusRoomId,NetArea,Dept\nDKey,NetArea,Dept\nd1,20,Admin\n");
    let mut state = state_with(bundle);
    state.set_snapshot(payload_at("m1", BASE_TS, vec![make_room("r1", &[("Number", "101"), ("DKey", "d1")])]));
    state.set_snapshot(payload_at("m1", LATER_TS, vec![make_room("r1b", &[("Number", "101")])]));
    let result = compare(&state);
    let cmp = &result.comparisons[0];
    assert_eq!(cmp.changed_rooms.len(), 1, "the room appears despite no property difference");
    let changed = &cmp.changed_rooms[0];
    assert_eq!(changed.unjoined_sources, vec!["drofus".to_string()], "one entry, not one per field");
    assert!(changed.missing_properties.is_empty(), "no per-property noise for an unjoined source");
    assert!(changed.differences.is_empty());
}

#[test]
fn test_compare_join_gained_on_other_side_unreported() {
    let bundle = make_bundle(Some("Number"), &["drofus.NetArea"], two_milestones());
    let bundle = with_drofus(bundle, b"DrofusRoomId,NetArea\nDKey,NetArea\nd1,20\n");
    let mut state = state_with(bundle);
    state.set_snapshot(payload_at("m1", BASE_TS, vec![make_room("r1", &[("Number", "101")])]));
    state.set_snapshot(payload_at("m1", LATER_TS, vec![make_room("r1b", &[("Number", "101"), ("DKey", "d1")])]));
    let result = compare(&state);
    assert!(result.comparisons[0].changed_rooms.is_empty(), "nothing on the baseline to compare");
}

#[test]
fn test_compare_drofus_qualified_key_matches_rooms() {
    let bundle = make_bundle(Some("drofus.Code"), &["Area"], two_milestones());
    let bundle = with_drofus(bundle, b"DrofusRoomId,Code\nNumber,Code\n101,A\n102,B\n");
    let mut state = state_with(bundle);
    state.set_snapshot(payload_at(
        "m1",
        BASE_TS,
        vec![make_room("r1", &[("Number", "101"), ("Area", "10")]), make_room("r2", &[("Number", "102"), ("Area", "20")])],
    ));
    state.set_snapshot(payload_at(
        "m1",
        LATER_TS,
        vec![make_room("r1b", &[("Number", "101"), ("Area", "15")]), make_room("r2b", &[("Number", "102"), ("Area", "20")])],
    ));
    let result = compare(&state);
    let cmp = &result.comparisons[0];
    assert!(cmp.rooms_added.is_empty() && cmp.rooms_removed.is_empty(), "both keys matched across");
    assert_eq!(cmp.changed_rooms.len(), 1);
    assert_eq!(cmp.changed_rooms[0].key, "A", "keyed by the joined field, not a room property");
    assert_eq!(cmp.changed_rooms[0].differences[0].property, "Area");
}

#[test]
fn test_compare_skips_the_baseline_itself() {
    let mut state = state_with(make_bundle(Some("Number"), &["Area"], two_milestones()));
    state.set_snapshot(payload_at("m1", BASE_TS, vec![make_room("r1", &[("Number", "1"), ("Area", "10")])]));
    let result = match compare_milestones(&state, "p1", "Base", &["Base".to_string(), "Later".to_string()]) {
        Ok(r) => r,
        Err(_) => panic!("no failure"),
    };
    assert_eq!(result.comparisons.len(), 1, "a milestone compared with itself has nothing to show");
    assert_eq!(result.comparisons[0].milestone, "Later");
}

#[test]
fn test_values_agree_is_strict_regardless_of_source() {
    assert!(!values_agree("Room – A", "Room ? A"), "no ASCII-narrowing rung today");
    assert!(values_agree(" x ", "x"), "trimmed string equality");
    assert!(values_agree("10", "10.0"), "numeric-adaptive rung");
}

#[test]
fn comparisons_list_keys_in_order_and_keep_duplicates_out() {
    let milestones = vec![
        milestone("Base", "m1", BASE_TS, None),
        milestone("Later", "m1", LATER_TS, None),
    ];
    let mut state = state_with(make_bundle(Some("Number"), &["Area"], milestones));
    state.set_snapshot(payload_at(
        "m1",
        BASE_TS,
        vec![
            make_room("r9", &[("Number", "109"), ("Area", "1")]),
            make_room("r2", &[("Number", "102"), ("Area", "1")]),
            make_room("r5", &[("Number", "105"), ("Area", "1")]),
            make_room("r7a", &[("Number", "107"), ("Area", "1")]),
            make_room("r7b", &[("Number", "107"), ("Area", "2")]),
            make_room("r4", &[("Number", "104"), ("Area", "1")]),
        ],
    ));
    state.set_snapshot(payload_at(
        "m1",
        LATER_TS,
        vec![
            make_room("s8", &[("Number", "108"), ("Area", "1")]),
            make_room("s4", &[("Number", "104"), ("Area", "9")]),
            make_room("s3", &[("Number", "103"), ("Area", "1")]),
            make_room("s5a", &[("Number", "105"), ("Area", "1")]),
            make_room("s5b", &[("Number", "105"), ("Area", "1")]),
            make_room("s9", &[("Number", "109"), ("Area", "3")]),
            make_room("s7", &[("Number", "107"), ("Area", "1")]),
        ],
    ));
    let others = ["Later".to_string(), "Base".to_string()];
    let result = match compare_milestones(&state, "p1", "Base", &others) {
        Ok(r) => r,
        Err(_) => panic!("a comparison does not fail"),
    };
    assert_eq!(result.comparisons.len(), 1, "the baseline is not compared with itself");
    let cmp = &result.comparisons[0];
    assert_eq!(
        cmp.rooms_added,
        vec!["103".to_string(), "107".to_string(), "108".to_string()],
        "107 is ambiguous in the baseline, so it indexes nothing there"
    );
    assert_eq!(cmp.rooms_removed, vec!["102".to_string(), "105".to_string()], "105 is ambiguous later, so it indexes nothing there");
    let changed: Vec<&str> = cmp.changed_rooms.iter().map(|c| c.key.as_str()).collect();
    assert_eq!(changed, vec!["104", "109"]);
    assert_eq!(result.baseline_duplicate_key_values.len(), 1);
    assert_eq!(result.baseline_duplicate_key_values[0].value, "107");
    assert_eq!(cmp.duplicate_key_values.len(), 1);
    assert_eq!(cmp.duplicate_key_values[0].value, "105");
}
