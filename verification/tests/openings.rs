use roommate::attribution::DerivedSides;
use roommate::contract::{Field, Located, Model, Project, Prop, PropertyValue, RoomRef, Sides, Snapshot, Unresolved};
use roommate::filter::RoomFilter;
use roommate::openings::{assemble_openings, DoorsResult, OpeningKind, OpeningScope, WindowsResult};
use roommate::records::{Opening, Payload, Room};
use roommate::reference::load_reference_from_bytes;
use roommate::scope::SideOrigin;
use roommate::settings::{
    Milestone, ProjectEntry, ProjectSettings, ReferenceEntity, ReferenceSource, RoomAttribution, RoomResolution,
    SettingsRegistry,
};
use roommate::state::AppState;

const KIND: OpeningKind = OpeningKind::Doors;

fn prop(name: &str, value: &str) -> Prop {
    Prop { name: name.to_string(), value: PropertyValue { value: value.to_string(), storage_type: None } }
}

fn make_door(id: &str, from_room: Option<&str>, to_room: Option<&str>, props: &[(&str, &str)]) -> Opening {
    Opening {
        id: id.to_string(),
        level_id: "1".to_string(),
        from_room: from_room.map(str::to_string),
        to_room: to_room.map(str::to_string),
        type_id: "t1".to_string(),
        type_label: "Single".to_string(),
        properties: props.iter().map(|(k, v)| prop(k, v)).collect(),
        type_properties: vec![],
    }
}

fn payload<E>(project: &str, model: &str, taken_at: &str, elements: Vec<E>) -> Payload<E> {
    Payload {
        project: Project { id: project.to_string(), name: "P".to_string() },
        model: Model { id: model.to_string(), name: "M".to_string(), source: "revit".to_string() },
        snapshot: Snapshot { taken_at: taken_at.to_string() },
        phase: Some("New Construction".to_string()),
        levels: vec![],
        elements,
    }
}

fn registry(entries: Vec<(&str, ProjectSettings)>) -> SettingsRegistry {
    SettingsRegistry {
        projects: entries.into_iter().map(|(id, settings)| ProjectEntry { id: id.to_string(), settings }).collect(),
    }
}

fn state_with(doors: Vec<(&str, &str, Vec<Opening>)>) -> AppState {
    let mut projects: Vec<(&str, ProjectSettings)> = Vec::new();
    for (project, _, _) in &doors {
        if !projects.iter().any(|(p, _)| p == project) {
            projects.push((project, ProjectSettings::new()));
        }
    }
    let mut state = AppState::new(registry(projects));
    for (project, model, list) in doors {
        state.set_door_snapshot(payload(project, model, "2026-02-01T00:00:00Z", list));
    }
    state
}

fn filter(expr: &str) -> RoomFilter {
    RoomFilter::parse_query(expr, &[]).expect("parses")
}

fn everything() -> OpeningScope<'static> {
    OpeningScope { project: None, building: None, milestone: None, filter: None }
}

fn with_filter(f: &RoomFilter) -> OpeningScope<'_> {
    OpeningScope { project: None, building: None, milestone: None, filter: Some(f) }
}

#[test]
fn openings_test_no_doors_pushed_is_none() {
    let state = AppState::new(registry(vec![]));
    assert!(assemble_openings(&state, KIND, &everything(), &[]).is_none());
}

#[test]
fn openings_test_a_scope_matching_nothing_is_an_empty_list() {
    let state = state_with(vec![("p1", "m1", vec![make_door("d1", Some("r1"), None, &[])])]);
    let scope = OpeningScope { project: Some("nope"), building: None, milestone: None, filter: None };
    let result = assemble_openings(&state, KIND, &scope, &[]).expect("the store has data");
    assert!(result.openings.is_empty());
}

#[test]
fn openings_test_doors_merge_carrying_their_model_identity() {
    let state = state_with(vec![
        ("p1", "m1", vec![make_door("d1", Some("r1"), None, &[])]),
        ("p1", "m2", vec![make_door("d1", Some("r1"), None, &[])]),
    ]);
    let result = assemble_openings(&state, KIND, &everything(), &[]).expect("data");
    assert_eq!(result.openings.len(), 2);
    let mut models: Vec<&str> = result.openings.iter().map(|d| d.model_id.as_str()).collect();
    models.sort();
    assert_eq!(models, vec!["m1", "m2"], "the same door id in two models stays distinguishable");
    let phase = result.phase_by_model.iter().find(|p| p.project_id == "p1" && p.model_id == "m1").expect("m1");
    assert_eq!(phase.phase.as_deref(), Some("New Construction"));
}

#[test]
fn openings_test_filter_matches_a_door_property() {
    let state = state_with(vec![(
        "p1",
        "m1",
        vec![make_door("d1", Some("r1"), None, &[("Mark", "29")]), make_door("d2", Some("r2"), None, &[("Mark", "33")])],
    )]);
    let f = filter("Mark=29");
    let result = assemble_openings(&state, KIND, &with_filter(&f), &[]).expect("data");
    assert_eq!(result.openings.len(), 1);
    assert_eq!(result.openings[0].door.id, "d1");
}

#[test]
fn openings_test_filter_matches_a_room_reference_intrinsic() {
    let state = state_with(vec![(
        "p1",
        "m1",
        vec![make_door("d1", Some("r1"), Some("r2"), &[]), make_door("d2", Some("r3"), None, &[])],
    )]);
    let f = filter("$to_room=r2");
    let result = assemble_openings(&state, KIND, &with_filter(&f), &[]).expect("data");
    assert_eq!(result.openings.len(), 1);
    assert_eq!(result.openings[0].door.id, "d1");

    let f = filter("$to_room!=r2");
    let result = assemble_openings(&state, KIND, &with_filter(&f), &[]).expect("data");
    assert!(result.openings.is_empty(), "d2 has no to_room, so it does not match a negative operator either");
}

#[test]
fn openings_test_filter_reaches_the_type_tier() {
    let mut door = make_door("d1", Some("r1"), None, &[("Door Leaf Thickness", "")]);
    door.type_properties.push(prop("Door Leaf Thickness", "40.0"));
    let state = state_with(vec![("p1", "m1", vec![door])]);
    let f = filter("Door Leaf Thickness=40.0");
    let result = assemble_openings(&state, KIND, &with_filter(&f), &[]).expect("data");
    assert_eq!(result.openings.len(), 1, "a blank instance value does not shadow the type's");
}

#[test]
fn openings_test_a_source_qualified_filter_matches_no_door() {
    let state = state_with(vec![("p1", "m1", vec![make_door("d1", Some("r1"), None, &[])])]);
    let known = vec!["drofus".to_string()];
    let f = RoomFilter::parse_query("drofus.NetArea=25.5", &known).expect("parses against a known source");
    let result = assemble_openings(&state, KIND, &with_filter(&f), &[]).expect("data");
    assert!(result.openings.is_empty());
}

#[test]
fn openings_test_an_unregistered_projects_doors_are_skipped() {
    let mut state = AppState::new(registry(vec![]));
    state.set_door_snapshot(payload("ghost", "m1", "2026-02-01T00:00:00Z", vec![make_door("d1", Some("r1"), None, &[])]));
    let result = assemble_openings(&state, KIND, &everything(), &[]).expect("the store has data");
    assert!(result.openings.is_empty());
}

#[test]
fn openings_test_revision_is_stable_and_moves_on_a_push() {
    let mut state = state_with(vec![("p1", "m1", vec![make_door("d1", Some("r1"), None, &[])])]);
    let first = assemble_openings(&state, KIND, &everything(), &[]).unwrap().revision;
    let again = assemble_openings(&state, KIND, &everything(), &[]).unwrap().revision;
    assert_eq!(first, again, "two idle reads agree");
    assert!(!first.is_empty(), "revision is always emitted");

    state.set_door_snapshot(payload("p1", "m1", "2026-03-01T00:00:00Z", vec![make_door("d1", Some("r1"), None, &[])]));
    let after = assemble_openings(&state, KIND, &everything(), &[]).unwrap().revision;
    assert_ne!(first, after, "a new snapshot moves it");
}

fn owners_for(policy: RoomAttribution) -> Vec<(String, Vec<String>)> {
    let doors = vec![
        make_door("both", Some("r1"), Some("r2"), &[]),
        make_door("from-only", Some("r3"), None, &[]),
        make_door("homeless", None, None, &[]),
    ];
    let mut settings = ProjectSettings::new();
    settings.doors.room_attribution = policy;
    let mut state = AppState::new(registry(vec![("p1", settings)]));
    state.set_door_snapshot(payload("p1", "m1", "2026-02-01T00:00:00Z", doors));
    let r = assemble_openings(&state, KIND, &everything(), &[]).unwrap();
    r.openings.into_iter().map(|d| (d.door.id, d.owner_rooms)).collect()
}

fn owners_of<'a>(owners: &'a [(String, Vec<String>)], id: &str) -> &'a Vec<String> {
    &owners.iter().find(|(d, _)| d == id).expect("door served").1
}

#[test]
fn openings_test_owner_rooms_follows_the_configured_policy() {
    let chain = owners_for(RoomAttribution::ToRoomThenFromRoom);
    assert_eq!(owners_of(&chain, "both"), &vec!["r2".to_string()]);
    assert_eq!(owners_of(&chain, "from-only"), &vec!["r3".to_string()]);
    assert!(owners_of(&chain, "homeless").is_empty());

    let strict = owners_for(RoomAttribution::ToRoom);
    assert_eq!(owners_of(&strict, "both"), &vec!["r2".to_string()]);
    assert!(owners_of(&strict, "from-only").is_empty());

    let both = owners_for(RoomAttribution::Both);
    assert_eq!(owners_of(&both, "both"), &vec!["r2".to_string(), "r1".to_string()]);
    assert_eq!(owners_of(&both, "from-only"), &vec!["r3".to_string()]);
}

#[test]
fn openings_test_building_scope_follows_the_owning_room() {
    let mut state = AppState::new(registry(vec![("p1", ProjectSettings::new())]));
    for (model, building) in [("m1", "North"), ("m2", "South")] {
        let room = Room {
            id: "r1".to_string(),
            name: "r1".to_string(),
            level_id: "1".to_string(),
            building: Some(building.to_string()),
            properties: vec![],
        };
        state.set_snapshot(payload("p1", model, "2026-01-01T00:00:00Z", vec![room]));
    }
    for model in ["m1", "m2"] {
        state.set_door_snapshot(payload(
            "p1",
            model,
            "2026-02-01T00:00:00Z",
            vec![
                make_door(&format!("{model}-owned"), None, Some("r1"), &[]),
                make_door(&format!("{model}-homeless"), None, None, &[]),
            ],
        ));
    }
    let in_building = |key: &str| {
        let scope = OpeningScope { project: None, building: Some(key), milestone: None, filter: None };
        let r = assemble_openings(&state, KIND, &scope, &[]).unwrap();
        let mut ids: Vec<String> = r.openings.into_iter().map(|d| d.door.id).collect();
        ids.sort();
        ids
    };
    assert_eq!(in_building("North"), vec!["m1-owned".to_string()]);
    assert_eq!(in_building("South"), vec!["m2-owned".to_string()]);
    assert!(in_building("Nowhere").is_empty());
    let all = assemble_openings(&state, KIND, &everything(), &[]).unwrap();
    assert_eq!(all.openings.len(), 4);
}

#[test]
fn openings_test_milestone_serves_the_pinned_doors_snapshot() {
    let mut settings = ProjectSettings::new();
    settings.milestones = vec![Milestone {
        name: "Stage 2".to_string(),
        date: "2026-02-01".to_string(),
        reference_snapshots: vec![],
        attachments: vec![],
        door_attachments: vec![Field { name: "m1".to_string(), value: "2026-02-01T00:00:00Z".to_string() }],
        window_attachments: vec![],
        ffe_attachments: vec![],
        space_attachments: vec![],
        ceiling_attachments: vec![],
        floor_attachments: vec![],
    }];
    let mut state = AppState::new(registry(vec![("p1", settings)]));
    state.set_door_snapshot(payload("p1", "m1", "2026-02-01T00:00:00Z", vec![make_door("pinned", Some("r1"), None, &[])]));
    state.set_door_snapshot(payload("p1", "m1", "2026-06-01T00:00:00Z", vec![make_door("latest", Some("r1"), None, &[])]));

    let latest = assemble_openings(&state, KIND, &everything(), &[]).unwrap();
    assert_eq!(latest.openings[0].door.id, "latest");
    let pinned_scope = OpeningScope { project: None, building: None, milestone: Some("Stage 2"), filter: None };
    let pinned = assemble_openings(&state, KIND, &pinned_scope, &[]).unwrap();
    assert_eq!(pinned.openings[0].door.id, "pinned");
    let unknown_scope = OpeningScope { project: None, building: None, milestone: Some("nope"), filter: None };
    assert!(assemble_openings(&state, KIND, &unknown_scope, &[]).unwrap().openings.is_empty());
}

fn room_ref(model: &str, room: &str) -> RoomRef {
    RoomRef { model_id: model.to_string(), room_id: room.to_string() }
}

/// A door in the wall between `left` and `right`, stating neither.
fn wall_state(mode: RoomResolution, doors: Vec<Opening>) -> AppState {
    let mut settings = ProjectSettings::new();
    settings.doors.room_resolution = mode;
    let mut state = AppState::new(registry(vec![("p1", settings)]));
    state.set_door_snapshot(payload("p1", "m1", "2026-01-01T00:00:00Z", doors));
    state
}

fn wall_geometry(id: &str, from: Located, to: Located) -> Vec<DerivedSides> {
    vec![DerivedSides { model_id: "m1".to_string(), element_id: id.to_string(), sides: Sides { from, to } }]
}

#[test]
fn test_geometry_fills_a_door_that_states_no_rooms() {
    let state = wall_state(RoomResolution::SameModel, vec![make_door("d1", None, None, &[])]);
    let geometry = wall_geometry("d1", Located::Found(room_ref("m1", "left")), Located::Found(room_ref("m1", "right")));
    let result = assemble_openings(&state, KIND, &everything(), &geometry).unwrap();
    let door = &result.openings[0];
    assert!(matches!(&door.room_origin.to_room, SideOrigin::Derived(r) if r.model_id == "m1" && r.room_id == "right"));
    assert!(matches!(&door.room_origin.from_room, SideOrigin::Derived(r) if r.room_id == "left"));
    assert_eq!(door.owner_rooms, vec!["right".to_string()], "attributed, not homeless");
    assert_eq!(door.door.to_room, None, "the stored reference is untouched");
}

#[test]
fn test_resolution_off_leaves_the_door_homeless() {
    let state = wall_state(RoomResolution::Off, vec![make_door("d1", None, None, &[])]);
    let geometry = wall_geometry("d1", Located::Found(room_ref("m1", "left")), Located::Found(room_ref("m1", "right")));
    let result = assemble_openings(&state, KIND, &everything(), &geometry).unwrap();
    let door = &result.openings[0];
    assert!(door.owner_rooms.is_empty(), "homeless, as before");
    assert!(matches!(door.room_origin.to_room, SideOrigin::Unresolved(_)));
}

#[test]
fn test_an_authored_reference_is_never_overridden_by_geometry() {
    let state = wall_state(RoomResolution::SameModel, vec![make_door("d1", None, Some("left"), &[])]);
    let geometry = wall_geometry("d1", Located::Found(room_ref("m1", "left")), Located::Found(room_ref("m1", "right")));
    let result = assemble_openings(&state, KIND, &everything(), &geometry).unwrap();
    let door = &result.openings[0];
    assert!(matches!(&door.room_origin.to_room, SideOrigin::Authored(r) if r.model_id == "m1" && r.room_id == "left"));
    assert_eq!(door.owner_rooms, vec!["left".to_string()]);
    assert!(matches!(&door.room_origin.from_room, SideOrigin::Derived(r) if r.room_id == "left"));
}

#[test]
fn test_a_door_with_no_direction_resolves_nothing() {
    let state = wall_state(RoomResolution::SameModel, vec![make_door("d1", None, None, &[])]);
    let geometry = wall_geometry(
        "d1",
        Located::Unresolved(Unresolved::NoDirection),
        Located::Unresolved(Unresolved::NoDirection),
    );
    let result = assemble_openings(&state, KIND, &everything(), &geometry).unwrap();
    assert!(matches!(result.openings[0].room_origin.to_room, SideOrigin::Unresolved(Unresolved::NoDirection)));
}

#[test]
fn test_qualified_owners_carry_the_model_id() {
    let state = wall_state(RoomResolution::SameModel, vec![make_door("d1", None, None, &[])]);
    let geometry = wall_geometry("d1", Located::Found(room_ref("m1", "left")), Located::Found(room_ref("m1", "right")));
    let result = assemble_openings(&state, KIND, &everything(), &geometry).unwrap();
    let door = &result.openings[0];
    assert_eq!(door.owner_rooms_qualified.len(), 1);
    assert_eq!(door.owner_rooms_qualified[0].model_id, "m1");
    assert_eq!(door.owner_rooms_qualified[0].room_id, "right");
    assert_eq!(door.owner_rooms, vec!["right".to_string()], "the bare list is the same rooms, unqualified");
}

#[test]
fn test_a_doors_only_model_resolves_against_another_models_rooms() {
    let state = wall_state(RoomResolution::Project, vec![make_door("d1", None, None, &[])]);
    let geometry = wall_geometry(
        "d1",
        Located::Found(room_ref("interior", "left")),
        Located::Found(room_ref("interior", "right")),
    );
    let result = assemble_openings(&state, KIND, &everything(), &geometry).unwrap();
    let door = &result.openings[0];
    assert!(matches!(&door.room_origin.to_room, SideOrigin::Derived(r) if r.model_id == "interior"));
    assert_eq!(door.owner_rooms_qualified.len(), 1);
    assert_eq!(door.owner_rooms_qualified[0].model_id, "interior");
    assert!(door.owner_rooms.is_empty(), "the bare list stays same-model");
}

#[test]
fn test_a_door_geometry_never_reached_is_homeless() {
    let state = wall_state(RoomResolution::Project, vec![make_door("d1", None, None, &[])]);
    let result = assemble_openings(&state, KIND, &everything(), &[]).unwrap();
    let door = &result.openings[0];
    assert!(matches!(door.room_origin.to_room, SideOrigin::Unresolved(Unresolved::NoCandidate)));
    assert!(door.owner_rooms_qualified.is_empty());
}

#[test]
fn test_windows_read_their_own_snapshots_and_policy() {
    let mut settings = ProjectSettings::new();
    settings.windows.room_attribution = RoomAttribution::FromRoom;
    let mut state = AppState::new(registry(vec![("p1", settings)]));
    state.set_door_snapshot(payload("p1", "m1", "2026-01-01T00:00:00Z", vec![make_door("door", Some("a"), Some("b"), &[])]));
    assert!(assemble_openings(&state, OpeningKind::Windows, &everything(), &[]).is_none(), "no window pushed");
    state.set_window_snapshot(payload("p1", "m1", "2026-01-01T00:00:00Z", vec![make_door("w1", Some("a"), Some("b"), &[])]));
    let windows = assemble_openings(&state, OpeningKind::Windows, &everything(), &[]).unwrap();
    assert_eq!(windows.openings.len(), 1);
    assert_eq!(windows.openings[0].door.id, "w1");
    assert_eq!(windows.openings[0].owner_rooms, vec!["a".to_string()], "the windows policy decides");
    let named = WindowsResult::from_assembled(windows);
    assert_eq!(named.windows.len(), 1);
}

#[test]
fn test_a_doors_payload_names_the_assembled_read() {
    let state = state_with(vec![("p1", "m1", vec![make_door("d1", Some("r1"), None, &[])])]);
    let assembled = assemble_openings(&state, KIND, &everything(), &[]).unwrap();
    let revision = assembled.revision.clone();
    let named = DoorsResult::from_assembled(assembled);
    assert_eq!(named.revision, revision);
    assert_eq!(named.doors.len(), 1);
}

#[test]
fn openings_test_a_doors_scoped_reference_source_joins_onto_doors() {
    let data = load_reference_from_bytes(b"DoorRef,FireRating\nDoor Mark,FireRating\nD-101,60\n").expect("csv loads");
    let mut settings = ProjectSettings::new();
    settings.reference = vec![ReferenceSource { name: "schedule".to_string(), entity: ReferenceEntity::Doors, data: Some(data) }];
    let mut state = AppState::new(registry(vec![("p1", settings)]));
    state.set_door_snapshot(payload(
        "p1",
        "m1",
        "2026-02-01T00:00:00Z",
        vec![make_door("d1", None, Some("r1"), &[("Door Mark", "D-101")]), make_door("d2", None, Some("r1"), &[("Door Mark", "D-999")])],
    ));
    let result = assemble_openings(&state, KIND, &everything(), &[]).expect("data");
    let joined = result.openings.iter().find(|d| d.door.id == "d1").expect("d1");
    assert_eq!(joined.reference.len(), 1);
    let unmatched = result.openings.iter().find(|d| d.door.id == "d2").expect("d2");
    assert!(unmatched.reference.is_empty());
}

#[test]
fn openings_test_a_rooms_scoped_reference_source_does_not_join_onto_doors() {
    let data = load_reference_from_bytes(b"DoorRef,FireRating\nDoor Mark,FireRating\nD-101,60\n").expect("csv loads");
    let mut settings = ProjectSettings::new();
    settings.reference = vec![ReferenceSource { name: "schedule".to_string(), entity: ReferenceEntity::Rooms, data: Some(data) }];
    let mut state = AppState::new(registry(vec![("p1", settings)]));
    state.set_door_snapshot(payload("p1", "m1", "2026-02-01T00:00:00Z", vec![make_door("d1", None, Some("r1"), &[("Door Mark", "D-101")])]));
    let result = assemble_openings(&state, KIND, &everything(), &[]).expect("data");
    assert!(result.openings[0].reference.is_empty());
}
