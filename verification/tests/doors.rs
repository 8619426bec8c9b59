use roommate::contract::{Field, Model, Project, Prop, PropertyValue, Snapshot};
use roommate::doors::{assemble_doors, DoorScope};
use roommate::filter::RoomFilter;
use roommate::records::{Opening, Payload, Room};
use roommate::reference::load_reference_from_bytes;
use roommate::settings::{
    Milestone, ProjectEntry, ProjectSettings, ReferenceEntity, ReferenceSource, RoomAttribution, SettingsRegistry,
};
use roommate::state::AppState;

fn prop(name: &str, value: &str) -> Prop {
    Prop { name: name.to_string(), value: PropertyValue { value: value.to_string(), storage_type: None } }
}

fn make_door(id: &str, from_room: Option<&str>, to_room: Option<&str>, props: &[(&str, &str)]) -> Opening {
    Opening {
        id: id.to_string(),
        level_id: "1".to_string(),
        from_room: from_room.map(str::to_string),
        to_room: to_room.map(str::to_string),
        type_id: "t1".to_string(),
        type_label: "Single".to_string(),
        properties: props.iter().map(|(k, v)| prop(k, v)).collect(),
        type_properties: vec![],
    }
}

fn payload<E>(project: &str, model: &str, taken_at: &str, elements: Vec<E>) -> Payload<E> {
    Payload {
        project: Project { id: project.to_string(), name: "P".to_string() },
        model: Model { id: model.to_string(), name: "M".to_string(), source: "revit".to_string() },
        snapshot: Snapshot { taken_at: taken_at.to_string() },
        phase: Some("New Construction".to_string()),
        levels: vec![],
        elements,
    }
}

fn registry(entries: Vec<(&str, ProjectSettings)>) -> SettingsRegistry {
    SettingsRegistry {
        projects: entries.into_iter().map(|(id, settings)| ProjectEntry { id: id.to_string(), settings }).collect(),
    }
}

fn state_with(doors: Vec<(&str, &str, Vec<Opening>)>) -> AppState {
    let mut projects: Vec<(&str, ProjectSettings)> = Vec::new();
    for (project, _, _) in &doors {
        if !projects.iter().any(|(p, _)| p == project) {
            projects.push((project, ProjectSettings::new()));
        }
    }
    let mut state = AppState::new(registry(projects));
    for (project, model, list) in doors {
        state.set_door_snapshot(payload(project, model, "2026-02-01T00:00:00Z", list));
    }
    state
}

fn filter(expr: &str) -> RoomFilter {
    RoomFilter::parse_query(expr, &[]).expect("parses")
}

fn everything() -> DoorScope<'static> {
    DoorScope { project: None, building: None, milestone: None, filter: None }
}

fn with_filter(f: &RoomFilter) -> DoorScope<'_> {
    DoorScope { project: None, building: None, milestone: None, filter: Some(f) }
}

#[test]
fn doors_test_no_doors_pushed_is_none() {
    let state = AppState::new(registry(vec![]));
    assert!(assemble_doors(&state, &everything()).is_none());
}

#[test]
fn doors_test_a_scope_matching_nothing_is_an_empty_list() {
    let state = state_with(vec![("p1", "m1", vec![make_door("d1", Some("r1"), None, &[])])]);
    let result = assemble_doors(&state, &DoorScope { project: Some("nope"), building: None, milestone: None, filter: None })
        .expect("the store has data");
    assert!(result.doors.is_empty());
}

#[test]
fn doors_test_doors_merge_carrying_their_model_identity() {
    let state = state_with(vec![
        ("p1", "m1", vec![make_door("d1", Some("r1"), None, &[])]),
        ("p1", "m2", vec![make_door("d1", Some("r1"), None, &[])]),
    ]);
    let result = assemble_doors(&state, &everything()).expect("data");
    assert_eq!(result.doors.len(), 2);
    let mut models: Vec<&str> = result.doors.iter().map(|d| d.model_id.as_str()).collect();
    models.sort();
    assert_eq!(models, vec!["m1", "m2"], "the same door id in two models stays distinguishable");
    let phase = result
        .phase_by_model
        .iter()
        .find(|p| p.project_id == "p1" && p.model_id == "m1")
        .expect("m1 reported");
    assert_eq!(phase.phase.as_deref(), Some("New Construction"));
}

#[test]
fn doors_test_filter_matches_a_door_property() {
    let state = state_with(vec![(
        "p1",
        "m1",
        vec![make_door("d1", Some("r1"), None, &[("Mark", "29")]), make_door("d2", Some("r2"), None, &[("Mark", "33")])],
    )]);
    let f = filter("Mark=29");
    let result = assemble_doors(&state, &with_filter(&f)).expect("data");
    assert_eq!(result.doors.len(), 1);
    assert_eq!(result.doors[0].door.id, "d1");
}

#[test]
fn doors_test_filter_matches_a_room_reference_intrinsic() {
    let state = state_with(vec![(
        "p1",
        "m1",
        vec![make_door("d1", Some("r1"), Some("r2"), &[]), make_door("d2", Some("r3"), None, &[])],
    )]);
    let f = filter("$to_room=r2");
    let result = assemble_doors(&state, &with_filter(&f)).expect("data");
    assert_eq!(result.doors.len(), 1);
    assert_eq!(result.doors[0].door.id, "d1");

    let f = filter("$to_room!=r2");
    let result = assemble_doors(&state, &with_filter(&f)).expect("data");
    assert!(result.doors.is_empty(), "d2 has no to_room, so it does not match a negative operator either");
}

#[test]
fn doors_test_filter_reaches_the_type_tier() {
    let mut door = make_door("d1", Some("r1"), None, &[("Door Leaf Thickness", "")]);
    door.type_properties.push(prop("Door Leaf Thickness", "40.0"));
    let state = state_with(vec![("p1", "m1", vec![door])]);
    let f = filter("Door Leaf Thickness=40.0");
    let result = assemble_doors(&state, &with_filter(&f)).expect("data");
    assert_eq!(result.doors.len(), 1, "a blank instance value does not shadow the type's");
}

#[test]
fn doors_test_a_source_qualified_filter_matches_no_door() {
    let state = state_with(vec![("p1", "m1", vec![make_door("d1", Some("r1"), None, &[])])]);
    let known = vec!["drofus".to_string()];
    let f = RoomFilter::parse_query("drofus.NetArea=25.5", &known).expect("parses against a known source");
    let result = assemble_doors(&state, &with_filter(&f)).expect("data");
    assert!(result.doors.is_empty());
}

#[test]
fn doors_test_an_unregistered_projects_doors_are_skipped() {
    let mut state = AppState::new(registry(vec![]));
    state.set_door_snapshot(payload("ghost", "m1", "2026-02-01T00:00:00Z", vec![make_door("d1", Some("r1"), None, &[])]));
    let result = assemble_doors(&state, &everything()).expect("the store has data");
    assert!(result.doors.is_empty());
}

#[test]
fn doors_test_revision_is_stable_and_moves_on_a_push() {
    let mut state = state_with(vec![("p1", "m1", vec![make_door("d1", Some("r1"), None, &[])])]);
    let first = assemble_doors(&state, &everything()).unwrap().revision;
    let again = assemble_doors(&state, &everything()).unwrap().revision;
    assert_eq!(first, again, "two idle reads agree");

    state.set_door_snapshot(payload("p1", "m1", "2026-03-01T00:00:00Z", vec![make_door("d1", Some("r1"), None, &[])]));
    let after = assemble_doors(&state, &everything()).unwrap().revision;
    assert_ne!(first, after, "a new snapshot moves it");
}

fn owners_for(policy: RoomAttribution) -> Vec<(String, Vec<String>)> {
    let doors = vec![
        make_door("both", Some("r1"), Some("r2"), &[]),
        make_door("from-only", Some("r3"), None, &[]),
        make_door("homeless", None, None, &[]),
    ];
    let mut settings = ProjectSettings::new();
    settings.doors.room_attribution = policy;
    let mut state = AppState::new(registry(vec![("p1", settings)]));
    state.set_door_snapshot(payload("p1", "m1", "2026-02-01T00:00:00Z", doors));
    let r = assemble_doors(&state, &everything()).unwrap();
    r.doors.into_iter().map(|d| (d.door.id, d.owner_rooms)).collect()
}

fn owners_of<'a>(owners: &'a [(String, Vec<String>)], id: &str) -> &'a Vec<String> {
    &owners.iter().find(|(d, _)| d == id).expect("door served").1
}

#[test]
fn doors_test_owner_rooms_follows_the_configured_policy() {
    let chain = owners_for(RoomAttribution::ToRoomThenFromRoom);
    assert_eq!(owners_of(&chain, "both"), &vec!["r2".to_string()]);
    assert_eq!(owners_of(&chain, "from-only"), &vec!["r3".to_string()]);
    assert!(owners_of(&chain, "homeless").is_empty());

    let strict = owners_for(RoomAttribution::ToRoom);
    assert_eq!(owners_of(&strict, "both"), &vec!["r2".to_string()]);
    assert!(owners_of(&strict, "from-only").is_empty());

    let both = owners_for(RoomAttribution::Both);
    assert_eq!(owners_of(&both, "both"), &vec!["r2".to_string(), "r1".to_string()]);
    assert_eq!(owners_of(&both, "from-only"), &vec!["r3".to_string()], "one-sided doors still yield one owner");
}

#[test]
fn doors_test_building_scope_follows_the_owning_room() {
    let mut state = AppState::new(registry(vec![("p1", ProjectSettings::new())]));
    for (model, building) in [("m1", "North"), ("m2", "South")] {
        let room = Room {
            id: "r1".to_string(),
            name: "r1".to_string(),
            level_id: "1".to_string(),
            building: Some(building.to_string()),
            properties: vec![],
        };
        state.set_snapshot(payload("p1", model, "2026-01-01T00:00:00Z", vec![room]));
    }
    for model in ["m1", "m2"] {
        state.set_door_snapshot(payload(
            "p1",
            model,
            "2026-02-01T00:00:00Z",
            vec![
                make_door(&format!("{model}-owned"), None, Some("r1"), &[]),
                make_door(&format!("{model}-homeless"), None, None, &[]),
            ],
        ));
    }
    let in_building = |key: &str| {
        let r = assemble_doors(&state, &DoorScope { project: None, building: Some(key), milestone: None, filter: None })
            .unwrap();
        let mut ids: Vec<String> = r.doors.into_iter().map(|d| d.door.id).collect();
        ids.sort();
        ids
    };
    assert_eq!(in_building("North"), vec!["m1-owned".to_string()]);
    assert_eq!(in_building("South"), vec!["m2-owned".to_string()]);
    assert!(in_building("Nowhere").is_empty());

    let all = assemble_doors(&state, &everything()).unwrap();
    assert_eq!(all.doors.len(), 4, "unscoped, homeless doors are served normally");
}

fn milestone(name: &str, door_pins: &[(&str, &str)]) -> Milestone {
    Milestone {
        name: name.to_string(),
        date: "2026-02-01".to_string(),
        reference_snapshots: vec![],
        attachments: vec![],
        door_attachments: door_pins
            .iter()
            .map(|(m, t)| Field { name: m.to_string(), value: t.to_string() })
            .collect(),
        window_attachments: vec![],
        ffe_attachments: vec![],
        space_attachments: vec![],
        ceiling_attachments: vec![],
        floor_attachments: vec![],
    }
}

#[test]
fn doors_test_milestone_serves_the_pinned_doors_snapshot() {
    let mut settings = ProjectSettings::new();
    settings.milestones = vec![milestone("Stage 2", &[("m1", "2026-02-01T00:00:00Z")])];
    let mut state = AppState::new(registry(vec![("p1", settings)]));
    state.set_door_snapshot(payload("p1", "m1", "2026-02-01T00:00:00Z", vec![make_door("pinned", Some("r1"), None, &[])]));
    state.set_door_snapshot(payload("p1", "m1", "2026-06-01T00:00:00Z", vec![make_door("latest", Some("r1"), None, &[])]));

    let latest = assemble_doors(&state, &everything()).unwrap();
    assert_eq!(latest.doors[0].door.id, "latest");

    let pinned =
        assemble_doors(&state, &DoorScope { project: None, building: None, milestone: Some("Stage 2"), filter: None })
            .unwrap();
    assert_eq!(pinned.doors[0].door.id, "pinned");

    let unknown =
        assemble_doors(&state, &DoorScope { project: None, building: None, milestone: Some("nope"), filter: None })
            .unwrap();
    assert!(unknown.doors.is_empty());
}

fn door_schedule_state(entity: ReferenceEntity) -> AppState {
    let data = load_reference_from_bytes(b"DoorRef,FireRating\nDoor Mark,FireRating\nD-101,60\n").expect("csv loads");
    let mut settings = ProjectSettings::new();
    settings.reference = vec![ReferenceSource { name: "schedule".to_string(), entity, data: Some(data) }];
    let mut state = AppState::new(registry(vec![("p1", settings)]));
    state.set_door_snapshot(payload(
        "p1",
        "m1",
        "2026-02-01T00:00:00Z",
        vec![
            make_door("d1", None, Some("r1"), &[("Door Mark", "D-101")]),
            make_door("d2", None, Some("r1"), &[("Door Mark", "D-999")]),
        ],
    ));
    state
}

#[test]
fn doors_test_a_doors_scoped_reference_source_joins_onto_doors() {
    let state = door_schedule_state(ReferenceEntity::Doors);
    let result = assemble_doors(&state, &everything()).expect("data");
    let joined = result.doors.iter().find(|d| d.door.id == "d1").expect("d1");
    let record = joined.reference.iter().find(|r| r.source == "schedule").expect("joined");
    let rating = record.record.fields.iter().find(|f| f.name == "FireRating").expect("field");
    assert_eq!(rating.value, "60", "the door schedule joined onto the door");

    let unmatched = result.doors.iter().find(|d| d.door.id == "d2").expect("d2");
    assert!(unmatched.reference.is_empty(), "an unmatched key joins nothing, and is not an error");

    let known = vec!["schedule".to_string()];
    let f = RoomFilter::parse_query("schedule.FireRating=60", &known).expect("parses");
    let filtered = assemble_doors(&state, &with_filter(&f)).expect("data");
    assert_eq!(filtered.doors.len(), 1);
    assert_eq!(filtered.doors[0].door.id, "d1");
}

#[test]
fn doors_test_a_rooms_scoped_reference_source_does_not_join_onto_doors() {
    let state = door_schedule_state(ReferenceEntity::Rooms);
    let result = assemble_doors(&state, &everything()).expect("data");
    assert!(result.doors.iter().all(|d| d.reference.is_empty()), "a rooms-scoped source is not this entity's source");
}

#[test]
fn phases_are_listed_per_project_and_model_in_key_order() {
    let state = state_with(vec![
        ("p2", "m1", vec![make_door("d1", Some("r1"), None, &[])]),
        ("p1", "m9", vec![make_door("d1", Some("r1"), None, &[])]),
        ("p1", "m2", vec![make_door("d1", Some("r1"), None, &[])]),
    ]);
    let result = assemble_doors(&state, &everything()).expect("data");
    let keys: Vec<(&str, &str)> =
        result.phase_by_model.iter().map(|p| (p.project_id.as_str(), p.model_id.as_str())).collect();
    assert_eq!(keys, vec![("p1", "m2"), ("p1", "m9"), ("p2", "m1")]);
}
