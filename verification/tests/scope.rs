use std::hash::{Hash, Hasher};
use roommate::contract::{Field, Level, Located, Model, ModelKey, Project, RoomRef, Snapshot, SnapshotKind, Unresolved};
use roommate::drofus::{get_drofus_snapshot, list_drofus_snapshots};
use roommate::milestones::list_milestones;
use roommate::records::{Opening, Payload, Room};
use roommate::scope::{levels_by_model, plan_reads, scope_cursor, side_origin, PlannedRead, Scoped, SideOrigin};
use roommate::settings::{Milestone, ProjectEntry, ProjectSettings, SettingsRegistry};
use roommate::state::{AppState, KindId, ModelIndexRow};

fn room(id: &str) -> Room {
    Room { id: id.to_string(), name: "Room".to_string(), level_id: "l1".to_string(), building: None, properties: vec![] }
}

fn payload<E>(project: &str, taken_at: &str, elements: Vec<E>) -> Payload<E> {
    Payload {
        project: Project { id: project.to_string(), name: "P".to_string() },
        model: Model { id: "m1".to_string(), name: "M".to_string(), source: "revit".to_string() },
        snapshot: Snapshot { taken_at: taken_at.to_string() },
        phase: None,
        levels: vec![],
        elements,
    }
}

fn registry(ids: &[&str]) -> SettingsRegistry {
    SettingsRegistry {
        projects: ids.iter().map(|id| ProjectEntry { id: id.to_string(), settings: ProjectSettings::new() }).collect(),
    }
}

fn milestone(name: &str, date: &str, rooms: &[(&str, &str)], doors: &[(&str, &str)]) -> Milestone {
    let pins = |p: &[(&str, &str)]| p.iter().map(|(m, id)| Field { name: m.to_string(), value: id.to_string() }).collect();
    Milestone {
        name: name.to_string(),
        date: date.to_string(),
        reference_snapshots: vec![],
        attachments: pins(rooms),
        door_attachments: pins(doors),
        window_attachments: vec![],
        ffe_attachments: vec![],
        space_attachments: vec![],
        ceiling_attachments: vec![],
        floor_attachments: vec![],
    }
}

#[test]
fn test_cursor_is_stable_while_idle_and_moves_on_a_push() {
    let mut state = AppState::new(registry(&["p1"]));
    state.set_snapshot(payload("p1", "2026-01-01T00:00:00Z", vec![room("r1")]));
    let first = scope_cursor(&state, Some("p1"), None, &[SnapshotKind::Rooms]);
    assert_eq!(first, scope_cursor(&state, Some("p1"), None, &[SnapshotKind::Rooms]), "nothing happened");
    assert_eq!(first.len(), 16, "sixteen hex digits");
    state.set_snapshot(payload("p1", "2026-02-02T00:00:00Z", vec![room("r1")]));
    assert_ne!(first, scope_cursor(&state, Some("p1"), None, &[SnapshotKind::Rooms]), "a new snapshot is new content");
}

#[test]
fn test_doors_cursor_tracks_rooms_too() {
    let mut state = AppState::new(registry(&["p1"]));
    state.set_snapshot(payload("p1", "2026-01-01T00:00:00Z", vec![room("r1")]));
    state.set_door_snapshot(payload::<Opening>("p1", "2026-01-01T00:00:00Z", vec![]));
    let kinds = [SnapshotKind::Rooms, SnapshotKind::Doors];
    let before = scope_cursor(&state, Some("p1"), None, &kinds);
    state.set_snapshot(payload("p1", "2026-03-03T00:00:00Z", vec![room("r1")]));
    let after = scope_cursor(&state, Some("p1"), None, &kinds);
    assert_ne!(before, after, "the doors body depends on the rooms it resolves against");
}

#[test]
fn test_cursor_ignores_an_unregistered_project() {
    let mut state = AppState::new(registry(&["p1"]));
    state.set_snapshot(payload("p1", "2026-01-01T00:00:00Z", vec![room("r1")]));
    let before = scope_cursor(&state, None, None, &[SnapshotKind::Rooms]);
    state.set_snapshot(payload("ghost", "2026-04-04T00:00:00Z", vec![room("r1")]));
    assert_eq!(before, scope_cursor(&state, None, None, &[SnapshotKind::Rooms]));
}

#[test]
fn test_cursor_is_scoped_to_its_project() {
    let mut state = AppState::new(registry(&["p1", "p2"]));
    state.set_snapshot(payload("p1", "2026-01-01T00:00:00Z", vec![room("r1")]));
    let before = scope_cursor(&state, Some("p1"), None, &[SnapshotKind::Rooms]);
    state.set_snapshot(payload("p2", "2026-05-05T00:00:00Z", vec![room("r1")]));
    assert_eq!(before, scope_cursor(&state, Some("p1"), None, &[SnapshotKind::Rooms]));
}

#[test]
fn test_a_milestone_cursor_hashes_each_kinds_own_pin() {
    let cursor_pinning = |doors_pin: &str| {
        let mut settings = ProjectSettings::new();
        settings.milestones = vec![milestone("M", "2026-01-01", &[("m1", "2026-01-01T00:00:00Z")], &[("m1", doors_pin)])];
        let mut state = AppState::new(SettingsRegistry { projects: vec![ProjectEntry { id: "p1".to_string(), settings }] });
        for ts in ["2026-02-01T00:00:00Z", "2026-03-01T00:00:00Z"] {
            state.set_door_snapshot(payload::<Opening>("p1", ts, vec![]));
        }
        scope_cursor(&state, Some("p1"), Some("M"), &[SnapshotKind::Doors])
    };
    assert_ne!(cursor_pinning("2026-02-01T00:00:00Z"), cursor_pinning("2026-03-01T00:00:00Z"));
}

fn row(project: &str, model: &str, latest: &[(SnapshotKind, &str)]) -> ModelIndexRow {
    ModelIndexRow {
        key: ModelKey { project_id: project.to_string(), model_id: model.to_string() },
        project_name: project.to_string(),
        model_name: model.to_string(),
        latest: latest.iter().map(|(k, id)| KindId { kind: *k, id: id.to_string() }).collect(),
    }
}

fn planned(plan: &[PlannedRead]) -> Vec<(&str, &str)> {
    plan.iter().map(|p| (p.key.model_id.as_str(), p.id.as_str())).collect()
}

#[test]
fn test_the_plan_admits_exactly_what_the_read_serves() {
    let (rooms, doors) = (SnapshotKind::Rooms, SnapshotKind::Doors);
    let index = vec![
        row("p1", "m1", &[(rooms, "r-new"), (doors, "d-new")]),
        row("p1", "m2", &[(rooms, "r-new")]),
        row("unregistered", "m3", &[(rooms, "r-new")]),
    ];
    let mut settings = ProjectSettings::new();
    settings.milestones = vec![milestone("M", "2026-01-01", &[("m1", "r-old")], &[("m1", "d-old"), ("m2", "d-dangling")])];
    let reg = SettingsRegistry { projects: vec![ProjectEntry { id: "p1".to_string(), settings }] };
    let plan = |kind, project, ms| plan_reads(&index, &reg, kind, project, ms);

    assert_eq!(planned(&plan(rooms, None, None)), [("m1", "r-new"), ("m2", "r-new")], "no bundle, no read");
    assert_eq!(planned(&plan(doors, None, None)), [("m1", "d-new")], "m2 holds no doors");
    assert!(plan(rooms, Some("unregistered"), None).is_empty());
    assert_eq!(planned(&plan(rooms, None, Some("M"))), [("m1", "r-old")], "m2 is not pinned for rooms");
    assert_eq!(planned(&plan(doors, None, Some("M"))), [("m1", "d-old")], "the m2 doors pin names nothing ever pushed");
    assert!(plan(rooms, None, Some("no such milestone")).is_empty());
}

#[test]
fn test_authored_always_wins_and_geometry_fills_the_rest() {
    let derived = Located::Found(RoomRef { model_id: "m1".to_string(), room_id: "geo".to_string() });
    assert!(matches!(side_origin(Some("stated"), "m1", &derived), SideOrigin::Authored(r) if r.room_id == "stated"));
    assert!(matches!(side_origin(None, "m1", &derived), SideOrigin::Derived(r) if r.room_id == "geo"));
    let nothing = Located::Unresolved(Unresolved::Ambiguous);
    assert!(matches!(side_origin(None, "m1", &nothing), SideOrigin::Unresolved(Unresolved::Ambiguous)));
}

#[test]
fn test_an_origin_reads_as_its_lowercased_debug_text() {
    let authored = SideOrigin::Authored(RoomRef { model_id: "M1".to_string(), room_id: "R \"2\"".to_string() });
    assert_eq!(authored.label(), "authored(roomref { model_id: \"m1\", room_id: \"r \\\"2\\\"\" })");
    assert_eq!(SideOrigin::Unresolved(Unresolved::NoCandidate).label(), "unresolved(nocandidate)");
}

#[test]
fn test_list_milestones_newest_first() {
    let mut pinned = milestone("Design Freeze", "2026-06-30", &[("m1", "2026-01-01T00:00:00Z")], &[]);
    pinned.reference_snapshots = vec![
        Field { name: "drofus".to_string(), value: "2026-06-29T17:00:00Z".to_string() },
        Field { name: "ffe".to_string(), value: "2026-06-28T09:00:00Z".to_string() },
    ];
    let mut settings = ProjectSettings::new();
    settings.milestones = vec![milestone("Concept", "2026-03-01", &[("m1", "2026-01-01T00:00:00Z")], &[]), pinned];
    let state = AppState::new(SettingsRegistry { projects: vec![ProjectEntry { id: "p1".to_string(), settings }] });
    let result = match list_milestones(&state, "p1") {
        Ok(r) => r,
        Err(_) => panic!("listing does not fail"),
    };
    assert_eq!(result.milestones.len(), 2);
    assert_eq!(result.milestones[0].name, "Design Freeze");
    assert_eq!(result.milestones[1].name, "Concept");
    assert_eq!(result.milestones[0].attached_models, 1);
    let pins: Vec<(&str, &str)> =
        result.milestones[0].reference_snapshots.iter().map(|f| (f.name.as_str(), f.value.as_str())).collect();
    assert_eq!(pins, vec![("drofus", "2026-06-29T17:00:00Z"), ("ffe", "2026-06-28T09:00:00Z")], "every source's pin");
    assert!(result.milestones[1].reference_snapshots.is_empty(), "no pins, none listed");
}

#[test]
fn test_list_milestones_unknown_project_is_empty() {
    let state = AppState::new(registry(&["p1"]));
    assert!(matches!(list_milestones(&state, "p1"), Ok(r) if r.milestones.is_empty()));
    assert!(matches!(list_milestones(&state, "nonexistent"), Ok(r) if r.milestones.is_empty()));
}

#[test]
fn test_list_milestones_breaks_a_date_tie_by_name() {
    let mut settings = ProjectSettings::new();
    settings.milestones = vec![
        milestone("Beta", "2026-01-01", &[], &[]),
        milestone("Alpha", "2026-01-01", &[], &[]),
        milestone("Later", "2026-05-01", &[], &[]),
    ];
    let state = AppState::new(SettingsRegistry { projects: vec![ProjectEntry { id: "p1".to_string(), settings }] });
    let names: Vec<String> = match list_milestones(&state, "p1") {
        Ok(r) => r.milestones.into_iter().map(|m| m.name).collect(),
        Err(_) => panic!("no failure"),
    };
    assert_eq!(names, vec!["Later".to_string(), "Alpha".to_string(), "Beta".to_string()]);
}

const CSV: &[u8] = b"DrofusRoomId,NetArea\nNumber,Area\n1,25.5\n2,30.0\n";

#[test]
fn test_list_drofus_snapshots() {
    let mut state = AppState::new(registry(&["p1"]));
    let empty = list_drofus_snapshots(&state, "p1", "drofus").unwrap_or_else(|_| panic!("soft"));
    assert!(empty.snapshots.is_empty());
    assert!(empty.latest.is_none());
    assert!(list_drofus_snapshots(&state, "ghost", "drofus").unwrap_or_else(|_| panic!("soft")).snapshots.is_empty());
    state.put_drofus("p1", "drofus", "2026-01-01T10:00:00Z", CSV);
    let listed = list_drofus_snapshots(&state, "p1", "drofus").unwrap_or_else(|_| panic!("soft"));
    assert_eq!(listed.snapshots, vec!["2026-01-01T10:00:00Z".to_string()]);
    assert_eq!(listed.latest.as_deref(), Some("2026-01-01T10:00:00Z"));
}

#[test]
fn test_the_listing_is_ascending_and_latest_is_the_last() {
    let mut state = AppState::new(registry(&["p1"]));
    state.put_drofus("p1", "drofus", "2026-03-01T00:00:00Z", CSV);
    state.put_drofus("p1", "drofus", "2026-01-01T00:00:00Z", CSV);
    state.put_drofus("p1", "other", "2026-09-01T00:00:00Z", CSV);
    let listed = list_drofus_snapshots(&state, "p1", "drofus").unwrap_or_else(|_| panic!("soft"));
    assert_eq!(listed.snapshots, vec!["2026-01-01T00:00:00Z".to_string(), "2026-03-01T00:00:00Z".to_string()]);
    assert_eq!(listed.latest.as_deref(), Some("2026-03-01T00:00:00Z"));
}

#[test]
fn test_get_drofus_snapshot() {
    let mut state = AppState::new(registry(&["p1"]));
    assert!(matches!(get_drofus_snapshot(&state, "p1", "drofus", None), Ok(None)));
    state.put_drofus("p1", "drofus", "2026-01-01T10:00:00Z", CSV);
    let info = match get_drofus_snapshot(&state, "p1", "drofus", None) {
        Ok(Some(i)) => i,
        _ => panic!("the upload reads"),
    };
    assert_eq!(info.taken_at, "2026-01-01T10:00:00Z");
    assert_eq!(info.record_count, 2);
    assert_eq!(info.link_property, "Number");
    assert_eq!(info.labels, vec!["NetArea".to_string()]);
    let by_id = match get_drofus_snapshot(&state, "p1", "drofus", Some("2026-01-01T10:00:00Z")) {
        Ok(Some(i)) => i,
        _ => panic!("the upload reads"),
    };
    assert_eq!(by_id.record_count, 2);
    assert!(matches!(get_drofus_snapshot(&state, "p1", "drofus", Some("2026-02-01T10:00:00Z")), Ok(None)));
    assert!(matches!(get_drofus_snapshot(&state, "ghost", "drofus", None), Ok(None)));
}

#[test]
fn levels_are_read_off_each_contributing_snapshot_in_read_order() {
    let level = |id: &str, um: i64| Level { id: id.to_string(), name: id.to_uppercase(), elevation_um: um };
    let mut a: Payload<Room> = payload("p1", "t1", vec![]);
    a.levels = vec![level("l0", 0), level("l1", 3_000_000)];
    let mut b: Payload<Room> = payload("p1", "t2", vec![]);
    b.model.id = "m2".to_string();
    b.levels = vec![level("g", -500_000)];
    let scoped = vec![
        Scoped { key: ModelKey { project_id: "p1".to_string(), model_id: "m1".to_string() }, payload: a },
        Scoped { key: ModelKey { project_id: "p1".to_string(), model_id: "m2".to_string() }, payload: b },
    ];
    let levels = levels_by_model(&scoped);
    assert_eq!(levels.len(), 2);
    assert_eq!(levels[0].model_id, "m1");
    assert_eq!(levels[0].levels.iter().map(|l| l.id.as_str()).collect::<Vec<_>>(), vec!["l0", "l1"]);
    assert_eq!(levels[0].levels[1].elevation_um, 3_000_000);
    assert_eq!(levels[1].model_id, "m2");
    assert_eq!(levels[1].levels[0].name, "G");
    assert_eq!(levels[1].levels[0].elevation_um, -500_000);
}

#[test]
fn a_push_indexes_its_model_with_the_kind_latest() {
    let mut state = AppState::new(registry(&["p1"]));
    assert!(state.model_index().is_empty());
    state.set_snapshot(payload("p1", "2026-01-01T00:00:00Z", vec![room("r1")]));
    state.set_snapshot(payload("p1", "2026-02-02T00:00:00Z", vec![room("r1")]));
    let index = state.model_index();
    assert_eq!(index.len(), 1, "one row per model");
    assert_eq!(index[0].key.project_id, "p1");
    assert_eq!(index[0].key.model_id, "m1");
    let latest: Vec<(SnapshotKind, &str)> = index[0].latest.iter().map(|k| (k.kind, k.id.as_str())).collect();
    assert_eq!(latest, vec![(SnapshotKind::Rooms, "2026-02-02T00:00:00Z")]);
}

#[test]
fn a_cursor_is_the_hash_of_its_sorted_parts() {
    let mut state = AppState::new(registry(&["p1", "p2"]));
    state.set_snapshot(payload("p2", "2026-01-01T00:00:00Z", vec![room("r1")]));
    state.set_snapshot(payload("p1", "2026-02-01T00:00:00Z", vec![room("r1")]));
    let mut parts: Vec<(&str, &str, &str, String)> = vec![
        ("p2", "m1", "rooms", "2026-01-01T00:00:00Z".to_string()),
        ("p1", "m1", "rooms", "2026-02-01T00:00:00Z".to_string()),
    ];
    parts.sort_unstable();
    let mut hasher = std::collections::hash_map::DefaultHasher::new();
    parts.hash(&mut hasher);
    let expected = format!("{:016x}", hasher.finish());
    assert_eq!(scope_cursor(&state, None, None, &[SnapshotKind::Rooms]), expected);
}
