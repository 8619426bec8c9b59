use roommate::ceilings::{assemble_ceilings, by_room, CeilingRoom, CeilingScope, DerivedCeilingRooms};
use roommate::contract::{Model, Project, RoomRef, Snapshot};
use roommate::records::{Ceiling, Payload};
use roommate::settings::{ProjectEntry, ProjectSettings, SettingsRegistry};
use roommate::state::AppState;

fn ceiling(id: &str) -> Ceiling {
    Ceiling {
        id: id.to_string(),
        level_id: "l1".to_string(),
        type_id: "t1".to_string(),
        type_label: "Plasterboard".to_string(),
        properties: vec![],
        type_properties: vec![],
    }
}

fn payload(model: &str, taken_at: &str, ceilings: Vec<Ceiling>) -> Payload<Ceiling> {
    Payload {
        project: Project { id: "p1".to_string(), name: "P".to_string() },
        model: Model { id: model.to_string(), name: model.to_uppercase(), source: "revit".to_string() },
        snapshot: Snapshot { taken_at: taken_at.to_string() },
        phase: Some("New Construction".to_string()),
        levels: vec![],
        elements: ceilings,
    }
}

fn state() -> AppState {
    AppState::new(SettingsRegistry {
        projects: vec![ProjectEntry { id: "p1".to_string(), settings: ProjectSettings::new() }],
    })
}

fn room(model: &str, id: &str) -> RoomRef {
    RoomRef { model_id: model.to_string(), room_id: id.to_string() }
}

fn found(model: &str, ceiling: &str, rooms: Vec<RoomRef>) -> DerivedCeilingRooms {
    DerivedCeilingRooms {
        model_id: model.to_string(),
        ceiling_id: ceiling.to_string(),
        rooms: rooms.into_iter().map(|room| CeilingRoom { room, measures: vec![] }).collect(),
    }
}

#[test]
fn nothing_pushed_is_none() {
    let scope = CeilingScope { project: Some("p1"), milestone: None };
    assert!(assemble_ceilings(&state(), &scope, &[]).is_none());
}

#[test]
fn each_ceiling_carries_the_rooms_found_for_it() {
    let mut s = state();
    s.set_ceiling_snapshot(payload("m1", "t1", vec![ceiling("c1"), ceiling("c2"), ceiling("c3")]));
    let derived = vec![
        found("m1", "c1", vec![room("m1", "r2"), room("m1", "r1")]),
        found("m1", "c3", vec![room("m1", "r1")]),
        found("m2", "c2", vec![room("m2", "r9")]),
    ];
    let scope = CeilingScope { project: Some("p1"), milestone: None };
    let result = assemble_ceilings(&s, &scope, &derived).expect("ceilings were pushed");
    assert_eq!(result.ceilings.len(), 3);
    let rooms: Vec<Vec<&str>> =
        result.ceilings.iter().map(|c| c.rooms.iter().map(|r| r.room.room_id.as_str()).collect()).collect();
    assert_eq!(rooms, vec![vec!["r2", "r1"], vec![], vec!["r1"]], "c2's entry is another model's");
    assert_eq!(result.ceilings[0].model_id, "m1");
    assert_eq!(result.ceilings[0].source, "revit");
    assert_eq!(result.phase_by_model.len(), 1);
    assert_eq!(result.phase_by_model[0].phase.as_deref(), Some("New Construction"));
    assert_eq!(result.revision.len(), 16);
}

#[test]
fn an_unregistered_project_serves_nothing() {
    let mut s = state();
    s.set_ceiling_snapshot(payload("m1", "t1", vec![ceiling("c1")]));
    let scope = CeilingScope { project: Some("elsewhere"), milestone: None };
    let result = assemble_ceilings(&s, &scope, &[]).expect("ceilings were pushed");
    assert!(result.ceilings.is_empty());
}

#[test]
fn only_the_latest_snapshot_is_read() {
    let mut s = state();
    s.set_ceiling_snapshot(payload("m1", "t1", vec![ceiling("old")]));
    s.set_ceiling_snapshot(payload("m1", "t2", vec![ceiling("new")]));
    let scope = CeilingScope { project: None, milestone: None };
    let result = assemble_ceilings(&s, &scope, &[]).expect("ceilings were pushed");
    let ids: Vec<&str> = result.ceilings.iter().map(|c| c.ceiling.id.as_str()).collect();
    assert_eq!(ids, vec!["new"]);
}

#[test]
fn by_room_lists_each_room_once_in_key_order() {
    let mut s = state();
    s.set_ceiling_snapshot(payload("m1", "t1", vec![ceiling("c1"), ceiling("c2"), ceiling("c3")]));
    let derived = vec![
        found("m1", "c1", vec![room("m1", "r2"), room("m1", "r1")]),
        found("m1", "c2", vec![]),
        found("m1", "c3", vec![room("m1", "r1"), room("a0", "r9")]),
    ];
    let scope = CeilingScope { project: None, milestone: None };
    let result = assemble_ceilings(&s, &scope, &derived).expect("ceilings were pushed");
    let inverted = by_room(&result);
    let keys: Vec<(&str, &str)> =
        inverted.iter().map(|e| (e.room.model_id.as_str(), e.room.room_id.as_str())).collect();
    assert_eq!(keys, vec![("a0", "r9"), ("m1", "r1"), ("m1", "r2")]);
    assert_eq!(inverted[0].ceilings, vec![2]);
    assert_eq!(inverted[1].ceilings, vec![0, 2]);
    assert_eq!(inverted[2].ceilings, vec![0]);
}

#[test]
fn a_ceiling_over_no_room_is_listed_under_none() {
    let mut s = state();
    s.set_ceiling_snapshot(payload("m1", "t1", vec![ceiling("soffit")]));
    let scope = CeilingScope { project: None, milestone: None };
    let result = assemble_ceilings(&s, &scope, &[]).expect("ceilings were pushed");
    assert_eq!(result.ceilings.len(), 1);
    assert!(result.ceilings[0].rooms.is_empty());
    assert!(by_room(&result).is_empty());
}
