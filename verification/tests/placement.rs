use roommate::contract::{Field, Model, ModelKey, Project, Snapshot};
use roommate::placement::{from_index, preferred_anchors, resolve, PlacedModel, Reframe};
use roommate::records::{Payload, Room};
use roommate::state::AppState;
use roommate::settings::{ProjectEntry, ProjectSettings, SettingsRegistry};

fn placed(project: &str, model: &str) -> PlacedModel {
    PlacedModel { project_id: project.to_string(), model_id: model.to_string(), placed: true }
}

fn unplaced(project: &str, model: &str) -> PlacedModel {
    PlacedModel { project_id: project.to_string(), model_id: model.to_string(), placed: false }
}

fn prefer(pairs: &[(&str, &str)]) -> Vec<Field> {
    pairs.iter().map(|(p, m)| Field { name: p.to_string(), value: m.to_string() }).collect()
}

fn moved<'a>(reframes: &'a [Reframe], project: &str, model: &str) -> Option<&'a Reframe> {
    reframes.iter().find(|r| r.project_id == project && r.model_id == model)
}

#[test]
fn test_the_anchor_model_is_never_transformed() {
    let r = resolve(&[placed("p", "b-model"), placed("p", "a-model")], &[]);
    assert!(moved(&r, "p", "a-model").is_none(), "the anchor is the lowest model id");
    assert_eq!(moved(&r, "p", "b-model").map(|m| m.anchor_id.as_str()), Some("a-model"));
}

#[test]
fn test_a_configured_anchor_wins_over_the_derived_one() {
    let preferred = prefer(&[("p", "bbb")]);
    let r = resolve(&[placed("p", "aaa"), placed("p", "bbb")], &preferred);
    assert!(moved(&r, "p", "bbb").is_none(), "the configured model is the untransformed anchor");
    assert!(moved(&r, "p", "aaa").is_some(), "and the lowest id now moves instead");
}

#[test]
fn test_a_configured_anchor_wins_from_either_direction() {
    let preferred = prefer(&[("p", "bbb")]);
    for models in [vec![placed("p", "aaa"), placed("p", "bbb")], vec![placed("p", "bbb"), placed("p", "aaa")]] {
        let r = resolve(&models, &preferred);
        assert!(moved(&r, "p", "bbb").is_none());
        assert!(moved(&r, "p", "aaa").is_some());
    }
}

#[test]
fn test_an_unknown_configured_anchor_falls_back_to_the_derivation() {
    let preferred = prefer(&[("p", "deleted-model")]);
    let r = resolve(&[placed("p", "aaa"), placed("p", "bbb")], &preferred);
    assert!(moved(&r, "p", "aaa").is_none(), "the derived anchor answers instead");
    assert!(moved(&r, "p", "bbb").is_some());
}

#[test]
fn test_a_configured_anchor_is_scoped_to_its_own_project() {
    let preferred = prefer(&[("p1", "zzz")]);
    let r = resolve(&[placed("p1", "aaa"), placed("p1", "zzz"), placed("p2", "aaa"), placed("p2", "zzz")], &preferred);
    assert!(moved(&r, "p1", "zzz").is_none(), "p1 anchors where it was told");
    assert!(moved(&r, "p1", "aaa").is_some());
    assert!(moved(&r, "p2", "aaa").is_none(), "p2 still derives its own");
    assert!(moved(&r, "p2", "zzz").is_some());
}

#[test]
fn test_the_anchor_does_not_depend_on_iteration_order() {
    let forward = resolve(&[placed("p", "aaa"), placed("p", "bbb"), placed("p", "ccc")], &[]);
    let reverse = resolve(&[placed("p", "ccc"), placed("p", "bbb"), placed("p", "aaa")], &[]);
    for model in ["aaa", "bbb", "ccc"] {
        assert_eq!(
            moved(&forward, "p", model).map(|m| m.anchor_id.clone()),
            moved(&reverse, "p", model).map(|m| m.anchor_id.clone()),
            "{model} moved when the input order changed"
        );
    }
}

#[test]
fn test_projects_get_their_own_frames() {
    let r = resolve(&[placed("p1", "m"), placed("p2", "m")], &[]);
    assert!(moved(&r, "p1", "m").is_none(), "each project anchors on its own only model");
    assert!(moved(&r, "p2", "m").is_none());
}

#[test]
fn test_a_model_with_no_declared_placement_is_left_alone() {
    let r = resolve(&[placed("p", "anchor"), unplaced("p", "unplaced")], &[]);
    assert!(moved(&r, "p", "unplaced").is_none(), "nothing to position it with");
    assert!(r.is_empty());
}

#[test]
fn every_non_anchor_moves_in_the_order_given() {
    let r = resolve(&[placed("p", "ccc"), placed("p", "aaa"), unplaced("p", "000"), placed("p", "bbb")], &[]);
    let got: Vec<(&str, &str)> = r.iter().map(|m| (m.model_id.as_str(), m.anchor_id.as_str())).collect();
    assert_eq!(got, vec![("ccc", "aaa"), ("bbb", "aaa")], "an unplaced id never anchors, however it sorts");
}

#[test]
fn ids_sort_by_code_point_not_by_length() {
    let r = resolve(&[placed("p", "b"), placed("p", "ab"), placed("p", "B")], &[]);
    assert!(moved(&r, "p", "B").is_none(), "an upper-case letter sorts before every lower-case one");
    assert_eq!(r.len(), 2);
}

#[test]
fn the_preferred_anchors_come_from_each_projects_settings() {
    let mut named = ProjectSettings::new();
    named.anchor_model = Some("arch".to_string());
    let registry = SettingsRegistry {
        projects: vec![
            ProjectEntry { id: "p1".to_string(), settings: named },
            ProjectEntry { id: "p2".to_string(), settings: ProjectSettings::new() },
        ],
    };
    let preferred = preferred_anchors(&registry);
    assert_eq!(preferred.len(), 1);
    assert_eq!(preferred[0].name, "p1");
    assert_eq!(preferred[0].value, "arch");
    let r = resolve(&[placed("p1", "a-services"), placed("p1", "arch")], &preferred);
    assert_eq!(moved(&r, "p1", "a-services").map(|m| m.anchor_id.as_str()), Some("arch"));
}

fn rooms_of(project: &str, model: &str) -> Payload<Room> {
    Payload {
        project: Project { id: project.to_string(), name: "P".to_string() },
        model: Model { id: model.to_string(), name: "M".to_string(), source: "revit".to_string() },
        snapshot: Snapshot { taken_at: "2026-01-01T00:00:00Z".to_string() },
        phase: None,
        levels: vec![],
        elements: vec![],
    }
}

fn key(project: &str, model: &str) -> ModelKey {
    ModelKey { project_id: project.to_string(), model_id: model.to_string() }
}

#[test]
fn the_index_is_placed_around_each_projects_configured_anchor() {
    let mut settings = ProjectSettings::new();
    settings.anchor_model = Some("m2".to_string());
    let mut state = AppState::new(SettingsRegistry { projects: vec![ProjectEntry { id: "p1".to_string(), settings }] });
    for model in ["m1", "m2", "m3"] {
        state.set_snapshot(rooms_of("p1", model));
    }
    let r = from_index(&state, &[key("p1", "m1"), key("p1", "m2")]);
    assert_eq!(r.len(), 1);
    assert_eq!((r[0].model_id.as_str(), r[0].anchor_id.as_str()), ("m1", "m2"));
    assert!(moved(&r, "p1", "m3").is_none(), "a model with no placement stays where it was authored");
}
