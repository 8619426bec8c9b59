use roommate::attribution::DerivedRoom;
use roommate::contract::{Located, Model, Project, Prop, PropertyValue, RoomRef, Snapshot, SUPPORTED_FFE_SCHEMA};
use roommate::filter::RoomFilter;
use roommate::items::{assemble_items, ItemScope};
use roommate::records::{Item, Payload};
use roommate::scope::SideOrigin;
use roommate::settings::{FfePolicy, NestedComponents, ProjectEntry, ProjectSettings, RoomResolution, SettingsRegistry};
use roommate::state::AppState;

fn make_item(id: &str, category: &str, room: Option<&str>, parent: Option<&str>) -> Item {
    Item {
        id: id.to_string(),
        level_id: "1".to_string(),
        category: category.to_string(),
        room: room.map(str::to_string),
        super_component_id: parent.map(str::to_string),
        type_id: "t1".to_string(),
        type_label: "Desk 1600x800".to_string(),
        properties: vec![Prop {
            name: "Mark".to_string(),
            value: PropertyValue { value: format!("F-{id}"), storage_type: None },
        }],
        type_properties: vec![],
    }
}

fn state_with(items: Vec<Item>, policy: FfePolicy) -> AppState {
    let mut settings = ProjectSettings::new();
    settings.ffe = policy;
    let mut state = AppState::new(SettingsRegistry { projects: vec![ProjectEntry { id: "p1".to_string(), settings }] });
    state.set_ffe_snapshot(Payload {
        project: Project { id: "p1".to_string(), name: "P".to_string() },
        model: Model { id: "m1".to_string(), name: "M".to_string(), source: "revit".to_string() },
        snapshot: Snapshot { taken_at: "2026-09-05T00:00:00Z".to_string() },
        phase: Some("New Construction".to_string()),
        levels: vec![],
        elements: items,
    });
    state
}

fn default_policy() -> FfePolicy {
    FfePolicy { nested_components: NestedComponents::Exclude, room_resolution: RoomResolution::Off }
}

fn filter(expr: &str) -> RoomFilter {
    RoomFilter::parse_query(expr, &[]).expect("parses")
}

fn everything() -> ItemScope<'static> {
    ItemScope { project: None, building: None, milestone: None, filter: None }
}

fn with_filter(f: &RoomFilter) -> ItemScope<'_> {
    ItemScope { project: None, building: None, milestone: None, filter: Some(f) }
}

#[test]
fn test_no_ffe_pushed_is_none() {
    let state = AppState::new(SettingsRegistry { projects: vec![] });
    assert!(assemble_items(&state, &everything(), &[]).is_none());
}

#[test]
fn items_test_a_scope_matching_nothing_is_an_empty_list() {
    let state = state_with(vec![make_item("f1", "OST_Furniture", Some("r1"), None)], default_policy());
    let scope = ItemScope { project: Some("nope"), building: None, milestone: None, filter: None };
    let result = assemble_items(&state, &scope, &[]).expect("the store has data");
    assert!(result.ffe.is_empty());
}

#[test]
fn test_an_item_is_attributed_to_the_one_room_it_names() {
    let state = state_with(
        vec![make_item("f1", "OST_Furniture", Some("r1"), None), make_item("f2", "OST_GenericModel", None, None)],
        default_policy(),
    );
    let result = assemble_items(&state, &everything(), &[]).expect("data");
    let owned = result.ffe.iter().find(|i| i.item.id == "f1").expect("f1");
    assert_eq!(owned.owner_rooms, vec!["r1".to_string()]);
    assert!(matches!(owned.room_origin, SideOrigin::Authored(_)), "the model stated it");
    let homeless = result.ffe.iter().find(|i| i.item.id == "f2").expect("f2");
    assert!(homeless.owner_rooms.is_empty(), "empty means homeless, exactly as for an opening");
}

#[test]
fn test_components_are_excluded_and_counted() {
    let state = state_with(
        vec![
            make_item("f1", "OST_Furniture", Some("r1"), None),
            make_item("f2", "OST_Furniture", Some("r1"), Some("3729614")),
            make_item("f3", "OST_Furniture", Some("r1"), Some("3729614")),
        ],
        default_policy(),
    );
    let result = assemble_items(&state, &everything(), &[]).expect("data");
    assert_eq!(result.ffe.len(), 1, "only the parent survives");
    assert_eq!(result.ffe[0].item.id, "f1");
    assert_eq!(result.excluded_components, 2, "the exclusion is a number, not a silence");
    assert!(!result.ffe[0].is_component);
}

#[test]
fn test_including_components_returns_them_flagged() {
    let policy = FfePolicy { nested_components: NestedComponents::Include, room_resolution: RoomResolution::Off };
    let state = state_with(
        vec![make_item("f1", "OST_Furniture", Some("r1"), None), make_item("f2", "OST_Furniture", Some("r1"), Some("3729614"))],
        policy,
    );
    let result = assemble_items(&state, &everything(), &[]).expect("data");
    assert_eq!(result.ffe.len(), 2);
    assert_eq!(result.excluded_components, 0);
    let component = result.ffe.iter().find(|i| i.item.id == "f2").expect("f2");
    assert!(component.is_component, "a reader must still be able to tell it apart");
}

#[test]
fn test_a_component_still_names_its_room() {
    let policy = FfePolicy { nested_components: NestedComponents::Include, room_resolution: RoomResolution::Off };
    let state = state_with(vec![make_item("f2", "OST_Furniture", Some("r1"), Some("3729614"))], policy);
    let result = assemble_items(&state, &everything(), &[]).expect("data");
    assert_eq!(result.ffe[0].owner_rooms, vec!["r1".to_string()]);
}

#[test]
fn test_category_filters_through_the_shared_grammar() {
    let state = state_with(
        vec![make_item("f1", "OST_Furniture", Some("r1"), None), make_item("f2", "OST_GenericModel", Some("r1"), None)],
        default_policy(),
    );
    let f = filter("$category=OST_Furniture");
    let result = assemble_items(&state, &with_filter(&f), &[]).expect("data");
    assert_eq!(result.ffe.len(), 1);
    assert_eq!(result.ffe[0].item.id, "f1");
}

#[test]
fn test_room_filters_and_a_homeless_item_matches_nothing() {
    let state = state_with(
        vec![
            make_item("f1", "OST_Furniture", Some("r1"), None),
            make_item("f2", "OST_Furniture", Some("r2"), None),
            make_item("f3", "OST_Furniture", None, None),
        ],
        default_policy(),
    );
    let f = filter("$room=r1");
    let result = assemble_items(&state, &with_filter(&f), &[]).expect("data");
    let ids: Vec<&str> = result.ffe.iter().map(|i| i.item.id.as_str()).collect();
    assert_eq!(ids, vec!["f1"], "the homeless item is not swept in");
}

#[test]
fn test_a_property_filter_reads_the_item_tiers() {
    let state = state_with(
        vec![make_item("f1", "OST_Furniture", Some("r1"), None), make_item("f2", "OST_Furniture", Some("r1"), None)],
        default_policy(),
    );
    let f = filter("Mark=F-f2");
    let result = assemble_items(&state, &with_filter(&f), &[]).expect("data");
    assert_eq!(result.ffe.len(), 1);
    assert_eq!(result.ffe[0].item.id, "f2");
}

#[test]
fn test_the_phase_is_reported_per_model() {
    let state = state_with(vec![make_item("f1", "OST_Furniture", Some("r1"), None)], default_policy());
    let result = assemble_items(&state, &everything(), &[]).expect("data");
    let phase = result.phase_by_model.iter().find(|p| p.project_id == "p1" && p.model_id == "m1").expect("m1");
    assert_eq!(phase.phase.as_deref(), Some("New Construction"));
    assert_eq!(result.schema_version, SUPPORTED_FFE_SCHEMA);
}

#[test]
fn test_geometry_places_an_item_only_when_resolution_is_on() {
    let derived = vec![DerivedRoom {
        model_id: "m1".to_string(),
        element_id: "f1".to_string(),
        located: Located::Found(RoomRef { model_id: "m1".to_string(), room_id: "r9".to_string() }),
    }];
    let off = state_with(vec![make_item("f1", "OST_Furniture", None, None)], default_policy());
    let result = assemble_items(&off, &everything(), &derived).expect("data");
    assert!(result.ffe[0].owner_rooms.is_empty(), "off derives nothing");

    let on_policy = FfePolicy { nested_components: NestedComponents::Exclude, room_resolution: RoomResolution::SameModel };
    let on = state_with(vec![make_item("f1", "OST_Furniture", None, None)], on_policy);
    let result = assemble_items(&on, &everything(), &derived).expect("data");
    assert_eq!(result.ffe[0].owner_rooms, vec!["r9".to_string()]);
    assert!(matches!(&result.ffe[0].room_origin, SideOrigin::Derived(r) if r.room_id == "r9"));
}
