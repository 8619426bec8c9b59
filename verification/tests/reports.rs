use roommate::attribution::DerivedRoom;
use roommate::ceilings::{CeilingRoom, DerivedCeilingRooms};
use roommate::contract::{Field, Model, Project, Prop, PropertyValue, RoomRef, Snapshot, SnapshotKind};
use roommate::records::{Ceiling, Item, Opening, Payload, Room};
use roommate::reports::{
    build_report, column_catalog, distinct, to_csv, value_type, Column, Entity, FilterWire, Geometry, ReportDefinition,
    ReportResult, ReportScope, Shape,
};
use roommate::reference::load_reference_from_bytes;
use roommate::settings::{ProjectEntry, ProjectSettings, ReferenceEntity, ReferenceSource, SettingsRegistry};
use roommate::state::AppState;
use roommate::ServiceError;

fn prop(name: &str, value: &str) -> Prop {
    Prop { name: name.to_string(), value: PropertyValue { value: value.to_string(), storage_type: None } }
}

fn room(id: &str, name: &str, props: &[(&str, &str)]) -> Room {
    Room {
        id: id.to_string(),
        name: name.to_string(),
        level_id: "1".to_string(),
        building: None,
        properties: props.iter().map(|(k, v)| prop(k, v)).collect(),
    }
}

fn door(id: &str, to_room: Option<&str>, props: &[(&str, &str)]) -> Opening {
    Opening {
        id: id.to_string(),
        level_id: "1".to_string(),
        from_room: None,
        to_room: to_room.map(str::to_string),
        type_id: "t1".to_string(),
        type_label: "Single".to_string(),
        properties: props.iter().map(|(k, v)| prop(k, v)).collect(),
        type_properties: vec![],
    }
}

fn payload<E>(taken_at: &str, elements: Vec<E>) -> Payload<E> {
    Payload {
        project: Project { id: "p1".to_string(), name: "P".to_string() },
        model: Model { id: "m1".to_string(), name: "M".to_string(), source: "revit".to_string() },
        snapshot: Snapshot { taken_at: taken_at.to_string() },
        phase: Some("New Construction".to_string()),
        levels: vec![],
        elements,
    }
}

fn state_with(rooms: Vec<Room>, doors: Vec<Opening>) -> AppState {
    let mut state = AppState::new(SettingsRegistry {
        projects: vec![ProjectEntry { id: "p1".to_string(), settings: ProjectSettings::new() }],
    });
    state.set_snapshot(payload("2026-02-01T00:00:00Z", rooms));
    state.set_door_snapshot(payload("2026-02-01T00:00:00Z", doors));
    state
}

fn definition(entity: Entity, by_room: bool) -> ReportDefinition {
    ReportDefinition {
        entity,
        by_room,
        columns: vec!["$id".to_string()],
        room_columns: vec!["Number".to_string()],
        measures: vec![],
        shape: Shape::PerMatch,
        include_rooms_without: false,
        include_unattributed: true,
        limit: None,
        filter: None,
    }
}

fn scope() -> ReportScope<'static> {
    ReportScope { project: Some("p1"), building: None, milestone: None }
}

fn no_geometry() -> Geometry {
    Geometry { door_sides: vec![], window_sides: vec![], item_rooms: vec![], ceiling_rooms: vec![] }
}

fn run(state: &AppState, def: &ReportDefinition) -> ReportResult {
    match build_report(state, &scope(), def, &no_geometry()) {
        Ok(Some(r)) => r,
        _ => panic!("the store has data"),
    }
}

fn condition(side: Option<&str>, field: &str, op: &str, value: Option<&str>, case_sensitive: bool) -> FilterWire {
    FilterWire::Condition {
        side: side.map(str::to_string),
        field: field.to_string(),
        op: op.to_string(),
        value: value.map(str::to_string),
        value2: None,
        case_sensitive,
    }
}

fn group(mode: &str, items: Vec<FilterWire>) -> FilterWire {
    FilterWire::Group { mode: mode.to_string(), items }
}

fn filtered(state: &AppState, mut def: ReportDefinition, wire: FilterWire) -> Vec<Vec<String>> {
    def.filter = Some(wire.parse(&[]).expect("filter parses"));
    run(state, &def).rows
}

fn two_rooms() -> AppState {
    state_with(
        vec![
            room("r1", "ENTRY", &[("Number", "G01"), ("Department", "Circulation")]),
            room("r2", "KITCHEN", &[("Number", "G02"), ("Department", "Living")]),
            room("r3", "POOL EX", &[("Number", "G05"), ("Department", "External")]),
        ],
        vec![
            door("d1", Some("r1"), &[("Mark", "D-01"), ("Type", "SGL")]),
            door("d2", Some("r1"), &[("Mark", "D-02"), ("Type", "EXT")]),
            door("d3", Some("r2"), &[("Mark", "D-03"), ("Type", "SGL")]),
        ],
    )
}

fn marks(by_room: bool) -> ReportDefinition {
    let mut def = definition(Entity::Doors, by_room);
    def.columns = vec!["Mark".to_string()];
    def.room_columns = vec!["Number".to_string()];
    def
}

fn s(v: &str) -> String {
    v.to_string()
}

#[test]
fn test_distinct_keeps_first_seen_order_and_drops_blanks() {
    let values = [s("B"), String::new(), s("A"), s("B")];
    assert_eq!(distinct(&values), "B, A");
}

#[test]
fn test_only_the_entities_that_carry_an_attribution_join_rooms() {
    assert!(Entity::Ceilings.joins_rooms());
    assert!(Entity::Floors.joins_rooms());
    assert!(Entity::Doors.joins_rooms());
    assert!(Entity::Ffe.joins_rooms());
    assert!(!Entity::Rooms.joins_rooms());
    assert!(!Entity::Spaces.joins_rooms());
}

#[test]
fn test_a_by_room_read_depends_on_rooms_as_well() {
    assert_eq!(Entity::Ceilings.kinds(false), vec![SnapshotKind::Ceilings]);
    assert_eq!(Entity::Ceilings.kinds(true), vec![SnapshotKind::Ceilings, SnapshotKind::Rooms]);
    assert_eq!(Entity::Rooms.kinds(true), vec![SnapshotKind::Rooms]);
}

#[test]
fn test_a_schedule_projects_only_the_requested_columns() {
    let state = state_with(vec![room("r1", "ENTRY", &[("Number", "G01")])], vec![door("d1", Some("r1"), &[("Mark", "D-01")])]);
    let mut def = definition(Entity::Doors, false);
    def.columns = vec![s("Mark"), s("$type_name")];
    let result = run(&state, &def);
    assert_eq!(result.columns.iter().map(|c| c.name.as_str()).collect::<Vec<_>>(), ["Mark", "$type_name"]);
    assert_eq!(result.rows, vec![vec![s("D-01"), s("Single")]]);
}

#[test]
fn test_a_column_the_element_lacks_is_an_empty_cell() {
    let state = state_with(vec![], vec![door("d1", None, &[])]);
    let mut def = definition(Entity::Doors, false);
    def.columns = vec![s("Mark"), s("$id")];
    let result = run(&state, &def);
    assert_eq!(result.rows, vec![vec![String::new(), s("d1")]]);
}

#[test]
fn test_by_room_emits_one_row_per_attribution() {
    let state = state_with(
        vec![room("r1", "ENTRY", &[("Number", "G01")]), room("r2", "KITCHEN", &[("Number", "G02")])],
        vec![door("d1", Some("r1"), &[]), door("d2", Some("r2"), &[])],
    );
    let result = run(&state, &definition(Entity::Doors, true));
    assert_eq!(result.rows, vec![vec![s("G01"), s("d1")], vec![s("G02"), s("d2")]]);
}

#[test]
fn test_an_unattributed_element_rides_with_empty_room_columns() {
    let state = state_with(vec![room("r1", "ENTRY", &[("Number", "G01")])], vec![door("d1", None, &[])]);
    let result = run(&state, &definition(Entity::Doors, true));
    assert_eq!(result.rows, vec![vec![String::new(), s("d1")]]);
    assert_eq!(result.unmatched_rows, 1, "counted, so a reader knows the total includes it");
}

#[test]
fn test_unattributed_elements_can_be_excluded() {
    let state = state_with(vec![room("r1", "ENTRY", &[("Number", "G01")])], vec![door("d1", None, &[])]);
    let mut def = definition(Entity::Doors, true);
    def.include_unattributed = false;
    let result = run(&state, &def);
    assert!(result.rows.is_empty());
    assert_eq!(result.unmatched_rows, 0);
}

#[test]
fn test_rooms_with_no_element_appear_only_when_asked() {
    let state = state_with(
        vec![room("r1", "ENTRY", &[("Number", "G01")]), room("r2", "POOL EX", &[("Number", "G05")])],
        vec![door("d1", Some("r1"), &[])],
    );
    let quiet = run(&state, &definition(Entity::Doors, true));
    assert_eq!(quiet.rows.len(), 1);
    let mut def = definition(Entity::Doors, true);
    def.include_rooms_without = true;
    let loud = run(&state, &def);
    assert_eq!(loud.rows, vec![vec![s("G01"), s("d1")], vec![s("G05"), String::new()]]);
    assert_eq!(loud.unmatched_rows, 1);
}

#[test]
fn test_per_room_groups_and_counts() {
    let state = state_with(
        vec![room("r1", "ENTRY", &[("Number", "G01")])],
        vec![door("d1", Some("r1"), &[("Mark", "D-01")]), door("d2", Some("r1"), &[("Mark", "D-02")])],
    );
    let mut def = definition(Entity::Doors, true);
    def.shape = Shape::PerRoom;
    def.columns = vec![s("Mark")];
    let result = run(&state, &def);
    assert_eq!(result.rows, vec![vec![s("G01"), s("2"), s("D-01, D-02")]]);
}

#[test]
fn test_the_grouped_count_cell_has_a_column_of_its_own() {
    let state = state_with(vec![room("r1", "ENTRY", &[("Number", "G01")])], vec![door("d1", Some("r1"), &[("Mark", "D-01")])]);
    let mut def = definition(Entity::Doors, true);
    def.shape = Shape::PerRoom;
    def.columns = vec![s("Mark")];
    let result = run(&state, &def);
    assert_eq!(result.columns.iter().map(|c| c.name.as_str()).collect::<Vec<_>>(), ["Number", "door count", "Mark"]);
    assert_eq!(result.rows[0].len(), result.columns.len());
}

#[test]
fn test_limit_truncates_rows_but_not_the_total() {
    let state = state_with(
        vec![room("r1", "ENTRY", &[("Number", "G01")])],
        vec![door("d1", Some("r1"), &[]), door("d2", Some("r1"), &[]), door("d3", Some("r1"), &[])],
    );
    let mut def = definition(Entity::Doors, true);
    def.limit = Some(2);
    let result = run(&state, &def);
    assert_eq!(result.rows.len(), 2);
    assert_eq!(result.total_rows, 3);
}

#[test]
fn test_an_entity_never_pushed_is_none() {
    let state = state_with(vec![room("r1", "ENTRY", &[])], vec![]);
    let def = definition(Entity::Windows, false);
    assert!(matches!(build_report(&state, &scope(), &def, &no_geometry()), Ok(None)));
}

#[test]
fn test_by_room_is_refused_for_an_entity_that_carries_no_attribution() {
    let state = state_with(vec![room("r1", "ENTRY", &[])], vec![door("d1", Some("r1"), &[])]);
    let def = definition(Entity::Rooms, true);
    match build_report(&state, &scope(), &def, &no_geometry()) {
        Err(ServiceError::Invalid(m)) => assert!(m.contains("cannot be reported by room"), "{m}"),
        _ => panic!("rooms cannot be reported by room"),
    }
}

#[test]
fn test_a_schedule_filters_row_by_row() {
    let state = two_rooms();
    let rows = filtered(&state, marks(false), group("all", vec![condition(None, "Type", "eq", Some("SGL"), false)]));
    assert_eq!(rows, vec![vec![s("D-01")], vec![s("D-03")]]);
}

#[test]
fn test_text_ignores_case_by_default_and_respects_it_when_asked() {
    let state = two_rooms();
    let folded = filtered(&state, marks(false), group("all", vec![condition(None, "Type", "eq", Some("sgl"), false)]));
    assert_eq!(folded.len(), 2, "sgl finds SGL");
    let exact = filtered(&state, marks(false), group("all", vec![condition(None, "Type", "eq", Some("sgl"), true)]));
    assert!(exact.is_empty(), "with Match case on, sgl is not SGL");
}

#[test]
fn test_a_positive_condition_keeps_the_room_and_narrows_its_rows() {
    let state = two_rooms();
    let rows = filtered(&state, marks(true), group("all", vec![condition(None, "Type", "eq", Some("EXT"), false)]));
    assert_eq!(rows, vec![vec![s("G01"), s("D-02")]]);
}

#[test]
fn test_a_negative_condition_asks_about_the_whole_set() {
    let state = two_rooms();
    let rows = filtered(&state, marks(true), group("all", vec![condition(None, "Type", "ne", Some("EXT"), false)]));
    let numbers: Vec<&String> = rows.iter().map(|r| &r[0]).collect();
    assert!(!numbers.contains(&&s("G01")), "ENTRY is dropped whole for having one: {rows:?}");
    assert!(rows.contains(&vec![s("G02"), s("D-03")]), "KITCHEN keeps its door: {rows:?}");
}

#[test]
fn test_a_negative_condition_pulls_in_rooms_with_no_elements() {
    let state = two_rooms();
    let mut def = marks(true);
    def.include_rooms_without = false;
    let rows = filtered(&state, def, group("all", vec![condition(None, "Type", "ne", Some("EXT"), false)]));
    assert!(rows.contains(&vec![s("G05"), String::new()]), "POOL EX has no door of any type: {rows:?}");
}

#[test]
fn test_a_positive_condition_excludes_rooms_with_none_despite_the_switch() {
    let state = two_rooms();
    let mut def = marks(true);
    def.include_rooms_without = true;
    let rows = filtered(&state, def, group("all", vec![condition(None, "Type", "eq", Some("SGL"), false)]));
    assert!(!rows.iter().any(|r| r[0] == "G05"), "a room with no doors cannot have an SGL one: {rows:?}");
}

#[test]
fn test_room_conditions_and_or_groups() {
    let state = two_rooms();
    let rows = filtered(
        &state,
        marks(true),
        group(
            "any",
            vec![
                condition(Some("room"), "Department", "eq", Some("Living"), false),
                condition(Some("room"), "Number", "eq", Some("G01"), false),
            ],
        ),
    );
    let numbers: Vec<&String> = rows.iter().map(|r| &r[0]).collect();
    assert!(numbers.contains(&&s("G01")) && numbers.contains(&&s("G02")));
    assert!(!numbers.contains(&&s("G05")));
}

#[test]
fn test_blank_is_the_only_operator_an_absent_value_matches() {
    let state = state_with(
        vec![room("r1", "ENTRY", &[("Number", "G01")])],
        vec![door("d1", Some("r1"), &[("Mark", "D-01")]), door("d2", Some("r1"), &[])],
    );
    let def = || {
        let mut d = definition(Entity::Doors, false);
        d.columns = vec![s("$id")];
        d
    };
    let blank = filtered(&state, def(), group("all", vec![condition(None, "Mark", "blank", None, false)]));
    assert_eq!(blank, vec![vec![s("d2")]]);
    let present = filtered(&state, def(), group("all", vec![condition(None, "Mark", "has_value", None, false)]));
    assert_eq!(present, vec![vec![s("d1")]]);
    let negative = filtered(&state, def(), group("all", vec![condition(None, "Mark", "ne", Some("D-01"), false)]));
    assert!(negative.is_empty(), "absent matches nothing but blank: {negative:?}");
}

#[test]
fn test_a_bad_filter_says_what_is_wrong() {
    let parsed = group("all", vec![condition(None, "Mark", "sounds_like", Some("D"), false)]);
    match parsed.parse(&[]) {
        Err(err) => assert!(err.contains("sounds_like"), "{err}"),
        Ok(_) => panic!("unknown operator"),
    }
    let missing = group("all", vec![condition(None, "Mark", "eq", None, false)]);
    match missing.parse(&[]) {
        Err(err) => assert!(err.contains("needs a value"), "{err}"),
        Ok(_) => panic!("a value is required"),
    }
}

#[test]
fn test_the_catalog_offers_what_the_snapshots_actually_carry() {
    let state = state_with(
        vec![room("r1", "ENTRY", &[("Number", "G01"), ("Department", "Circulation")])],
        vec![door("d1", Some("r1"), &[("Mark", "D-01"), ("Fire Rating", "60")])],
    );
    let catalog = column_catalog(&state, Some("p1"), Entity::Doors);
    let names: Vec<&str> = catalog.entity.iter().map(|c| c.name.as_str()).collect();
    assert!(names.contains(&"Mark") && names.contains(&"Fire Rating"), "door properties: {names:?}");
    assert!(!names.contains(&"Department"), "a ROOM property is not a door column: {names:?}");
    assert!(names.contains(&"$to_room"), "intrinsics too: {names:?}");
}

#[test]
fn test_the_room_side_is_offered_only_where_it_means_something() {
    let state = state_with(vec![room("r1", "ENTRY", &[("Number", "G01")])], vec![door("d1", Some("r1"), &[("Mark", "D-01")])]);
    let doors = column_catalog(&state, Some("p1"), Entity::Doors);
    assert!(doors.rooms.iter().any(|c| c.name == "Number"));
    let rooms = column_catalog(&state, Some("p1"), Entity::Rooms);
    assert!(rooms.rooms.is_empty(), "a room schedule has no second side");
}

#[test]
fn test_measures_are_per_entity() {
    let state = state_with(vec![room("r1", "ENTRY", &[])], vec![door("d1", Some("r1"), &[])]);
    let ceilings = column_catalog(&state, Some("p1"), Entity::Ceilings);
    assert!(ceilings.measures.iter().any(|m| m.name == "overlap_area"));
    let doors = column_catalog(&state, Some("p1"), Entity::Doors);
    assert!(doors.measures.is_empty(), "an opening's attribution measures nothing");
}

#[test]
fn test_value_type_reads_revits_storage_type() {
    assert_eq!(value_type(Some("Double")), "number");
    assert_eq!(value_type(Some("Integer")), "number");
    assert_eq!(value_type(Some("String")), "text");
    assert_eq!(value_type(Some("ElementId")), "text");
    assert_eq!(value_type(None), "text");
}

#[test]
fn test_csv_quotes_only_what_needs_it() {
    let result = ReportResult {
        revision: String::new(),
        columns: vec![Column { name: s("Room"), side: s("room") }, Column { name: s("Finding"), side: s("element") }],
        rows: vec![
            vec![s("G01"), s("plain")],
            vec![s("G02"), s("Cardiology, North")],
            vec![s("G03"), s("says \"hello\"")],
        ],
        total_rows: 3,
        unmatched_rows: 0,
    };
    let csv = to_csv(&result);
    let lines: Vec<&str> = csv.split("\r\n").collect();
    assert_eq!(lines[0], "Room,Finding");
    assert_eq!(lines[1], "G01,plain");
    assert_eq!(lines[2], "G02,\"Cardiology, North\"");
    assert_eq!(lines[3], "G03,\"says \"\"hello\"\"\"");
}

#[test]
fn test_entity_names_round_trip_the_wire_spelling() {
    for (name, entity) in [
        ("rooms", Entity::Rooms),
        ("doors", Entity::Doors),
        ("windows", Entity::Windows),
        ("ceilings", Entity::Ceilings),
        ("floors", Entity::Floors),
        ("spaces", Entity::Spaces),
        ("ffe", Entity::Ffe),
    ] {
        assert_eq!(Entity::parse(name), Some(entity));
    }
    assert_eq!(Entity::parse("walls"), None);
}

#[test]
fn test_the_revision_covers_the_rooms_of_a_by_room_report() {
    let mut state = two_rooms();
    let by_room = run(&state, &marks(true)).revision;
    let schedule = run(&state, &marks(false)).revision;
    state.set_snapshot(payload("2026-03-01T00:00:00Z", vec![room("r1", "ENTRY", &[("Number", "G01")])]));
    assert_ne!(run(&state, &marks(true)).revision, by_room, "a rooms push moves a by-room report");
    assert_eq!(run(&state, &marks(false)).revision, schedule, "a schedule of doors does not read rooms");
}

#[test]
fn test_an_item_report_carries_where_its_room_came_from() {
    let mut state = AppState::new(SettingsRegistry {
        projects: vec![ProjectEntry { id: "p1".to_string(), settings: ProjectSettings::new() }],
    });
    state.set_snapshot(payload("2026-02-01T00:00:00Z", vec![room("r1", "ENTRY", &[("Number", "G01")])]));
    let item = Item {
        id: "f1".to_string(),
        level_id: "1".to_string(),
        category: "OST_Furniture".to_string(),
        room: Some("r1".to_string()),
        super_component_id: None,
        type_id: "t1".to_string(),
        type_label: "Desk".to_string(),
        properties: vec![],
        type_properties: vec![],
    };
    state.set_ffe_snapshot(payload("2026-02-01T00:00:00Z", vec![item]));
    let mut def = definition(Entity::Ffe, true);
    def.measures = vec![s("room_origin")];
    let geometry = Geometry {
        door_sides: vec![],
        window_sides: vec![],
        item_rooms: Vec::<DerivedRoom>::new(),
        ceiling_rooms: vec![],
    };
    let result = match build_report(&state, &scope(), &def, &geometry) {
        Ok(Some(r)) => r,
        _ => panic!("data"),
    };
    assert_eq!(
        result.rows,
        vec![vec![s("G01"), s("f1"), s("authored(roomref { model_id: \"m1\", room_id: \"r1\" })")]]
    );
    def.shape = Shape::PerRoom;
    let grouped = match build_report(&state, &scope(), &def, &geometry) {
        Ok(Some(r)) => r,
        _ => panic!("data"),
    };
    assert_eq!(grouped.rows, vec![vec![s("G01"), s("1"), s("f1"), s("authored(roomref { model_id: \"m1\", room_id: \"r1\" })")]]);
}

fn ceiling(id: &str, type_label: &str) -> Ceiling {
    Ceiling {
        id: id.to_string(),
        level_id: "1".to_string(),
        type_id: "ct".to_string(),
        type_label: type_label.to_string(),
        properties: vec![],
        type_properties: vec![],
    }
}

fn over(ceiling: &str, rooms: &[(&str, &str)]) -> DerivedCeilingRooms {
    DerivedCeilingRooms {
        model_id: "m1".to_string(),
        ceiling_id: ceiling.to_string(),
        rooms: rooms
            .iter()
            .map(|(room, area)| CeilingRoom {
                room: RoomRef { model_id: "m1".to_string(), room_id: room.to_string() },
                measures: vec![Field { name: "overlap_area".to_string(), value: area.to_string() }],
            })
            .collect(),
    }
}

fn ceiling_state() -> (AppState, Geometry) {
    let mut state = two_rooms();
    state.set_ceiling_snapshot(payload(
        "2026-02-01T00:00:00Z",
        vec![ceiling("c1", "Plasterboard"), ceiling("c2", "Tile"), ceiling("c3", "Tile")],
    ));
    let geometry = Geometry {
        door_sides: vec![],
        window_sides: vec![],
        item_rooms: vec![],
        ceiling_rooms: vec![over("c1", &[("r1", "40.25"), ("r2", "3.50")]), over("c2", &[("r1", "12.00")]), over("c3", &[])],
    };
    (state, geometry)
}

#[test]
fn a_ceilings_schedule_lists_every_ceiling() {
    let (state, geometry) = ceiling_state();
    let def = definition(Entity::Ceilings, false);
    let result = match build_report(&state, &scope(), &def, &geometry) {
        Ok(Some(r)) => r,
        _ => panic!("ceilings were pushed"),
    };
    assert_eq!(result.rows, vec![vec![s("c1")], vec![s("c2")], vec![s("c3")]]);
}

#[test]
fn a_grouped_ceilings_report_sums_the_overlap_per_room() {
    let (state, geometry) = ceiling_state();
    let mut def = definition(Entity::Ceilings, true);
    def.columns = vec!["$type_name".to_string()];
    def.measures = vec!["overlap_area".to_string()];
    def.shape = Shape::PerRoom;
    def.include_unattributed = true;
    let result = match build_report(&state, &scope(), &def, &geometry) {
        Ok(Some(r)) => r,
        _ => panic!("ceilings were pushed"),
    };
    assert_eq!(
        result.rows,
        vec![
            vec![s("G01"), s("2"), s("Plasterboard, Tile"), s("52.25")],
            vec![s("G02"), s("1"), s("Plasterboard"), s("3.50")],
            vec![s(""), s("1"), s("Tile"), s("0.00")],
        ],
        "a ceiling over no room is its own group, and its blank measure sums to zero"
    );
    assert_eq!(result.unmatched_rows, 1);
}

#[test]
fn a_per_match_ceilings_report_keeps_each_overlap() {
    let (state, geometry) = ceiling_state();
    let mut def = definition(Entity::Ceilings, true);
    def.measures = vec!["overlap_area".to_string()];
    def.include_unattributed = false;
    let result = match build_report(&state, &scope(), &def, &geometry) {
        Ok(Some(r)) => r,
        _ => panic!("ceilings were pushed"),
    };
    assert_eq!(
        result.rows,
        vec![
            vec![s("G01"), s("c1"), s("40.25")],
            vec![s("G02"), s("c1"), s("3.50")],
            vec![s("G01"), s("c2"), s("12.00")],
        ]
    );
}

#[test]
fn a_measure_mixing_words_and_numbers_lists_instead_of_summing() {
    let (state, mut geometry) = ceiling_state();
    geometry.ceiling_rooms[1].rooms[0].measures[0].value = "n/a".to_string();
    let mut def = definition(Entity::Ceilings, true);
    def.columns = vec![];
    def.measures = vec!["overlap_area".to_string()];
    def.shape = Shape::PerRoom;
    def.include_unattributed = false;
    let result = match build_report(&state, &scope(), &def, &geometry) {
        Ok(Some(r)) => r,
        _ => panic!("ceilings were pushed"),
    };
    assert_eq!(result.rows[0], vec![s("G01"), s("2"), s("40.25, n/a")]);
    assert_eq!(result.rows[1], vec![s("G02"), s("1"), s("3.50")]);
}

#[test]
fn negative_and_one_decimal_amounts_sum_exactly() {
    let (state, mut geometry) = ceiling_state();
    geometry.ceiling_rooms[0].rooms[0].measures[0].value = "-0.5".to_string();
    geometry.ceiling_rooms[1].rooms[0].measures[0].value = "0.25".to_string();
    let mut def = definition(Entity::Ceilings, true);
    def.columns = vec![];
    def.measures = vec!["overlap_area".to_string()];
    def.shape = Shape::PerRoom;
    def.include_unattributed = false;
    let result = match build_report(&state, &scope(), &def, &geometry) {
        Ok(Some(r)) => r,
        _ => panic!("ceilings were pushed"),
    };
    assert_eq!(result.rows[0], vec![s("G01"), s("2"), s("-0.25")]);
}

fn fire_rating_state() -> AppState {
    let data = load_reference_from_bytes(b"DoorRef,FireRating\nDoor Mark,FireRating\nD-101,60\n").expect("csv loads");
    let mut settings = ProjectSettings::new();
    settings.reference = vec![ReferenceSource { name: "schedule".to_string(), entity: ReferenceEntity::Doors, data: Some(data) }];
    let mut state = AppState::new(SettingsRegistry { projects: vec![ProjectEntry { id: "p1".to_string(), settings }] });
    state.set_snapshot(payload("2026-02-01T00:00:00Z", vec![room("r1", "ENTRY", &[("Number", "G01")])]));
    state.set_door_snapshot(payload("2026-02-01T00:00:00Z", vec![door("d1", Some("r1"), &[("Door Mark", "D-101")])]));
    state
}

#[test]
fn a_joined_reference_column_projects_the_joined_field() {
    let state = fire_rating_state();
    let mut def = definition(Entity::Doors, false);
    def.columns = vec![s("schedule.FireRating")];
    let result = run(&state, &def);
    assert_eq!(result.rows, vec![vec![s("60")]], "a column resolves as the filter resolves it");

    let mut by_room = definition(Entity::Doors, true);
    by_room.columns = vec![s("schedule.FireRating")];
    assert_eq!(run(&state, &by_room).rows, vec![vec![s("G01"), s("60")]]);
    by_room.shape = Shape::PerRoom;
    assert_eq!(run(&state, &by_room).rows, vec![vec![s("G01"), s("1"), s("60")]]);
}

#[test]
fn a_source_joined_to_rooms_is_not_read_off_a_door() {
    let data = load_reference_from_bytes(b"DoorRef,FireRating\nDoor Mark,FireRating\nD-101,60\n").expect("csv loads");
    let mut settings = ProjectSettings::new();
    settings.reference = vec![ReferenceSource { name: "schedule".to_string(), entity: ReferenceEntity::Rooms, data: Some(data) }];
    let mut state = AppState::new(SettingsRegistry { projects: vec![ProjectEntry { id: "p1".to_string(), settings }] });
    state.set_door_snapshot(payload("2026-02-01T00:00:00Z", vec![door("d1", None, &[("schedule.FireRating", "own")])]));
    let mut def = definition(Entity::Doors, false);
    def.columns = vec![s("schedule.FireRating")];
    assert_eq!(run(&state, &def).rows, vec![vec![s("own")]], "not a door source, so the whole name is the door's own");
}

#[test]
fn a_schedule_leaves_a_blank_under_each_measure() {
    let state = two_rooms();
    let mut def = marks(false);
    def.measures = vec![s("overlap_area")];
    let result = run(&state, &def);
    assert_eq!(result.columns.len(), 2);
    assert_eq!(result.rows[0], vec![s("D-01"), String::new()]);
    assert!(result.rows.iter().all(|row| row.len() == result.columns.len()));
}

#[test]
fn a_grouped_room_with_nothing_leaves_its_count_blank() {
    let state = state_with(
        vec![room("r1", "ENTRY", &[("Number", "G01")]), room("r2", "POOL EX", &[("Number", "G05")])],
        vec![door("d1", Some("r1"), &[("Mark", "D-01")]), door("d9", None, &[("Mark", "D-09")])],
    );
    let mut def = definition(Entity::Doors, true);
    def.shape = Shape::PerRoom;
    def.columns = vec![s("Mark")];
    def.include_rooms_without = true;
    let result = run(&state, &def);
    assert_eq!(
        result.rows,
        vec![
            vec![s("G01"), s("1"), s("D-01")],
            vec![String::new(), s("1"), s("D-09")],
            vec![s("G05"), String::new(), String::new()],
        ]
    );
    assert!(result.rows.iter().all(|row| row.len() == result.columns.len()), "one cell per header");
}

#[test]
fn every_row_is_as_wide_as_the_header() {
    let state = state_with(
        vec![room("r1", "ENTRY", &[("Number", "G01")]), room("r2", "POOL EX", &[("Number", "G05")])],
        vec![door("d1", Some("r1"), &[("Mark", "D-01")]), door("d9", None, &[])],
    );
    for by_room in [false, true] {
        for shape in [Shape::PerMatch, Shape::PerRoom] {
            let mut def = definition(Entity::Doors, by_room);
            def.shape = shape;
            def.columns = vec![s("Mark"), s("$id")];
            def.measures = vec![s("overlap_area")];
            def.include_rooms_without = true;
            let result = run(&state, &def);
            assert!(!result.rows.is_empty());
            assert!(result.rows.iter().all(|row| row.len() == result.columns.len()));
        }
    }
}

#[test]
fn a_limit_changes_how_many_rows_not_which() {
    let state = state_with(
        vec![room("r1", "ENTRY", &[("Number", "G01")])],
        vec![door("d1", Some("r1"), &[]), door("d2", Some("r1"), &[]), door("d3", Some("r1"), &[])],
    );
    let def = definition(Entity::Doors, true);
    let all = run(&state, &def);
    let mut capped = definition(Entity::Doors, true);
    capped.limit = Some(2);
    let some = run(&state, &capped);
    assert_eq!(some.rows, all.rows[..2].to_vec());
    assert_eq!(some.total_rows, all.rows.len());
    let names = |r: &ReportResult| r.columns.iter().map(|c| (c.name.clone(), c.side.clone())).collect::<Vec<_>>();
    assert_eq!(names(&some), names(&all));
}

#[test]
fn filter_errors_read_as_the_service_writes_them() {
    let side = FilterWire::Condition {
        side: Some(s("roof")),
        field: s("Mark"),
        op: s("eq"),
        value: Some(s("x")),
        value2: None,
        case_sensitive: false,
    };
    assert_eq!(side.parse(&[]).err().expect("bad side"), "unknown filter side \"roof\" \u{2014} expected room, element or join");
    let missing = condition(None, "Mark", "eq", None, false);
    assert_eq!(missing.parse(&[]).err().expect("no value"), "filter on \"Mark\": Eq needs a value");
    let quoted = condition(None, "Say \"hi\"", "starts_with", Some(" "), false);
    assert_eq!(quoted.parse(&[]).err().expect("no value"), "filter on \"Say \\\"hi\\\"\": StartsWith needs a value");
    let unknown = condition(None, "drofus.NetArea", "eq", Some("1"), false);
    let known = [s("zeta"), s("alpha"), s("zeta")];
    assert_eq!(
        unknown.parse(&known).err().expect("unknown source"),
        "filter field \"drofus.NetArea\": \"drofus\" is not a known data source \u{2014} known: alpha, zeta"
    );
    let mode = group("some", vec![]);
    assert_eq!(mode.parse(&[]).err().expect("bad mode"), "unknown filter mode \"some\" \u{2014} expected all or any");
}

#[test]
fn a_group_reports_its_first_bad_item() {
    let wire = group(
        "all",
        vec![
            condition(None, "Mark", "eq", Some("D-01"), false),
            condition(None, "Mark", "sounds_like", Some("D"), false),
            condition(None, "Type", "eq", None, false),
        ],
    );
    let err = wire.parse(&[]).err().expect("two bad items");
    assert!(err.contains("sounds_like"), "{err}");
    assert!(err.starts_with("unknown filter operator \"sounds_like\" \u{2014}"), "{err}");
}
