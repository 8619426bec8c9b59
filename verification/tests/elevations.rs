use roommate::contract::Level;
use roommate::elevations::elevations_of;

fn level(id: &str, elevation_um: i64) -> Level {
    Level { id: id.to_string(), name: format!("Level {id}"), elevation_um }
}

fn lookup(table: &[((String, String), i64)], model: &str, id: &str) -> Option<i64> {
    table.iter().find(|((m, l), _)| m == model && l == id).map(|(_, e)| *e)
}

#[test]
fn a_models_rooms_decide_its_levels_and_envelopes_fill_the_rest() {
    let rooms = vec![
        ("m1".to_string(), vec![level("1", 0), level("2", 3_000_000)]),
        ("m1".to_string(), vec![level("2", 3_500_000)]),
    ];
    let envelopes = vec![
        ("m1".to_string(), vec![level("2", 9), level("3", 7_000_000)]),
        ("m2".to_string(), vec![level("1", 100), level("1", 200)]),
        ("m2".to_string(), vec![level("1", 300)]),
    ];
    let table = elevations_of(&rooms, &envelopes);
    assert_eq!(table.len(), 4, "each level once");
    assert_eq!(lookup(&table, "m1", "1"), Some(0));
    assert_eq!(lookup(&table, "m1", "2"), Some(3_500_000), "a later rooms payload restates the level");
    assert_eq!(lookup(&table, "m1", "3"), Some(7_000_000), "an envelope fills a level the rooms left out");
    assert_eq!(lookup(&table, "m2", "1"), Some(100), "the first envelope statement stands");
    assert_eq!(lookup(&table, "m2", "2"), None);
}

#[test]
fn level_ids_are_per_model() {
    let rooms = vec![("a".to_string(), vec![level("L1", 0)]), ("b".to_string(), vec![level("L1", 4_000_000)])];
    let table = elevations_of(&rooms, &[]);
    assert_eq!(lookup(&table, "a", "L1"), Some(0));
    assert_eq!(lookup(&table, "b", "L1"), Some(4_000_000));
}
