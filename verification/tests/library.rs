use roommate::comparison::values_agree;
use roommate::cursor::cursor;
use roommate::decimal::numeric_match;
use roommate::areas::{excluded_depth, is_group_excluded, is_room_excluded, path_eq};
use roommate::filter::RoomFilter;
use roommate::reference::{load_reference, load_reference_from_bytes};
use roommate::settings::{HierarchyExclusion, TierValue};
use roommate::ServiceError;

fn tier(tier: &str, code: Option<&str>, name: Option<&str>) -> TierValue {
    TierValue { tier: tier.to_string(), code: code.map(str::to_string), name: name.map(str::to_string), undefined: false }
}

fn rows(data: &[&[&str]]) -> Vec<Vec<String>> {
    data.iter().map(|r| r.iter().map(|c| c.to_string()).collect()).collect()
}

#[test]
fn test_a_cursor_does_not_depend_on_the_order_rows_are_read_in() {
    let a = cursor(rows(&[&["p1", "m1", "t1"], &["p1", "m2", "t2"], &["p2", "m1", "t3"]]));
    let b = cursor(rows(&[&["p2", "m1", "t3"], &["p1", "m1", "t1"], &["p1", "m2", "t2"]]));
    assert_eq!(a, b);
    assert_eq!(a.len(), 16);
    assert!(a.chars().all(|c| c.is_ascii_hexdigit() && !c.is_ascii_uppercase()));
    let c = cursor(rows(&[&["p1", "m1", "t1"], &["p1", "m2", "t9"], &["p2", "m1", "t3"]]));
    assert_ne!(a, c, "a different snapshot is different content");
}

#[test]
fn test_numbers_match_whatever_their_spelling() {
    assert_eq!(numeric_match("10", "10.0"), Some(true));
    assert_eq!(numeric_match(" 25.50 ", "25.5"), Some(true));
    assert_eq!(numeric_match("-0", "0"), Some(true));
    assert_eq!(numeric_match("+3", "3.000"), Some(true));
    assert_eq!(numeric_match("10", "10.01"), Some(false));
    assert_eq!(numeric_match("ten", "10"), None);
    assert_eq!(numeric_match("1.2.3", "1.2"), None);
}

#[test]
fn test_agreement_is_symmetric_and_reflexive() {
    for (a, b) in [("10", "10.0"), (" x", "x "), ("A", "a"), ("1", "2"), ("", " ")] {
        assert_eq!(values_agree(a, b), values_agree(b, a), "{a:?} {b:?}");
        assert!(values_agree(a, a));
    }
    assert!(!values_agree("A", "a"), "text agreement is exact once trimmed");
}

#[test]
fn test_a_query_filter_parses_one_comparison() {
    assert!(RoomFilter::parse_query("Mark=29", &[]).is_ok());
    assert!(RoomFilter::parse_query("Area>=10", &[]).is_ok());
    assert!(RoomFilter::parse_query("$to_room!=r2", &[]).is_ok());
    assert!(RoomFilter::parse_query("no operator here", &[]).is_err());
}

#[test]
fn test_exclusions_withhold_rooms_and_groups() {
    let exclusions = vec![
        HierarchyExclusion::Rooms { ids: vec!["r7".to_string()] },
        HierarchyExclusion::Group { tier: "Department".to_string(), value: "PLANT".to_string() },
    ];
    assert!(is_room_excluded("r7", &exclusions));
    assert!(!is_room_excluded("r8", &exclusions));

    let plant = vec![tier("Building", Some("B1"), None), tier("Department", Some("PLANT"), Some("Plant Room"))];
    let named = vec![tier("Building", Some("B1"), None), tier("Department", None, Some("PLANT"))];
    let other = vec![tier("Building", Some("B1"), None), tier("Department", Some("ADMIN"), None)];
    assert!(is_group_excluded(&plant, &exclusions), "by code");
    assert!(is_group_excluded(&named, &exclusions), "by name");
    assert!(!is_group_excluded(&other, &exclusions));
    assert!(!is_group_excluded(&[], &exclusions), "an empty path names no group");
    assert!(!is_group_excluded(&plant[..1], &exclusions), "the building is not the department");

    assert_eq!(excluded_depth(&plant, &exclusions), Some(1));
    assert_eq!(excluded_depth(&other, &exclusions), None);
}

#[test]
fn test_paths_match_by_resolved_values() {
    let a = vec![tier("Building", Some("B1"), Some("North")), tier("Department", Some("D"), None)];
    let b = vec![tier("Other label", Some("B1"), Some("North")), tier("Whatever", Some("D"), None)];
    let c = vec![tier("Building", Some("B1"), Some("South")), tier("Department", Some("D"), None)];
    assert!(path_eq(&a, &b), "tier labels are positional");
    assert!(!path_eq(&a, &c));
    assert!(!path_eq(&a, &a[..1]));
}

#[test]
fn test_a_reference_file_is_labels_then_link_then_records() {
    let data = load_reference("DrofusRoomId,NetArea,Dept\nNumber,NetArea,Dept\n101,20,Admin\n102,25,Lab\n").expect("loads");
    assert_eq!(data.link_property, "Number");
    assert_eq!(data.all_labels, vec!["NetArea".to_string(), "Dept".to_string()]);
    assert_eq!(data.by_id.len(), 2);
    assert!(load_reference_from_bytes(&[0xff, 0xfe]).is_err(), "not text");
}

#[test]
fn test_an_error_says_what_kind_it_is() {
    assert_eq!(ServiceError::Invalid("bad".to_string()).message(), "invalid request: bad");
    assert_eq!(ServiceError::Internal("disk".to_string()).message(), "internal error: disk");
}
