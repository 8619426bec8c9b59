use roommate::areas::{area_group_plan, ClassifiedRoom, PlannedAreaGroup};
use roommate::records::Room;
use roommate::settings::{HierarchyExclusion, TierValue};

fn tv(tier: &str, name: &str) -> TierValue {
    TierValue { tier: tier.to_string(), code: None, name: Some(name.to_string()), undefined: false }
}

fn undef(tier: &str) -> TierValue {
    TierValue { tier: tier.to_string(), code: None, name: None, undefined: true }
}

fn room(id: &str, level: &str) -> Room {
    Room { id: id.to_string(), name: id.to_string(), level_id: level.to_string(), building: None, properties: vec![] }
}

fn names(path: &[TierValue]) -> Vec<String> {
    path.iter().map(|t| t.name.clone().unwrap_or_else(|| "?".to_string())).collect()
}

fn find<'a>(plan: &'a [PlannedAreaGroup], level: &str, path: &[&str]) -> &'a PlannedAreaGroup {
    plan.iter()
        .find(|g| g.level_id == level && names(&g.path) == path.iter().map(|s| s.to_string()).collect::<Vec<_>>())
        .unwrap_or_else(|| panic!("no group {path:?} on {level}"))
}

#[test]
fn plan_two_tiers_bottom_first_then_building() {
    let rs = vec![room("a1", "L1"), room("a2", "L1"), room("b1", "L1")];
    let pa = vec![tv("Building", "B1"), tv("Dept", "A")];
    let pb = vec![tv("Building", "B1"), tv("Dept", "B")];
    let cls = vec![
        ClassifiedRoom { room: &rs[0], path: &pa },
        ClassifiedRoom { room: &rs[1], path: &pa },
        ClassifiedRoom { room: &rs[2], path: &pb },
    ];
    let plan = area_group_plan(&cls, &[]);
    assert_eq!(plan.len(), 3);
    assert_eq!(names(&plan[0].path), vec!["B1", "A"]);
    assert_eq!(plan[0].members, vec![0, 1]);
    assert_eq!(names(&plan[1].path), vec!["B1", "B"]);
    assert_eq!(plan[1].members, vec![2]);
    assert_eq!(names(&plan[2].path), vec!["B1"]);
    assert_eq!(plan[2].members, vec![0, 1, 2]);
    assert!(plan.iter().all(|g| g.counted_upward && g.level_id == "L1"));
}

#[test]
fn plan_levels_are_independent_in_first_seen_order() {
    let rs = vec![room("l2", "L2"), room("l1", "L1")];
    let path = vec![tv("Building", "B1"), tv("Dept", "A")];
    let cls = vec![ClassifiedRoom { room: &rs[0], path: &path }, ClassifiedRoom { room: &rs[1], path: &path }];
    let plan = area_group_plan(&cls, &[]);
    assert_eq!(plan.len(), 4);
    assert_eq!(plan[0].level_id, "L2");
    assert_eq!(plan[1].level_id, "L2");
    assert_eq!(plan[2].level_id, "L1");
    assert_eq!(find(&plan, "L2", &["B1"]).members, vec![0]);
    assert_eq!(find(&plan, "L1", &["B1"]).members, vec![1]);
}

#[test]
fn plan_undefined_bucket_is_a_group_of_its_own() {
    let rs = vec![room("known", "L1"), room("unk", "L1")];
    let pk = vec![tv("Building", "B1"), tv("Dept", "A")];
    let pu = vec![tv("Building", "B1"), undef("Dept")];
    let cls = vec![ClassifiedRoom { room: &rs[0], path: &pk }, ClassifiedRoom { room: &rs[1], path: &pu }];
    let plan = area_group_plan(&cls, &[]);
    assert_eq!(find(&plan, "L1", &["B1", "?"]).members, vec![1]);
    assert_eq!(find(&plan, "L1", &["B1"]).members, vec![0, 1]);
}

#[test]
fn plan_without_hierarchy_has_no_groups() {
    let rs = vec![room("r", "L1")];
    let cls = vec![ClassifiedRoom { room: &rs[0], path: &[] }];
    assert!(area_group_plan(&cls, &[]).is_empty());
}

#[test]
fn plan_excluded_group_stays_but_leaves_its_parent() {
    let rs = vec![room("i1", "L1"), room("o1", "L1")];
    let pin = vec![tv("Building", "B1"), tv("Dept", "Inside")];
    let pout = vec![tv("Building", "B1"), tv("Dept", "Outdoor")];
    let cls = vec![ClassifiedRoom { room: &rs[0], path: &pin }, ClassifiedRoom { room: &rs[1], path: &pout }];
    let excl = vec![HierarchyExclusion::Group { tier: "Dept".to_string(), value: "Outdoor".to_string() }];
    let plan = area_group_plan(&cls, &excl);
    assert_eq!(find(&plan, "L1", &["B1"]).members, vec![0]);
    let outdoor = find(&plan, "L1", &["B1", "Outdoor"]);
    assert_eq!(outdoor.members, vec![1]);
    assert!(!outdoor.counted_upward);
    assert!(find(&plan, "L1", &["B1", "Inside"]).counted_upward);
}

#[test]
fn plan_excluded_rooms_leave_every_tier() {
    let rs = vec![room("keep", "L1"), room("drop", "L1")];
    let path = vec![tv("Building", "B1"), tv("Dept", "A")];
    let cls = vec![ClassifiedRoom { room: &rs[0], path: &path }, ClassifiedRoom { room: &rs[1], path: &path }];
    let excl = vec![HierarchyExclusion::Rooms { ids: vec!["drop".to_string()] }];
    let plan = area_group_plan(&cls, &excl);
    assert_eq!(plan.len(), 2);
    assert_eq!(find(&plan, "L1", &["B1", "A"]).members, vec![0]);
    assert_eq!(find(&plan, "L1", &["B1"]).members, vec![0]);
}

#[test]
fn plan_middle_tier_exclusion_keeps_its_subtree_below() {
    let rs = vec![room("i", "L1"), room("o", "L1")];
    let pi = vec![tv("Building", "B1"), tv("Dept", "Inside"), tv("Sub", "S1")];
    let po = vec![tv("Building", "B1"), tv("Dept", "Outdoor"), tv("Sub", "S2")];
    let cls = vec![ClassifiedRoom { room: &rs[0], path: &pi }, ClassifiedRoom { room: &rs[1], path: &po }];
    let excl = vec![HierarchyExclusion::Group { tier: "Dept".to_string(), value: "Outdoor".to_string() }];
    let plan = area_group_plan(&cls, &excl);
    assert_eq!(plan.len(), 5);
    assert_eq!(find(&plan, "L1", &["B1"]).members, vec![0]);
    assert_eq!(find(&plan, "L1", &["B1", "Outdoor"]).members, vec![1]);
    assert_eq!(find(&plan, "L1", &["B1", "Outdoor", "S2"]).members, vec![1]);
    assert!(find(&plan, "L1", &["B1", "Outdoor", "S2"]).counted_upward);
}

#[test]
fn plan_rooms_short_of_the_full_depth_form_no_group() {
    let rs = vec![room("deep", "L1"), room("shallow", "L1")];
    let deep = vec![tv("Building", "B1"), tv("Dept", "A")];
    let shallow = vec![tv("Building", "B1")];
    let cls = vec![ClassifiedRoom { room: &rs[0], path: &deep }, ClassifiedRoom { room: &rs[1], path: &shallow }];
    let plan = area_group_plan(&cls, &[]);
    assert_eq!(plan.len(), 2);
    assert_eq!(find(&plan, "L1", &["B1"]).members, vec![0]);
}
