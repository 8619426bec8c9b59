//! What holds of the library across calls and for every input: a read gives
//! back what a push wrote, a push leaves everything else alone, a read is
//! planned only from registered projects in scope, and the rules a filter, a
//! comparison and a report name obey.
use vstd::prelude::*;
use crate::attribution::{owned_in, same_model_ids, DerivedSidesV, RoomBuildingV};
use crate::filter::RoomFilter;
use crate::openings::{opening_sources_of, policy_of, scoped_openings, snapshot_openings, OpeningKind, OpeningResponseV};
use crate::items::{ffe_policy_of, item_sources_of, scoped_excluded, scoped_items, snapshot_excluded, snapshot_items, ItemResponseV};
use crate::attribution::DerivedRoomV;
use crate::records::{ItemV, OpeningV};
use crate::settings::{opt_seq, owners_of, FfePolicy, NestedComponents, RoomResolution};
use crate::state::AppState;
use crate::areas::{area_plan, lemma_plan_over_belongs, members_belong, ClassifiedRoomV};
use crate::ceilings::{covered, hits, lemma_by_room_agrees, room_key, room_refs, CeilingResponseV};
use crate::comparison::{
    changed_of, compare_of, comparisons_of, diff_acc, diff_room_of, duplicates_in, duplicates_of, has_value, index_keys, index_of_rooms,
    key_values, keyed_rooms, keys_missing_from, milestone_comparison_of, milestone_rooms_of, paired, room_source_names, singles, values_agree_of,
    with_key, ChangedRoomV, DuplicateKeyValueV, MilestoneComparisonV,
};
use crate::order::lemma_sorted_of;
use crate::text::{lemma_text_lt_total, text_lt};
use crate::contract::{kind_label, FieldV, LocatedV, Presence, RoomRefV, SnapshotKind};
use crate::decimal::numeric_match_of;
use crate::filter::{holds, Op, PredicateV};
use crate::placement::{anchor_of, declared, lemma_anchor_exists, lemma_reframes_member, lowest_in, moves, preferred_of, reframes_of, PlacedModelV, ReframeV};
use crate::keyed::{first_where, lemma_first_where, lemma_first_where_at};
use crate::records::PayloadV;
use crate::reports::{
    distinct_names, attr_rows, def_columns, lonely_rooms, per_match_of, per_room_of, report_rows, schedule_of, shown_of, unattributed_groups,
    AttributionV, ElementV, MemberV, SourcesV,
    entity_kind, entity_named, filter_has, filtering, first_seen, limited, lonely_listed, negative, positive, survives, Condition,
    Entity, ReportDefinition, ReportFilter, Side,
};
use crate::rooms::{resolved_of, RoomResponseV};
use crate::scope::{kind_rows, origin_room, plan_of, plan_row, read_of, scope_rows, side_origin_of, PlannedReadV, ScopedV, SideOriginV};
use crate::cursor::cursor_of;
use crate::settings::{settings_of, HierarchyExclusionV, ProjectEntryV};
use crate::state::{
    indexed_after, is_kind, is_model, is_snapshot, is_upload, latest_in, snapshot_in, stored_after, upload_in, uploaded_after,
    with_latest, ModelIndexRowV, ReferenceUploadV,
};

verus! {

/// A pushed snapshot is what a read of its model and id gives back.
pub proof fn law_read_after_push<V>(history: Seq<PayloadV<V>>, p: PayloadV<V>)
    ensures
        snapshot_in(stored_after(history, p), p.project.id, p.model.id, p.taken_at) == Some(p),
{
    let f = is_snapshot::<V>(p.project.id, p.model.id, p.taken_at);
    let after = stored_after(history, p);
    let i = first_where(history, f);
    lemma_first_where(history, f);
    if i < 0 {
        assert forall|j: int| 0 <= j < history.len() implies !f(#[trigger] after[j]) by {
            assert(after[j] == history[j]);
        }
        lemma_first_where_at(after, f, history.len() as int);
    } else {
        assert forall|j: int| 0 <= j < i implies !f(#[trigger] after[j]) by {
            assert(after[j] == history[j]);
        }
        lemma_first_where_at(after, f, i);
    }
}

/// A push leaves every other snapshot of the kind where it was.
pub proof fn law_push_leaves_other_snapshots<V>(
    history: Seq<PayloadV<V>>,
    p: PayloadV<V>,
    project: Seq<char>,
    model: Seq<char>,
    taken_at: Seq<char>,
)
    requires
        project != p.project.id || model != p.model.id || taken_at != p.taken_at,
    ensures
        snapshot_in(stored_after(history, p), project, model, taken_at) == snapshot_in(history, project, model, taken_at),
{
    let f = is_snapshot::<V>(p.project.id, p.model.id, p.taken_at);
    let g = is_snapshot::<V>(project, model, taken_at);
    let after = stored_after(history, p);
    let i = first_where(history, f);
    lemma_first_where(history, f);
    lemma_first_where(history, g);
    let k = first_where(history, g);
    assert(!g(p));
    if i < 0 {
        if k < 0 {
            assert forall|j: int| 0 <= j < after.len() implies !g(#[trigger] after[j]) by {
                if j < history.len() {
                    assert(after[j] == history[j]);
                }
            }
            lemma_first_where_at(after, g, after.len() as int);
        } else {
            assert forall|j: int| 0 <= j < k implies !g(#[trigger] after[j]) by {
                assert(after[j] == history[j]);
            }
            assert(after[k] == history[k]);
            lemma_first_where_at(after, g, k);
        }
    } else {
        assert(f(history[i]));
        if k < 0 {
            assert forall|j: int| 0 <= j < after.len() implies !g(#[trigger] after[j]) by {
                if j != i {
                    assert(after[j] == history[j]);
                }
            }
            lemma_first_where_at(after, g, after.len() as int);
        } else {
            assert(k != i);
            assert forall|j: int| 0 <= j < k implies !g(#[trigger] after[j]) by {
                if j != i {
                    assert(after[j] == history[j]);
                }
            }
            assert(after[k] == history[k]);
            lemma_first_where_at(after, g, k);
        }
    }
}

/// Pushing the same snapshot again changes nothing.
pub proof fn law_repush_is_idempotent<V>(history: Seq<PayloadV<V>>, p: PayloadV<V>)
    ensures
        stored_after(stored_after(history, p), p) == stored_after(history, p),
{
    let f = is_snapshot::<V>(p.project.id, p.model.id, p.taken_at);
    let once = stored_after(history, p);
    law_read_after_push(history, p);
    let i = first_where(once, f);
    lemma_first_where(once, f);
    assert(once[i] == p);
    assert(once.update(i, p) =~= once);
}

/// After a push, its model's row names the pushed id as the latest of its
/// kind; every other row is as it was.
pub proof fn law_push_sets_latest(
    index: Seq<ModelIndexRowV>,
    project: Seq<char>,
    model: Seq<char>,
    project_name: Seq<char>,
    model_name: Seq<char>,
    kind: SnapshotKind,
    id: Seq<char>,
)
    ensures
        ({
            let after = indexed_after(index, project, model, project_name, model_name, kind, id);
            let i = first_where(after, is_model(project, model));
            &&& 0 <= i < after.len()
            &&& latest_in(after[i].latest, kind) == Some(id)
            &&& forall|j: int|
                0 <= j < index.len() && !is_model(project, model)(index[j]) ==> #[trigger] after[j] == index[j]
        }),
{
    let m = is_model(project, model);
    let after = indexed_after(index, project, model, project_name, model_name, kind, id);
    let i = first_where(index, m);
    lemma_first_where(index, m);
    if i < 0 {
        assert forall|j: int| 0 <= j < index.len() implies !m(#[trigger] after[j]) by {
            assert(after[j] == index[j]);
        }
        lemma_first_where_at(after, m, index.len() as int);
        let row = after[index.len() as int];
        assert(row.latest == seq![crate::state::KindIdV { kind, id }]);
        lemma_first_where_at(row.latest, is_kind(kind), 0);
    } else {
        assert forall|j: int| 0 <= j < i implies !m(#[trigger] after[j]) by {
            assert(after[j] == index[j]);
        }
        lemma_first_where_at(after, m, i);
        law_with_latest_names(index[i].latest, kind, id);
    }
}

/// Setting a kind's latest makes it name that id.
proof fn law_with_latest_names(latest: Seq<crate::state::KindIdV>, kind: SnapshotKind, id: Seq<char>)
    ensures
        latest_in(with_latest(latest, kind, id), kind) == Some(id),
{
    let f = is_kind(kind);
    let after = with_latest(latest, kind, id);
    let i = first_where(latest, f);
    lemma_first_where(latest, f);
    if i < 0 {
        assert forall|j: int| 0 <= j < latest.len() implies !f(#[trigger] after[j]) by {
            assert(after[j] == latest[j]);
        }
        lemma_first_where_at(after, f, latest.len() as int);
    } else {
        assert forall|j: int| 0 <= j < i implies !f(#[trigger] after[j]) by {
            assert(after[j] == latest[j]);
        }
        lemma_first_where_at(after, f, i);
    }
}

/// Every planned read is of a registered project, inside the project scope,
/// of a model holding a snapshot of the kind; without a milestone it names
/// that model's latest.
pub proof fn law_plan_stays_in_scope(
    index: Seq<ModelIndexRowV>,
    projects: Seq<ProjectEntryV>,
    kind: SnapshotKind,
    project: Option<Seq<char>>,
    milestone: Option<Seq<char>>,
)
    ensures
        forall|j: int|
            0 <= j < plan_of(index, projects, kind, project, milestone).len() ==> {
                let pr = #[trigger] plan_of(index, projects, kind, project, milestone)[j];
                &&& settings_of(projects, pr.key.project_id) is Some
                &&& (project is Some ==> pr.key.project_id == project.unwrap())
                &&& exists|i: int|
                    0 <= i < index.len() && index[i].key == pr.key && (#[trigger] latest_in(index[i].latest, kind)) is Some
                        && (milestone is None ==> latest_in(index[i].latest, kind) == Some(pr.id))
            },
    decreases index.len(),
{
    if index.len() > 0 {
        let rest = index.drop_last();
        law_plan_stays_in_scope(rest, projects, kind, project, milestone);
        let plan = plan_of(index, projects, kind, project, milestone);
        let before = plan_of(rest, projects, kind, project, milestone);
        assert forall|j: int| 0 <= j < plan.len() implies {
            let pr = #[trigger] plan[j];
            &&& settings_of(projects, pr.key.project_id) is Some
            &&& (project is Some ==> pr.key.project_id == project.unwrap())
            &&& exists|i: int|
                0 <= i < index.len() && index[i].key == pr.key && (#[trigger] latest_in(index[i].latest, kind)) is Some
                    && (milestone is None ==> latest_in(index[i].latest, kind) == Some(pr.id))
        } by {
            if j < before.len() {
                let pr = before[j];
                assert(plan[j] == pr);
                let i = choose|i: int|
                    0 <= i < rest.len() && rest[i].key == pr.key && (#[trigger] latest_in(rest[i].latest, kind)) is Some
                        && (milestone is None ==> latest_in(rest[i].latest, kind) == Some(pr.id));
                assert(index[i] == rest[i]);
            } else {
                let last = index.len() - 1;
                assert(index[last] == index.last());
                assert(plan_row(index.last(), projects, kind, project, milestone) == Some(plan[j]));
                assert(latest_in(index[last].latest, kind) is Some);
            }
        }
    }
}

/// A push to a registered project is served by the next read of its kind
/// without a milestone, in any scope that includes the project.
pub proof fn law_pushed_snapshot_is_read<V>(
    index: Seq<ModelIndexRowV>,
    history: Seq<PayloadV<V>>,
    projects: Seq<ProjectEntryV>,
    kind: SnapshotKind,
    p: PayloadV<V>,
    scope: Option<Seq<char>>,
)
    requires
        settings_of(projects, p.project.id) is Some,
        scope is None || scope == Some(p.project.id),
    ensures
        read_of(
            stored_after(history, p),
            plan_of(indexed_after(index, p.project.id, p.model.id, p.project.name, p.model.name, kind, p.taken_at), projects, kind, scope, None),
        ).contains(ScopedV { key: crate::contract::ModelKeyV { project_id: p.project.id, model_id: p.model.id }, payload: p }),
{
    let after = indexed_after(index, p.project.id, p.model.id, p.project.name, p.model.name, kind, p.taken_at);
    law_push_sets_latest(index, p.project.id, p.model.id, p.project.name, p.model.name, kind, p.taken_at);
    let i = first_where(after, is_model(p.project.id, p.model.id));
    lemma_first_where(after, is_model(p.project.id, p.model.id));
    let row = after[i];
    let pr = PlannedReadV { key: row.key, id: p.taken_at };
    assert(plan_row(row, projects, kind, scope, None) == Some(pr));
    lemma_plan_holds(after, projects, kind, scope, None, i);
    law_read_after_push(history, p);
    lemma_read_holds(stored_after(history, p), plan_of(after, projects, kind, scope, None), pr);
    assert(row.key == crate::contract::ModelKeyV { project_id: p.project.id, model_id: p.model.id });
}

/// A row's contribution is in the plan.
proof fn lemma_plan_holds(
    index: Seq<ModelIndexRowV>,
    projects: Seq<ProjectEntryV>,
    kind: SnapshotKind,
    project: Option<Seq<char>>,
    milestone: Option<Seq<char>>,
    i: int,
)
    requires
        0 <= i < index.len(),
        plan_row(index[i], projects, kind, project, milestone) is Some,
    ensures
        plan_of(index, projects, kind, project, milestone).contains(plan_row(index[i], projects, kind, project, milestone).unwrap()),
    decreases index.len(),
{
    let plan = plan_of(index, projects, kind, project, milestone);
    let want = plan_row(index[i], projects, kind, project, milestone).unwrap();
    if i == index.len() - 1 {
        assert(index[i] == index.last());
        assert(plan.last() == want);
        assert(plan[plan.len() - 1] == want);
    } else {
        let rest = index.drop_last();
        assert(rest[i] == index[i]);
        lemma_plan_holds(rest, projects, kind, project, milestone, i);
        let before = plan_of(rest, projects, kind, project, milestone);
        let k = choose|k: int| 0 <= k < before.len() && before[k] == want;
        assert(plan[k] == want);
    }
}

/// A planned read whose snapshot is stored is in what the read serves.
proof fn lemma_read_holds<V>(history: Seq<PayloadV<V>>, plan: Seq<PlannedReadV>, pr: PlannedReadV)
    requires
        plan.contains(pr),
        snapshot_in(history, pr.key.project_id, pr.key.model_id, pr.id) is Some,
    ensures
        read_of(history, plan).contains(
            ScopedV { key: pr.key, payload: snapshot_in(history, pr.key.project_id, pr.key.model_id, pr.id).unwrap() },
        ),
    decreases plan.len(),
{
    let want = ScopedV { key: pr.key, payload: snapshot_in(history, pr.key.project_id, pr.key.model_id, pr.id).unwrap() };
    let out = read_of(history, plan);
    if plan.last() == pr {
        assert(out.last() == want);
        assert(out[out.len() - 1] == want);
    } else {
        let rest = plan.drop_last();
        let k = choose|k: int| 0 <= k < plan.len() && plan[k] == pr;
        assert(k < plan.len() - 1);
        assert(rest[k] == pr);
        lemma_read_holds(history, rest, pr);
        let before = read_of(history, rest);
        let m = choose|m: int| 0 <= m < before.len() && before[m] == want;
        assert(out[m] == want);
    }
}

/// What the model states always wins: geometry decides only a side the model
/// left absent.
pub proof fn law_authored_wins(room_id: Seq<char>, model_id: Seq<char>, derived: LocatedV)
    ensures
        side_origin_of(Some(room_id), model_id, derived) == SideOriginV::Authored(RoomRefV { model_id, room_id }),
        side_origin_of(None, model_id, derived) == match derived {
            LocatedV::Found(r) => SideOriginV::Derived(r),
            LocatedV::Unresolved(why) => SideOriginV::Unresolved(why),
        },
{
}

/// Two values agree the same way round either way, and a value agrees with
/// itself.
pub proof fn law_agreement_is_symmetric_and_reflexive(a: Seq<char>, b: Seq<char>)
    ensures
        values_agree_of(a, b) == values_agree_of(b, a),
        values_agree_of(a, a),
{
    assert(numeric_match_of(a, b) matches Some(x) ==> numeric_match_of(b, a) == Some(x));
}

/// A room compared with itself has not changed, whatever is compared.
pub proof fn law_room_unchanged_against_itself(
    key: Seq<char>,
    room: RoomResponseV,
    props: Seq<Seq<char>>,
    known: Seq<Seq<char>>,
)
    ensures
        diff_room_of(key, room, room, props, known) is None,
{
    lemma_self_diff_empty(room, props, known);
}

proof fn lemma_self_diff_empty(room: RoomResponseV, props: Seq<Seq<char>>, known: Seq<Seq<char>>)
    ensures
        diff_acc(room, room, props, known) == (
            Seq::<crate::comparison::PropertyDifferenceV>::empty(),
            Seq::<crate::comparison::MissingPropertyV>::empty(),
            Seq::<Seq<char>>::empty(),
        ),
    decreases props.len(),
{
    if props.len() > 0 {
        lemma_self_diff_empty(room, props.drop_last(), known);
        let p = props.last();
        match resolved_of(room, p, known).1 {
            Presence::Present(v) => {
                law_agreement_is_symmetric_and_reflexive(v, v);
            },
            _ => {},
        }
    }
}

/// A value that is there satisfies a negative condition exactly when it
/// fails the positive form; a value that is not there satisfies neither.
pub proof fn law_negation_is_the_positive_form_failing(p: PredicateV, presence: Presence)
    requires
        negative(p),
    ensures
        !negative(positive(p)),
        presence is Present ==> holds(p, presence) == !holds(positive(p), presence),
        !(presence is Present) ==> !holds(p, presence) && !holds(positive(p), presence),
{
}

/// Blank is the only operator a value that is not there satisfies, and has
/// value the only one it fails for certain.
pub proof fn law_only_blank_matches_nothing(p: PredicateV, presence: Presence)
    requires
        !(presence is Present),
    ensures
        holds(p, presence) <==> p.op == Op::Blank,
{
}

/// Every entity's wire name, its kind's name, reads back as that entity, and
/// no other name does.
pub proof fn law_entity_names_round_trip(e: Entity, name: Seq<char>)
    ensures
        entity_named(kind_label(entity_kind(e))) == Some(e),
        entity_named(name) == Some(e) ==> name == kind_label(entity_kind(e)),
{
    reveal_strlit("rooms");
    reveal_strlit("doors");
    reveal_strlit("windows");
    reveal_strlit("ceilings");
    reveal_strlit("floors");
    reveal_strlit("spaces");
    reveal_strlit("ffe");
    assert(kind_label(SnapshotKind::Rooms) =~= "rooms"@);
    assert(kind_label(SnapshotKind::Doors) =~= "doors"@);
    assert(kind_label(SnapshotKind::Windows) =~= "windows"@);
    assert(kind_label(SnapshotKind::Ceilings) =~= "ceilings"@);
    assert(kind_label(SnapshotKind::Floors) =~= "floors"@);
    assert(kind_label(SnapshotKind::Spaces) =~= "spaces"@);
    assert(kind_label(SnapshotKind::Ffe) =~= "ffe"@);
}

/// A limit keeps the first rows, never more than it allows, and every row
/// when there are no more than that.
pub proof fn law_limit_keeps_a_prefix(rows: Seq<Seq<Seq<char>>>, limit: Option<usize>)
    ensures
        limited(rows, limit).len() <= rows.len(),
        limited(rows, limit) == rows.take(limited(rows, limit).len() as int),
        limit matches Some(n) ==> limited(rows, limit).len() == if n < rows.len() {
            n as nat
        } else {
            rows.len()
        },
        limit is None ==> limited(rows, limit) == rows,
{
    assert(rows.take(rows.len() as int) =~= rows);
}

/// The distinct values a grouped cell lists: none blank, none twice, every
/// value that is not blank among them.
pub proof fn law_distinct_values(values: Seq<Seq<char>>)
    ensures
        forall|i: int| 0 <= i < first_seen(values).len() ==> (#[trigger] first_seen(values)[i]).len() > 0,
        forall|i: int, j: int|
            0 <= i < j < first_seen(values).len() ==> #[trigger] first_seen(values)[i] != #[trigger] first_seen(values)[j],
        forall|k: int| 0 <= k < values.len() && (#[trigger] values[k]).len() > 0 ==> first_seen(values).contains(values[k]),
    decreases values.len(),
{
    if values.len() > 0 {
        let rest = values.drop_last();
        law_distinct_values(rest);
        let fs = first_seen(values);
        let before = first_seen(rest);
        let v = values.last();
        assert forall|k: int| 0 <= k < values.len() && (#[trigger] values[k]).len() > 0 implies fs.contains(values[k]) by {
            if k < values.len() - 1 {
                assert(rest[k] == values[k]);
                assert(before.contains(values[k]));
                let m = choose|m: int| 0 <= m < before.len() && before[m] == values[k];
                assert(fs[m] == values[k]);
            } else {
                assert(values[k] == v);
                if !(v.len() == 0 || before.contains(v)) {
                    assert(fs[fs.len() - 1] == v);
                }
            }
        }
    }
}

/// A room nothing matched survives every negative condition on its matches
/// and no positive one: it has nothing that is X, and nothing at all.
pub proof fn law_room_with_no_matches(c: Condition, room: Option<RoomResponseV>)
    requires
        c.side != Side::Room,
    ensures
        survives(ReportFilter::Condition(c), room, Seq::empty()) == negative(c.predicate.deep_view()),
{
}

/// Whether rooms nothing matched are listed: a filter that asks about the
/// matches outranks the switch; the switch decides only when it is silent.
pub proof fn law_filter_outranks_the_switch(def: ReportDefinition)
    ensures
        filtering(def) && filter_has(def.filter.unwrap(), Side::Element, true) ==> lonely_listed(def),
        filtering(def) && filter_has(def.filter.unwrap(), Side::Element, false) && !filter_has(
            def.filter.unwrap(),
            Side::Element,
            true,
        ) ==> !lonely_listed(def),
        !(filtering(def) && (filter_has(def.filter.unwrap(), Side::Element, true) || filter_has(
            def.filter.unwrap(),
            Side::Element,
            false,
        ))) ==> lonely_listed(def) == def.include_rooms_without,
{
}

/// An uploaded reference file is what a read of its project, source and id
/// gives back.
pub proof fn law_read_after_upload(uploads: Seq<ReferenceUploadV>, u: ReferenceUploadV)
    ensures
        upload_in(uploaded_after(uploads, u), u.project_id, u.source, u.taken_at) == Some(u.bytes),
{
    let f = is_upload(u.project_id, u.source, u.taken_at);
    let after = uploaded_after(uploads, u);
    let i = first_where(uploads, f);
    lemma_first_where(uploads, f);
    if i < 0 {
        assert forall|j: int| 0 <= j < uploads.len() implies !f(#[trigger] after[j]) by {
            assert(after[j] == uploads[j]);
        }
        lemma_first_where_at(after, f, uploads.len() as int);
    } else {
        assert forall|j: int| 0 <= j < i implies !f(#[trigger] after[j]) by {
            assert(after[j] == uploads[j]);
        }
        lemma_first_where_at(after, f, i);
    }
}

/// Every room of every group an area roll-up dissolves belongs there: it is
/// one of the rooms handed in, it stands on the group's level, no room
/// exclusion withholds it (a withheld room is gone from every tier), it is
/// classified under the group's path, and, where tiers are labelled by
/// position, its own group takes part at the group's tier (a group withheld
/// at a tier is part of nothing above it).
pub proof fn law_area_groups_hold_only_their_rooms(rs: Seq<ClassifiedRoomV>, ex: Seq<HierarchyExclusionV>)
    requires
        rs.len() <= usize::MAX,
    ensures
        members_belong(rs, ex, area_plan(rs, ex)),
{
    lemma_plan_over_belongs(rs, ex, crate::areas::level_order(rs, ex));
}

/// A project's anchor depends only on which of its own models declare a
/// placement and on its own preference: not on the order the models are
/// listed in, on repeats, on models that declare none, nor on any other
/// project or its preference.
pub proof fn law_anchor_is_the_projects_own(
    ms1: Seq<PlacedModelV>,
    ms2: Seq<PlacedModelV>,
    preferred1: Seq<FieldV>,
    preferred2: Seq<FieldV>,
    p: Seq<char>,
)
    requires
        forall|x: PlacedModelV| x.placed && x.project_id == p ==> (ms1.contains(x) <==> ms2.contains(x)),
        preferred_of(preferred1, p) == preferred_of(preferred2, p),
    ensures
        anchor_of(ms1, preferred1, p) == anchor_of(ms2, preferred2, p),
{
    assert forall|m: Seq<char>| declared(ms1, p).contains(m) implies declared(ms2, p).contains(m) by {
        let i = choose|i: int| 0 <= i < ms1.len() && (#[trigger] ms1[i]).placed && ms1[i].project_id == p && ms1[i].model_id == m;
        assert(ms1.contains(ms1[i]));
        let j = choose|j: int| 0 <= j < ms2.len() && ms2[j] == ms1[i];
        assert(ms2[j].placed);
    }
    assert forall|m: Seq<char>| declared(ms2, p).contains(m) implies declared(ms1, p).contains(m) by {
        let i = choose|i: int| 0 <= i < ms2.len() && (#[trigger] ms2[i]).placed && ms2[i].project_id == p && ms2[i].model_id == m;
        assert(ms2.contains(ms2[i]));
        let j = choose|j: int| 0 <= j < ms1.len() && ms1[j] == ms2[i];
        assert(ms1[j].placed);
    }
    assert(declared(ms1, p) =~= declared(ms2, p));
}

/// A project is drawn in the frame of the model its preference names,
/// wherever that model declares a placement; otherwise in that of the placed
/// model whose id sorts first; and a project none of whose models declares a
/// placement has no anchor at all.
pub proof fn law_anchor_choice(ms: Seq<PlacedModelV>, preferred: Seq<FieldV>, p: Seq<char>)
    ensures
        (preferred_of(preferred, p) matches Some(w) && declared(ms, p).contains(w)) ==> anchor_of(ms, preferred, p)
            == preferred_of(preferred, p),
        !(preferred_of(preferred, p) matches Some(w) && declared(ms, p).contains(w)) && !declared(ms, p).is_empty() ==> (
        anchor_of(ms, preferred, p) matches Some(a) && lowest_in(declared(ms, p), a)),
        declared(ms, p).is_empty() ==> anchor_of(ms, preferred, p) is None,
{
    lemma_anchor_exists(ms, preferred, p);
    let s = declared(ms, p);
    let w = preferred_of(preferred, p);
    if !(w is Some && s.contains(w.unwrap())) && !s.is_empty() {
        assert(exists|m: Seq<char>| lowest_in(s, m));
    }
}

/// Exactly the placed models that are not their project's anchor are moved,
/// each into its anchor's frame: the anchor itself, and a model that
/// declares no placement, never are.
pub proof fn law_only_placed_non_anchors_move(ms: Seq<PlacedModelV>, preferred: Seq<FieldV>, r: ReframeV)
    ensures
        reframes_of(ms, preferred).contains(r) <==> moves(ms, preferred, ms, r),
{
    lemma_reframes_member(ms, preferred, ms, r);
}

/// Listing the same models in another order, or repeating one, moves the
/// same models into the same frames.
pub proof fn law_reframes_ignore_model_order(ms1: Seq<PlacedModelV>, ms2: Seq<PlacedModelV>, preferred: Seq<FieldV>, r: ReframeV)
    requires
        forall|x: PlacedModelV| ms1.contains(x) <==> ms2.contains(x),
    ensures
        reframes_of(ms1, preferred).contains(r) <==> reframes_of(ms2, preferred).contains(r),
{
    lemma_reframes_member(ms1, preferred, ms1, r);
    lemma_reframes_member(ms2, preferred, ms2, r);
    law_anchor_is_the_projects_own(ms1, ms2, preferred, preferred, r.project_id);
    if moves(ms1, preferred, ms1, r) {
        let i = choose|i: int|
            0 <= i < ms1.len() && (#[trigger] ms1[i]).placed && ms1[i].project_id == r.project_id && ms1[i].model_id == r.model_id
                && anchor_of(ms1, preferred, r.project_id) == Some(r.anchor_id) && r.anchor_id != r.model_id;
        assert(ms1.contains(ms1[i]));
        let j = choose|j: int| 0 <= j < ms2.len() && ms2[j] == ms1[i];
        assert(ms2[j].placed);
    }
    if moves(ms2, preferred, ms2, r) {
        let i = choose|i: int|
            0 <= i < ms2.len() && (#[trigger] ms2[i]).placed && ms2[i].project_id == r.project_id && ms2[i].model_id == r.model_id
                && anchor_of(ms2, preferred, r.project_id) == Some(r.anchor_id) && r.anchor_id != r.model_id;
        assert(ms2.contains(ms2[i]));
        let j = choose|j: int| 0 <= j < ms1.len() && ms1[j] == ms2[i];
        assert(ms1[j].placed);
    }
}

/// The ceilings answer turned round room by room says the same thing as the
/// answer itself: a room is listed exactly when some ceiling lies over it,
/// and a ceiling is listed under a room exactly when it lies over that room.
pub proof fn law_ceilings_by_room_agree(cs: Seq<CeilingResponseV>, rr: RoomRefV, q: usize)
    requires
        cs.len() <= usize::MAX,
    ensures
        covered(cs).contains(room_key(rr)) <==> exists|i: int| 0 <= i < cs.len() && room_refs((#[trigger] cs[i]).rooms).contains(rr),
        hits(cs, rr).contains(q) <==> (q < cs.len() && room_refs(cs[q as int].rooms).contains(rr)),
{
    lemma_by_room_agrees(cs, rr, q);
}

/// What a served opening owes its project's policy: its owners in its own
/// model are its qualified owners there; its qualified owners are what the
/// attribution policy makes of its two sides; a side the model states is
/// that room, authored, in the opening's own model; a side the model left
/// absent stays unresolved where the project does not resolve rooms; and
/// with a building asked for, some owner stands in that building.
pub open spec fn opening_served_as(
    state: AppState,
    kind: OpeningKind,
    v: OpeningResponseV,
    buildings: Seq<RoomBuildingV>,
    building: Option<Seq<char>>,
) -> bool {
    let policy = policy_of(state, kind, v.project_id);
    &&& v.owner_rooms == same_model_ids(v.owner_rooms_qualified, v.model_id)
    &&& v.owner_rooms_qualified == owners_of(
        policy.room_attribution,
        origin_room(v.room_origin.from_room),
        origin_room(v.room_origin.to_room),
    )
    &&& (v.door.from_room matches Some(f) ==> v.room_origin.from_room == SideOriginV::Authored(
        RoomRefV { model_id: v.model_id, room_id: f },
    ))
    &&& (v.door.to_room matches Some(t) ==> v.room_origin.to_room == SideOriginV::Authored(
        RoomRefV { model_id: v.model_id, room_id: t },
    ))
    &&& (policy.room_resolution == RoomResolution::Off ==> (v.door.from_room is None ==> v.room_origin.from_room is Unresolved)
        && (v.door.to_room is None ==> v.room_origin.to_room is Unresolved))
    &&& (building matches Some(b) ==> owned_in(v.owner_rooms_qualified, buildings, b))
}

proof fn lemma_snapshot_openings_served(
    state: AppState,
    kind: OpeningKind,
    s: ScopedV<OpeningV>,
    items: Seq<OpeningV>,
    derived: Seq<DerivedSidesV>,
    buildings: Seq<RoomBuildingV>,
    building: Option<Seq<char>>,
    filter: Option<&RoomFilter>,
)
    ensures
        forall|i: int|
            0 <= i < snapshot_openings(
                s,
                items,
                opening_sources_of(state, kind, s.payload.project.id),
                policy_of(state, kind, s.payload.project.id),
                derived,
                buildings,
                building,
                filter,
            ).len() ==> {
                let v = #[trigger] snapshot_openings(
                    s,
                    items,
                    opening_sources_of(state, kind, s.payload.project.id),
                    policy_of(state, kind, s.payload.project.id),
                    derived,
                    buildings,
                    building,
                    filter,
                )[i];
                &&& opening_served_as(state, kind, v, buildings, building)
                &&& v.project_id == s.payload.project.id
                &&& v.model_id == s.payload.model.id
                &&& exists|k: int| 0 <= k < items.len() && items[k] == v.door
            },
    decreases items.len(),
{
    let p = s.payload.project.id;
    let sources = opening_sources_of(state, kind, p);
    let policy = policy_of(state, kind, p);
    if items.len() > 0 {
        let rest = items.drop_last();
        lemma_snapshot_openings_served(state, kind, s, rest, derived, buildings, building, filter);
        let before = snapshot_openings(s, rest, sources, policy, derived, buildings, building, filter);
        let all = snapshot_openings(s, items, sources, policy, derived, buildings, building, filter);
        assert forall|i: int| 0 <= i < all.len() implies {
            let v = #[trigger] all[i];
            &&& opening_served_as(state, kind, v, buildings, building)
            &&& v.project_id == p
            &&& v.model_id == s.payload.model.id
            &&& exists|k: int| 0 <= k < items.len() && items[k] == v.door
        } by {
            if i < before.len() {
                assert(all[i] == before[i]);
                let k = choose|k: int| 0 <= k < rest.len() && rest[k] == before[i].door;
                assert(items[k] == rest[k]);
            } else {
                assert(items[items.len() - 1] == all[i].door);
            }
        }
    }
}

proof fn lemma_scoped_openings_served(
    state: AppState,
    kind: OpeningKind,
    scoped: Seq<ScopedV<OpeningV>>,
    derived: Seq<DerivedSidesV>,
    buildings: Seq<RoomBuildingV>,
    building: Option<Seq<char>>,
    filter: Option<&RoomFilter>,
)
    ensures
        forall|i: int|
            0 <= i < scoped_openings(state, kind, scoped, derived, buildings, building, filter).len() ==> {
                let v = #[trigger] scoped_openings(state, kind, scoped, derived, buildings, building, filter)[i];
                &&& opening_served_as(state, kind, v, buildings, building)
                &&& exists|j: int, k: int|
                    0 <= j < scoped.len() && 0 <= k < scoped[j].payload.elements.len() && scoped[j].payload.elements[k] == v.door
                        && scoped[j].payload.model.id == v.model_id && scoped[j].payload.project.id == v.project_id
            },
    decreases scoped.len(),
{
    if scoped.len() > 0 {
        let rest = scoped.drop_last();
        let s = scoped.last();
        let p = s.payload.project.id;
        lemma_scoped_openings_served(state, kind, rest, derived, buildings, building, filter);
        lemma_snapshot_openings_served(state, kind, s, s.payload.elements, derived, buildings, building, filter);
        let before = scoped_openings(state, kind, rest, derived, buildings, building, filter);
        let tail = snapshot_openings(
            s,
            s.payload.elements,
            opening_sources_of(state, kind, p),
            policy_of(state, kind, p),
            derived,
            buildings,
            building,
            filter,
        );
        let all = scoped_openings(state, kind, scoped, derived, buildings, building, filter);
        assert(all == before + tail);
        assert forall|i: int| 0 <= i < all.len() implies {
            let v = #[trigger] all[i];
            &&& opening_served_as(state, kind, v, buildings, building)
            &&& exists|j: int, k: int|
                0 <= j < scoped.len() && 0 <= k < scoped[j].payload.elements.len() && scoped[j].payload.elements[k] == v.door
                    && scoped[j].payload.model.id == v.model_id && scoped[j].payload.project.id == v.project_id
        } by {
            if i < before.len() {
                assert(all[i] == before[i]);
                let (j, k) = choose|j: int, k: int|
                    0 <= j < rest.len() && 0 <= k < rest[j].payload.elements.len() && rest[j].payload.elements[k] == before[i].door
                        && rest[j].payload.model.id == before[i].model_id && rest[j].payload.project.id == before[i].project_id;
                assert(scoped[j] == rest[j]);
            } else {
                assert(all[i] == tail[i - before.len()]);
                let v = tail[i - before.len()];
                let k = choose|k: int| 0 <= k < s.payload.elements.len() && s.payload.elements[k] == v.door;
                assert(scoped[scoped.len() - 1] == s);
            }
        }
    }
}

/// Every door or window a read serves follows its project's policy: its
/// owners in its own model are its qualified owners there; its qualified
/// owners are what the attribution policy makes of its two sides; it is a
/// stored opening of one of the snapshots read, unchanged, and a side that
/// opening states is that room, authored, in its own model, whatever
/// geometry found; a side it left absent stays unresolved where the project
/// does not resolve rooms; and with a building asked for, it has an owner
/// in that building, so an opening no room owns is never served there.
pub proof fn law_served_openings_follow_policy(
    state: AppState,
    kind: OpeningKind,
    scoped: Seq<ScopedV<OpeningV>>,
    derived: Seq<DerivedSidesV>,
    buildings: Seq<RoomBuildingV>,
    building: Option<Seq<char>>,
    filter: Option<&RoomFilter>,
    i: int,
)
    requires
        0 <= i < scoped_openings(state, kind, scoped, derived, buildings, building, filter).len(),
    ensures
        ({
            let v = scoped_openings(state, kind, scoped, derived, buildings, building, filter)[i];
            &&& opening_served_as(state, kind, v, buildings, building)
            &&& exists|j: int, k: int|
                0 <= j < scoped.len() && 0 <= k < scoped[j].payload.elements.len() && scoped[j].payload.elements[k] == v.door
                    && scoped[j].payload.model.id == v.model_id && scoped[j].payload.project.id == v.project_id
        }),
{
    lemma_scoped_openings_served(state, kind, scoped, derived, buildings, building, filter);
}

/// What a served item owes its project's policy: it is a component exactly
/// when it stands inside another family, and one is served only where the
/// project includes components; its one owner, if any, is the room its
/// origin names, and its owner in its own model is that owner there; a room
/// the item states is that room, authored, in its own model; a room it
/// left absent stays unresolved where the project does not resolve rooms;
/// and with a building asked for, its owner stands in that building.
pub open spec fn item_served_as(
    state: AppState,
    x: ItemResponseV,
    buildings: Seq<RoomBuildingV>,
    building: Option<Seq<char>>,
) -> bool {
    let policy = ffe_policy_of(state, x.project_id);
    &&& x.is_component == (x.item.super_component_id is Some)
    &&& (x.is_component ==> policy.nested_components == NestedComponents::Include)
    &&& x.owner_rooms_qualified == opt_seq(origin_room(x.room_origin))
    &&& x.owner_rooms == same_model_ids(x.owner_rooms_qualified, x.model_id)
    &&& (x.item.room matches Some(rm) ==> x.room_origin == SideOriginV::Authored(RoomRefV { model_id: x.model_id, room_id: rm }))
    &&& (policy.room_resolution == RoomResolution::Off && x.item.room is None ==> x.room_origin is Unresolved)
    &&& (building matches Some(b) ==> owned_in(x.owner_rooms_qualified, buildings, b))
}

proof fn lemma_snapshot_items_served(
    state: AppState,
    s: ScopedV<ItemV>,
    items: Seq<ItemV>,
    derived: Seq<DerivedRoomV>,
    buildings: Seq<RoomBuildingV>,
    building: Option<Seq<char>>,
    filter: Option<&RoomFilter>,
)
    ensures
        forall|i: int|
            0 <= i < snapshot_items(
                s,
                items,
                item_sources_of(state, s.payload.project.id),
                ffe_policy_of(state, s.payload.project.id),
                derived,
                buildings,
                building,
                filter,
            ).len() ==> {
                let x = #[trigger] snapshot_items(
                    s,
                    items,
                    item_sources_of(state, s.payload.project.id),
                    ffe_policy_of(state, s.payload.project.id),
                    derived,
                    buildings,
                    building,
                    filter,
                )[i];
                &&& item_served_as(state, x, buildings, building)
                &&& x.project_id == s.payload.project.id
                &&& x.model_id == s.payload.model.id
                &&& exists|k: int| 0 <= k < items.len() && items[k] == x.item
            },
    decreases items.len(),
{
    let p = s.payload.project.id;
    let sources = item_sources_of(state, p);
    let policy = ffe_policy_of(state, p);
    if items.len() > 0 {
        let rest = items.drop_last();
        lemma_snapshot_items_served(state, s, rest, derived, buildings, building, filter);
        let before = snapshot_items(s, rest, sources, policy, derived, buildings, building, filter);
        let all = snapshot_items(s, items, sources, policy, derived, buildings, building, filter);
        assert forall|i: int| 0 <= i < all.len() implies {
            let x = #[trigger] all[i];
            &&& item_served_as(state, x, buildings, building)
            &&& x.project_id == p
            &&& x.model_id == s.payload.model.id
            &&& exists|k: int| 0 <= k < items.len() && items[k] == x.item
        } by {
            if i < before.len() {
                assert(all[i] == before[i]);
                let k = choose|k: int| 0 <= k < rest.len() && rest[k] == before[i].item;
                assert(items[k] == rest[k]);
            } else {
                assert(items[items.len() - 1] == all[i].item);
            }
        }
    }
}

proof fn lemma_scoped_items_served(
    state: AppState,
    scoped: Seq<ScopedV<ItemV>>,
    derived: Seq<DerivedRoomV>,
    buildings: Seq<RoomBuildingV>,
    building: Option<Seq<char>>,
    filter: Option<&RoomFilter>,
)
    ensures
        forall|i: int|
            0 <= i < scoped_items(state, scoped, derived, buildings, building, filter).len() ==> {
                let x = #[trigger] scoped_items(state, scoped, derived, buildings, building, filter)[i];
                &&& item_served_as(state, x, buildings, building)
                &&& exists|j: int, k: int|
                    0 <= j < scoped.len() && 0 <= k < scoped[j].payload.elements.len() && scoped[j].payload.elements[k] == x.item
                        && scoped[j].payload.model.id == x.model_id && scoped[j].payload.project.id == x.project_id
            },
    decreases scoped.len(),
{
    if scoped.len() > 0 {
        let rest = scoped.drop_last();
        let s = scoped.last();
        let p = s.payload.project.id;
        lemma_scoped_items_served(state, rest, derived, buildings, building, filter);
        lemma_snapshot_items_served(state, s, s.payload.elements, derived, buildings, building, filter);
        let before = scoped_items(state, rest, derived, buildings, building, filter);
        let tail = snapshot_items(
            s,
            s.payload.elements,
            item_sources_of(state, p),
            ffe_policy_of(state, p),
            derived,
            buildings,
            building,
            filter,
        );
        let all = scoped_items(state, scoped, derived, buildings, building, filter);
        assert(all == before + tail);
        assert forall|i: int| 0 <= i < all.len() implies {
            let x = #[trigger] all[i];
            &&& item_served_as(state, x, buildings, building)
            &&& exists|j: int, k: int|
                0 <= j < scoped.len() && 0 <= k < scoped[j].payload.elements.len() && scoped[j].payload.elements[k] == x.item
                    && scoped[j].payload.model.id == x.model_id && scoped[j].payload.project.id == x.project_id
        } by {
            if i < before.len() {
                assert(all[i] == before[i]);
                let (j, k) = choose|j: int, k: int|
                    0 <= j < rest.len() && 0 <= k < rest[j].payload.elements.len() && rest[j].payload.elements[k] == before[i].item
                        && rest[j].payload.model.id == before[i].model_id && rest[j].payload.project.id == before[i].project_id;
                assert(scoped[j] == rest[j]);
            } else {
                assert(all[i] == tail[i - before.len()]);
                let x = tail[i - before.len()];
                let k = choose|k: int| 0 <= k < s.payload.elements.len() && s.payload.elements[k] == x.item;
                assert(scoped[scoped.len() - 1] == s);
            }
        }
    }
}

/// Every FF&E item a read serves follows its project's policy: a component
/// is flagged as one and served only where the project includes
/// components; the item has at most one owner, the room its origin names,
/// and that owner in its own model is its unqualified owner; it is a stored
/// item of one of the snapshots read, unchanged, and a room it states is
/// that room, authored, in its own model; a room it left absent stays
/// unresolved where the project does not resolve rooms; and with a building
/// asked for, its owner stands in that building.
pub proof fn law_served_items_follow_policy(
    state: AppState,
    scoped: Seq<ScopedV<ItemV>>,
    derived: Seq<DerivedRoomV>,
    buildings: Seq<RoomBuildingV>,
    building: Option<Seq<char>>,
    filter: Option<&RoomFilter>,
    i: int,
)
    requires
        0 <= i < scoped_items(state, scoped, derived, buildings, building, filter).len(),
    ensures
        ({
            let x = scoped_items(state, scoped, derived, buildings, building, filter)[i];
            &&& item_served_as(state, x, buildings, building)
            &&& x.owner_rooms_qualified.len() <= 1
            &&& exists|j: int, k: int|
                0 <= j < scoped.len() && 0 <= k < scoped[j].payload.elements.len() && scoped[j].payload.elements[k] == x.item
                    && scoped[j].payload.model.id == x.model_id && scoped[j].payload.project.id == x.project_id
        }),
{
    lemma_scoped_items_served(state, scoped, derived, buildings, building, filter);
}

/// The number of items a run of snapshots holds.
pub open spec fn item_total(scoped: Seq<ScopedV<ItemV>>) -> nat
    decreases scoped.len(),
{
    if scoped.len() == 0 {
        0
    } else {
        item_total(scoped.drop_last()) + scoped.last().payload.elements.len()
    }
}

proof fn lemma_snapshot_items_account(
    s: ScopedV<ItemV>,
    items: Seq<ItemV>,
    sources: Seq<crate::join::JoinSourceV>,
    policy: FfePolicy,
    derived: Seq<DerivedRoomV>,
    buildings: Seq<RoomBuildingV>,
)
    ensures
        snapshot_items(s, items, sources, policy, derived, buildings, None, None).len() + snapshot_excluded(items, policy)
            == items.len(),
        snapshot_excluded(items, policy) == if policy.nested_components == NestedComponents::Exclude {
            items.filter(|o: ItemV| o.super_component_id is Some).len()
        } else {
            0
        },
    decreases items.len(),
{
    reveal(Seq::filter);
    if items.len() > 0 {
        lemma_snapshot_items_account(s, items.drop_last(), sources, policy, derived, buildings);
    }
}

/// Of the items a read covers, a snapshot's excluded count is its
/// components where its project excludes them, and none where it includes
/// them; and before any building or filter narrows the read, every item of
/// every snapshot read is either served or counted as excluded, never both.
pub proof fn law_every_item_is_served_or_excluded(
    state: AppState,
    scoped: Seq<ScopedV<ItemV>>,
    derived: Seq<DerivedRoomV>,
    buildings: Seq<RoomBuildingV>,
)
    ensures
        forall|j: int|
            0 <= j < scoped.len() ==> #[trigger] snapshot_excluded(
                scoped[j].payload.elements,
                ffe_policy_of(state, scoped[j].payload.project.id),
            ) == if ffe_policy_of(state, scoped[j].payload.project.id).nested_components == NestedComponents::Exclude {
                scoped[j].payload.elements.filter(|o: ItemV| o.super_component_id is Some).len()
            } else {
                0
            },
        scoped_items(state, scoped, derived, buildings, None, None).len() + scoped_excluded(state, scoped) == item_total(scoped),
    decreases scoped.len(),
{
    if scoped.len() > 0 {
        let s = scoped.last();
        let p = s.payload.project.id;
        law_every_item_is_served_or_excluded(state, scoped.drop_last(), derived, buildings);
        lemma_snapshot_items_account(s, s.payload.elements, item_sources_of(state, p), ffe_policy_of(state, p), derived, buildings);
        assert forall|j: int| 0 <= j < scoped.len() implies #[trigger] snapshot_excluded(
            scoped[j].payload.elements,
            ffe_policy_of(state, scoped[j].payload.project.id),
        ) == if ffe_policy_of(state, scoped[j].payload.project.id).nested_components == NestedComponents::Exclude {
            scoped[j].payload.elements.filter(|o: ItemV| o.super_component_id is Some).len()
        } else {
            0
        } by {
            let sj = scoped[j];
            lemma_snapshot_items_account(
                sj,
                sj.payload.elements,
                item_sources_of(state, sj.payload.project.id),
                ffe_policy_of(state, sj.payload.project.id),
                derived,
                buildings,
            );
        }
    }
}

/// Two indexes whose rows contribute the same, row by row, plan the same.
proof fn lemma_plan_rowwise(
    a: Seq<ModelIndexRowV>,
    b: Seq<ModelIndexRowV>,
    projects: Seq<ProjectEntryV>,
    kind: SnapshotKind,
    project: Option<Seq<char>>,
    milestone: Option<Seq<char>>,
)
    requires
        a.len() == b.len(),
        forall|i: int|
            0 <= i < a.len() ==> #[trigger] plan_row(a[i], projects, kind, project, milestone) == plan_row(
                b[i],
                projects,
                kind,
                project,
                milestone,
            ),
    ensures
        plan_of(a, projects, kind, project, milestone) == plan_of(b, projects, kind, project, milestone),
    decreases a.len(),
{
    if a.len() > 0 {
        let n = a.len() - 1;
        assert forall|i: int| 0 <= i < n implies #[trigger] plan_row(a.drop_last()[i], projects, kind, project, milestone)
            == plan_row(b.drop_last()[i], projects, kind, project, milestone) by {
            assert(a.drop_last()[i] == a[i]);
            assert(b.drop_last()[i] == b[i]);
        }
        lemma_plan_rowwise(a.drop_last(), b.drop_last(), projects, kind, project, milestone);
        assert(plan_row(a[n], projects, kind, project, milestone) == plan_row(b[n], projects, kind, project, milestone));
    }
}

/// A push to a project the scope leaves out, or to one with no registered
/// settings, plans every kind as before.
proof fn lemma_push_elsewhere_plans_the_same(
    index: Seq<ModelIndexRowV>,
    projects: Seq<ProjectEntryV>,
    kind: SnapshotKind,
    project: Option<Seq<char>>,
    milestone: Option<Seq<char>>,
    pushed_project: Seq<char>,
    model: Seq<char>,
    project_name: Seq<char>,
    model_name: Seq<char>,
    pushed_kind: SnapshotKind,
    id: Seq<char>,
)
    requires
        (project matches Some(p) && pushed_project != p) || settings_of(projects, pushed_project) is None,
    ensures
        plan_of(
            indexed_after(index, pushed_project, model, project_name, model_name, pushed_kind, id),
            projects,
            kind,
            project,
            milestone,
        ) == plan_of(index, projects, kind, project, milestone),
{
    let m = is_model(pushed_project, model);
    let after = indexed_after(index, pushed_project, model, project_name, model_name, pushed_kind, id);
    let i = first_where(index, m);
    lemma_first_where(index, m);
    if i < 0 {
        assert(after.drop_last() =~= index);
        assert(plan_row(after.last(), projects, kind, project, milestone) is None);
    } else {
        assert forall|j: int| 0 <= j < index.len() implies #[trigger] plan_row(index[j], projects, kind, project, milestone)
            == plan_row(after[j], projects, kind, project, milestone) by {
            if j == i {
                assert(index[i].key.project_id == pushed_project);
                assert(after[i].key == index[i].key);
            } else {
                assert(after[j] == index[j]);
            }
        }
        lemma_plan_rowwise(index, after, projects, kind, project, milestone);
    }
}

/// A push to another project, or to a project with no registered settings,
/// leaves what a scope's cursor covers, and so the cursor, as it was: a
/// project's cursor moves only with its own registered models, and an
/// unscoped cursor only with registered projects.
pub proof fn law_cursor_ignores_other_projects(
    index: Seq<ModelIndexRowV>,
    projects: Seq<ProjectEntryV>,
    project: Option<Seq<char>>,
    milestone: Option<Seq<char>>,
    kinds: Seq<SnapshotKind>,
    pushed_project: Seq<char>,
    model: Seq<char>,
    project_name: Seq<char>,
    model_name: Seq<char>,
    pushed_kind: SnapshotKind,
    id: Seq<char>,
)
    requires
        (project matches Some(p) && pushed_project != p) || settings_of(projects, pushed_project) is None,
    ensures
        ({
            let after = indexed_after(index, pushed_project, model, project_name, model_name, pushed_kind, id);
            &&& scope_rows(after, projects, project, milestone, kinds) == scope_rows(index, projects, project, milestone, kinds)
            &&& cursor_of(scope_rows(after, projects, project, milestone, kinds)) == cursor_of(
                scope_rows(index, projects, project, milestone, kinds),
            )
        }),
    decreases kinds.len(),
{
    if kinds.len() > 0 {
        law_cursor_ignores_other_projects(
            index,
            projects,
            project,
            milestone,
            kinds.drop_last(),
            pushed_project,
            model,
            project_name,
            model_name,
            pushed_kind,
            id,
        );
        lemma_push_elsewhere_plans_the_same(
            index,
            projects,
            kinds.last(),
            project,
            milestone,
            pushed_project,
            model,
            project_name,
            model_name,
            pushed_kind,
            id,
        );
    }
}

/// Every row a kind contributes is among the rows a scope's cursor covers.
proof fn lemma_scope_rows_hold(
    index: Seq<ModelIndexRowV>,
    projects: Seq<ProjectEntryV>,
    project: Option<Seq<char>>,
    milestone: Option<Seq<char>>,
    kinds: Seq<SnapshotKind>,
    j: int,
    row: Seq<Seq<char>>,
)
    requires
        0 <= j < kinds.len(),
        kind_rows(plan_of(index, projects, kinds[j], project, milestone), kinds[j]).contains(row),
    ensures
        scope_rows(index, projects, project, milestone, kinds).contains(row),
    decreases kinds.len(),
{
    let rest = scope_rows(index, projects, project, milestone, kinds.drop_last());
    let tail = kind_rows(plan_of(index, projects, kinds.last(), project, milestone), kinds.last());
    let all = scope_rows(index, projects, project, milestone, kinds);
    assert(all == rest + tail);
    if j == kinds.len() - 1 {
        let k = choose|k: int| 0 <= k < tail.len() && tail[k] == row;
        assert(all[rest.len() + k] == row);
    } else {
        assert(kinds.drop_last()[j] == kinds[j]);
        lemma_scope_rows_hold(index, projects, project, milestone, kinds.drop_last(), j, row);
        let k = choose|k: int| 0 <= k < rest.len() && rest[k] == row;
        assert(all[k] == row);
    }
}

/// A push to a registered project is among what the cursor of any scope
/// holding the project covers, for a read without a milestone of a list of
/// kinds holding the pushed one: the cursor's rows name the pushed snapshot.
pub proof fn law_cursor_covers_a_push(
    index: Seq<ModelIndexRowV>,
    projects: Seq<ProjectEntryV>,
    project: Option<Seq<char>>,
    kinds: Seq<SnapshotKind>,
    pushed_project: Seq<char>,
    model: Seq<char>,
    project_name: Seq<char>,
    model_name: Seq<char>,
    pushed_kind: SnapshotKind,
    id: Seq<char>,
)
    requires
        settings_of(projects, pushed_project) is Some,
        project is None || project == Some(pushed_project),
        kinds.contains(pushed_kind),
    ensures
        scope_rows(
            indexed_after(index, pushed_project, model, project_name, model_name, pushed_kind, id),
            projects,
            project,
            None,
            kinds,
        ).contains(seq![pushed_project, model, kind_label(pushed_kind), id]),
{
    let after = indexed_after(index, pushed_project, model, project_name, model_name, pushed_kind, id);
    law_push_sets_latest(index, pushed_project, model, project_name, model_name, pushed_kind, id);
    let m = is_model(pushed_project, model);
    let i = first_where(after, m);
    lemma_first_where(after, m);
    let pr = PlannedReadV { key: after[i].key, id };
    assert(plan_row(after[i], projects, pushed_kind, project, None) == Some(pr));
    lemma_plan_holds(after, projects, pushed_kind, project, None, i);
    let plan = plan_of(after, projects, pushed_kind, project, None);
    let k = choose|k: int| 0 <= k < plan.len() && plan[k] == pr;
    let rows = kind_rows(plan, pushed_kind);
    assert(rows[k] == seq![pushed_project, model, kind_label(pushed_kind), id]);
    let j = choose|j: int| 0 <= j < kinds.len() && kinds[j] == pushed_kind;
    lemma_scope_rows_hold(after, projects, project, None, kinds, j, seq![pushed_project, model, kind_label(pushed_kind), id]);
}

/// Two report definitions that ask for the same thing but for their limit.
pub open spec fn same_but_limit(d1: ReportDefinition, d2: ReportDefinition) -> bool {
    &&& d1.entity == d2.entity
    &&& d1.by_room == d2.by_room
    &&& d1.columns == d2.columns
    &&& d1.room_columns == d2.room_columns
    &&& d1.measures == d2.measures
    &&& d1.shape == d2.shape
    &&& d1.include_rooms_without == d2.include_rooms_without
    &&& d1.include_unattributed == d2.include_unattributed
    &&& d1.filter == d2.filter
}

proof fn lemma_schedule_ignores_limit(d1: ReportDefinition, d2: ReportDefinition, known: Seq<Seq<char>>, elements: Seq<ElementV>)
    requires
        same_but_limit(d1, d2),
    ensures
        schedule_of(d1, known, elements) == schedule_of(d2, known, elements),
    decreases elements.len(),
{
    if elements.len() > 0 {
        lemma_schedule_ignores_limit(d1, d2, known, elements.drop_last());
    }
}

proof fn lemma_attr_rows_ignore_limit(
    d1: ReportDefinition,
    d2: ReportDefinition,
    ks: SourcesV,
    rooms: Seq<RoomResponseV>,
    all: Seq<ElementV>,
    e: ElementV,
    attrs: Seq<AttributionV>,
)
    requires
        same_but_limit(d1, d2),
    ensures
        attr_rows(d1, ks, rooms, all, e, attrs) == attr_rows(d2, ks, rooms, all, e, attrs),
    decreases attrs.len(),
{
    if attrs.len() > 0 {
        lemma_attr_rows_ignore_limit(d1, d2, ks, rooms, all, e, attrs.drop_last());
        let a = attrs.last();
        assert(crate::reports::row_conds(d1) == crate::reports::row_conds(d2));
        assert(crate::reports::listed(d1, e, Some(a)) == crate::reports::listed(d2, e, Some(a)));
        assert(crate::reports::key_survives(d1, rooms, all, a.model_id, a.room_id) == crate::reports::key_survives(
            d2,
            rooms,
            all,
            a.model_id,
            a.room_id,
        ));
    }
}

proof fn lemma_per_match_ignores_limit(
    d1: ReportDefinition,
    d2: ReportDefinition,
    ks: SourcesV,
    rooms: Seq<RoomResponseV>,
    all: Seq<ElementV>,
    elements: Seq<ElementV>,
)
    requires
        same_but_limit(d1, d2),
    ensures
        per_match_of(d1, ks, rooms, all, elements) == per_match_of(d2, ks, rooms, all, elements),
    decreases elements.len(),
{
    if elements.len() > 0 {
        lemma_per_match_ignores_limit(d1, d2, ks, rooms, all, elements.drop_last());
        let e = elements.last();
        lemma_attr_rows_ignore_limit(d1, d2, ks, rooms, all, e, e.rooms);
    }
}

proof fn lemma_shown_ignores_limit(d1: ReportDefinition, d2: ReportDefinition, members: Seq<MemberV>)
    requires
        same_but_limit(d1, d2),
    ensures
        shown_of(d1, members) == shown_of(d2, members),
    decreases members.len(),
{
    if members.len() > 0 {
        lemma_shown_ignores_limit(d1, d2, members.drop_last());
        let m = members.last();
        assert(crate::reports::row_conds(d1) == crate::reports::row_conds(d2));
        assert(crate::reports::listed(d1, m.0, m.1) == crate::reports::listed(d2, m.0, m.1));
    }
}

proof fn lemma_per_room_ignores_limit(
    d1: ReportDefinition,
    d2: ReportDefinition,
    ks: SourcesV,
    rooms: Seq<RoomResponseV>,
    all: Seq<ElementV>,
    keys: Seq<Seq<Seq<char>>>,
)
    requires
        same_but_limit(d1, d2),
    ensures
        per_room_of(d1, ks, rooms, all, keys) == per_room_of(d2, ks, rooms, all, keys),
    decreases keys.len(),
{
    if keys.len() > 0 {
        lemma_per_room_ignores_limit(d1, d2, ks, rooms, all, keys.drop_last());
        let k = keys.last();
        lemma_shown_ignores_limit(d1, d2, crate::reports::members_of(all, k[0], k[1]));
    }
}

proof fn lemma_groups_ignore_limit(d1: ReportDefinition, d2: ReportDefinition, ks: SourcesV, elements: Seq<ElementV>)
    requires
        same_but_limit(d1, d2),
    ensures
        unattributed_groups(d1, ks, elements) == unattributed_groups(d2, ks, elements),
    decreases elements.len(),
{
    if elements.len() > 0 {
        lemma_groups_ignore_limit(d1, d2, ks, elements.drop_last());
    }
}

proof fn lemma_lonely_ignores_limit(d1: ReportDefinition, d2: ReportDefinition, all: Seq<ElementV>, rooms: Seq<RoomResponseV>)
    requires
        same_but_limit(d1, d2),
    ensures
        lonely_rooms(d1, all, rooms) == lonely_rooms(d2, all, rooms),
    decreases rooms.len(),
{
    if rooms.len() > 0 {
        lemma_lonely_ignores_limit(d1, d2, all, rooms.drop_last());
    }
}

/// A limit decides how many rows a report shows, never which or what they
/// hold: two definitions that differ only in their limit have the same
/// header and the same rows before the limit, of which each shows the first
/// ones.
pub proof fn law_limit_changes_only_how_many(
    d1: ReportDefinition,
    d2: ReportDefinition,
    ks: SourcesV,
    rooms: Seq<RoomResponseV>,
    elements: Seq<ElementV>,
)
    requires
        same_but_limit(d1, d2),
    ensures
        report_rows(d1, ks, rooms, elements) == report_rows(d2, ks, rooms, elements),
        def_columns(d1) == def_columns(d2),
{
    lemma_schedule_ignores_limit(d1, d2, ks.element, elements);
    lemma_per_match_ignores_limit(d1, d2, ks, rooms, elements, elements);
    lemma_per_room_ignores_limit(d1, d2, ks, rooms, elements, crate::reports::group_keys(elements));
    lemma_groups_ignore_limit(d1, d2, ks, elements);
    lemma_lonely_ignores_limit(d1, d2, elements, rooms);
    let l1 = lonely_rooms(d1, elements, rooms);
    assert(l1.map_values(|r: RoomResponseV| crate::reports::room_only_row_of(d1, ks, r)) =~= l1.map_values(
        |r: RoomResponseV| crate::reports::room_only_row_of(d2, ks, r),
    ));
}

/// Strictly ascending in text order: sorted, and nothing twice.
pub open spec fn ascending(s: Seq<Seq<char>>) -> bool {
    forall|i: int, j: int| 0 <= i < j < s.len() ==> text_lt(#[trigger] s[i], #[trigger] s[j])
}

/// The keys of a comparison's changed rooms, in order.
pub open spec fn changed_keys(cs: Seq<ChangedRoomV>) -> Seq<Seq<char>> {
    cs.map_values(|c: ChangedRoomV| c.key)
}

/// What a comparison against a baseline keeps in order: rooms added and
/// rooms removed each in strictly ascending key order, sharing no key;
/// changed rooms in strictly ascending key order; no key value more than
/// one baseline room holds among the rooms removed or changed; no key value
/// more than one of the compared milestone's rooms holds among the rooms
/// added or changed.
pub open spec fn comparison_ordered(c: MilestoneComparisonV, baseline_duplicates: Seq<DuplicateKeyValueV>) -> bool {
    &&& ascending(c.rooms_added)
    &&& ascending(c.rooms_removed)
    &&& c.rooms_added.disjoint(c.rooms_removed)
    &&& ascending(changed_keys(c.changed_rooms))
    &&& forall|d: int|
        0 <= d < baseline_duplicates.len() ==> !c.rooms_removed.contains(#[trigger] baseline_duplicates[d].value)
            && !changed_keys(c.changed_rooms).contains(baseline_duplicates[d].value)
    &&& forall|d: int|
        0 <= d < c.duplicate_key_values.len() ==> !c.rooms_added.contains(#[trigger] c.duplicate_key_values[d].value)
            && !changed_keys(c.changed_rooms).contains(c.duplicate_key_values[d].value)
}

proof fn lemma_distinct_names_unique(names: Seq<Seq<char>>)
    ensures
        distinct_names(names).no_duplicates(),
    decreases names.len(),
{
    if names.len() > 0 {
        lemma_distinct_names_unique(names.drop_last());
    }
}

/// The key values a side is indexed by are strictly ascending.
proof fn lemma_key_values_ascending(keyed: Seq<(Seq<char>, RoomResponseV)>)
    ensures
        ascending(key_values(keyed)),
{
    let d = distinct_names(keyed.map_values(|p: (Seq<char>, RoomResponseV)| p.0));
    let v = key_values(keyed);
    lemma_distinct_names_unique(keyed.map_values(|p: (Seq<char>, RoomResponseV)| p.0));
    lemma_sorted_of::<String>(d);
    d.lemma_multiset_has_no_duplicates();
    v.lemma_multiset_has_no_duplicates_conv();
    assert forall|i: int, j: int| 0 <= i < j < v.len() implies text_lt(#[trigger] v[i], #[trigger] v[j]) by {
        lemma_text_lt_total(v[i], v[j]);
    }
}

/// The unambiguous values, in the order given: each a given value exactly
/// one room holds.
proof fn lemma_singles(values: Seq<Seq<char>>, keyed: Seq<(Seq<char>, RoomResponseV)>)
    ensures
        forall|i: int|
            0 <= i < index_keys(singles(values, keyed)).len() ==> values.contains(#[trigger] index_keys(singles(values, keyed))[i])
                && with_key(keyed, index_keys(singles(values, keyed))[i]).len() == 1,
        ascending(values) ==> ascending(index_keys(singles(values, keyed))),
    decreases values.len(),
{
    if values.len() > 0 {
        let front = values.drop_last();
        lemma_singles(front, keyed);
        let before = index_keys(singles(front, keyed));
        let after = index_keys(singles(values, keyed));
        let v = values.last();
        assert forall|i: int| 0 <= i < after.len() implies values.contains(#[trigger] after[i]) && with_key(keyed, after[i]).len()
            == 1 by {
            if i < before.len() {
                assert(after[i] == before[i]);
                let k = choose|k: int| 0 <= k < front.len() && front[k] == before[i];
                assert(values[k] == front[k]);
            } else {
                assert(after[i] == v);
                assert(values[values.len() - 1] == v);
            }
        }
        if ascending(values) {
            assert forall|i: int, j: int| 0 <= i < j < front.len() implies text_lt(#[trigger] front[i], #[trigger] front[j]) by {
                assert(front[i] == values[i] && front[j] == values[j]);
            }
            assert forall|i: int, j: int| 0 <= i < j < after.len() implies text_lt(#[trigger] after[i], #[trigger] after[j]) by {
                if j < before.len() {
                    assert(after[i] == before[i] && after[j] == before[j]);
                } else {
                    assert(after[i] == before[i] && after[j] == v);
                    let k = choose|k: int| 0 <= k < front.len() && front[k] == before[i];
                    assert(values[k] == before[i]);
                    assert(values[values.len() - 1] == v);
                }
            }
        }
    }
}

/// The ambiguous values: each held by more than one room.
proof fn lemma_duplicates(values: Seq<Seq<char>>, keyed: Seq<(Seq<char>, RoomResponseV)>)
    ensures
        forall|d: int|
            0 <= d < duplicates_of(values, keyed).len() ==> with_key(keyed, (#[trigger] duplicates_of(values, keyed)[d]).value).len() > 1,
    decreases values.len(),
{
    if values.len() > 0 {
        lemma_duplicates(values.drop_last(), keyed);
        let before = duplicates_of(values.drop_last(), keyed);
        let after = duplicates_of(values, keyed);
        assert forall|d: int| 0 <= d < after.len() implies with_key(keyed, (#[trigger] after[d]).value).len() > 1 by {
            if d < before.len() {
                assert(after[d] == before[d]);
            }
        }
    }
}

/// The keys of `from` that `other` lacks: keys of `from`, none of
/// `other`'s, in `from`'s order.
proof fn lemma_keys_missing(from: Seq<(Seq<char>, RoomResponseV)>, other: Seq<(Seq<char>, RoomResponseV)>)
    ensures
        forall|i: int|
            0 <= i < keys_missing_from(from, other).len() ==> index_keys(from).contains(#[trigger] keys_missing_from(from, other)[i])
                && !index_keys(other).contains(keys_missing_from(from, other)[i]),
        ascending(index_keys(from)) ==> ascending(keys_missing_from(from, other)),
    decreases from.len(),
{
    if from.len() > 0 {
        let front = from.drop_last();
        lemma_keys_missing(front, other);
        let before = keys_missing_from(front, other);
        let after = keys_missing_from(from, other);
        let kf = index_keys(from);
        let kfront = index_keys(front);
        assert(kfront =~= kf.drop_last());
        assert forall|i: int| 0 <= i < after.len() implies kf.contains(#[trigger] after[i]) && !index_keys(other).contains(
            after[i],
        ) by {
            if i < before.len() {
                assert(after[i] == before[i]);
                let k = choose|k: int| 0 <= k < kfront.len() && kfront[k] == before[i];
                assert(kf[k] == kfront[k]);
            } else {
                assert(kf[kf.len() - 1] == from.last().0);
            }
        }
        if ascending(kf) {
            assert forall|i: int, j: int| 0 <= i < j < after.len() implies text_lt(#[trigger] after[i], #[trigger] after[j]) by {
                if j < before.len() {
                    assert(after[i] == before[i] && after[j] == before[j]);
                } else {
                    assert(after[i] == before[i]);
                    let k = choose|k: int| 0 <= k < kfront.len() && kfront[k] == before[i];
                    assert(kf[k] == kfront[k]);
                    assert(kf[kf.len() - 1] == after[j]);
                }
            }
        }
    }
}

/// The changed rooms: keys of the baseline the other side holds too, in
/// the baseline's order.
proof fn lemma_changed(
    base: Seq<(Seq<char>, RoomResponseV)>,
    other: Seq<(Seq<char>, RoomResponseV)>,
    props: Seq<Seq<char>>,
    known: Seq<Seq<char>>,
)
    ensures
        forall|i: int|
            0 <= i < changed_keys(changed_of(base, other, props, known)).len() ==> index_keys(base).contains(
                #[trigger] changed_keys(changed_of(base, other, props, known))[i],
            ) && index_keys(other).contains(changed_keys(changed_of(base, other, props, known))[i]),
        ascending(index_keys(base)) ==> ascending(changed_keys(changed_of(base, other, props, known))),
    decreases base.len(),
{
    if base.len() > 0 {
        let front = base.drop_last();
        lemma_changed(front, other, props, known);
        let before = changed_keys(changed_of(front, other, props, known));
        let after = changed_keys(changed_of(base, other, props, known));
        let kb = index_keys(base);
        let kfront = index_keys(front);
        assert(kfront =~= kb.drop_last());
        let (k, b) = base.last();
        assert(kb[kb.len() - 1] == k);
        if paired(other, k) is Some {
            lemma_first_where(other, has_value(k));
            let w = first_where(other, has_value(k));
            assert(index_keys(other)[w] == k);
        }
        assert forall|i: int| 0 <= i < after.len() implies kb.contains(#[trigger] after[i]) && index_keys(other).contains(after[i]) by {
            if i < before.len() {
                assert(after[i] == before[i]);
                let q = choose|q: int| 0 <= q < kfront.len() && kfront[q] == before[i];
                assert(kb[q] == kfront[q]);
            } else {
                assert(after[i] == k);
            }
        }
        if ascending(kb) {
            assert forall|i: int, j: int| 0 <= i < j < after.len() implies text_lt(#[trigger] after[i], #[trigger] after[j]) by {
                if j < before.len() {
                    assert(after[i] == before[i] && after[j] == before[j]);
                } else {
                    assert(after[i] == before[i]);
                    let q = choose|q: int| 0 <= q < kfront.len() && kfront[q] == before[i];
                    assert(kb[q] == kfront[q]);
                    assert(after[j] == k);
                }
            }
        }
    }
}

/// An index's keys: strictly ascending, each a value exactly one room
/// holds, so never one of the side's ambiguous values.
proof fn lemma_index_keys(rooms: Seq<RoomResponseV>, key: Seq<char>, known: Seq<Seq<char>>)
    ensures
        ascending(index_keys(index_of_rooms(rooms, key, known))),
        forall|d: int|
            0 <= d < duplicates_in(rooms, key, known).len() ==> !index_keys(index_of_rooms(rooms, key, known)).contains(
                (#[trigger] duplicates_in(rooms, key, known)[d]).value,
            ),
{
    let k = keyed_rooms(rooms, key, known);
    lemma_key_values_ascending(k);
    lemma_singles(key_values(k), k);
    lemma_duplicates(key_values(k), k);
    let keys = index_keys(index_of_rooms(rooms, key, known));
    let dups = duplicates_in(rooms, key, known);
    assert forall|d: int| 0 <= d < dups.len() implies !keys.contains((#[trigger] dups[d]).value) by {
        if keys.contains(dups[d].value) {
            let i = choose|i: int| 0 <= i < keys.len() && keys[i] == dups[d].value;
            assert(with_key(k, keys[i]).len() == 1);
        }
    }
}

proof fn lemma_comparison_ordered(
    name: Seq<char>,
    base_rooms: Seq<RoomResponseV>,
    other_rooms: Seq<RoomResponseV>,
    key: Seq<char>,
    props: Seq<Seq<char>>,
    known: Seq<Seq<char>>,
)
    ensures
        comparison_ordered(
            milestone_comparison_of(name, index_of_rooms(base_rooms, key, known), other_rooms, key, props, known),
            duplicates_in(base_rooms, key, known),
        ),
{
    let base = index_of_rooms(base_rooms, key, known);
    let other = index_of_rooms(other_rooms, key, known);
    let c = milestone_comparison_of(name, base, other_rooms, key, props, known);
    lemma_index_keys(base_rooms, key, known);
    lemma_index_keys(other_rooms, key, known);
    lemma_keys_missing(other, base);
    lemma_keys_missing(base, other);
    lemma_changed(base, other, props, known);
    let ck = changed_keys(c.changed_rooms);
    assert forall|a: int, b: int| 0 <= a < c.rooms_added.len() && 0 <= b < c.rooms_removed.len() implies c.rooms_added[a]
        != c.rooms_removed[b] by {
        assert(!index_keys(base).contains(keys_missing_from(other, base)[a]));
        assert(index_keys(base).contains(keys_missing_from(base, other)[b]));
    }
    let bd = duplicates_in(base_rooms, key, known);
    assert forall|d: int| 0 <= d < bd.len() implies !c.rooms_removed.contains(#[trigger] bd[d].value) && !ck.contains(
        bd[d].value,
    ) by {
        assert(!index_keys(base).contains(bd[d].value));
        if c.rooms_removed.contains(bd[d].value) {
            let i = choose|i: int| 0 <= i < c.rooms_removed.len() && c.rooms_removed[i] == bd[d].value;
            assert(index_keys(base).contains(keys_missing_from(base, other)[i]));
        }
        if ck.contains(bd[d].value) {
            let i = choose|i: int| 0 <= i < ck.len() && ck[i] == bd[d].value;
            assert(index_keys(base).contains(changed_keys(changed_of(base, other, props, known))[i]));
        }
    }
    let od = c.duplicate_key_values;
    assert forall|d: int| 0 <= d < od.len() implies !c.rooms_added.contains(#[trigger] od[d].value) && !ck.contains(od[d].value) by {
        assert(!index_keys(other).contains(od[d].value));
        if c.rooms_added.contains(od[d].value) {
            let i = choose|i: int| 0 <= i < c.rooms_added.len() && c.rooms_added[i] == od[d].value;
            assert(index_keys(other).contains(keys_missing_from(other, base)[i]));
        }
        if ck.contains(od[d].value) {
            let i = choose|i: int| 0 <= i < ck.len() && ck[i] == od[d].value;
            assert(index_keys(other).contains(changed_keys(changed_of(base, other, props, known))[i]));
        }
    }
}

proof fn lemma_comparisons(
    state: AppState,
    project: Seq<char>,
    baseline: Seq<char>,
    others: Seq<Seq<char>>,
    base_rooms: Seq<RoomResponseV>,
    key: Seq<char>,
    props: Seq<Seq<char>>,
    known: Seq<Seq<char>>,
)
    ensures
        ({
            let cs = comparisons_of(state, project, baseline, others, index_of_rooms(base_rooms, key, known), key, props, known);
            &&& cs.map_values(|c: MilestoneComparisonV| c.milestone) == others.filter(|o: Seq<char>| o != baseline)
            &&& forall|i: int| 0 <= i < cs.len() ==> comparison_ordered(#[trigger] cs[i], duplicates_in(base_rooms, key, known))
        }),
    decreases others.len(),
{
    reveal(Seq::filter);
    let base = index_of_rooms(base_rooms, key, known);
    if others.len() > 0 {
        let front = others.drop_last();
        lemma_comparisons(state, project, baseline, front, base_rooms, key, props, known);
        let before = comparisons_of(state, project, baseline, front, base, key, props, known);
        let cs = comparisons_of(state, project, baseline, others, base, key, props, known);
        let other = others.last();
        if other != baseline {
            lemma_comparison_ordered(other, base_rooms, milestone_rooms_of(state, project, other), key, props, known);
            assert forall|i: int| 0 <= i < cs.len() implies comparison_ordered(#[trigger] cs[i], duplicates_in(base_rooms, key, known)) by {
                if i < before.len() {
                    assert(cs[i] == before[i]);
                }
            }
            assert(cs.map_values(|c: MilestoneComparisonV| c.milestone) =~= before.map_values(|c: MilestoneComparisonV| c.milestone).push(
                other,
            ));
        }
    }
}

/// A comparison compares, against the baseline, each milestone asked for
/// but the baseline, in the order asked; in each, rooms added and rooms
/// removed are in strictly ascending key order and share no key, changed
/// rooms are in strictly ascending key order, and a key value more than one
/// room holds is never reported as added, removed or changed: a baseline
/// one never as removed or changed, a compared milestone's one never as
/// added or changed.
pub proof fn law_comparisons_are_ordered_and_disjoint(state: AppState, project: Seq<char>, baseline: Seq<char>, others: Seq<Seq<char>>)
    ensures
        ({
            let resp = compare_of(state, project, baseline, others);
            &&& resp.comparison_key_configured ==> resp.comparisons.map_values(|c: MilestoneComparisonV| c.milestone) == others.filter(
                |o: Seq<char>| o != baseline,
            )
            &&& forall|i: int|
                0 <= i < resp.comparisons.len() ==> comparison_ordered(#[trigger] resp.comparisons[i], resp.baseline_duplicate_key_values)
        }),
{
    match settings_of(state.registry.view_projects(), project) {
        None => {},
        Some(s) => match s.comparison_key {
            None => {},
            Some(key) => {
                let known = room_source_names(s.reference);
                let base_rooms = milestone_rooms_of(state, project, baseline);
                lemma_comparisons(state, project, baseline, others, base_rooms, key, s.comparison_properties, known);
            },
        },
    }
}

} // verus!
