//! What each operation answers, stated over its inputs rather than over the
//! steps that compute it: what a milestone comparison reports of a room, how
//! numbers are ordered, what a CSV field reads back as, where a catalog's
//! property columns come from, and which pins a milestone read follows.
use vstd::prelude::*;
use crate::comparison::{diff_acc, diff_room_of, values_agree_of, PropertyDifferenceV};
use crate::contract::Presence;
use crate::rooms::{resolved_of, RoomResponseV};
use crate::decimal::{all_digits, dec_lt, digits_value, is_digit, mag_lt, parse_decimal, pow10, strip_leading_zeros, strip_trailing_zeros, DecimalV};
use crate::filter::{ordered, Op};
use crate::text::{joined, lemma_text_lt_asymmetric, lemma_text_lt_irreflexive, lemma_text_lt_total, text_lt};
use crate::contract::{Field, FieldV, SnapshotKind};
use crate::keyed::entry;
use crate::scope::{plan_of, plan_row, PlannedReadV};
use crate::settings::{milestone_of, settings_of, MilestoneV, ProjectEntryV};
use crate::state::{latest_in, snapshot_in, AppState, ModelIndexRowV};
use crate::contract::PropV;
use crate::keyed::{index_of, lemma_index_of, has_key};
use crate::order::lemma_sorted_of;
use crate::records::PayloadV;
use crate::reports::{
    csv_field, csv_of, csv_record, csv_rows, doubled_quotes, needs_quotes, ColumnV, distinct_names, element_infos, lemma_distinct_names_from, prop_info, stored_columns, stored_infos, stored_properties_of, Carries,
    ColumnInfo, ColumnInfoV,
};

verus! {

/// How one compared property stands between a baseline room and the other:
/// a difference is owed exactly when the baseline has the property and the
/// other room's value is blank, or is there and disagrees.
pub open spec fn owed_difference(
    baseline: RoomResponseV,
    other: RoomResponseV,
    property: Seq<char>,
    known: Seq<Seq<char>>,
    d: PropertyDifferenceV,
) -> bool {
    &&& d.property == property
    &&& resolved_of(baseline, property, known).1 == Presence::Present(d.baseline_value)
    &&& ({
        ||| (resolved_of(other, property, known).1 == Presence::Empty && d.other_value == Seq::<char>::empty())
        ||| (resolved_of(other, property, known).1 == Presence::Present(d.other_value) && !values_agree_of(
            d.baseline_value,
            d.other_value,
        ))
    })
}

/// The difference a property owes when the baseline has it, if any: to the
/// empty text when the other room's value is blank, to the other value when
/// it is there and disagrees.
pub open spec fn difference_owed(
    baseline: RoomResponseV,
    other: RoomResponseV,
    property: Seq<char>,
    known: Seq<Seq<char>>,
) -> Option<PropertyDifferenceV> {
    match resolved_of(baseline, property, known).1 {
        Presence::Present(bv) => match resolved_of(other, property, known).1 {
            Presence::Empty => Some(PropertyDifferenceV { property, baseline_value: bv, other_value: Seq::empty() }),
            Presence::Present(ov) => if values_agree_of(bv, ov) {
                None
            } else {
                Some(PropertyDifferenceV { property, baseline_value: bv, other_value: ov })
            },
            Presence::Absent => None,
        },
        _ => None,
    }
}

proof fn lemma_differences(baseline: RoomResponseV, other: RoomResponseV, props: Seq<Seq<char>>, known: Seq<Seq<char>>)
    ensures
        forall|k: int|
            0 <= k < props.len() && #[trigger] difference_owed(baseline, other, props[k], known) is Some ==> diff_acc(
                baseline,
                other,
                props,
                known,
            ).0.contains(difference_owed(baseline, other, props[k], known).unwrap()),
        forall|i: int|
            0 <= i < diff_acc(baseline, other, props, known).0.len() ==> exists|k: int|
                0 <= k < props.len() && owed_difference(
                    baseline,
                    other,
                    #[trigger] props[k],
                    known,
                    #[trigger] diff_acc(baseline, other, props, known).0[i],
                ),
    decreases props.len(),
{
    if props.len() > 0 {
        let front = props.drop_last();
        lemma_differences(baseline, other, front, known);
        let d0 = diff_acc(baseline, other, front, known).0;
        let d = diff_acc(baseline, other, props, known).0;
        let n = props.len() - 1;
        let p = props[n];
        assert(p == props.last());
        let owed = difference_owed(baseline, other, p, known);
        assert(owed is Some ==> d == d0.push(owed.unwrap()));
        assert(owed is None ==> d == d0);
        assert forall|x: PropertyDifferenceV| d0.contains(x) implies d.contains(x) by {
            let j = choose|j: int| 0 <= j < d0.len() && d0[j] == x;
            if owed is Some {
                assert(d[j] == x);
            }
        }
        assert forall|k: int|
            0 <= k < props.len() && #[trigger] difference_owed(baseline, other, props[k], known) is Some implies d.contains(
                difference_owed(baseline, other, props[k], known).unwrap(),
            ) by {
            if k < n {
                assert(front[k] == props[k]);
                assert(d0.contains(difference_owed(baseline, other, front[k], known).unwrap()));
            } else {
                assert(d[d0.len() as int] == owed.unwrap());
            }
        }
        assert forall|i: int| 0 <= i < d.len() implies exists|k: int|
            0 <= k < props.len() && owed_difference(baseline, other, #[trigger] props[k], known, #[trigger] d[i]) by {
            if i < d0.len() {
                assert(d[i] == d0[i]);
                let k = choose|k: int| 0 <= k < front.len() && owed_difference(baseline, other, #[trigger] front[k], known, d0[i]);
                assert(props[k] == front[k]);
            } else {
                assert(owed_difference(baseline, other, props[n], known, d[i]));
            }
        }
    }
}

/// A compared room is reported as changed, with the difference, for every
/// compared property the baseline room has whose value the other room has
/// cleared (the difference going to the empty text) or holds and disagrees
/// on; and every difference it reports is one of those.
pub proof fn law_a_cleared_or_disagreeing_value_is_a_difference(
    key: Seq<char>,
    baseline: RoomResponseV,
    other: RoomResponseV,
    props: Seq<Seq<char>>,
    known: Seq<Seq<char>>,
)
    ensures
        forall|k: int|
            0 <= k < props.len() ==> match resolved_of(baseline, #[trigger] props[k], known).1 {
                Presence::Present(bv) => match resolved_of(other, props[k], known).1 {
                    Presence::Empty => (diff_room_of(key, baseline, other, props, known) matches Some(c)
                        && c.differences.contains(PropertyDifferenceV { property: props[k], baseline_value: bv, other_value: Seq::empty() })),
                    Presence::Present(ov) => !values_agree_of(bv, ov) ==> (diff_room_of(key, baseline, other, props, known) matches Some(c)
                        && c.differences.contains(PropertyDifferenceV { property: props[k], baseline_value: bv, other_value: ov })),
                    Presence::Absent => true,
                },
                _ => true,
            },
        diff_room_of(key, baseline, other, props, known) matches Some(c) ==> (c.key == key && forall|i: int|
            0 <= i < c.differences.len() ==> exists|k: int|
                0 <= k < props.len() && owed_difference(baseline, other, #[trigger] props[k], known, #[trigger] c.differences[i])),
{
    lemma_differences(baseline, other, props, known);
    let d = diff_acc(baseline, other, props, known).0;
    assert forall|k: int| 0 <= k < props.len() implies match resolved_of(baseline, #[trigger] props[k], known).1 {
        Presence::Present(bv) => match resolved_of(other, props[k], known).1 {
            Presence::Empty => (diff_room_of(key, baseline, other, props, known) matches Some(c)
                && c.differences.contains(PropertyDifferenceV { property: props[k], baseline_value: bv, other_value: Seq::empty() })),
            Presence::Present(ov) => !values_agree_of(bv, ov) ==> (diff_room_of(key, baseline, other, props, known) matches Some(c)
                && c.differences.contains(PropertyDifferenceV { property: props[k], baseline_value: bv, other_value: ov })),
            Presence::Absent => true,
        },
        _ => true,
    } by {
        if difference_owed(baseline, other, props[k], known) is Some {
            assert(d.contains(difference_owed(baseline, other, props[k], known).unwrap()));
            assert(d.len() > 0);
        }
    }
}

/// The snapshot id a milestone pins a model to for a read of one kind, read
/// off that kind's own pin list: `attachments` for rooms, and the doors,
/// windows, FF&E, spaces, ceilings and floors lists for theirs.
pub open spec fn pinned_for(ms: MilestoneV, kind: SnapshotKind, model: Seq<char>) -> Option<Seq<char>> {
    let pins = match kind {
        SnapshotKind::Rooms => ms.attachments,
        SnapshotKind::Doors => ms.door_attachments,
        SnapshotKind::Windows => ms.window_attachments,
        SnapshotKind::Ffe => ms.ffe_attachments,
        SnapshotKind::Spaces => ms.space_attachments,
        SnapshotKind::Ceilings => ms.ceiling_attachments,
        SnapshotKind::Floors => ms.floor_attachments,
    };
    match entry::<Field>(pins, model) {
        Some(f) => Some(f.value),
        None => None,
    }
}

proof fn lemma_plan_from_pins(
    index: Seq<ModelIndexRowV>,
    projects: Seq<ProjectEntryV>,
    kind: SnapshotKind,
    project: Option<Seq<char>>,
    wanted: Seq<char>,
)
    ensures
        forall|j: int|
            0 <= j < plan_of(index, projects, kind, project, Some(wanted)).len() ==> {
                let pr = #[trigger] plan_of(index, projects, kind, project, Some(wanted))[j];
                settings_of(projects, pr.key.project_id) matches Some(s) && milestone_of(s, wanted) matches Some(ms)
                    && pinned_for(ms, kind, pr.key.model_id) == Some(pr.id)
            },
        forall|i: int|
            0 <= i < index.len() ==> (#[trigger] plan_row(index[i], projects, kind, project, Some(wanted)) is Some
                ==> plan_of(index, projects, kind, project, Some(wanted)).contains(
                plan_row(index[i], projects, kind, project, Some(wanted)).unwrap(),
            )),
    decreases index.len(),
{
    if index.len() > 0 {
        let rest = index.drop_last();
        lemma_plan_from_pins(rest, projects, kind, project, wanted);
        let plan = plan_of(index, projects, kind, project, Some(wanted));
        let before = plan_of(rest, projects, kind, project, Some(wanted));
        assert forall|j: int| 0 <= j < plan.len() implies {
            let pr = #[trigger] plan[j];
            settings_of(projects, pr.key.project_id) matches Some(s) && milestone_of(s, wanted) matches Some(ms)
                && pinned_for(ms, kind, pr.key.model_id) == Some(pr.id)
        } by {
            if j < before.len() {
                assert(plan[j] == before[j]);
            } else {
                assert(plan_row(index.last(), projects, kind, project, Some(wanted)) == Some(plan[j]));
            }
        }
        assert forall|i: int|
            0 <= i < index.len() && #[trigger] plan_row(index[i], projects, kind, project, Some(wanted)) is Some implies plan.contains(
                plan_row(index[i], projects, kind, project, Some(wanted)).unwrap(),
            ) by {
            let pr = plan_row(index[i], projects, kind, project, Some(wanted)).unwrap();
            if i < rest.len() {
                assert(rest[i] == index[i]);
                let k = choose|k: int| 0 <= k < before.len() && before[k] == pr;
                assert(plan[k] == pr);
            } else {
                assert(index[i] == index.last());
                assert(plan[plan.len() - 1] == pr);
            }
        }
    }
}

/// Under a milestone, a read of each kind follows that kind's own pins:
/// every planned read names, for its model, the snapshot the milestone pins
/// the model to in the pin list of the kind read; and every model of a
/// registered project in scope that holds a snapshot of the kind and that
/// the milestone pins for the kind is read, at that pin.
pub proof fn law_milestone_reads_follow_their_kinds_pins(
    index: Seq<ModelIndexRowV>,
    projects: Seq<ProjectEntryV>,
    kind: SnapshotKind,
    project: Option<Seq<char>>,
    wanted: Seq<char>,
)
    ensures
        forall|j: int|
            0 <= j < plan_of(index, projects, kind, project, Some(wanted)).len() ==> {
                let pr = #[trigger] plan_of(index, projects, kind, project, Some(wanted))[j];
                settings_of(projects, pr.key.project_id) matches Some(s) && milestone_of(s, wanted) matches Some(ms)
                    && pinned_for(ms, kind, pr.key.model_id) == Some(pr.id)
            },
        forall|i: int|
            0 <= i < index.len() && (project is None || project == Some(index[i].key.project_id)) && latest_in(
                index[i].latest,
                kind,
            ) is Some ==> match settings_of(projects, index[i].key.project_id) {
                Some(s) => match milestone_of(s, wanted) {
                    Some(ms) => match pinned_for(ms, kind, index[i].key.model_id) {
                        Some(id) => plan_of(index, projects, kind, project, Some(wanted)).contains(PlannedReadV { key: index[i].key, id }),
                        None => true,
                    },
                    None => true,
                },
                None => true,
            },
{
    lemma_plan_from_pins(index, projects, kind, project, wanted);
    assert forall|i: int|
        0 <= i < index.len() && (project is None || project == Some(index[i].key.project_id)) && latest_in(
            index[i].latest,
            kind,
        ) is Some implies match settings_of(projects, index[i].key.project_id) {
            Some(s) => match milestone_of(s, wanted) {
                Some(ms) => match pinned_for(ms, kind, index[i].key.model_id) {
                    Some(id) => plan_of(index, projects, kind, project, Some(wanted)).contains(PlannedReadV { key: index[i].key, id }),
                    None => true,
                },
                None => true,
            },
            None => true,
        } by {
        if let Some(s) = settings_of(projects, index[i].key.project_id) {
            if let Some(ms) = milestone_of(s, wanted) {
                if pinned_for(ms, kind, index[i].key.model_id) is Some {
                    assert(crate::scope::pins_of(ms, kind) == match kind {
                        SnapshotKind::Rooms => ms.attachments,
                        SnapshotKind::Doors => ms.door_attachments,
                        SnapshotKind::Windows => ms.window_attachments,
                        SnapshotKind::Ffe => ms.ffe_attachments,
                        SnapshotKind::Spaces => ms.space_attachments,
                        SnapshotKind::Ceilings => ms.ceiling_attachments,
                        SnapshotKind::Floors => ms.floor_attachments,
                    });
                    let id = pinned_for(ms, kind, index[i].key.model_id).unwrap();
                    assert(plan_row(index[i], projects, kind, project, Some(wanted)) == Some(PlannedReadV { key: index[i].key, id }));
                    assert(plan_of(index, projects, kind, project, Some(wanted)).contains(PlannedReadV { key: index[i].key, id }));
                }
            }
        }
    }
}

/// Whether a column is the one a property some element carries is offered as.
pub open spec fn offered_by<E: Carries>(elements: Seq<E::V>, c: ColumnInfoV) -> bool {
    exists|j: int, k: int|
        #![trigger E::carried(elements[j])[k]]
        0 <= j < elements.len() && 0 <= k < E::carried(elements[j]).len() && c == prop_info(E::carried(elements[j])[k])
}

proof fn lemma_element_infos<E: Carries>(elements: Seq<E::V>)
    ensures
        forall|i: int|
            0 <= i < element_infos::<E>(elements).len() ==> offered_by::<E>(elements, #[trigger] element_infos::<E>(elements)[i]),
    decreases elements.len(),
{
    if elements.len() > 0 {
        let front = elements.drop_last();
        lemma_element_infos::<E>(front);
        assert(element_infos::<E>(elements) == element_infos::<E>(front) + E::carried(elements.last()).map_values(
            |p: PropV| prop_info(p),
        ));
        assert forall|i: int| 0 <= i < element_infos::<E>(elements).len() implies offered_by::<E>(
            elements,
            #[trigger] element_infos::<E>(elements)[i],
        ) by {
            let nb = element_infos::<E>(front).len();
            let c = element_infos::<E>(elements)[i];
            if i < nb {
                assert(c == element_infos::<E>(front)[i]);
                assert(offered_by::<E>(front, c));
                let (j, k) = choose|j: int, k: int|
                    #![trigger E::carried(front[j])[k]]
                    0 <= j < front.len() && 0 <= k < E::carried(front[j]).len() && c == prop_info(E::carried(front[j])[k]);
                assert(elements[j] == front[j]);
                assert(E::carried(elements[j])[k] == E::carried(front[j])[k]);
            } else {
                let t = i - nb;
                let n = elements.len() - 1;
                assert(elements[n] == elements.last());
                assert(c == prop_info(E::carried(elements[n])[t]));
            }
        }
    }
}

/// Whether a column is offered by a property of an element of the latest
/// snapshot of the kind of some model of the project.
pub open spec fn offered_in<E: Carries>(
    index: Seq<ModelIndexRowV>,
    history: Seq<PayloadV<E::V>>,
    kind: SnapshotKind,
    project: Seq<char>,
    c: ColumnInfoV,
) -> bool {
    exists|r: int, id: Seq<char>|
        #![trigger index[r], snapshot_in(history, project, index[r].key.model_id, id)]
        0 <= r < index.len() && index[r].key.project_id == project && latest_in(index[r].latest, kind) == Some(id)
            && snapshot_in(history, project, index[r].key.model_id, id) is Some && offered_by::<E>(snapshot_in(history, project, index[r].key.model_id, id).unwrap().elements, c)
}

proof fn lemma_stored_infos<E: Carries>(
    index: Seq<ModelIndexRowV>,
    history: Seq<PayloadV<E::V>>,
    kind: SnapshotKind,
    project: Seq<char>,
)
    ensures
        forall|i: int|
            0 <= i < stored_infos::<E>(index, history, kind, Some(project)).len() ==> offered_in::<E>(
                index,
                history,
                kind,
                project,
                #[trigger] stored_infos::<E>(index, history, kind, Some(project))[i],
            ),
    decreases index.len(),
{
    if index.len() > 0 {
        let rest = index.drop_last();
        lemma_stored_infos::<E>(rest, history, kind, project);
        let row = index.last();
        let n = index.len() - 1;
        assert(index[n] == row);
        assert forall|i: int| 0 <= i < stored_infos::<E>(index, history, kind, Some(project)).len() implies offered_in::<E>(
            index,
            history,
            kind,
            project,
            #[trigger] stored_infos::<E>(index, history, kind, Some(project))[i],
        ) by {
            let nb = stored_infos::<E>(rest, history, kind, Some(project)).len();
            let c = stored_infos::<E>(index, history, kind, Some(project))[i];
            if i < nb {
                assert(c == stored_infos::<E>(rest, history, kind, Some(project))[i]);
                assert(offered_in::<E>(rest, history, kind, project, c));
                let (r, id) = choose|r: int, id: Seq<char>|
                    #![trigger rest[r], snapshot_in(history, project, rest[r].key.model_id, id)]
                    0 <= r < rest.len() && rest[r].key.project_id == project && latest_in(rest[r].latest, kind) == Some(id)
                        && snapshot_in(history, project, rest[r].key.model_id, id) is Some && offered_by::<E>(snapshot_in(history, project, rest[r].key.model_id, id).unwrap().elements, c);
                assert(index[r] == rest[r]);
                assert(snapshot_in(history, project, index[r].key.model_id, id) is Some);
            } else {
                let id = latest_in(row.latest, kind).unwrap();
                let s = snapshot_in(history, row.key.project_id, row.key.model_id, id).unwrap();
                lemma_element_infos::<E>(s.elements);
                let t = i - nb;
                assert(c == element_infos::<E>(s.elements)[t]);
                assert(offered_by::<E>(s.elements, c));
                assert(snapshot_in(history, project, index[n].key.model_id, id) == Some(s));
            }
        }
    }
}

/// Every column the stored-property part of a catalog offers is one of the
/// infos it was gathered from.
proof fn lemma_stored_columns(infos: Seq<ColumnInfoV>)
    ensures
        forall|i: int|
            0 <= i < stored_columns(infos).len() ==> exists|k: int| 0 <= k < infos.len() && #[trigger] infos[k] == #[trigger] stored_columns(infos)[i],
{
    let names = infos.map_values(|c: ColumnInfoV| c.name);
    let d = distinct_names(names);
    let sd = crate::order::sorted_of::<String>(d);
    lemma_sorted_of::<String>(d);
    lemma_distinct_names_from(names);
    assert forall|i: int| 0 <= i < stored_columns(infos).len() implies exists|k: int|
        0 <= k < infos.len() && #[trigger] infos[k] == #[trigger] stored_columns(infos)[i] by {
        let n = sd[i];
        assert(sd.to_multiset().count(n) > 0) by {
            vstd::seq_lib::to_multiset_contains(sd, n);
            assert(sd.contains(n));
        }
        vstd::seq_lib::to_multiset_contains(d, n);
        assert(d.contains(n));
        let jd = choose|jd: int| 0 <= jd < d.len() && d[jd] == n;
        assert(names.contains(d[jd]));
        let m = choose|m: int| 0 <= m < names.len() && names[m] == n;
        assert(infos[m].name == n);
        assert(has_key::<ColumnInfo>(infos, n));
        lemma_index_of::<ColumnInfo>(infos, n);
        let k = index_of::<ColumnInfo>(infos, n);
        assert(stored_columns(infos)[i] == infos[k]);
    }
}

/// Whether a stored snapshot of one kind in a project holds an element that
/// carries a property of this name (own or type tier).
pub open spec fn carried_in(state: AppState, kind: SnapshotKind, project: Seq<char>, model: Seq<char>, id: Seq<char>, name: Seq<char>) -> bool {
    match kind {
        SnapshotKind::Rooms => snapshot_in(state.rooms.deep_view(), project, model, id) matches Some(s) && exists|e: crate::records::RoomV, q: PropV|
            s.elements.contains(e) && #[trigger] e.properties.contains(q) && q.name == name,
        SnapshotKind::Doors => snapshot_in(state.doors.deep_view(), project, model, id) matches Some(s) && exists|e: crate::records::OpeningV, q: PropV|
            s.elements.contains(e) && #[trigger] (e.properties + e.type_properties).contains(q) && q.name == name,
        SnapshotKind::Windows => snapshot_in(state.windows.deep_view(), project, model, id) matches Some(s) && exists|e: crate::records::OpeningV, q: PropV|
            s.elements.contains(e) && #[trigger] (e.properties + e.type_properties).contains(q) && q.name == name,
        SnapshotKind::Ffe => snapshot_in(state.ffe.deep_view(), project, model, id) matches Some(s) && exists|e: crate::records::ItemV, q: PropV|
            s.elements.contains(e) && #[trigger] (e.properties + e.type_properties).contains(q) && q.name == name,
        SnapshotKind::Ceilings => snapshot_in(state.ceilings.deep_view(), project, model, id) matches Some(s) && exists|e: crate::records::CeilingV, q: PropV|
            s.elements.contains(e) && #[trigger] (e.properties + e.type_properties).contains(q) && q.name == name,
        _ => false,
    }
}

proof fn lemma_kind_columns<E: Carries>(
    index: Seq<ModelIndexRowV>,
    history: Seq<PayloadV<E::V>>,
    kind: SnapshotKind,
    project: Seq<char>,
    c: ColumnInfoV,
)
    requires
        stored_columns(stored_infos::<E>(index, history, kind, Some(project))).contains(c),
    ensures
        offered_in::<E>(index, history, kind, project, c),
{
    let infos = stored_infos::<E>(index, history, kind, Some(project));
    lemma_stored_columns(infos);
    lemma_stored_infos::<E>(index, history, kind, project);
    let i = choose|i: int| 0 <= i < stored_columns(infos).len() && stored_columns(infos)[i] == c;
    let k = choose|k: int| 0 <= k < infos.len() && #[trigger] infos[k] == #[trigger] stored_columns(infos)[i];
    assert(offered_in::<E>(index, history, kind, project, infos[k]));
}

/// The stored properties a project's catalog offers are its own: every one
/// is a property column named for a property that an element of the latest
/// snapshot of the kind, of some model of that same project, carries.
pub proof fn law_catalog_properties_are_the_projects_own(state: AppState, project: Seq<char>, kind: SnapshotKind)
    ensures
        forall|c: ColumnInfoV|
            #[trigger] stored_properties_of(state, Some(project), kind).contains(c) ==> c.kind == "property"@ && exists|r: int, id: Seq<char>|
                0 <= r < state.index.deep_view().len() && state.index.deep_view()[r].key.project_id == project
                    && latest_in(state.index.deep_view()[r].latest, kind) == Some(id) && #[trigger] carried_in(
                    state,
                    kind,
                    project,
                    state.index.deep_view()[r].key.model_id,
                    id,
                    c.name,
                ),
{
    let index = state.index.deep_view();
    assert forall|c: ColumnInfoV| #[trigger] stored_properties_of(state, Some(project), kind).contains(c) implies c.kind == "property"@
        && exists|r: int, id: Seq<char>|
        0 <= r < index.len() && index[r].key.project_id == project && latest_in(index[r].latest, kind) == Some(id)
            && #[trigger] carried_in(state, kind, project, index[r].key.model_id, id, c.name) by {
        match kind {
            SnapshotKind::Rooms => {
                let h = state.rooms.deep_view();
                lemma_kind_columns::<crate::records::Room>(index, h, kind, project, c);
                let (r, id) = choose|r: int, id: Seq<char>|
                    #![trigger index[r], snapshot_in(h, project, index[r].key.model_id, id)]
                    0 <= r < index.len() && index[r].key.project_id == project && latest_in(index[r].latest, kind) == Some(id)
                        && snapshot_in(h, project, index[r].key.model_id, id) is Some && offered_by::<crate::records::Room>(snapshot_in(h, project, index[r].key.model_id, id).unwrap().elements, c);
                let s = snapshot_in(h, project, index[r].key.model_id, id).unwrap();
                let (j, m) = choose|j: int, m: int|
                    #![trigger s.elements[j].properties[m]]
                    0 <= j < s.elements.len() && 0 <= m < s.elements[j].properties.len() && c == prop_info(s.elements[j].properties[m]);
                assert(s.elements.contains(s.elements[j]));
                assert(s.elements[j].properties.contains(s.elements[j].properties[m]));
                assert(carried_in(state, kind, project, index[r].key.model_id, id, c.name));
            },
            SnapshotKind::Doors => {
                let h = state.doors.deep_view();
                lemma_kind_columns::<crate::records::Opening>(index, h, kind, project, c);
                let (r, id) = choose|r: int, id: Seq<char>|
                    #![trigger index[r], snapshot_in(h, project, index[r].key.model_id, id)]
                    0 <= r < index.len() && index[r].key.project_id == project && latest_in(index[r].latest, kind) == Some(id)
                        && snapshot_in(h, project, index[r].key.model_id, id) is Some && offered_by::<crate::records::Opening>(snapshot_in(h, project, index[r].key.model_id, id).unwrap().elements, c);
                let s = snapshot_in(h, project, index[r].key.model_id, id).unwrap();
                let (j, m) = choose|j: int, m: int|
                    #![trigger (s.elements[j].properties + s.elements[j].type_properties)[m]]
                    0 <= j < s.elements.len() && 0 <= m < (s.elements[j].properties + s.elements[j].type_properties).len() && c == prop_info(
                        (s.elements[j].properties + s.elements[j].type_properties)[m],
                    );
                assert(s.elements.contains(s.elements[j]));
                assert((s.elements[j].properties + s.elements[j].type_properties).contains((s.elements[j].properties + s.elements[j].type_properties)[m]));
                assert(carried_in(state, kind, project, index[r].key.model_id, id, c.name));
            },
            SnapshotKind::Windows => {
                let h = state.windows.deep_view();
                lemma_kind_columns::<crate::records::Opening>(index, h, kind, project, c);
                let (r, id) = choose|r: int, id: Seq<char>|
                    #![trigger index[r], snapshot_in(h, project, index[r].key.model_id, id)]
                    0 <= r < index.len() && index[r].key.project_id == project && latest_in(index[r].latest, kind) == Some(id)
                        && snapshot_in(h, project, index[r].key.model_id, id) is Some && offered_by::<crate::records::Opening>(snapshot_in(h, project, index[r].key.model_id, id).unwrap().elements, c);
                let s = snapshot_in(h, project, index[r].key.model_id, id).unwrap();
                let (j, m) = choose|j: int, m: int|
                    #![trigger (s.elements[j].properties + s.elements[j].type_properties)[m]]
                    0 <= j < s.elements.len() && 0 <= m < (s.elements[j].properties + s.elements[j].type_properties).len() && c == prop_info(
                        (s.elements[j].properties + s.elements[j].type_properties)[m],
                    );
                assert(s.elements.contains(s.elements[j]));
                assert((s.elements[j].properties + s.elements[j].type_properties).contains((s.elements[j].properties + s.elements[j].type_properties)[m]));
                assert(carried_in(state, kind, project, index[r].key.model_id, id, c.name));
            },
            SnapshotKind::Ffe => {
                let h = state.ffe.deep_view();
                lemma_kind_columns::<crate::records::Item>(index, h, kind, project, c);
                let (r, id) = choose|r: int, id: Seq<char>|
                    #![trigger index[r], snapshot_in(h, project, index[r].key.model_id, id)]
                    0 <= r < index.len() && index[r].key.project_id == project && latest_in(index[r].latest, kind) == Some(id)
                        && snapshot_in(h, project, index[r].key.model_id, id) is Some && offered_by::<crate::records::Item>(snapshot_in(h, project, index[r].key.model_id, id).unwrap().elements, c);
                let s = snapshot_in(h, project, index[r].key.model_id, id).unwrap();
                let (j, m) = choose|j: int, m: int|
                    #![trigger (s.elements[j].properties + s.elements[j].type_properties)[m]]
                    0 <= j < s.elements.len() && 0 <= m < (s.elements[j].properties + s.elements[j].type_properties).len() && c == prop_info(
                        (s.elements[j].properties + s.elements[j].type_properties)[m],
                    );
                assert(s.elements.contains(s.elements[j]));
                assert((s.elements[j].properties + s.elements[j].type_properties).contains((s.elements[j].properties + s.elements[j].type_properties)[m]));
                assert(carried_in(state, kind, project, index[r].key.model_id, id, c.name));
            },
            SnapshotKind::Ceilings => {
                let h = state.ceilings.deep_view();
                lemma_kind_columns::<crate::records::Ceiling>(index, h, kind, project, c);
                let (r, id) = choose|r: int, id: Seq<char>|
                    #![trigger index[r], snapshot_in(h, project, index[r].key.model_id, id)]
                    0 <= r < index.len() && index[r].key.project_id == project && latest_in(index[r].latest, kind) == Some(id)
                        && snapshot_in(h, project, index[r].key.model_id, id) is Some && offered_by::<crate::records::Ceiling>(snapshot_in(h, project, index[r].key.model_id, id).unwrap().elements, c);
                let s = snapshot_in(h, project, index[r].key.model_id, id).unwrap();
                let (j, m) = choose|j: int, m: int|
                    #![trigger (s.elements[j].properties + s.elements[j].type_properties)[m]]
                    0 <= j < s.elements.len() && 0 <= m < (s.elements[j].properties + s.elements[j].type_properties).len() && c == prop_info(
                        (s.elements[j].properties + s.elements[j].type_properties)[m],
                    );
                assert(s.elements.contains(s.elements[j]));
                assert((s.elements[j].properties + s.elements[j].type_properties).contains((s.elements[j].properties + s.elements[j].type_properties)[m]));
                assert(carried_in(state, kind, project, index[r].key.model_id, id, c.name));
            },
            _ => {},
        }
    }
}

/// The inside of a quoted CSV field read back (RFC 4180): each doubled
/// quote is one quote, every other character itself.
pub open spec fn undoubled(s: Seq<char>) -> Seq<char>
    decreases s.len(),
{
    if s.len() == 0 {
        Seq::empty()
    } else if s.len() >= 2 && s[s.len() - 1] == '"' && s[s.len() - 2] == '"' {
        undoubled(s.take(s.len() - 2)).push('"')
    } else {
        undoubled(s.drop_last()).push(s.last())
    }
}

/// Whether a character would end a bare field or its record early, or be
/// read as the start of a quoted field.
pub open spec fn special_in_csv(c: char) -> bool {
    c == ',' || c == '"' || c == '\n' || c == '\r'
}

proof fn lemma_undoubled(v: Seq<char>)
    ensures
        undoubled(doubled_quotes(v)) == v,
    decreases v.len(),
{
    if v.len() > 0 {
        let front = v.drop_last();
        lemma_undoubled(front);
        let d = doubled_quotes(v);
        let df = doubled_quotes(front);
        if v.last() == '"' {
            assert(d == df + seq!['"', '"']);
            assert(d.take(d.len() - 2) =~= df);
            assert(d[d.len() - 1] == '"' && d[d.len() - 2] == '"');
        } else {
            assert(d == df + seq![v.last()]);
            assert(d.drop_last() =~= df);
            assert(d[d.len() - 1] == v.last());
        }
        assert(v =~= front.push(v.last()));
    }
}

/// A CSV field reads back as the value it was written from (RFC 4180): a
/// value holding a comma, a quote, a carriage return or a line feed is
/// written quoted, and the inside of the quotes, each doubled quote read as
/// one, is the value; any other value is written as it is, since nothing
/// in it can end the field or its record early.
pub proof fn law_csv_fields_read_back(v: Seq<char>)
    ensures
        (exists|i: int| 0 <= i < v.len() && special_in_csv(#[trigger] v[i])) ==> ({
            let f = csv_field(v);
            &&& f.len() >= 2
            &&& f[0] == '"'
            &&& f[f.len() - 1] == '"'
            &&& undoubled(f.subrange(1, f.len() - 1)) == v
        }),
        (forall|i: int| 0 <= i < v.len() ==> !special_in_csv(#[trigger] v[i])) ==> csv_field(v) == v,
{
    let f = csv_field(v);
    if exists|i: int| 0 <= i < v.len() && special_in_csv(#[trigger] v[i]) {
        let i = choose|i: int| 0 <= i < v.len() && special_in_csv(#[trigger] v[i]);
        assert(crate::reports::needs_quotes(v)) by {
            assert(v[i] == ',' || v[i] == '"' || v[i] == '\n' || v[i] == '\r');
        }
        assert(f == seq!['"'] + doubled_quotes(v) + seq!['"']);
        assert(f.subrange(1, f.len() - 1) =~= doubled_quotes(v));
        lemma_undoubled(v);
    } else {
        assert(!crate::reports::needs_quotes(v)) by {
            if crate::reports::needs_quotes(v) {
                let i = choose|i: int| 0 <= i < v.len() && (v[i] == ',' || v[i] == '"' || v[i] == '\n' || v[i] == '\r');
                assert(special_in_csv(v[i]));
            }
        }
    }
}

proof fn lemma_pow10_pos(n: nat)
    ensures
        pow10(n) >= 1,
    decreases n,
{
    if n > 0 {
        lemma_pow10_pos((n - 1) as nat);
    }
}

proof fn lemma_pow10_le(a: nat, b: nat)
    requires
        a <= b,
    ensures
        pow10(a) <= pow10(b),
    decreases b,
{
    if a < b {
        lemma_pow10_le(a, (b - 1) as nat);
        lemma_pow10_pos((b - 1) as nat);
    }
}

/// A digit string's value is below ten to its length.
proof fn lemma_value_below(s: Seq<char>)
    requires
        all_digits(s),
    ensures
        digits_value(s) < pow10(s.len()),
    decreases s.len(),
{
    if s.len() > 0 {
        let f = s.drop_last();
        assert(all_digits(f)) by {
            assert forall|i: int| 0 <= i < f.len() implies is_digit(#[trigger] f[i]) by {
                assert(f[i] == s[i]);
            }
        }
        lemma_value_below(f);
        assert(is_digit(s[s.len() - 1]));
        let d = (s.last() as int - '0' as int) as nat;
        assert(d <= 9);
        let v = digits_value(f);
        let p = pow10(f.len());
        assert(v * 10 + d < p * 10) by (nonlinear_arith)
            requires
                v < p,
                d <= 9,
        ;
    }
}

/// The value of two digit strings written one after the other.
proof fn lemma_value_concat(a: Seq<char>, b: Seq<char>)
    ensures
        digits_value(a + b) == digits_value(a) * pow10(b.len()) + digits_value(b),
    decreases b.len(),
{
    if b.len() > 0 {
        let bf = b.drop_last();
        lemma_value_concat(a, bf);
        assert((a + b).drop_last() =~= a + bf);
        assert((a + b).last() == b.last());
        let x = digits_value(a);
        let y = digits_value(bf);
        let p = pow10(bf.len());
        let d = b.last() as int - '0' as int;
        assert((x * p + y) * 10 + d == x * (p * 10) + (y * 10 + d)) by (nonlinear_arith);
    } else {
        assert(a + b =~= a);
        assert(digits_value(b) == 0);
        assert(pow10(0) == 1);
        assert(digits_value(a) * 1 == digits_value(a));
    }
}

/// The value of a single digit.
proof fn lemma_value_digit(c: char)
    ensures
        digits_value(seq![c]) == (c as int - '0' as int) as nat,
{
    assert(seq![c].drop_last() =~= Seq::<char>::empty());
    assert(digits_value(Seq::<char>::empty()) == 0);
    assert(seq![c].last() == c);
}

/// A digit string with no leading zero is at least ten to one less than its
/// length.
proof fn lemma_value_above(s: Seq<char>)
    requires
        all_digits(s),
        s.len() > 0,
        s[0] != '0',
    ensures
        digits_value(s) >= pow10((s.len() - 1) as nat),
{
    let rest = s.drop_first();
    assert(s =~= seq![s[0]] + rest);
    lemma_value_concat(seq![s[0]], rest);
    lemma_value_digit(s[0]);
    assert(is_digit(s[0]));
    let d = digits_value(seq![s[0]]);
    assert(d >= 1);
    let p = pow10(rest.len());
    assert(d * p >= p) by (nonlinear_arith)
        requires
            d >= 1,
            p >= 0,
    ;
}

/// Of two digit strings of one length, the one first in text order names
/// the smaller number.
proof fn lemma_value_order(a: Seq<char>, b: Seq<char>)
    requires
        all_digits(a),
        all_digits(b),
        a.len() == b.len(),
        text_lt(a, b),
    ensures
        digits_value(a) < digits_value(b),
    decreases a.len(),
{
    let ra = a.drop_first();
    let rb = b.drop_first();
    assert(a =~= seq![a[0]] + ra);
    assert(b =~= seq![b[0]] + rb);
    lemma_value_concat(seq![a[0]], ra);
    lemma_value_concat(seq![b[0]], rb);
    lemma_value_digit(a[0]);
    lemma_value_digit(b[0]);
    let da = digits_value(seq![a[0]]);
    let db = digits_value(seq![b[0]]);
    assert(da == (a[0] as int - '0' as int) as nat);
    assert(db == (b[0] as int - '0' as int) as nat);
    assert(is_digit(a[0]) && is_digit(b[0]));
    assert(all_digits(ra)) by {
        assert forall|i: int| 0 <= i < ra.len() implies is_digit(#[trigger] ra[i]) by {
            assert(ra[i] == a[i + 1]);
        }
    }
    assert(all_digits(rb)) by {
        assert forall|i: int| 0 <= i < rb.len() implies is_digit(#[trigger] rb[i]) by {
            assert(rb[i] == b[i + 1]);
        }
    }
    let p = pow10(ra.len());
    let va = digits_value(ra);
    let vb = digits_value(rb);
    if a[0] != b[0] {
        assert(a[0] < b[0]);
        lemma_value_below(ra);
        assert(da * p + va < db * p + vb) by (nonlinear_arith)
            requires
                da + 1 <= db,
                va < p,
                vb >= 0,
        ;
    } else {
        lemma_value_order(ra, rb);
    }
}

/// Zeros, `n` of them.
pub open spec fn zeros(n: nat) -> Seq<char> {
    Seq::new(n, |i: int| '0')
}

proof fn lemma_value_zeros(n: nat)
    ensures
        digits_value(zeros(n)) == 0,
    decreases n,
{
    if n > 0 {
        assert(zeros(n).drop_last() =~= zeros((n - 1) as nat));
        lemma_value_zeros((n - 1) as nat);
    }
}

/// Zeros come before any digit string of their length that is not all zeros.
proof fn lemma_zeros_first(t: Seq<char>, j: int)
    requires
        all_digits(t),
        0 <= j < t.len(),
        t[j] != '0',
    ensures
        text_lt(zeros(t.len()), t),
    decreases t.len(),
{
    assert(is_digit(t[0]));
    if t[0] == '0' {
        assert(zeros(t.len()).drop_first() =~= zeros((t.len() - 1) as nat));
        assert(all_digits(t.drop_first())) by {
            assert forall|i: int| 0 <= i < t.drop_first().len() implies is_digit(#[trigger] t.drop_first()[i]) by {
                assert(t.drop_first()[i] == t[i + 1]);
            }
        }
        assert(t.drop_first()[j - 1] == t[j]);
        lemma_zeros_first(t.drop_first(), j - 1);
    }
}

/// A fraction's digits padded with zeros to `k` places.
pub open spec fn padded(f: Seq<char>, k: nat) -> Seq<char> {
    f + zeros((k - f.len()) as nat)
}

/// Digits whose last is not a zero.
pub open spec fn no_trailing_zero(f: Seq<char>) -> bool {
    f.len() == 0 || f[f.len() - 1] != '0'
}

/// Padding two fractions to one width keeps their text order.
proof fn lemma_padded_order(fa: Seq<char>, fb: Seq<char>, k: nat)
    requires
        all_digits(fa),
        all_digits(fb),
        no_trailing_zero(fa),
        no_trailing_zero(fb),
        fa.len() <= k,
        fb.len() <= k,
    ensures
        text_lt(fa, fb) <==> text_lt(padded(fa, k), padded(fb, k)),
        (fa == fb) <==> (padded(fa, k) == padded(fb, k)),
    decreases k,
{
    let pa = padded(fa, k);
    let pb = padded(fb, k);
    assert(all_digits(pa)) by {
        assert forall|i: int| 0 <= i < pa.len() implies is_digit(#[trigger] pa[i]) by {
            if i < fa.len() {
                assert(pa[i] == fa[i]);
            }
        }
    }
    assert(all_digits(pb)) by {
        assert forall|i: int| 0 <= i < pb.len() implies is_digit(#[trigger] pb[i]) by {
            if i < fb.len() {
                assert(pb[i] == fb[i]);
            }
        }
    }
    if fa.len() == 0 && fb.len() == 0 {
        assert(pa =~= pb);
        assert(fa =~= fb);
        lemma_text_lt_irreflexive(pa);
        lemma_text_lt_irreflexive(fa);
    } else if fa.len() == 0 {
        assert(pa =~= zeros(k));
        assert(pb[fb.len() - 1] == fb[fb.len() - 1]);
        lemma_zeros_first(pb, fb.len() - 1);
        assert(pb.len() == k);
        lemma_text_lt_irreflexive(pa);
    } else if fb.len() == 0 {
        assert(pb =~= zeros(k));
        assert(pa[fa.len() - 1] == fa[fa.len() - 1]);
        lemma_zeros_first(pa, fa.len() - 1);
        lemma_text_lt_asymmetric(pb, pa);
        lemma_text_lt_irreflexive(pa);
    } else {
        assert(pa[0] == fa[0] && pb[0] == fb[0]);
        if fa[0] != fb[0] {
            assert(pa != pb);
            assert(text_lt(fa, fb) == (fa[0] < fb[0]));
            assert(text_lt(pa, pb) == (pa[0] < pb[0]));
        } else {
            let ra = fa.drop_first();
            let rb = fb.drop_first();
            assert(all_digits(ra)) by {
                assert forall|i: int| 0 <= i < ra.len() implies is_digit(#[trigger] ra[i]) by {
                    assert(ra[i] == fa[i + 1]);
                }
            }
            assert(all_digits(rb)) by {
                assert forall|i: int| 0 <= i < rb.len() implies is_digit(#[trigger] rb[i]) by {
                    assert(rb[i] == fb[i + 1]);
                }
            }
            assert(no_trailing_zero(ra)) by {
                if ra.len() > 0 {
                    assert(ra[ra.len() - 1] == fa[fa.len() - 1]);
                }
            }
            assert(no_trailing_zero(rb)) by {
                if rb.len() > 0 {
                    assert(rb[rb.len() - 1] == fb[fb.len() - 1]);
                }
            }
            lemma_padded_order(ra, rb, (k - 1) as nat);
            assert(pa.drop_first() =~= padded(ra, (k - 1) as nat));
            assert(pb.drop_first() =~= padded(rb, (k - 1) as nat));
            assert(fa =~= seq![fa[0]] + ra);
            assert(fb =~= seq![fb[0]] + rb);
            assert(pa =~= seq![pa[0]] + pa.drop_first());
            assert(pb =~= seq![pb[0]] + pb.drop_first());
            assert(text_lt(fa, fb) == text_lt(ra, rb));
            assert(text_lt(pa, pb) == text_lt(pa.drop_first(), pb.drop_first()));
            assert((fa == fb) == (ra == rb));
            assert((pa == pb) == (pa.drop_first() == pb.drop_first()));
        }
    }
}

/// The size a decimal names, in units of ten to the minus `k`.
pub open spec fn magnitude(d: DecimalV, k: nat) -> nat {
    digits_value(d.int_digits) * pow10(k) + digits_value(d.frac_digits) * pow10((k - d.frac_digits.len()) as nat)
}

/// The number a decimal names, in units of ten to the minus `k`.
pub open spec fn scaled(d: DecimalV, k: nat) -> int {
    if d.negative {
        -(magnitude(d, k) as int)
    } else {
        magnitude(d, k) as int
    }
}

/// A decimal in its one written form: digits only, no leading zero before
/// the point, no trailing zero after it, and no sign on zero.
pub open spec fn normal(d: DecimalV) -> bool {
    &&& all_digits(d.int_digits)
    &&& all_digits(d.frac_digits)
    &&& (d.int_digits.len() == 0 || d.int_digits[0] != '0')
    &&& no_trailing_zero(d.frac_digits)
    &&& (d.negative ==> d.int_digits.len() > 0 || d.frac_digits.len() > 0)
}

proof fn lemma_strip_leading_form(s: Seq<char>)
    requires
        all_digits(s),
    ensures
        all_digits(strip_leading_zeros(s)),
        strip_leading_zeros(s).len() == 0 || strip_leading_zeros(s)[0] != '0',
    decreases s.len(),
{
    if s.len() > 0 && s[0] == '0' {
        assert(all_digits(s.drop_first())) by {
            assert forall|i: int| 0 <= i < s.drop_first().len() implies is_digit(#[trigger] s.drop_first()[i]) by {
                assert(s.drop_first()[i] == s[i + 1]);
            }
        }
        lemma_strip_leading_form(s.drop_first());
    }
}

proof fn lemma_strip_trailing_form(s: Seq<char>)
    requires
        all_digits(s),
    ensures
        all_digits(strip_trailing_zeros(s)),
        no_trailing_zero(strip_trailing_zeros(s)),
    decreases s.len(),
{
    if s.len() > 0 && s.last() == '0' {
        assert(all_digits(s.drop_last())) by {
            assert forall|i: int| 0 <= i < s.drop_last().len() implies is_digit(#[trigger] s.drop_last()[i]) by {
                assert(s.drop_last()[i] == s[i]);
            }
        }
        lemma_strip_trailing_form(s.drop_last());
    }
}

/// Every number a text names comes in its one written form.
proof fn lemma_parsed_normal(v: Seq<char>)
    requires
        parse_decimal(v) is Some,
    ensures
        normal(parse_decimal(v).unwrap()),
{
    let t = crate::text::trim(v);
    let (neg, body) = crate::decimal::split_sign(t);
    let dot = crate::keyed::first_where(body, crate::decimal::is_dot());
    let ip = if dot < 0 {
        body
    } else {
        body.take(dot)
    };
    let fp = if dot < 0 {
        Seq::<char>::empty()
    } else {
        body.skip(dot + 1)
    };
    lemma_strip_leading_form(ip);
    lemma_strip_trailing_form(fp);
}

/// A decimal in its written form other than zero has a size.
proof fn lemma_magnitude_positive(d: DecimalV, k: nat)
    requires
        normal(d),
        d.frac_digits.len() <= k,
        d.int_digits.len() > 0 || d.frac_digits.len() > 0,
    ensures
        magnitude(d, k) > 0,
{
    lemma_pow10_pos(k);
    lemma_pow10_pos((k - d.frac_digits.len()) as nat);
    let p = pow10(k);
    let q = pow10((k - d.frac_digits.len()) as nat);
    if d.int_digits.len() > 0 {
        lemma_value_above(d.int_digits);
        lemma_pow10_pos((d.int_digits.len() - 1) as nat);
        let vi = digits_value(d.int_digits);
        let vf = digits_value(d.frac_digits);
        assert(vi * p + vf * q > 0) by (nonlinear_arith)
            requires
                vi >= 1,
                p >= 1,
                vf >= 0,
                q >= 1,
        ;
    } else {
        let f = d.frac_digits;
        assert(f =~= f.drop_last() + seq![f.last()]);
        lemma_value_concat(f.drop_last(), seq![f.last()]);
        lemma_value_digit(f.last());
        assert(is_digit(f[f.len() - 1]));
        let vf = digits_value(f);
        assert(vf >= 1);
        assert(vf * q > 0) by (nonlinear_arith)
            requires
                vf >= 1,
                q >= 1,
        ;
    }
}

/// The size of a decimal, split into its whole part and its padded fraction.
proof fn lemma_magnitude_parts(d: DecimalV, k: nat)
    requires
        normal(d),
        d.frac_digits.len() <= k,
    ensures
        magnitude(d, k) == digits_value(d.int_digits) * pow10(k) + digits_value(padded(d.frac_digits, k)),
        digits_value(padded(d.frac_digits, k)) < pow10(k),
{
    let f = d.frac_digits;
    let z = (k - f.len()) as nat;
    lemma_value_concat(f, zeros(z));
    lemma_value_zeros(z);
    let pf = padded(f, k);
    assert(all_digits(pf)) by {
        assert forall|i: int| 0 <= i < pf.len() implies is_digit(#[trigger] pf[i]) by {
            if i < f.len() {
                assert(pf[i] == f[i]);
            }
        }
    }
    lemma_value_below(pf);
}

/// Magnitude order is the order of sizes.
proof fn lemma_mag_order(a: DecimalV, b: DecimalV, k: nat)
    requires
        normal(a),
        normal(b),
        a.frac_digits.len() <= k,
        b.frac_digits.len() <= k,
    ensures
        mag_lt(a, b) <==> magnitude(a, k) < magnitude(b, k),
        (a.int_digits == b.int_digits && a.frac_digits == b.frac_digits) <==> magnitude(a, k) == magnitude(b, k),
{
    lemma_magnitude_parts(a, k);
    lemma_magnitude_parts(b, k);
    let p = pow10(k);
    let ia = digits_value(a.int_digits);
    let ib = digits_value(b.int_digits);
    let fa = digits_value(padded(a.frac_digits, k));
    let fb = digits_value(padded(b.frac_digits, k));
    lemma_value_below(a.int_digits);
    lemma_value_below(b.int_digits);
    if a.int_digits.len() < b.int_digits.len() {
        lemma_value_above(b.int_digits);
        lemma_pow10_le(a.int_digits.len(), (b.int_digits.len() - 1) as nat);
        assert(ia * p + fa < ib * p + fb) by (nonlinear_arith)
            requires
                ia + 1 <= ib,
                fa < p,
                fb >= 0,
        ;
    } else if b.int_digits.len() < a.int_digits.len() {
        lemma_value_above(a.int_digits);
        lemma_pow10_le(b.int_digits.len(), (a.int_digits.len() - 1) as nat);
        assert(ib * p + fb < ia * p + fa) by (nonlinear_arith)
            requires
                ib + 1 <= ia,
                fb < p,
                fa >= 0,
        ;
    } else if a.int_digits != b.int_digits {
        lemma_text_lt_total(a.int_digits, b.int_digits);
        if text_lt(a.int_digits, b.int_digits) {
            lemma_value_order(a.int_digits, b.int_digits);
            assert(ia * p + fa < ib * p + fb) by (nonlinear_arith)
                requires
                    ia + 1 <= ib,
                    fa < p,
                    fb >= 0,
            ;
        } else {
            lemma_value_order(b.int_digits, a.int_digits);
            lemma_text_lt_asymmetric(b.int_digits, a.int_digits);
            assert(ib * p + fb < ia * p + fa) by (nonlinear_arith)
                requires
                    ib + 1 <= ia,
                    fb < p,
                    fa >= 0,
            ;
        }
    } else {
        lemma_padded_order(a.frac_digits, b.frac_digits, k);
        let pa = padded(a.frac_digits, k);
        let pb = padded(b.frac_digits, k);
        assert(all_digits(pa)) by {
            assert forall|i: int| 0 <= i < pa.len() implies is_digit(#[trigger] pa[i]) by {
                if i < a.frac_digits.len() {
                    assert(pa[i] == a.frac_digits[i]);
                }
            }
        }
        assert(all_digits(pb)) by {
            assert forall|i: int| 0 <= i < pb.len() implies is_digit(#[trigger] pb[i]) by {
                if i < b.frac_digits.len() {
                    assert(pb[i] == b.frac_digits[i]);
                }
            }
        }
        lemma_text_lt_total(pa, pb);
        if text_lt(pa, pb) {
            lemma_value_order(pa, pb);
        } else if text_lt(pb, pa) {
            lemma_value_order(pb, pa);
            lemma_text_lt_asymmetric(pb, pa);
        }
    }
}

/// The order of two decimals in written form is the order of the numbers
/// they name.
proof fn lemma_dec_order(a: DecimalV, b: DecimalV, k: nat)
    requires
        normal(a),
        normal(b),
        a.frac_digits.len() <= k,
        b.frac_digits.len() <= k,
    ensures
        dec_lt(a, b) <==> scaled(a, k) < scaled(b, k),
        a == b <==> scaled(a, k) == scaled(b, k),
{
    lemma_mag_order(a, b, k);
    lemma_mag_order(b, a, k);
    if a.negative {
        lemma_magnitude_positive(a, k);
    }
    if b.negative {
        lemma_magnitude_positive(b, k);
    }
}

/// Numbers are compared as the numbers they name: for any two texts that
/// name numbers, `gt`, `ge`, `lt` and `le` hold exactly when the first
/// number is greater, at least as great, smaller or no greater than the
/// second, and the two are equal as numbers exactly when they name the
/// same number; sizes are compared in units fine enough for both
/// fractions (`k` places), so `10` is greater than `9` and `0.45` less
/// than `0.5`.
pub proof fn law_numbers_compare_as_numbers(v: Seq<char>, w: Seq<char>, k: nat)
    requires
        parse_decimal(v) is Some,
        parse_decimal(w) is Some,
        parse_decimal(v).unwrap().frac_digits.len() <= k,
        parse_decimal(w).unwrap().frac_digits.len() <= k,
    ensures
        ({
            let x = scaled(parse_decimal(v).unwrap(), k);
            let y = scaled(parse_decimal(w).unwrap(), k);
            &&& ordered(Op::Gt, v, w) == (x > y)
            &&& ordered(Op::Ge, v, w) == (x >= y)
            &&& ordered(Op::Lt, v, w) == (x < y)
            &&& ordered(Op::Le, v, w) == (x <= y)
            &&& crate::decimal::numeric_match_of(v, w) == Some(x == y)
        }),
{
    let a = parse_decimal(v).unwrap();
    let b = parse_decimal(w).unwrap();
    lemma_parsed_normal(v);
    lemma_parsed_normal(w);
    lemma_dec_order(a, b, k);
    lemma_dec_order(b, a, k);
}

/// Reading the inside of a quoted field, just after its opening quote
/// (RFC 4180): the text up to the closing quote, a doubled quote read as one
/// quote; and what follows the closing quote.
pub open spec fn read_quoted(t: Seq<char>) -> (Seq<char>, Seq<char>)
    decreases t.len(),
{
    if t.len() == 0 {
        (Seq::empty(), Seq::empty())
    } else if t[0] == '"' {
        if t.len() >= 2 && t[1] == '"' {
            let (c, r) = read_quoted(t.skip(2));
            (seq!['"'] + c, r)
        } else {
            (Seq::empty(), t.skip(1))
        }
    } else {
        let (c, r) = read_quoted(t.skip(1));
        (seq![t[0]] + c, r)
    }
}

/// Reading a field written bare: everything up to the next comma or line
/// break; and what follows.
pub open spec fn read_bare(t: Seq<char>) -> (Seq<char>, Seq<char>)
    decreases t.len(),
{
    if t.len() == 0 || t[0] == ',' || t[0] == '\r' || t[0] == '\n' {
        (Seq::empty(), t)
    } else {
        let (c, r) = read_bare(t.skip(1));
        (seq![t[0]] + c, r)
    }
}

/// Reading one field: quoted when it opens with a quote, bare otherwise.
pub open spec fn read_field(t: Seq<char>) -> (Seq<char>, Seq<char>) {
    if t.len() > 0 && t[0] == '"' {
        read_quoted(t.skip(1))
    } else {
        read_bare(t)
    }
}

/// Reading one record: its comma-separated fields; and what follows.
pub open spec fn read_record(t: Seq<char>) -> (Seq<Seq<char>>, Seq<char>)
    decreases t.len(),
{
    let (f, r) = read_field(t);
    if r.len() > 0 && r[0] == ',' && r.len() <= t.len() {
        let (fs, rest) = read_record(r.skip(1));
        (seq![f] + fs, rest)
    } else {
        (seq![f], r)
    }
}

/// Reading a CSV text (RFC 4180): its records, separated by CRLF.
pub open spec fn read_csv(t: Seq<char>) -> Seq<Seq<Seq<char>>>
    decreases t.len(),
{
    let (cells, r) = read_record(t);
    if r.len() >= 2 && r[0] == '\r' && r[1] == '\n' && r.len() <= t.len() {
        seq![cells] + read_csv(r.skip(2))
    } else {
        seq![cells]
    }
}

/// A character's field text once quotes are doubled.
pub open spec fn doubled(c: char) -> Seq<char> {
    if c == '"' {
        seq!['"', '"']
    } else {
        seq![c]
    }
}

proof fn lemma_doubled_front(c: char, w: Seq<char>)
    ensures
        doubled_quotes(seq![c] + w) == doubled(c) + doubled_quotes(w),
    decreases w.len(),
{
    if w.len() == 0 {
        assert(seq![c] + w =~= seq![c]);
        assert(seq![c].drop_last() =~= Seq::<char>::empty());
        assert(seq![c].last() == c);
        assert(doubled_quotes(seq![c].drop_last()) =~= Seq::<char>::empty());
        assert(doubled_quotes(seq![c]) =~= doubled(c));
        assert(doubled(c) + doubled_quotes(w) =~= doubled(c));
    } else {
        lemma_doubled_front(c, w.drop_last());
        assert((seq![c] + w).drop_last() =~= seq![c] + w.drop_last());
        assert((seq![c] + w).last() == w.last());
        assert(doubled_quotes(seq![c] + w) =~= doubled(c) + doubled_quotes(w));
    }
}

proof fn lemma_read_quoted(v: Seq<char>, rest: Seq<char>)
    requires
        rest.len() == 0 || rest[0] != '"',
    ensures
        read_quoted(doubled_quotes(v) + seq!['"'] + rest) == (v, rest),
    decreases v.len(),
{
    let t = doubled_quotes(v) + seq!['"'] + rest;
    if v.len() == 0 {
        assert(doubled_quotes(v) =~= Seq::<char>::empty());
        assert(t =~= seq!['"'] + rest);
        assert(t.skip(1) =~= rest);
    } else {
        let c = v[0];
        let w = v.drop_first();
        assert(v =~= seq![c] + w);
        lemma_doubled_front(c, w);
        lemma_read_quoted(w, rest);
        let inner = doubled_quotes(w) + seq!['"'] + rest;
        if c == '"' {
            assert(t =~= seq!['"', '"'] + inner);
            assert(t.skip(2) =~= inner);
        } else {
            assert(t =~= seq![c] + inner);
            assert(t.skip(1) =~= inner);
        }
    }
}

proof fn lemma_read_bare(v: Seq<char>, rest: Seq<char>)
    requires
        forall|i: int| 0 <= i < v.len() ==> !special_in_csv(#[trigger] v[i]),
        rest.len() == 0 || rest[0] == ',' || rest[0] == '\r',
    ensures
        read_bare(v + rest) == (v, rest),
    decreases v.len(),
{
    let t = v + rest;
    if v.len() == 0 {
        assert(t =~= rest);
    } else {
        let w = v.drop_first();
        assert(!special_in_csv(v[0]));
        assert forall|i: int| 0 <= i < w.len() implies !special_in_csv(#[trigger] w[i]) by {
            assert(w[i] == v[i + 1]);
        }
        lemma_read_bare(w, rest);
        assert(t[0] == v[0]);
        assert(t.skip(1) =~= w + rest);
        assert(v =~= seq![v[0]] + w);
    }
}

proof fn lemma_read_field(v: Seq<char>, rest: Seq<char>)
    requires
        rest.len() == 0 || rest[0] == ',' || rest[0] == '\r',
    ensures
        read_field(csv_field(v) + rest) == (v, rest),
{
    let t = csv_field(v) + rest;
    if needs_quotes(v) {
        assert(t =~= seq!['"'] + (doubled_quotes(v) + seq!['"'] + rest));
        assert(t.skip(1) =~= doubled_quotes(v) + seq!['"'] + rest);
        lemma_read_quoted(v, rest);
    } else {
        assert forall|i: int| 0 <= i < v.len() implies !special_in_csv(#[trigger] v[i]) by {
            if special_in_csv(v[i]) {
                assert(v[i] == ',' || v[i] == '"' || v[i] == '\n' || v[i] == '\r');
            }
        }
        lemma_read_bare(v, rest);
        if v.len() > 0 {
            assert(!special_in_csv(v[0]));
            assert(t[0] == v[0]);
        }
    }
}

proof fn lemma_joined_front(a: Seq<char>, xs: Seq<Seq<char>>, sep: Seq<char>)
    requires
        xs.len() > 0,
    ensures
        joined(seq![a] + xs, sep) == a + sep + joined(xs, sep),
    decreases xs.len(),
{
    if xs.len() == 1 {
        assert((seq![a] + xs).drop_last() =~= seq![a]);
        assert((seq![a] + xs).last() == xs[0]);
        assert(seq![a][0] == a);
        assert(joined(seq![a], sep) == a);
        assert(joined(xs, sep) == xs[0]);
    } else {
        lemma_joined_front(a, xs.drop_last(), sep);
        assert((seq![a] + xs).drop_last() =~= seq![a] + xs.drop_last());
        assert((seq![a] + xs).last() == xs.last());
        assert(joined(seq![a] + xs, sep) =~= a + sep + joined(xs, sep));
    }
}

proof fn lemma_read_record(cells: Seq<Seq<char>>, rest: Seq<char>)
    requires
        cells.len() > 0,
        rest.len() == 0 || rest[0] == '\r',
    ensures
        read_record(csv_record(cells) + rest) == (cells, rest),
    decreases cells.len(),
{
    let f = |c: Seq<char>| csv_field(c);
    let t = csv_record(cells) + rest;
    let c = cells[0];
    if cells.len() == 1 {
        assert(cells.map_values(f) =~= seq![csv_field(c)]);
        assert(csv_record(cells) == csv_field(c));
        lemma_read_field(c, rest);
        assert(cells =~= seq![c]);
    } else {
        let cs = cells.drop_first();
        assert(cells.map_values(f) =~= seq![csv_field(c)] + cs.map_values(f));
        lemma_joined_front(csv_field(c), cs.map_values(f), ","@);
        let tail = csv_record(cs) + rest;
        assert(csv_record(cells) == csv_field(c) + ","@ + csv_record(cs));
        reveal_strlit(",");
        assert(t =~= csv_field(c) + (seq![','] + tail));
        lemma_read_field(c, seq![','] + tail);
        assert((seq![','] + tail).skip(1) =~= tail);
        lemma_read_record(cs, rest);
        assert(cells =~= seq![c] + cs);
    }
}

proof fn lemma_rows_front(r: Seq<Seq<char>>, rs: Seq<Seq<Seq<char>>>)
    ensures
        csv_rows(seq![r] + rs) == "\r\n"@ + csv_record(r) + csv_rows(rs),
    decreases rs.len(),
{
    if rs.len() == 0 {
        assert(seq![r] + rs =~= seq![r]);
        assert(seq![r].drop_last() =~= Seq::<Seq<Seq<char>>>::empty());
        assert(csv_rows(rs) =~= Seq::<char>::empty());
        assert(seq![r].last() == r);
        assert(csv_rows(seq![r].drop_last()) =~= Seq::<char>::empty());
        assert(csv_rows(seq![r]) =~= "\r\n"@ + csv_record(r) + csv_rows(rs));
    } else {
        lemma_rows_front(r, rs.drop_last());
        assert((seq![r] + rs).drop_last() =~= seq![r] + rs.drop_last());
        assert((seq![r] + rs).last() == rs.last());
        assert(csv_rows(seq![r] + rs) =~= "\r\n"@ + csv_record(r) + csv_rows(rs));
    }
}

proof fn lemma_read_document(h: Seq<Seq<char>>, rows: Seq<Seq<Seq<char>>>)
    requires
        h.len() > 0,
        forall|i: int| 0 <= i < rows.len() ==> (#[trigger] rows[i]).len() > 0,
    ensures
        read_csv(csv_record(h) + csv_rows(rows)) == seq![h] + rows,
    decreases rows.len(),
{
    reveal_strlit("\r\n");
    let t = csv_record(h) + csv_rows(rows);
    if rows.len() == 0 {
        assert(csv_rows(rows) =~= Seq::<char>::empty());
        lemma_read_record(h, csv_rows(rows));
        assert(seq![h] + rows =~= seq![h]);
    } else {
        let r0 = rows[0];
        let rs = rows.drop_first();
        assert(rows =~= seq![r0] + rs);
        lemma_rows_front(r0, rs);
        let after = csv_rows(rows);
        assert(after == "\r\n"@ + csv_record(r0) + csv_rows(rs));
        assert(after[0] == '\r' && after[1] == '\n');
        lemma_read_record(h, after);
        assert(after.skip(2) =~= csv_record(r0) + csv_rows(rs));
        assert forall|i: int| 0 <= i < rs.len() implies (#[trigger] rs[i]).len() > 0 by {
            assert(rs[i] == rows[i + 1]);
        }
        lemma_read_document(r0, rs);
    }
}

/// A report written as CSV reads back (RFC 4180) as its header and its rows,
/// record by record and field by field, whatever commas, quotes or line
/// breaks the values hold. A record with no fields at all is the one thing
/// a CSV text cannot carry, so the header and each row have at least one.
pub proof fn law_csv_reads_back(columns: Seq<ColumnV>, rows: Seq<Seq<Seq<char>>>)
    requires
        columns.len() > 0,
        forall|i: int| 0 <= i < rows.len() ==> (#[trigger] rows[i]).len() > 0,
    ensures
        read_csv(csv_of(columns, rows)) == seq![columns.map_values(|c: ColumnV| c.name)] + rows,
{
    lemma_read_document(columns.map_values(|c: ColumnV| c.name), rows);
}

} // verus!
