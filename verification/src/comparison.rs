//! Milestone comparison: a star diff of several milestones against one
//! baseline. Rooms are matched across milestones by a configured key property;
//! for each compared milestone it reports the rooms added and removed relative
//! to the baseline and, on rooms present in both, the differences over the
//! configured comparable properties.
use vstd::prelude::*;
use crate::contract::{opt_str, Presence, PropertyPresence, SourceRecord};
use crate::decimal::{numeric_match, numeric_match_of};
use crate::keyed::{first_where, has_key, lemma_first_where_at, Dup};
use crate::order::{sort, sorted_of};
use crate::reports::{distinct_names, rooms_in_scope};
use crate::rooms::{assemble_rooms, resolve_presence, resolved_of, source_joined, RoomResponse, RoomResponseV, RoomScope};
use crate::settings::{settings_of, ReferenceEntity, ReferenceSource, ReferenceSourceV};
use crate::state::AppState;
use crate::text::{chars_eq, owned, text_eq, trim, trimmed};
use crate::ServiceError;

verus! {

/// A comparable property whose value differs between the baseline room and
/// the same room in a compared milestone.
pub struct PropertyDifference {
    pub property: String,
    pub baseline_value: String,
    pub other_value: String,
}

pub struct PropertyDifferenceV {
    pub property: Seq<char>,
    pub baseline_value: Seq<char>,
    pub other_value: Seq<char>,
}

impl DeepView for PropertyDifference {
    type V = PropertyDifferenceV;

    open spec fn deep_view(&self) -> PropertyDifferenceV {
        PropertyDifferenceV { property: self.property@, baseline_value: self.baseline_value@, other_value: self.other_value@ }
    }
}

/// A comparable property the baseline room has and the compared room does
/// not.
pub struct MissingProperty {
    pub property: String,
    pub baseline_value: String,
}

pub struct MissingPropertyV {
    pub property: Seq<char>,
    pub baseline_value: Seq<char>,
}

impl DeepView for MissingProperty {
    type V = MissingPropertyV;

    open spec fn deep_view(&self) -> MissingPropertyV {
        MissingPropertyV { property: self.property@, baseline_value: self.baseline_value@ }
    }
}

/// A room in both the baseline and a compared milestone that changed: at least
/// one difference, missing property or lost join.
pub struct ChangedRoom {
    /// The shared key value.
    pub key: String,
    /// The baseline room's own id.
    pub room_id: String,
    pub differences: Vec<PropertyDifference>,
    pub missing_properties: Vec<MissingProperty>,
    /// Joined sources named by the comparable properties whose record is
    /// missing entirely on the compared side, each once.
    pub unjoined_sources: Vec<String>,
}

pub struct ChangedRoomV {
    pub key: Seq<char>,
    pub room_id: Seq<char>,
    pub differences: Seq<PropertyDifferenceV>,
    pub missing_properties: Seq<MissingPropertyV>,
    pub unjoined_sources: Seq<Seq<char>>,
}

impl DeepView for ChangedRoom {
    type V = ChangedRoomV;

    open spec fn deep_view(&self) -> ChangedRoomV {
        ChangedRoomV {
            key: self.key@,
            room_id: self.room_id@,
            differences: self.differences.deep_view(),
            missing_properties: self.missing_properties.deep_view(),
            unjoined_sources: self.unjoined_sources.deep_view(),
        }
    }
}

/// A key value more than one room on one side shares: ambiguous, so excluded
/// from matching and reported instead.
pub struct DuplicateKeyValue {
    pub value: String,
    pub room_ids: Vec<String>,
}

pub struct DuplicateKeyValueV {
    pub value: Seq<char>,
    pub room_ids: Seq<Seq<char>>,
}

impl DeepView for DuplicateKeyValue {
    type V = DuplicateKeyValueV;

    open spec fn deep_view(&self) -> DuplicateKeyValueV {
        DuplicateKeyValueV { value: self.value@, room_ids: self.room_ids.deep_view() }
    }
}

/// The diff of one compared milestone against the baseline.
pub struct MilestoneComparison {
    pub milestone: String,
    /// Key values in this milestone and not the baseline, sorted.
    pub rooms_added: Vec<String>,
    /// Key values in the baseline and not this milestone, sorted.
    pub rooms_removed: Vec<String>,
    /// Rooms in both that changed, in key order.
    pub changed_rooms: Vec<ChangedRoom>,
    /// This milestone's own ambiguous keys.
    pub duplicate_key_values: Vec<DuplicateKeyValue>,
}

pub struct MilestoneComparisonV {
    pub milestone: Seq<char>,
    pub rooms_added: Seq<Seq<char>>,
    pub rooms_removed: Seq<Seq<char>>,
    pub changed_rooms: Seq<ChangedRoomV>,
    pub duplicate_key_values: Seq<DuplicateKeyValueV>,
}

impl DeepView for MilestoneComparison {
    type V = MilestoneComparisonV;

    open spec fn deep_view(&self) -> MilestoneComparisonV {
        MilestoneComparisonV {
            milestone: self.milestone@,
            rooms_added: self.rooms_added.deep_view(),
            rooms_removed: self.rooms_removed.deep_view(),
            changed_rooms: self.changed_rooms.deep_view(),
            duplicate_key_values: self.duplicate_key_values.deep_view(),
        }
    }
}

/// The whole comparison for one project.
pub struct ComparisonResponse {
    /// False when the project is unregistered or configures no key; every
    /// list is then empty.
    pub comparison_key_configured: bool,
    pub comparison_key: Option<String>,
    pub baseline: String,
    pub compared_properties: Vec<String>,
    /// The baseline's own ambiguous keys.
    pub baseline_duplicate_key_values: Vec<DuplicateKeyValue>,
    /// One entry per compared milestone, in the order given.
    pub comparisons: Vec<MilestoneComparison>,
}

pub struct ComparisonResponseV {
    pub comparison_key_configured: bool,
    pub comparison_key: Option<Seq<char>>,
    pub baseline: Seq<char>,
    pub compared_properties: Seq<Seq<char>>,
    pub baseline_duplicate_key_values: Seq<DuplicateKeyValueV>,
    pub comparisons: Seq<MilestoneComparisonV>,
}

impl DeepView for ComparisonResponse {
    type V = ComparisonResponseV;

    open spec fn deep_view(&self) -> ComparisonResponseV {
        ComparisonResponseV {
            comparison_key_configured: self.comparison_key_configured,
            comparison_key: self.comparison_key.deep_view(),
            baseline: self.baseline@,
            compared_properties: self.compared_properties.deep_view(),
            baseline_duplicate_key_values: self.baseline_duplicate_key_values.deep_view(),
            comparisons: self.comparisons.deep_view(),
        }
    }
}

/// The result for a project with no way to match rooms.
pub open spec fn not_configured_of(baseline: Seq<char>) -> ComparisonResponseV {
    ComparisonResponseV {
        comparison_key_configured: false,
        comparison_key: None,
        baseline,
        compared_properties: Seq::empty(),
        baseline_duplicate_key_values: Seq::empty(),
        comparisons: Seq::empty(),
    }
}

impl ComparisonResponse {
    /// The "no comparison key configured" result.
    pub fn not_configured(baseline: &str) -> (r: Self)
        ensures
            r.deep_view() == not_configured_of(baseline@),
    {
        let compared_properties: Vec<String> = Vec::new();
        let baseline_duplicate_key_values: Vec<DuplicateKeyValue> = Vec::new();
        let comparisons: Vec<MilestoneComparison> = Vec::new();
        assert(compared_properties.deep_view() =~= Seq::<Seq<char>>::empty());
        assert(baseline_duplicate_key_values.deep_view() =~= Seq::<DuplicateKeyValueV>::empty());
        assert(comparisons.deep_view() =~= Seq::<MilestoneComparisonV>::empty());
        ComparisonResponse {
            comparison_key_configured: false,
            comparison_key: None,
            baseline: owned(baseline),
            compared_properties,
            baseline_duplicate_key_values,
            comparisons,
        }
    }
}

/// Two values agree when they are equal as numbers, or, where either is not
/// a number, equal once trimmed.
pub open spec fn values_agree_of(a: Seq<char>, b: Seq<char>) -> bool {
    match numeric_match_of(a, b) {
        Some(equal) => equal,
        None => trim(a) == trim(b),
    }
}

/// Two values agree when they are equal as numbers, or, where either is not
/// a number, equal once trimmed.
pub fn values_agree(a: &str, b: &str) -> (r: bool)
    ensures
        r == values_agree_of(a@, b@),
{
    match numeric_match(a, b) {
        Some(equal) => equal,
        None => {
            let x = trimmed(a);
            let y = trimmed(b);
            chars_eq(x.as_slice(), y.as_slice())
        },
    }
}

/// What comparing the baseline room with the other room over some
/// properties found so far: differences, missing properties and lost joins.
pub open spec fn diff_acc(
    baseline: RoomResponseV,
    other: RoomResponseV,
    props: Seq<Seq<char>>,
    known: Seq<Seq<char>>,
) -> (Seq<PropertyDifferenceV>, Seq<MissingPropertyV>, Seq<Seq<char>>)
    decreases props.len(),
{
    if props.len() == 0 {
        (Seq::empty(), Seq::empty(), Seq::empty())
    } else {
        let (d, m, u) = diff_acc(baseline, other, props.drop_last(), known);
        let p = props.last();
        match resolved_of(baseline, p, known).1 {
            Presence::Present(bv) => {
                let (ns, o) = resolved_of(other, p, known);
                match o {
                    Presence::Absent => if ns is Some && !has_key::<SourceRecord>(other.reference, ns.unwrap()) {
                        if u.contains(ns.unwrap()) {
                            (d, m, u)
                        } else {
                            (d, m, u.push(ns.unwrap()))
                        }
                    } else {
                        (d, m.push(MissingPropertyV { property: p, baseline_value: bv }), u)
                    },
                    Presence::Empty => (
                        d.push(PropertyDifferenceV { property: p, baseline_value: bv, other_value: Seq::empty() }),
                        m,
                        u,
                    ),
                    Presence::Present(ov) => if values_agree_of(bv, ov) {
                        (d, m, u)
                    } else {
                        (d.push(PropertyDifferenceV { property: p, baseline_value: bv, other_value: ov }), m, u)
                    },
                }
            },
            _ => (d, m, u),
        }
    }
}

/// One room present on both sides, compared over the comparable properties;
/// `None` when nothing changed. Only a property the baseline room has is
/// compared.
pub open spec fn diff_room_of(
    key: Seq<char>,
    baseline: RoomResponseV,
    other: RoomResponseV,
    props: Seq<Seq<char>>,
    known: Seq<Seq<char>>,
) -> Option<ChangedRoomV> {
    let (d, m, u) = diff_acc(baseline, other, props, known);
    if d.len() == 0 && m.len() == 0 && u.len() == 0 {
        None
    } else {
        Some(ChangedRoomV { key, room_id: baseline.room.id, differences: d, missing_properties: m, unjoined_sources: u })
    }
}

fn contains_name(names: &Vec<String>, v: &str) -> (r: bool)
    ensures
        r == names.deep_view().contains(v@),
{
    let ghost d = names.deep_view();
    let mut i: usize = 0;
    while i < names.len()
        invariant
            i <= names@.len(),
            d == names.deep_view(),
            forall|j: int| 0 <= j < i ==> d[j] != v@,
        decreases names@.len() - i,
    {
        assert(d[i as int] == names@[i as int]@);
        if text_eq(names[i].as_str(), v) {
            return true;
        }
        i += 1;
    }
    false
}

/// Compare one room present on both sides; `None` when nothing changed.
pub fn diff_room(
    key: &str,
    baseline: &RoomResponse,
    other: &RoomResponse,
    properties: &[String],
    known: &[String],
) -> (r: Option<ChangedRoom>)
    ensures
        match r {
            Some(c) => diff_room_of(key@, baseline.deep_view(), other.deep_view(), properties.deep_view(), known.deep_view())
                == Some(c.deep_view()),
            None => diff_room_of(key@, baseline.deep_view(), other.deep_view(), properties.deep_view(), known.deep_view())
                is None,
        },
{
    let ghost bv = baseline.deep_view();
    let ghost ov = other.deep_view();
    let ghost pd = properties.deep_view();
    let ghost kd = known.deep_view();
    let mut differences: Vec<PropertyDifference> = Vec::new();
    let mut missing_properties: Vec<MissingProperty> = Vec::new();
    let mut unjoined_sources: Vec<String> = Vec::new();
    let mut i: usize = 0;
    while i < properties.len()
        invariant
            i <= properties@.len(),
            bv == baseline.deep_view(),
            ov == other.deep_view(),
            pd == properties.deep_view(),
            kd == known.deep_view(),
            (differences.deep_view(), missing_properties.deep_view(), unjoined_sources.deep_view()) == diff_acc(
                bv,
                ov,
                pd.take(i as int),
                kd,
            ),
        decreases properties@.len() - i,
    {
        let property = &properties[i];
        assert(pd[i as int] == property@);
        assert(pd.take(i + 1).drop_last() =~= pd.take(i as int));
        let ghost d0 = differences.deep_view();
        let ghost m0 = missing_properties.deep_view();
        let ghost u0 = unjoined_sources.deep_view();
        let (_, base) = resolve_presence(baseline, property.as_str(), known);
        if let PropertyPresence::Present(baseline_value) = base {
            let (ns, theirs) = resolve_presence(other, property.as_str(), known);
            match theirs {
                PropertyPresence::Absent => {
                    let lost = match &ns {
                        Some(n) => !source_joined(other, n.as_str()),
                        None => false,
                    };
                    if lost {
                        let n = ns.unwrap();
                        if !contains_name(&unjoined_sources, n.as_str()) {
                            unjoined_sources.push(n);
                            assert(unjoined_sources.deep_view() =~= u0.push(n@));
                        }
                    } else {
                        missing_properties.push(MissingProperty { property: property.dup(), baseline_value });
                        assert(missing_properties.deep_view() =~= m0.push(
                            MissingPropertyV { property: property@, baseline_value: baseline_value@ },
                        ));
                    }
                },
                PropertyPresence::Empty => {
                    differences.push(PropertyDifference { property: property.dup(), baseline_value, other_value: String::new() });
                    assert(differences.deep_view() =~= d0.push(
                        PropertyDifferenceV { property: property@, baseline_value: baseline_value@, other_value: Seq::empty() },
                    ));
                },
                PropertyPresence::Present(other_value) => {
                    if !values_agree(baseline_value.as_str(), other_value.as_str()) {
                        differences.push(PropertyDifference { property: property.dup(), baseline_value, other_value });
                        assert(differences.deep_view() =~= d0.push(
                            PropertyDifferenceV { property: property@, baseline_value: baseline_value@, other_value: other_value@ },
                        ));
                    }
                },
            }
        }
        i += 1;
    }
    assert(pd.take(i as int) =~= pd);
    if differences.len() == 0 && missing_properties.len() == 0 && unjoined_sources.len() == 0 {
        return None;
    }
    Some(ChangedRoom { key: owned(key), room_id: baseline.room.id.dup(), differences, missing_properties, unjoined_sources })
}

/// A room's key value: only a present value can match across milestones.
pub open spec fn key_value_of(r: RoomResponseV, key: Seq<char>, known: Seq<Seq<char>>) -> Option<Seq<char>> {
    match resolved_of(r, key, known).1 {
        Presence::Present(v) => Some(v),
        _ => None,
    }
}

/// The rooms that have a key value, with it, in room order.
pub open spec fn keyed_rooms(rooms: Seq<RoomResponseV>, key: Seq<char>, known: Seq<Seq<char>>) -> Seq<(Seq<char>, RoomResponseV)>
    decreases rooms.len(),
{
    if rooms.len() == 0 {
        Seq::empty()
    } else {
        let rest = keyed_rooms(rooms.drop_last(), key, known);
        match key_value_of(rooms.last(), key, known) {
            Some(v) => rest.push((v, rooms.last())),
            None => rest,
        }
    }
}

/// The rooms holding one key value, in room order.
pub open spec fn with_key(keyed: Seq<(Seq<char>, RoomResponseV)>, v: Seq<char>) -> Seq<RoomResponseV>
    decreases keyed.len(),
{
    if keyed.len() == 0 {
        Seq::empty()
    } else {
        let rest = with_key(keyed.drop_last(), v);
        if keyed.last().0 == v {
            rest.push(keyed.last().1)
        } else {
            rest
        }
    }
}

/// The key values, each once, sorted.
pub open spec fn key_values(keyed: Seq<(Seq<char>, RoomResponseV)>) -> Seq<Seq<char>> {
    sorted_of::<String>(distinct_names(keyed.map_values(|p: (Seq<char>, RoomResponseV)| p.0)))
}

/// The values exactly one room holds, each with that room.
pub open spec fn singles(values: Seq<Seq<char>>, keyed: Seq<(Seq<char>, RoomResponseV)>) -> Seq<(Seq<char>, RoomResponseV)>
    decreases values.len(),
{
    if values.len() == 0 {
        Seq::empty()
    } else {
        let rest = singles(values.drop_last(), keyed);
        let v = values.last();
        if with_key(keyed, v).len() == 1 {
            rest.push((v, with_key(keyed, v)[0]))
        } else {
            rest
        }
    }
}

/// The values more than one room holds, each with those rooms' ids.
pub open spec fn duplicates_of(values: Seq<Seq<char>>, keyed: Seq<(Seq<char>, RoomResponseV)>) -> Seq<DuplicateKeyValueV>
    decreases values.len(),
{
    if values.len() == 0 {
        Seq::empty()
    } else {
        let rest = duplicates_of(values.drop_last(), keyed);
        let v = values.last();
        let holders = with_key(keyed, v);
        if holders.len() > 1 {
            rest.push(DuplicateKeyValueV { value: v, room_ids: holders.map_values(|r: RoomResponseV| r.room.id) })
        } else {
            rest
        }
    }
}

/// One side's rooms indexed by key: the unambiguous values with their room,
/// in key order.
pub open spec fn index_of_rooms(rooms: Seq<RoomResponseV>, key: Seq<char>, known: Seq<Seq<char>>) -> Seq<(Seq<char>, RoomResponseV)> {
    let k = keyed_rooms(rooms, key, known);
    singles(key_values(k), k)
}

/// One side's ambiguous key values.
pub open spec fn duplicates_in(rooms: Seq<RoomResponseV>, key: Seq<char>, known: Seq<Seq<char>>) -> Seq<DuplicateKeyValueV> {
    let k = keyed_rooms(rooms, key, known);
    duplicates_of(key_values(k), k)
}

/// An index as values: each entry's key with the room it names.
pub open spec fn index_view(rooms: Seq<RoomResponseV>, ix: Seq<(String, usize)>) -> Seq<(Seq<char>, RoomResponseV)> {
    ix.map_values(|p: (String, usize)| (p.0@, rooms[p.1 as int]))
}

pub open spec fn index_valid(rooms: Seq<RoomResponseV>, ix: Seq<(String, usize)>) -> bool {
    forall|j: int| 0 <= j < ix.len() ==> (#[trigger] ix[j]).1 < rooms.len()
}

/// Index one side's rooms by their key value; a value more than one room
/// holds is pulled out as a duplicate, a room with no value is dropped.
pub fn index_by_key(rooms: &[RoomResponse], key_prop: &str, known: &[String]) -> (r: (Vec<(String, usize)>, Vec<DuplicateKeyValue>))
    ensures
        index_valid(rooms.deep_view(), r.0@),
        index_view(rooms.deep_view(), r.0@) == index_of_rooms(rooms.deep_view(), key_prop@, known.deep_view()),
        r.1.deep_view() == duplicates_in(rooms.deep_view(), key_prop@, known.deep_view()),
{
    let ghost rd = rooms.deep_view();
    let ghost kd = known.deep_view();
    let mut keyed: Vec<(String, usize)> = Vec::new();
    let mut i: usize = 0;
    while i < rooms.len()
        invariant
            i <= rooms@.len(),
            rd == rooms.deep_view(),
            kd == known.deep_view(),
            index_valid(rd, keyed@),
            index_view(rd, keyed@) == keyed_rooms(rd.take(i as int), key_prop@, kd),
        decreases rooms@.len() - i,
    {
        assert(rooms@[i as int].deep_view() == rd[i as int]);
        assert(rd.take(i + 1).drop_last() =~= rd.take(i as int));
        let ghost before = keyed@;
        let (_, p) = resolve_presence(&rooms[i], key_prop, known);
        if let PropertyPresence::Present(v) = p {
            keyed.push((v, i));
            assert(index_view(rd, keyed@) =~= index_view(rd, before).push((v@, rd[i as int])));
        }
        i += 1;
    }
    assert(rd.take(i as int) =~= rd);
    let ghost k = keyed_rooms(rd, key_prop@, kd);
    let ghost firsts = k.map_values(|p: (Seq<char>, RoomResponseV)| p.0);
    let mut names: Vec<String> = Vec::new();
    let mut j: usize = 0;
    while j < keyed.len()
        invariant
            j <= keyed@.len(),
            index_view(rd, keyed@) == k,
            firsts == k.map_values(|p: (Seq<char>, RoomResponseV)| p.0),
            names.deep_view() == distinct_names(firsts.take(j as int)),
        decreases keyed@.len() - j,
    {
        assert(firsts.take(j + 1).drop_last() =~= firsts.take(j as int));
        assert(firsts[j as int] == keyed@[j as int].0@);
        let ghost before = names.deep_view();
        if !contains_name(&names, keyed[j].0.as_str()) {
            names.push(keyed[j].0.dup());
            assert(names.deep_view() =~= before.push(firsts[j as int]));
        }
        j += 1;
    }
    assert(firsts.take(j as int) =~= firsts);
    let values = sort(names);
    let ghost vd = values.deep_view();
    assert(vd == key_values(k));
    let mut index: Vec<(String, usize)> = Vec::new();
    let mut duplicates: Vec<DuplicateKeyValue> = Vec::new();
    let mut n: usize = 0;
    while n < values.len()
        invariant
            n <= values@.len(),
            vd == values.deep_view(),
            rd == rooms.deep_view(),
            index_view(rd, keyed@) == k,
            index_valid(rd, keyed@),
            index_valid(rd, index@),
            index_view(rd, index@) == singles(vd.take(n as int), k),
            duplicates.deep_view() == duplicates_of(vd.take(n as int), k),
        decreases values@.len() - n,
    {
        let v = &values[n];
        assert(vd[n as int] == v@);
        assert(vd.take(n + 1).drop_last() =~= vd.take(n as int));
        let mut holders: Vec<usize> = Vec::new();
        let mut q: usize = 0;
        while q < keyed.len()
            invariant
                q <= keyed@.len(),
                index_view(rd, keyed@) == k,
                index_valid(rd, keyed@),
                forall|t: int| 0 <= t < holders@.len() ==> (#[trigger] holders@[t]) < rd.len(),
                holders@.map_values(|h: usize| rd[h as int]) == with_key(k.take(q as int), v@),
            decreases keyed@.len() - q,
        {
            assert(k.take(q + 1).drop_last() =~= k.take(q as int));
            assert(k[q as int] == (keyed@[q as int].0@, rd[keyed@[q as int].1 as int]));
            let ghost before = holders@;
            if text_eq(keyed[q].0.as_str(), v.as_str()) {
                holders.push(keyed[q].1);
                assert(holders@.map_values(|h: usize| rd[h as int]) =~= before.map_values(|h: usize| rd[h as int]).push(
                    rd[keyed@[q as int].1 as int],
                ));
            }
            q += 1;
        }
        assert(k.take(q as int) =~= k);
        let ghost hv = holders@.map_values(|h: usize| rd[h as int]);
        if holders.len() > 1 {
            let mut ids: Vec<String> = Vec::new();
            let mut t: usize = 0;
            while t < holders.len()
                invariant
                    t <= holders@.len(),
                    forall|x: int| 0 <= x < holders@.len() ==> (#[trigger] holders@[x]) < rd.len(),
                    rd == rooms.deep_view(),
                    hv == holders@.map_values(|h: usize| rd[h as int]),
                    ids.deep_view() == hv.take(t as int).map_values(|r: RoomResponseV| r.room.id),
                decreases holders@.len() - t,
            {
                let h = holders[t];
                assert(rooms@[h as int].deep_view() == rd[h as int]);
                let ghost before = ids.deep_view();
                ids.push(rooms[h].room.id.dup());
                assert(ids.deep_view() =~= before.push(rd[h as int].room.id));
                assert(hv[t as int] == rd[h as int]);
                assert(hv.take(t + 1) =~= hv.take(t as int).push(rd[h as int]));
                assert(ids.deep_view() =~= hv.take(t + 1).map_values(|r: RoomResponseV| r.room.id));
                t += 1;
            }
            assert(hv.take(t as int) =~= hv);
            let ghost before = duplicates.deep_view();
            duplicates.push(DuplicateKeyValue { value: v.dup(), room_ids: ids });
            assert(duplicates.deep_view() =~= before.push(
                DuplicateKeyValueV { value: v@, room_ids: hv.map_values(|r: RoomResponseV| r.room.id) },
            ));
        } else if holders.len() == 1 {
            let ghost before = index@;
            index.push((v.dup(), holders[0]));
            assert(index_view(rd, index@) =~= index_view(rd, before).push((v@, hv[0])));
        }
        n += 1;
    }
    assert(vd.take(n as int) =~= vd);
    (index, duplicates)
}

/// An index's key values, in order.
pub open spec fn index_keys(ix: Seq<(Seq<char>, RoomResponseV)>) -> Seq<Seq<char>> {
    ix.map_values(|p: (Seq<char>, RoomResponseV)| p.0)
}

/// The key values of `from` that `other` lacks, in order.
pub open spec fn keys_missing_from(from: Seq<(Seq<char>, RoomResponseV)>, other: Seq<(Seq<char>, RoomResponseV)>) -> Seq<Seq<char>>
    decreases from.len(),
{
    if from.len() == 0 {
        Seq::empty()
    } else {
        let rest = keys_missing_from(from.drop_last(), other);
        if index_keys(other).contains(from.last().0) {
            rest
        } else {
            rest.push(from.last().0)
        }
    }
}

pub open spec fn has_value(k: Seq<char>) -> spec_fn((Seq<char>, RoomResponseV)) -> bool {
    |p: (Seq<char>, RoomResponseV)| p.0 == k
}

/// The room an index holds for a key value.
pub open spec fn paired(ix: Seq<(Seq<char>, RoomResponseV)>, k: Seq<char>) -> Option<RoomResponseV> {
    let i = first_where(ix, has_value(k));
    if i < 0 {
        None
    } else {
        Some(ix[i].1)
    }
}

/// The rooms on both sides that changed, in the baseline's key order.
pub open spec fn changed_of(
    base: Seq<(Seq<char>, RoomResponseV)>,
    other: Seq<(Seq<char>, RoomResponseV)>,
    props: Seq<Seq<char>>,
    known: Seq<Seq<char>>,
) -> Seq<ChangedRoomV>
    decreases base.len(),
{
    if base.len() == 0 {
        Seq::empty()
    } else {
        let rest = changed_of(base.drop_last(), other, props, known);
        let (k, b) = base.last();
        match paired(other, k) {
            Some(o) => match diff_room_of(k, b, o, props, known) {
                Some(c) => rest.push(c),
                None => rest,
            },
            None => rest,
        }
    }
}

/// One compared milestone against the baseline's index.
pub open spec fn milestone_comparison_of(
    name: Seq<char>,
    base: Seq<(Seq<char>, RoomResponseV)>,
    other_rooms: Seq<RoomResponseV>,
    key: Seq<char>,
    props: Seq<Seq<char>>,
    known: Seq<Seq<char>>,
) -> MilestoneComparisonV {
    let other = index_of_rooms(other_rooms, key, known);
    MilestoneComparisonV {
        milestone: name,
        rooms_added: keys_missing_from(other, base),
        rooms_removed: keys_missing_from(base, other),
        changed_rooms: changed_of(base, other, props, known),
        duplicate_key_values: duplicates_in(other_rooms, key, known),
    }
}

fn index_has(rooms: &[RoomResponse], ix: &[(String, usize)], k: &str) -> (r: Option<usize>)
    requires
        index_valid(rooms.deep_view(), ix@),
    ensures
        match r {
            Some(h) => h < rooms@.len() && paired(index_view(rooms.deep_view(), ix@), k@) == Some(rooms.deep_view()[h as int]),
            None => paired(index_view(rooms.deep_view(), ix@), k@) is None,
        },
        (r is Some) == index_keys(index_view(rooms.deep_view(), ix@)).contains(k@),
{
    let ghost v = index_view(rooms.deep_view(), ix@);
    let mut i: usize = 0;
    while i < ix.len()
        invariant
            i <= ix@.len(),
            v == index_view(rooms.deep_view(), ix@),
            index_valid(rooms.deep_view(), ix@),
            forall|j: int| 0 <= j < i ==> !has_value(k@)(#[trigger] v[j]),
        decreases ix@.len() - i,
    {
        assert(v[i as int].0 == ix@[i as int].0@);
        assert(ix@[i as int].1 < rooms.deep_view().len());
        assert(v[i as int].1 == rooms.deep_view()[ix@[i as int].1 as int]);
        if text_eq(ix[i].0.as_str(), k) {
            proof {
                lemma_first_where_at(v, has_value(k@), i as int);
                assert(index_keys(v)[i as int] == k@);
            }
            return Some(ix[i].1);
        }
        i += 1;
    }
    proof {
        lemma_first_where_at(v, has_value(k@), i as int);
        if index_keys(v).contains(k@) {
            let j = choose|j: int| 0 <= j < index_keys(v).len() && index_keys(v)[j] == k@;
            assert(has_value(k@)(v[j]));
        }
    }
    None
}

fn keys_missing(from_rooms: &[RoomResponse], from: &[(String, usize)], other_rooms: &[RoomResponse], other: &[(String, usize)]) -> (r: Vec<String>)
    requires
        index_valid(from_rooms.deep_view(), from@),
        index_valid(other_rooms.deep_view(), other@),
    ensures
        r.deep_view() == keys_missing_from(index_view(from_rooms.deep_view(), from@), index_view(other_rooms.deep_view(), other@)),
{
    let ghost fv = index_view(from_rooms.deep_view(), from@);
    let ghost ov = index_view(other_rooms.deep_view(), other@);
    let mut out: Vec<String> = Vec::new();
    let mut i: usize = 0;
    while i < from.len()
        invariant
            i <= from@.len(),
            fv == index_view(from_rooms.deep_view(), from@),
            ov == index_view(other_rooms.deep_view(), other@),
            index_valid(other_rooms.deep_view(), other@),
            out.deep_view() == keys_missing_from(fv.take(i as int), ov),
        decreases from@.len() - i,
    {
        assert(fv.take(i + 1).drop_last() =~= fv.take(i as int));
        assert(fv[i as int].0 == from@[i as int].0@);
        let ghost before = out.deep_view();
        if index_has(other_rooms, other, from[i].0.as_str()).is_none() {
            out.push(from[i].0.dup());
            assert(out.deep_view() =~= before.push(fv[i as int].0));
        }
        i += 1;
    }
    assert(fv.take(i as int) =~= fv);
    out
}

/// Compare one milestone's rooms against the baseline's index.
fn compare_one(
    name: &str,
    base_rooms: &[RoomResponse],
    base: &[(String, usize)],
    other_rooms: &[RoomResponse],
    key: &str,
    properties: &[String],
    known: &[String],
) -> (r: MilestoneComparison)
    requires
        index_valid(base_rooms.deep_view(), base@),
    ensures
        r.deep_view() == milestone_comparison_of(
            name@,
            index_view(base_rooms.deep_view(), base@),
            other_rooms.deep_view(),
            key@,
            properties.deep_view(),
            known.deep_view(),
        ),
{
    let ghost bv = index_view(base_rooms.deep_view(), base@);
    let (other, other_duplicates) = index_by_key(other_rooms, key, known);
    let os = other.as_slice();
    let ghost ov = index_view(other_rooms.deep_view(), os@);
    let rooms_added = keys_missing(other_rooms, os, base_rooms, base);
    let rooms_removed = keys_missing(base_rooms, base, other_rooms, os);
    let mut changed: Vec<ChangedRoom> = Vec::new();
    let mut i: usize = 0;
    while i < base.len()
        invariant
            i <= base@.len(),
            bv == index_view(base_rooms.deep_view(), base@),
            ov == index_view(other_rooms.deep_view(), os@),
            index_valid(base_rooms.deep_view(), base@),
            index_valid(other_rooms.deep_view(), os@),
            changed.deep_view() == changed_of(bv.take(i as int), ov, properties.deep_view(), known.deep_view()),
        decreases base@.len() - i,
    {
        assert(bv.take(i + 1).drop_last() =~= bv.take(i as int));
        let (k, b) = (&base[i].0, base[i].1);
        assert(bv[i as int] == (k@, base_rooms.deep_view()[b as int]));
        assert(base_rooms@[b as int].deep_view() == base_rooms.deep_view()[b as int]);
        let ghost before = changed.deep_view();
        if let Some(h) = index_has(other_rooms, os, k.as_str()) {
            assert(other_rooms@[h as int].deep_view() == other_rooms.deep_view()[h as int]);
            if let Some(c) = diff_room(k.as_str(), &base_rooms[b], &other_rooms[h], properties, known) {
                changed.push(c);
                assert(changed.deep_view() =~= before.push(c.deep_view()));
            }
        }
        i += 1;
    }
    assert(bv.take(i as int) =~= bv);
    MilestoneComparison {
        milestone: owned(name),
        rooms_added,
        rooms_removed,
        changed_rooms: changed,
        duplicate_key_values: other_duplicates,
    }
}

/// The names of a project's reference sources that join rooms: the
/// qualifiers a comparable property or key may carry.
pub open spec fn room_source_names(sources: Seq<ReferenceSourceV>) -> Seq<Seq<char>>
    decreases sources.len(),
{
    if sources.len() == 0 {
        Seq::empty()
    } else {
        let rest = room_source_names(sources.drop_last());
        if sources.last().entity == ReferenceEntity::Rooms {
            rest.push(sources.last().name)
        } else {
            rest
        }
    }
}

fn room_source_names_exec(sources: &Vec<ReferenceSource>) -> (r: Vec<String>)
    ensures
        r.deep_view() == room_source_names(sources.deep_view()),
{
    let ghost d = sources.deep_view();
    let mut out: Vec<String> = Vec::new();
    let mut i: usize = 0;
    while i < sources.len()
        invariant
            i <= sources@.len(),
            d == sources.deep_view(),
            out.deep_view() == room_source_names(d.take(i as int)),
        decreases sources@.len() - i,
    {
        assert(sources@[i as int].deep_view() == d[i as int]);
        assert(d.take(i + 1).drop_last() =~= d.take(i as int));
        let ghost before = out.deep_view();
        if sources[i].entity == ReferenceEntity::Rooms {
            out.push(sources[i].name.dup());
            assert(out.deep_view() =~= before.push(d[i as int].name));
        }
        i += 1;
    }
    assert(d.take(i as int) =~= d);
    out
}

/// A milestone's whole room set for a project: no building narrowing and no
/// filter, since a comparison only means something over the whole scope.
pub open spec fn milestone_rooms_of(state: AppState, project: Seq<char>, milestone: Seq<char>) -> Seq<RoomResponseV> {
    rooms_in_scope(state, Some(project), Some(milestone), None)
}

/// One milestone's room scope for a project.
fn scope<'a>(project: &'a str, milestone: &'a str) -> (r: RoomScope<'a>)
    ensures
        r.project == Some(project),
        r.milestone == Some(milestone),
        r.building is None,
        r.filter is None,
{
    RoomScope { project: Some(project), building: None, milestone: Some(milestone), filter: None }
}

fn milestone_rooms(state: &AppState, project: &str, milestone: &str) -> (r: Vec<RoomResponse>)
    ensures
        r.deep_view() == milestone_rooms_of(*state, project@, milestone@),
{
    match assemble_rooms(state, &scope(project, milestone)) {
        Some(res) => res.rooms,
        None => {
            proof {
                crate::rooms::lemma_no_rooms_scoped(*state, Some(project@), Some(milestone@), None);
            }
            let none: Vec<RoomResponse> = Vec::new();
            assert(none.deep_view() =~= Seq::<RoomResponseV>::empty());
            none
        },
    }
}

/// One comparison per milestone in `others`, skipping the baseline itself.
pub open spec fn comparisons_of(
    state: AppState,
    project: Seq<char>,
    baseline: Seq<char>,
    others: Seq<Seq<char>>,
    base: Seq<(Seq<char>, RoomResponseV)>,
    key: Seq<char>,
    props: Seq<Seq<char>>,
    known: Seq<Seq<char>>,
) -> Seq<MilestoneComparisonV>
    decreases others.len(),
{
    if others.len() == 0 {
        Seq::empty()
    } else {
        let rest = comparisons_of(state, project, baseline, others.drop_last(), base, key, props, known);
        let other = others.last();
        if other == baseline {
            rest
        } else {
            rest.push(
                milestone_comparison_of(other, base, milestone_rooms_of(state, project, other), key, props, known),
            )
        }
    }
}

/// The comparison of `others` against `baseline` in a project: not
/// configured without registered settings or a key; otherwise the key and
/// comparable properties from the settings, the baseline's ambiguous keys,
/// and one diff per other milestone.
pub open spec fn compare_of(state: AppState, project: Seq<char>, baseline: Seq<char>, others: Seq<Seq<char>>) -> ComparisonResponseV {
    match settings_of(state.registry.view_projects(), project) {
        None => not_configured_of(baseline),
        Some(s) => match s.comparison_key {
            None => not_configured_of(baseline),
            Some(key) => {
                let known = room_source_names(s.reference);
                let base_rooms = milestone_rooms_of(state, project, baseline);
                ComparisonResponseV {
                    comparison_key_configured: true,
                    comparison_key: Some(key),
                    baseline,
                    compared_properties: s.comparison_properties,
                    baseline_duplicate_key_values: duplicates_in(base_rooms, key, known),
                    comparisons: comparisons_of(
                        state,
                        project,
                        baseline,
                        others,
                        index_of_rooms(base_rooms, key, known),
                        key,
                        s.comparison_properties,
                        known,
                    ),
                }
            },
        },
    }
}

/// Compare milestones against a baseline for one project.
pub fn compare_milestones(state: &AppState, project: &str, baseline: &str, others: &[String]) -> (r: Result<
    ComparisonResponse,
    ServiceError,
>)
    ensures
        r matches Ok(res) && res.deep_view() == compare_of(*state, project@, baseline@, others.deep_view()),
{
    let bundle = match state.registry.settings_for(project) {
        Some(b) => b,
        None => return Ok(ComparisonResponse::not_configured(baseline)),
    };
    let key = match &bundle.comparison_key {
        Some(k) => k,
        None => return Ok(ComparisonResponse::not_configured(baseline)),
    };
    let properties = bundle.comparison_properties.as_slice();
    assert(properties.deep_view() =~= bundle.comparison_properties.deep_view());
    let names = room_source_names_exec(&bundle.reference);
    let known = names.as_slice();
    assert(known.deep_view() =~= names.deep_view());
    let base_rooms = milestone_rooms(state, project, baseline);
    let brs = base_rooms.as_slice();
    assert(brs.deep_view() =~= base_rooms.deep_view());
    let (base, base_duplicates) = index_by_key(brs, key.as_str(), known);
    let bs = base.as_slice();
    let ghost bv = index_view(brs.deep_view(), bs@);
    let ghost od = others.deep_view();
    let mut comparisons: Vec<MilestoneComparison> = Vec::new();
    let mut i: usize = 0;
    while i < others.len()
        invariant
            i <= others@.len(),
            od == others.deep_view(),
            bv == index_view(brs.deep_view(), bs@),
            index_valid(brs.deep_view(), bs@),
            comparisons.deep_view() == comparisons_of(
                *state,
                project@,
                baseline@,
                od.take(i as int),
                bv,
                key@,
                properties.deep_view(),
                known.deep_view(),
            ),
        decreases others@.len() - i,
    {
        let other = &others[i];
        assert(od[i as int] == other@);
        assert(od.take(i + 1).drop_last() =~= od.take(i as int));
        if !text_eq(other.as_str(), baseline) {
            let other_rooms = milestone_rooms(state, project, other.as_str());
            let ors = other_rooms.as_slice();
            assert(ors.deep_view() =~= other_rooms.deep_view());
            let c = compare_one(other.as_str(), brs, bs, ors, key.as_str(), properties, known);
            let ghost before = comparisons.deep_view();
            comparisons.push(c);
            assert(comparisons.deep_view() =~= before.push(c.deep_view()));
        }
        i += 1;
    }
    assert(od.take(i as int) =~= od);
    Ok(ComparisonResponse {
        comparison_key_configured: true,
        comparison_key: Some(key.dup()),
        baseline: owned(baseline),
        compared_properties: bundle.comparison_properties.dup(),
        baseline_duplicate_key_values: base_duplicates,
        comparisons,
    })
}

} // verus!
