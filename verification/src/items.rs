//! The FF&E read: every in-scope model's items, each attributed to the one
//! room it stands in, with the reference records it joins, narrowed by
//! building and filter. A component of another instance is excluded and
//! counted unless the project includes components.
use vstd::prelude::*;
use crate::attribution::{building_by_room, derived_room, derived_room_of, owned_in, owned_in_exec, same_model_ids, same_model_rooms, scope_buildings, DerivedRoom, DerivedRoomV, RoomBuilding, RoomBuildingV};
use crate::contract::{field_presence, field_presence_exec, opt_str, Intrinsic, IntrinsicV, LocatedV, Presence, PropertyPresence, RoomRef, RoomRefV, SnapshotKind, SourceRecord, SourceRecordV, Unresolved, SUPPORTED_FFE_SCHEMA};
use crate::filter::{node_holds, presence_fn, split_namespace, split_of, FilterTarget, NamespaceSplit, NamespaceSplitV, PresenceFn, RoomFilter};
use crate::join::{entity_sources, join_reference, joined_of, sources_of, JoinSource, JoinSourceV};
use crate::keyed::Dup;
use crate::records::{Item, ItemV};
use crate::rooms::has_any;
use crate::scope::{origin_room, phase_by_model, phases_of, plan_of, read_of, revision, revision_rows, scope_snapshots, side_origin, side_origin_of, ModelPhase, ScopedV, SideOrigin, SideOriginV};
use crate::settings::{opt_seq, settings_of, FfePolicy, NestedComponents, ReferenceEntity, RoomResolution};
use crate::state::AppState;
use crate::text::owned;

verus! {

/// An FF&E instance as served.
pub struct ItemResponse {
    pub item: Item,
    pub project_id: String,
    pub model_id: String,
    /// The room it stands in, if in its own model: zero or one id.
    pub owner_rooms: Vec<String>,
    /// The room it stands in, model-qualified: zero or one.
    pub owner_rooms_qualified: Vec<RoomRef>,
    pub room_origin: SideOrigin,
    /// A component of another instance, served because the project includes
    /// components.
    pub is_component: bool,
    pub reference: Vec<SourceRecord>,
}

pub struct ItemResponseV {
    pub item: ItemV,
    pub project_id: Seq<char>,
    pub model_id: Seq<char>,
    pub owner_rooms: Seq<Seq<char>>,
    pub owner_rooms_qualified: Seq<RoomRefV>,
    pub room_origin: SideOriginV,
    pub is_component: bool,
    pub reference: Seq<SourceRecordV>,
}

impl DeepView for ItemResponse {
    type V = ItemResponseV;

    open spec fn deep_view(&self) -> ItemResponseV {
        ItemResponseV {
            item: self.item.deep_view(),
            project_id: self.project_id@,
            model_id: self.model_id@,
            owner_rooms: self.owner_rooms.deep_view(),
            owner_rooms_qualified: self.owner_rooms_qualified.deep_view(),
            room_origin: self.room_origin.deep_view(),
            is_component: self.is_component,
            reference: self.reference.deep_view(),
        }
    }
}

/// An item's own fields: `$id`, `$type_name`, `$type_id`, `$level_id`,
/// `$category`, `$room` (absent for an item in no room).
pub open spec fn item_intrinsics(o: ItemV) -> Seq<IntrinsicV> {
    seq![
        IntrinsicV { name: "$id"@, value: Some(o.id) },
        IntrinsicV { name: "$type_name"@, value: Some(o.type_label) },
        IntrinsicV { name: "$type_id"@, value: Some(o.type_id) },
        IntrinsicV { name: "$level_id"@, value: Some(o.level_id) },
        IntrinsicV { name: "$category"@, value: Some(o.category) },
        IntrinsicV { name: "$room"@, value: o.room },
    ]
}

fn item_intrinsics_exec(o: &Item) -> (v: Vec<Intrinsic>)
    ensures
        v.deep_view() == item_intrinsics(o.deep_view()),
{
    let mut v: Vec<Intrinsic> = Vec::new();
    v.push(Intrinsic { name: owned("$id"), value: Some(o.id.clone()) });
    v.push(Intrinsic { name: owned("$type_name"), value: Some(o.type_label.clone()) });
    v.push(Intrinsic { name: owned("$type_id"), value: Some(o.type_id.clone()) });
    v.push(Intrinsic { name: owned("$level_id"), value: Some(o.level_id.clone()) });
    v.push(Intrinsic { name: owned("$category"), value: Some(o.category.clone()) });
    v.push(Intrinsic { name: owned("$room"), value: o.room.dup() });
    assert(v.deep_view() =~= item_intrinsics(o.deep_view()));
    v
}

/// How an item answers a field name.
pub open spec fn item_presence(o: ItemV, reference: Seq<SourceRecordV>, source: Option<Seq<char>>, property: Seq<char>) -> Presence {
    field_presence(item_intrinsics(o), o.properties, o.type_properties, reference, source, property)
}

pub open spec fn item_fields(v: ItemResponseV) -> PresenceFn {
    |source: Option<Seq<char>>, property: Seq<char>| item_presence(v.item, v.reference, source, property)
}

impl FilterTarget for ItemResponse {
    open spec fn presence_of(&self, source: Option<Seq<char>>, property: Seq<char>) -> Presence {
        item_presence(self.item.deep_view(), self.reference.deep_view(), source, property)
    }

    fn presence(&self, source: Option<&str>, property: &str) -> (r: PropertyPresence) {
        let intrinsics = item_intrinsics_exec(&self.item);
        let is = intrinsics.as_slice();
        let ps = self.item.properties.as_slice();
        let ts = self.item.type_properties.as_slice();
        let rs = self.reference.as_slice();
        assert(is.deep_view() =~= intrinsics.deep_view());
        assert(ps.deep_view() =~= self.item.properties.deep_view());
        assert(ts.deep_view() =~= self.item.type_properties.deep_view());
        assert(rs.deep_view() =~= self.reference.deep_view());
        field_presence_exec(is, ps, ts, rs, source, property)
    }
}

/// A field name resolved against an item; a name qualified by an unknown
/// source reads as absent.
pub open spec fn item_resolved_of(v: ItemResponseV, field: Seq<char>, known: Seq<Seq<char>>) -> Presence {
    match split_of(field, known) {
        NamespaceSplitV::Joined { source, property } => item_presence(v.item, v.reference, Some(source), property),
        NamespaceSplitV::Unqualified(name) => item_presence(v.item, v.reference, None, name),
        NamespaceSplitV::UnknownSource(_) => Presence::Absent,
    }
}

/// Resolve one comparable or filterable field name against an item.
pub fn resolve_presence(item: &ItemResponse, field: &str, known: &[String]) -> (r: PropertyPresence)
    ensures
        r@ == item_resolved_of(item.deep_view(), field@, known.deep_view()),
{
    match split_namespace(field, known) {
        NamespaceSplit::Joined { source, property } => item.presence(Some(source.as_str()), property.as_str()),
        NamespaceSplit::Unqualified(name) => item.presence(None, name.as_str()),
        NamespaceSplit::UnknownSource(_) => PropertyPresence::Absent,
    }
}

/// Everything that narrows an FF&E read.
pub struct ItemScope<'a> {
    pub project: Option<&'a str>,
    /// An item's building is its room's building; an item in no room is in
    /// none.
    pub building: Option<&'a str>,
    pub milestone: Option<&'a str>,
    pub filter: Option<&'a RoomFilter>,
}

/// The merged FF&E payload.
pub struct FfeResult {
    pub schema_version: u32,
    pub revision: String,
    pub ffe: Vec<ItemResponse>,
    pub phase_by_model: Vec<ModelPhase>,
    /// How many components the policy excluded.
    pub excluded_components: usize,
}

/// A project's FF&E policy; an unregistered project has the default.
pub open spec fn ffe_policy_of(state: AppState, project: Seq<char>) -> FfePolicy {
    match settings_of(state.registry.view_projects(), project) {
        Some(s) => s.ffe,
        None => FfePolicy { nested_components: NestedComponents::Exclude, room_resolution: RoomResolution::Off },
    }
}

pub open spec fn item_sources_of(state: AppState, project: Seq<char>) -> Seq<JoinSourceV> {
    match settings_of(state.registry.view_projects(), project) {
        Some(s) => sources_of(s.reference, ReferenceEntity::Ffe),
        None => Seq::empty(),
    }
}

/// Whether the policy drops an item: a component, with components excluded.
pub open spec fn excluded(o: ItemV, policy: FfePolicy) -> bool {
    o.super_component_id is Some && policy.nested_components == NestedComponents::Exclude
}

/// The response an item gets: the room it names wins, geometry fills a room
/// it names none of when the project resolves rooms.
pub open spec fn item_response_of(
    s: ScopedV<ItemV>,
    o: ItemV,
    sources: Seq<JoinSourceV>,
    policy: FfePolicy,
    derived: Seq<DerivedRoomV>,
) -> ItemResponseV {
    let model = s.payload.model.id;
    let d = if policy.room_resolution != RoomResolution::Off && o.room is None {
        derived_room_of(derived, model, o.id)
    } else {
        LocatedV::Unresolved(Unresolved::NoCandidate)
    };
    let origin = side_origin_of(o.room, model, d);
    let q = opt_seq(origin_room(origin));
    ItemResponseV {
        item: o,
        project_id: s.payload.project.id,
        model_id: model,
        owner_rooms: same_model_ids(q, model),
        owner_rooms_qualified: q,
        room_origin: origin,
        is_component: o.super_component_id is Some,
        reference: joined_of(o.properties, o.type_properties, sources),
    }
}

pub open spec fn item_kept(
    v: ItemResponseV,
    buildings: Seq<RoomBuildingV>,
    building: Option<Seq<char>>,
    filter: Option<&RoomFilter>,
) -> bool {
    &&& (building matches Some(b) ==> owned_in(v.owner_rooms_qualified, buildings, b))
    &&& (filter matches Some(f) ==> node_holds(f.root, item_fields(v)))
}

/// The kept responses of one snapshot's items, in order.
pub open spec fn snapshot_items(
    s: ScopedV<ItemV>,
    items: Seq<ItemV>,
    sources: Seq<JoinSourceV>,
    policy: FfePolicy,
    derived: Seq<DerivedRoomV>,
    buildings: Seq<RoomBuildingV>,
    building: Option<Seq<char>>,
    filter: Option<&RoomFilter>,
) -> Seq<ItemResponseV>
    decreases items.len(),
{
    if items.len() == 0 {
        Seq::empty()
    } else {
        let rest = snapshot_items(s, items.drop_last(), sources, policy, derived, buildings, building, filter);
        let o = items.last();
        let v = item_response_of(s, o, sources, policy, derived);
        if !excluded(o, policy) && item_kept(v, buildings, building, filter) {
            rest.push(v)
        } else {
            rest
        }
    }
}

/// How many of a snapshot's items the policy excluded.
pub open spec fn snapshot_excluded(items: Seq<ItemV>, policy: FfePolicy) -> nat
    decreases items.len(),
{
    if items.len() == 0 {
        0
    } else {
        snapshot_excluded(items.drop_last(), policy) + if excluded(items.last(), policy) {
            1nat
        } else {
            0nat
        }
    }
}

pub open spec fn scoped_items(
    state: AppState,
    scoped: Seq<ScopedV<ItemV>>,
    derived: Seq<DerivedRoomV>,
    buildings: Seq<RoomBuildingV>,
    building: Option<Seq<char>>,
    filter: Option<&RoomFilter>,
) -> Seq<ItemResponseV>
    decreases scoped.len(),
{
    if scoped.len() == 0 {
        Seq::empty()
    } else {
        let s = scoped.last();
        let p = s.payload.project.id;
        scoped_items(state, scoped.drop_last(), derived, buildings, building, filter) + snapshot_items(
            s,
            s.payload.elements,
            item_sources_of(state, p),
            ffe_policy_of(state, p),
            derived,
            buildings,
            building,
            filter,
        )
    }
}

pub open spec fn scoped_excluded(state: AppState, scoped: Seq<ScopedV<ItemV>>) -> nat
    decreases scoped.len(),
{
    if scoped.len() == 0 {
        0
    } else {
        let s = scoped.last();
        scoped_excluded(state, scoped.drop_last()) + snapshot_excluded(
            s.payload.elements,
            ffe_policy_of(state, s.payload.project.id),
        )
    }
}

pub open spec fn items_scoped_of(state: AppState, project: Option<Seq<char>>, milestone: Option<Seq<char>>) -> Seq<ScopedV<ItemV>> {
    read_of(
        state.ffe.deep_view(),
        plan_of(state.index.deep_view(), state.registry.view_projects(), SnapshotKind::Ffe, project, milestone),
    )
}

fn ffe_policy_for(state: &AppState, project: &str) -> (r: FfePolicy)
    ensures
        r == ffe_policy_of(*state, project@),
{
    match state.settings().settings_for(project) {
        Some(b) => b.ffe,
        None => FfePolicy::default(),
    }
}

fn item_sources_for(state: &AppState, project: &str) -> (r: Vec<JoinSource>)
    ensures
        r.deep_view() == item_sources_of(*state, project@),
{
    match state.settings().settings_for(project) {
        Some(b) => entity_sources(b, ReferenceEntity::Ffe),
        None => {
            let v: Vec<JoinSource> = Vec::new();
            assert(v.deep_view() =~= Seq::<JoinSourceV>::empty());
            v
        },
    }
}

fn item_response(
    project_id: &String,
    model_id: &String,
    o: &Item,
    sources: &[JoinSource],
    policy: FfePolicy,
    derived: &[DerivedRoom],
) -> (r: ItemResponse)
    ensures
        forall|s: ScopedV<ItemV>|
            s.payload.project.id == project_id@ && s.payload.model.id == model_id@ ==> r.deep_view()
                == item_response_of(s, o.deep_view(), sources.deep_view(), policy, derived.deep_view()),
{
    let d = if policy.room_resolution != RoomResolution::Off && o.room.is_none() {
        derived_room(derived, model_id.as_str(), o.id.as_str())
    } else {
        crate::contract::Located::Unresolved(Unresolved::NoCandidate)
    };
    let room_s: Option<&str> = match &o.room {
        Some(x) => Some(x.as_str()),
        None => None,
    };
    assert(opt_str(room_s) == o.room.deep_view());
    let origin = side_origin(room_s, model_id.as_str(), &d);
    let mut qualified: Vec<RoomRef> = Vec::new();
    if let Some(r) = origin.room() {
        qualified.push(r.dup());
    }
    assert(qualified.deep_view() =~= opt_seq(origin_room(origin.deep_view())));
    let qs = qualified.as_slice();
    assert(qs.deep_view() =~= qualified.deep_view());
    let owner_rooms = same_model_rooms(qs, model_id.as_str());
    let ps = o.properties.as_slice();
    let ts = o.type_properties.as_slice();
    assert(ps.deep_view() =~= o.properties.deep_view());
    assert(ts.deep_view() =~= o.type_properties.deep_view());
    let reference = join_reference(ps, ts, sources);
    ItemResponse {
        item: o.dup(),
        project_id: project_id.clone(),
        model_id: model_id.clone(),
        owner_rooms,
        owner_rooms_qualified: qualified,
        room_origin: origin,
        is_component: o.super_component_id.is_some(),
        reference,
    }
}

fn item_kept_exec(r: &ItemResponse, buildings: &[RoomBuilding], building: Option<&str>, filter: Option<&RoomFilter>) -> (k: bool)
    ensures
        k == item_kept(r.deep_view(), buildings.deep_view(), opt_str(building), filter),
{
    let in_building = match building {
        Some(b) => {
            let qs = r.owner_rooms_qualified.as_slice();
            assert(qs.deep_view() =~= r.owner_rooms_qualified.deep_view());
            owned_in_exec(qs, buildings, b)
        },
        None => true,
    };
    if !in_building {
        return false;
    }
    match filter {
        Some(f) => {
            let k = f.matches(r);
            assert(presence_fn(*r) =~= item_fields(r.deep_view()));
            k
        },
        None => true,
    }
}

pub open spec fn min_usize(n: nat) -> usize {
    if n < usize::MAX {
        n as usize
    } else {
        usize::MAX
    }
}

/// Merge every in-scope model's FF&E. `None` when none was ever pushed; a
/// scope that matches nothing is an empty list. `derived` is what geometry
/// found for items whose project resolves rooms.
pub fn assemble_items(state: &AppState, scope: &ItemScope, derived: &[DerivedRoom]) -> (r: Option<FfeResult>)
    ensures
        match r {
            None => !has_any(state.index.deep_view(), SnapshotKind::Ffe),
            Some(res) => {
                let scoped = items_scoped_of(*state, opt_str(scope.project), opt_str(scope.milestone));
                &&& has_any(state.index.deep_view(), SnapshotKind::Ffe)
                &&& res.schema_version == SUPPORTED_FFE_SCHEMA
                &&& res.ffe.deep_view() == scoped_items(
                    *state,
                    scoped,
                    derived.deep_view(),
                    if scope.building is Some {
                        scope_buildings(*state, opt_str(scope.project), opt_str(scope.milestone))
                    } else {
                        Seq::empty()
                    },
                    opt_str(scope.building),
                    scope.filter,
                )
                &&& res.excluded_components == min_usize(scoped_excluded(*state, scoped))
                &&& res.revision@ == crate::cursor::cursor_of(revision_rows(scoped))
                &&& res.phase_by_model.deep_view() == phases_of(scoped)
            },
        },
{
    if !state.has_any_snapshot(SnapshotKind::Ffe) {
        return None;
    }
    let idx = state.index.as_slice();
    let hist = state.ffe.as_slice();
    assert(idx.deep_view() =~= state.index.deep_view());
    assert(hist.deep_view() =~= state.ffe.deep_view());
    let scoped = scope_snapshots(idx, state.settings(), hist, SnapshotKind::Ffe, scope.project, scope.milestone);
    let buildings: Vec<RoomBuilding> = match scope.building {
        Some(_) => building_by_room(state, scope.project, scope.milestone),
        None => Vec::new(),
    };
    let bs = buildings.as_slice();
    let ghost bmap = bs.deep_view();
    assert(bmap =~= (if scope.building is Some {
        scope_buildings(*state, opt_str(scope.project), opt_str(scope.milestone))
    } else {
        Seq::empty()
    }));
    let ghost sd = scoped.deep_view();
    let ghost bv = opt_str(scope.building);
    let ghost dv = derived.deep_view();
    let mut items: Vec<ItemResponse> = Vec::new();
    let mut excluded_components: usize = 0;
    let mut i: usize = 0;
    while i < scoped.len()
        invariant
            i <= scoped@.len(),
            sd == scoped.deep_view(),
            bv == opt_str(scope.building),
            dv == derived.deep_view(),
            bmap == bs.deep_view(),
            items.deep_view() == scoped_items(*state, sd.take(i as int), dv, bmap, bv, scope.filter),
            excluded_components == min_usize(scoped_excluded(*state, sd.take(i as int))),
        decreases scoped@.len() - i,
    {
        let s = &scoped[i];
        assert(s.deep_view() == sd[i as int]);
        let sources = item_sources_for(state, s.payload.project.id.as_str());
        let policy = ffe_policy_for(state, s.payload.project.id.as_str());
        let ss = sources.as_slice();
        assert(ss.deep_view() =~= sources.deep_view());
        let ghost srcv = sources.deep_view();
        let ghost base = items.deep_view();
        let ghost base_count = scoped_excluded(*state, sd.take(i as int));
        let ghost els = sd[i as int].payload.elements;
        let mut k: usize = 0;
        while k < s.payload.elements.len()
            invariant
                k <= s.payload.elements@.len(),
                i < sd.len(),
                s.deep_view() == sd[i as int],
                els == s.payload.elements.deep_view(),
                srcv == ss.deep_view(),
                bv == opt_str(scope.building),
                dv == derived.deep_view(),
                bmap == bs.deep_view(),
                items.deep_view() == base + snapshot_items(
                    sd[i as int],
                    els.take(k as int),
                    srcv,
                    policy,
                    dv,
                    bmap,
                    bv,
                    scope.filter,
                ),
                excluded_components == min_usize(base_count + snapshot_excluded(els.take(k as int), policy)),
            decreases s.payload.elements@.len() - k,
        {
            let o = &s.payload.elements[k];
            assert(o.deep_view() == els[k as int]);
            proof {
                assert(els.take(k + 1).drop_last() =~= els.take(k as int));
                assert(els.take(k + 1).last() == els[k as int]);
            }
            let ghost before = items.deep_view();
            if o.super_component_id.is_some() && policy.nested_components == NestedComponents::Exclude {
                excluded_components = excluded_components.saturating_add(1);
            } else {
                let response = item_response(&s.payload.project.id, &s.payload.model.id, o, ss, policy, derived);
                assert(response.deep_view() == item_response_of(sd[i as int], els[k as int], srcv, policy, dv));
                if item_kept_exec(&response, bs, scope.building, scope.filter) {
                    items.push(response);
                    assert(items.deep_view() =~= before.push(item_response_of(sd[i as int], els[k as int], srcv, policy, dv)));
                }
            }
            assert(items.deep_view() =~= base + snapshot_items(
                sd[i as int],
                els.take(k + 1),
                srcv,
                policy,
                dv,
                bmap,
                bv,
                scope.filter,
            ));
            k += 1;
        }
        proof {
            assert(els.take(k as int) =~= els);
            assert(sd.take(i + 1).drop_last() =~= sd.take(i as int));
            assert(sd.take(i + 1).last() == sd[i as int]);
        }
        i += 1;
    }
    assert(sd.take(i as int) =~= sd);
    let scs = scoped.as_slice();
    assert(scs.deep_view() =~= sd);
    let revision = revision(scs);
    let phase_by_model = phase_by_model(scs);
    Some(FfeResult { schema_version: SUPPORTED_FFE_SCHEMA, revision, ffe: items, phase_by_model, excluded_components })
}

} // verus!
