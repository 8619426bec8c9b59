//! The doors and windows reads: every in-scope model's openings, each with its
//! room attribution under the project's policy, where each side's room came
//! from, and the reference records it joins, narrowed by building and filter.
use vstd::prelude::*;
use crate::attribution::{building_by_room, derived_sides, derived_sides_of, owned_in, owned_in_exec, same_model_ids, same_model_rooms, scope_buildings, DerivedSides, DerivedSidesV, RoomBuilding, RoomBuildingV};
use crate::contract::{field_presence, field_presence_exec, opt_str, Field, FieldV, Intrinsic, IntrinsicV, Presence, PropertyPresence, RoomRef, RoomRefV, SnapshotKind, SourceRecord, SourceRecordV, SUPPORTED_DOOR_SCHEMA, SUPPORTED_WINDOW_SCHEMA};
use crate::filter::{node_holds, presence_fn, split_namespace, split_of, FilterTarget, NamespaceSplit, NamespaceSplitV, PresenceFn, RoomFilter};
use crate::join::{entity_sources, join_reference, joined_of, sources_of, JoinSource, JoinSourceV};
use crate::keyed::Dup;
use crate::records::{Opening, OpeningV, Payload};
use crate::rooms::has_any;
use crate::scope::{origin_room, phase_by_model, phases_of, pins_of, plan_of, read_of, revision, revision_rows, scope_snapshots, side_origin, side_origin_of, ModelPhase, ScopedV, SideOrigin, SideOriginV};
use crate::settings::{owners_of, settings_of, Milestone, OpeningPolicy, ProjectSettings, ProjectSettingsV, ReferenceEntity, RoomAttribution, RoomResolution};
use crate::state::AppState;
use crate::text::owned;

verus! {

/// Which opening entity a read addresses: the one place the per-entity
/// answers live.
#[derive(Clone, Copy, PartialEq, Eq, Structural, Debug)]
pub enum OpeningKind {
    Doors,
    Windows,
}

pub open spec fn opening_snapshot_kind(kind: OpeningKind) -> SnapshotKind {
    match kind {
        OpeningKind::Doors => SnapshotKind::Doors,
        OpeningKind::Windows => SnapshotKind::Windows,
    }
}

pub open spec fn opening_entity(kind: OpeningKind) -> ReferenceEntity {
    match kind {
        OpeningKind::Doors => ReferenceEntity::Doors,
        OpeningKind::Windows => ReferenceEntity::Windows,
    }
}

pub open spec fn opening_policy(kind: OpeningKind, s: ProjectSettingsV) -> OpeningPolicy {
    match kind {
        OpeningKind::Doors => s.doors,
        OpeningKind::Windows => s.windows,
    }
}

impl OpeningKind {
    /// The storage kind this entity is pushed as.
    pub fn snapshot_kind(self) -> (r: SnapshotKind)
        ensures
            r == opening_snapshot_kind(self),
    {
        match self {
            OpeningKind::Doors => SnapshotKind::Doors,
            OpeningKind::Windows => SnapshotKind::Windows,
        }
    }

    /// The entity its reference sources declare.
    pub fn reference_entity(self) -> (r: ReferenceEntity)
        ensures
            r == opening_entity(self),
    {
        match self {
            OpeningKind::Doors => ReferenceEntity::Doors,
            OpeningKind::Windows => ReferenceEntity::Windows,
        }
    }

    /// This entity's policy section on one project's settings.
    pub fn policy(self, bundle: &ProjectSettings) -> (r: &OpeningPolicy)
        ensures
            *r == opening_policy(self, bundle.deep_view()),
    {
        match self {
            OpeningKind::Doors => &bundle.doors,
            OpeningKind::Windows => &bundle.windows,
        }
    }

    /// This entity's snapshot pins on one milestone.
    pub fn pins(self, milestone: &Milestone) -> (r: &[Field])
        ensures
            r.deep_view() == pins_of(milestone.deep_view(), opening_snapshot_kind(self)),
    {
        crate::scope::milestone_pins(milestone, self.snapshot_kind())
    }
}

/// Both sides of an opening, and where each came from.
pub struct RoomOrigin {
    pub from_room: SideOrigin,
    pub to_room: SideOrigin,
}

pub struct RoomOriginV {
    pub from_room: SideOriginV,
    pub to_room: SideOriginV,
}

impl DeepView for RoomOrigin {
    type V = RoomOriginV;

    open spec fn deep_view(&self) -> RoomOriginV {
        RoomOriginV { from_room: self.from_room.deep_view(), to_room: self.to_room.deep_view() }
    }
}

/// An opening as served.
pub struct OpeningResponse {
    pub door: Opening,
    pub project_id: String,
    pub model_id: String,
    /// The owners in this opening's own model, as room ids; empty means
    /// homeless.
    pub owner_rooms: Vec<String>,
    /// Every owner, model-qualified, in policy order.
    pub owner_rooms_qualified: Vec<RoomRef>,
    pub room_origin: RoomOrigin,
    pub reference: Vec<SourceRecord>,
}

pub struct OpeningResponseV {
    pub door: OpeningV,
    pub project_id: Seq<char>,
    pub model_id: Seq<char>,
    pub owner_rooms: Seq<Seq<char>>,
    pub owner_rooms_qualified: Seq<RoomRefV>,
    pub room_origin: RoomOriginV,
    pub reference: Seq<SourceRecordV>,
}

impl DeepView for OpeningResponse {
    type V = OpeningResponseV;

    open spec fn deep_view(&self) -> OpeningResponseV {
        OpeningResponseV {
            door: self.door.deep_view(),
            project_id: self.project_id@,
            model_id: self.model_id@,
            owner_rooms: self.owner_rooms.deep_view(),
            owner_rooms_qualified: self.owner_rooms_qualified.deep_view(),
            room_origin: self.room_origin.deep_view(),
            reference: self.reference.deep_view(),
        }
    }
}

/// An opening's own fields: `$id`, `$type_name`, `$type_id`, `$level_id`,
/// `$from_room`, `$to_room` (absent on a side the model left empty).
pub open spec fn opening_intrinsics(o: OpeningV) -> Seq<IntrinsicV> {
    seq![
        IntrinsicV { name: "$id"@, value: Some(o.id) },
        IntrinsicV { name: "$type_name"@, value: Some(o.type_label) },
        IntrinsicV { name: "$type_id"@, value: Some(o.type_id) },
        IntrinsicV { name: "$level_id"@, value: Some(o.level_id) },
        IntrinsicV { name: "$from_room"@, value: o.from_room },
        IntrinsicV { name: "$to_room"@, value: o.to_room },
    ]
}

pub fn opening_intrinsics_exec(o: &Opening) -> (v: Vec<Intrinsic>)
    ensures
        v.deep_view() == opening_intrinsics(o.deep_view()),
{
    let mut v: Vec<Intrinsic> = Vec::new();
    v.push(Intrinsic { name: owned("$id"), value: Some(o.id.clone()) });
    v.push(Intrinsic { name: owned("$type_name"), value: Some(o.type_label.clone()) });
    v.push(Intrinsic { name: owned("$type_id"), value: Some(o.type_id.clone()) });
    v.push(Intrinsic { name: owned("$level_id"), value: Some(o.level_id.clone()) });
    v.push(Intrinsic { name: owned("$from_room"), value: o.from_room.dup() });
    v.push(Intrinsic { name: owned("$to_room"), value: o.to_room.dup() });
    assert(v.deep_view() =~= opening_intrinsics(o.deep_view()));
    v
}

/// How an opening answers a field name: a joined source's label, or its
/// intrinsics, then its instance properties, then its type's.
pub open spec fn opening_presence(o: OpeningV, reference: Seq<SourceRecordV>, source: Option<Seq<char>>, property: Seq<char>) -> Presence {
    field_presence(opening_intrinsics(o), o.properties, o.type_properties, reference, source, property)
}

pub open spec fn opening_fields(v: OpeningResponseV) -> PresenceFn {
    |source: Option<Seq<char>>, property: Seq<char>| opening_presence(v.door, v.reference, source, property)
}

/// How an opening answers a field name.
pub fn opening_presence_exec(o: &Opening, reference: &[SourceRecord], source: Option<&str>, property: &str) -> (r: PropertyPresence)
    ensures
        r@ == opening_presence(o.deep_view(), reference.deep_view(), opt_str(source), property@),
{
    let intrinsics = opening_intrinsics_exec(o);
    let is = intrinsics.as_slice();
    let ps = o.properties.as_slice();
    let ts = o.type_properties.as_slice();
    assert(is.deep_view() =~= intrinsics.deep_view());
    assert(ps.deep_view() =~= o.properties.deep_view());
    assert(ts.deep_view() =~= o.type_properties.deep_view());
    field_presence_exec(is, ps, ts, reference, source, property)
}

impl FilterTarget for OpeningResponse {
    open spec fn presence_of(&self, source: Option<Seq<char>>, property: Seq<char>) -> Presence {
        opening_presence(self.door.deep_view(), self.reference.deep_view(), source, property)
    }

    fn presence(&self, source: Option<&str>, property: &str) -> (r: PropertyPresence) {
        let rs = self.reference.as_slice();
        assert(rs.deep_view() =~= self.reference.deep_view());
        opening_presence_exec(&self.door, rs, source, property)
    }
}

/// A field name resolved against an opening; a name qualified by an unknown
/// source reads as absent.
pub open spec fn opening_resolved_of(v: OpeningResponseV, field: Seq<char>, known: Seq<Seq<char>>) -> Presence {
    match split_of(field, known) {
        NamespaceSplitV::Joined { source, property } => opening_presence(v.door, v.reference, Some(source), property),
        NamespaceSplitV::Unqualified(name) => opening_presence(v.door, v.reference, None, name),
        NamespaceSplitV::UnknownSource(_) => Presence::Absent,
    }
}

/// Resolve one comparable or filterable field name against an opening.
pub fn resolve_presence(door: &OpeningResponse, field: &str, known: &[String]) -> (r: PropertyPresence)
    ensures
        r@ == opening_resolved_of(door.deep_view(), field@, known.deep_view()),
{
    match split_namespace(field, known) {
        NamespaceSplit::Joined { source, property } => door.presence(Some(source.as_str()), property.as_str()),
        NamespaceSplit::Unqualified(name) => door.presence(None, name.as_str()),
        NamespaceSplit::UnknownSource(_) => PropertyPresence::Absent,
    }
}

/// Everything that narrows an openings read.
pub struct OpeningScope<'a> {
    pub project: Option<&'a str>,
    /// An opening's building is its owning room's building; a homeless
    /// opening is in none.
    pub building: Option<&'a str>,
    pub milestone: Option<&'a str>,
    pub filter: Option<&'a RoomFilter>,
}

/// One assembled read, before it is named for an entity.
pub struct Assembled {
    pub revision: String,
    pub openings: Vec<OpeningResponse>,
    pub phase_by_model: Vec<ModelPhase>,
}

/// The doors payload.
pub struct DoorsResult {
    pub schema_version: u32,
    pub revision: String,
    pub doors: Vec<OpeningResponse>,
    pub phase_by_model: Vec<ModelPhase>,
}

impl DoorsResult {
    /// Name an assembled read as the doors payload.
    pub fn from_assembled(assembled: Assembled) -> (r: Self)
        ensures
            r.schema_version == SUPPORTED_DOOR_SCHEMA,
            r.revision == assembled.revision,
            r.doors == assembled.openings,
            r.phase_by_model == assembled.phase_by_model,
    {
        DoorsResult {
            schema_version: SUPPORTED_DOOR_SCHEMA,
            revision: assembled.revision,
            doors: assembled.openings,
            phase_by_model: assembled.phase_by_model,
        }
    }
}

/// The windows payload.
pub struct WindowsResult {
    pub schema_version: u32,
    pub revision: String,
    pub windows: Vec<OpeningResponse>,
    pub phase_by_model: Vec<ModelPhase>,
}

impl WindowsResult {
    /// Name an assembled read as the windows payload.
    pub fn from_assembled(assembled: Assembled) -> (r: Self)
        ensures
            r.schema_version == SUPPORTED_WINDOW_SCHEMA,
            r.revision == assembled.revision,
            r.windows == assembled.openings,
            r.phase_by_model == assembled.phase_by_model,
    {
        WindowsResult {
            schema_version: SUPPORTED_WINDOW_SCHEMA,
            revision: assembled.revision,
            windows: assembled.openings,
            phase_by_model: assembled.phase_by_model,
        }
    }
}

/// A project's policy for this entity; an unregistered project has the
/// default.
pub open spec fn policy_of(state: AppState, kind: OpeningKind, project: Seq<char>) -> OpeningPolicy {
    match settings_of(state.registry.view_projects(), project) {
        Some(s) => opening_policy(kind, s),
        None => OpeningPolicy {
            room_attribution: RoomAttribution::ToRoomThenFromRoom,
            room_resolution: RoomResolution::Off,
        },
    }
}

/// The sources this entity joins in a project.
pub open spec fn opening_sources_of(state: AppState, kind: OpeningKind, project: Seq<char>) -> Seq<JoinSourceV> {
    match settings_of(state.registry.view_projects(), project) {
        Some(s) => sources_of(s.reference, opening_entity(kind)),
        None => Seq::empty(),
    }
}

/// The response an opening gets: authored sides win, geometry fills a side
/// the model left absent when the project resolves rooms, owners follow the
/// attribution policy.
pub open spec fn opening_response_of(
    s: ScopedV<OpeningV>,
    o: OpeningV,
    sources: Seq<JoinSourceV>,
    policy: OpeningPolicy,
    derived: Seq<DerivedSidesV>,
) -> OpeningResponseV {
    let model = s.payload.model.id;
    let d = if policy.room_resolution != RoomResolution::Off && (o.from_room is None || o.to_room is None) {
        derived_sides_of(derived, model, o.id)
    } else {
        crate::attribution::no_candidate_sides()
    };
    let from = side_origin_of(o.from_room, model, d.from);
    let to = side_origin_of(o.to_room, model, d.to);
    let q = owners_of(policy.room_attribution, origin_room(from), origin_room(to));
    OpeningResponseV {
        door: o,
        project_id: s.payload.project.id,
        model_id: model,
        owner_rooms: same_model_ids(q, model),
        owner_rooms_qualified: q,
        room_origin: RoomOriginV { from_room: from, to_room: to },
        reference: joined_of(o.properties, o.type_properties, sources),
    }
}

/// Whether a response is kept: owned in the asked building, and matching the
/// filter.
pub open spec fn opening_kept(
    v: OpeningResponseV,
    buildings: Seq<RoomBuildingV>,
    building: Option<Seq<char>>,
    filter: Option<&RoomFilter>,
) -> bool {
    &&& (building matches Some(b) ==> owned_in(v.owner_rooms_qualified, buildings, b))
    &&& (filter matches Some(f) ==> node_holds(f.root, opening_fields(v)))
}

/// The kept responses of one snapshot's openings, in order.
pub open spec fn snapshot_openings(
    s: ScopedV<OpeningV>,
    items: Seq<OpeningV>,
    sources: Seq<JoinSourceV>,
    policy: OpeningPolicy,
    derived: Seq<DerivedSidesV>,
    buildings: Seq<RoomBuildingV>,
    building: Option<Seq<char>>,
    filter: Option<&RoomFilter>,
) -> Seq<OpeningResponseV>
    decreases items.len(),
{
    if items.len() == 0 {
        Seq::empty()
    } else {
        let rest = snapshot_openings(s, items.drop_last(), sources, policy, derived, buildings, building, filter);
        let v = opening_response_of(s, items.last(), sources, policy, derived);
        if opening_kept(v, buildings, building, filter) {
            rest.push(v)
        } else {
            rest
        }
    }
}

/// The kept responses of every contributing snapshot, in read order.
pub open spec fn scoped_openings(
    state: AppState,
    kind: OpeningKind,
    scoped: Seq<ScopedV<OpeningV>>,
    derived: Seq<DerivedSidesV>,
    buildings: Seq<RoomBuildingV>,
    building: Option<Seq<char>>,
    filter: Option<&RoomFilter>,
) -> Seq<OpeningResponseV>
    decreases scoped.len(),
{
    if scoped.len() == 0 {
        Seq::empty()
    } else {
        let s = scoped.last();
        let p = s.payload.project.id;
        scoped_openings(state, kind, scoped.drop_last(), derived, buildings, building, filter) + snapshot_openings(
            s,
            s.payload.elements,
            opening_sources_of(state, kind, p),
            policy_of(state, kind, p),
            derived,
            buildings,
            building,
            filter,
        )
    }
}

/// The history of one opening entity.
pub open spec fn opening_history(state: AppState, kind: OpeningKind) -> Seq<crate::records::PayloadV<OpeningV>> {
    match kind {
        OpeningKind::Doors => state.doors.deep_view(),
        OpeningKind::Windows => state.windows.deep_view(),
    }
}

/// What an openings read scopes: the snapshots its plan names.
pub open spec fn openings_scoped_of(
    state: AppState,
    kind: OpeningKind,
    project: Option<Seq<char>>,
    milestone: Option<Seq<char>>,
) -> Seq<ScopedV<OpeningV>> {
    read_of(
        opening_history(state, kind),
        plan_of(state.index.deep_view(), state.registry.view_projects(), opening_snapshot_kind(kind), project, milestone),
    )
}

/// The buildings an openings read consults: the scope's, when a building is
/// asked for.
pub open spec fn consulted_buildings(state: AppState, project: Option<Seq<char>>, milestone: Option<Seq<char>>, building: Option<Seq<char>>) -> Seq<RoomBuildingV> {
    if building is Some {
        scope_buildings(state, project, milestone)
    } else {
        Seq::empty()
    }
}

fn policy_for(state: &AppState, kind: OpeningKind, project: &str) -> (r: OpeningPolicy)
    ensures
        r == policy_of(*state, kind, project@),
{
    match state.settings().settings_for(project) {
        Some(b) => *kind.policy(b),
        None => OpeningPolicy::default(),
    }
}

fn sources_for(state: &AppState, kind: OpeningKind, project: &str) -> (r: Vec<JoinSource>)
    ensures
        r.deep_view() == opening_sources_of(*state, kind, project@),
{
    match state.settings().settings_for(project) {
        Some(b) => entity_sources(b, kind.reference_entity()),
        None => {
            let v: Vec<JoinSource> = Vec::new();
            assert(v.deep_view() =~= Seq::<JoinSourceV>::empty());
            v
        },
    }
}

/// Build one opening's response.
fn opening_response(
    project_id: &String,
    model_id: &String,
    o: &Opening,
    sources: &[JoinSource],
    policy: OpeningPolicy,
    derived: &[DerivedSides],
) -> (r: OpeningResponse)
    ensures
        forall|s: ScopedV<OpeningV>|
            s.payload.project.id == project_id@ && s.payload.model.id == model_id@ ==> r.deep_view()
                == opening_response_of(s, o.deep_view(), sources.deep_view(), policy, derived.deep_view()),
{
    let d = if policy.room_resolution != RoomResolution::Off && (o.from_room.is_none() || o.to_room.is_none()) {
        derived_sides(derived, model_id.as_str(), o.id.as_str())
    } else {
        crate::contract::Sides {
            from: crate::contract::Located::Unresolved(crate::contract::Unresolved::NoCandidate),
            to: crate::contract::Located::Unresolved(crate::contract::Unresolved::NoCandidate),
        }
    };
    let from_s: Option<&str> = match &o.from_room {
        Some(x) => Some(x.as_str()),
        None => None,
    };
    let to_s: Option<&str> = match &o.to_room {
        Some(x) => Some(x.as_str()),
        None => None,
    };
    assert(opt_str(from_s) == o.from_room.deep_view());
    assert(opt_str(to_s) == o.to_room.deep_view());
    let from = side_origin(from_s, model_id.as_str(), &d.from);
    let to = side_origin(to_s, model_id.as_str(), &d.to);
    let qualified = policy.room_attribution.owners(from.room(), to.room());
    let qs = qualified.as_slice();
    assert(qs.deep_view() =~= qualified.deep_view());
    let owner_rooms = same_model_rooms(qs, model_id.as_str());
    let ps = o.properties.as_slice();
    let ts = o.type_properties.as_slice();
    assert(ps.deep_view() =~= o.properties.deep_view());
    assert(ts.deep_view() =~= o.type_properties.deep_view());
    let reference = join_reference(ps, ts, sources);
    OpeningResponse {
        door: o.dup(),
        project_id: project_id.clone(),
        model_id: model_id.clone(),
        owner_rooms,
        owner_rooms_qualified: qualified,
        room_origin: RoomOrigin { from_room: from, to_room: to },
        reference,
    }
}

fn opening_kept_exec(
    r: &OpeningResponse,
    buildings: &[RoomBuilding],
    building: Option<&str>,
    filter: Option<&RoomFilter>,
) -> (k: bool)
    ensures
        k == opening_kept(r.deep_view(), buildings.deep_view(), opt_str(building), filter),
{
    let in_building = match building {
        Some(b) => {
            let qs = r.owner_rooms_qualified.as_slice();
            assert(qs.deep_view() =~= r.owner_rooms_qualified.deep_view());
            owned_in_exec(qs, buildings, b)
        },
        None => true,
    };
    if !in_building {
        return false;
    }
    match filter {
        Some(f) => {
            let k = f.matches(r);
            assert(presence_fn(*r) =~= opening_fields(r.deep_view()));
            k
        },
        None => true,
    }
}

/// Merge every in-scope model's doors or windows. `None` when nothing of this
/// entity was ever pushed; a scope that matches nothing is an empty list.
/// `derived` is what geometry found for openings whose project resolves rooms.
pub fn assemble_openings(
    state: &AppState,
    kind: OpeningKind,
    scope: &OpeningScope,
    derived: &[DerivedSides],
) -> (r: Option<Assembled>)
    ensures
        match r {
            None => !has_any(state.index.deep_view(), opening_snapshot_kind(kind)),
            Some(a) => {
                let scoped = openings_scoped_of(*state, kind, opt_str(scope.project), opt_str(scope.milestone));
                &&& has_any(state.index.deep_view(), opening_snapshot_kind(kind))
                &&& a.openings.deep_view() == scoped_openings(
                    *state,
                    kind,
                    scoped,
                    derived.deep_view(),
                    consulted_buildings(*state, opt_str(scope.project), opt_str(scope.milestone), opt_str(scope.building)),
                    opt_str(scope.building),
                    scope.filter,
                )
                &&& a.revision@ == crate::cursor::cursor_of(revision_rows(scoped))
                &&& a.phase_by_model.deep_view() == phases_of(scoped)
            },
        },
{
    if !state.has_any_snapshot(kind.snapshot_kind()) {
        return None;
    }
    let idx = state.index.as_slice();
    let hist = match kind {
        OpeningKind::Doors => state.doors.as_slice(),
        OpeningKind::Windows => state.windows.as_slice(),
    };
    assert(idx.deep_view() =~= state.index.deep_view());
    assert(hist.deep_view() =~= opening_history(*state, kind));
    let scoped = scope_snapshots(idx, state.settings(), hist, kind.snapshot_kind(), scope.project, scope.milestone);
    let buildings: Vec<RoomBuilding> = match scope.building {
        Some(_) => building_by_room(state, scope.project, scope.milestone),
        None => Vec::new(),
    };
    let bs = buildings.as_slice();
    assert(bs.deep_view() =~= consulted_buildings(*state, opt_str(scope.project), opt_str(scope.milestone), opt_str(scope.building)));
    let ghost sd = scoped.deep_view();
    let ghost bv = opt_str(scope.building);
    let ghost dv = derived.deep_view();
    let ghost bmap = bs.deep_view();
    let mut openings: Vec<OpeningResponse> = Vec::new();
    let mut i: usize = 0;
    while i < scoped.len()
        invariant
            i <= scoped@.len(),
            sd == scoped.deep_view(),
            bv == opt_str(scope.building),
            dv == derived.deep_view(),
            bmap == bs.deep_view(),
            openings.deep_view() == scoped_openings(*state, kind, sd.take(i as int), dv, bmap, bv, scope.filter),
        decreases scoped@.len() - i,
    {
        let s = &scoped[i];
        assert(s.deep_view() == sd[i as int]);
        let sources = sources_for(state, kind, s.payload.project.id.as_str());
        let policy = policy_for(state, kind, s.payload.project.id.as_str());
        let ss = sources.as_slice();
        assert(ss.deep_view() =~= sources.deep_view());
        let ghost srcv = sources.deep_view();
        let ghost base = openings.deep_view();
        let ghost els = sd[i as int].payload.elements;
        let mut k: usize = 0;
        while k < s.payload.elements.len()
            invariant
                k <= s.payload.elements@.len(),
                i < sd.len(),
                s.deep_view() == sd[i as int],
                els == s.payload.elements.deep_view(),
                srcv == ss.deep_view(),
                bv == opt_str(scope.building),
                dv == derived.deep_view(),
                bmap == bs.deep_view(),
                openings.deep_view() == base + snapshot_openings(
                    sd[i as int],
                    els.take(k as int),
                    srcv,
                    policy,
                    dv,
                    bmap,
                    bv,
                    scope.filter,
                ),
            decreases s.payload.elements@.len() - k,
        {
            let o = &s.payload.elements[k];
            assert(o.deep_view() == els[k as int]);
            let response = opening_response(&s.payload.project.id, &s.payload.model.id, o, ss, policy, derived);
            assert(response.deep_view() == opening_response_of(sd[i as int], els[k as int], srcv, policy, dv));
            proof {
                assert(els.take(k + 1).drop_last() =~= els.take(k as int));
                assert(els.take(k + 1).last() == els[k as int]);
            }
            let ghost before = openings.deep_view();
            if opening_kept_exec(&response, bs, scope.building, scope.filter) {
                openings.push(response);
                assert(openings.deep_view() =~= before.push(opening_response_of(sd[i as int], els[k as int], srcv, policy, dv)));
            }
            assert(openings.deep_view() =~= base + snapshot_openings(
                sd[i as int],
                els.take(k + 1),
                srcv,
                policy,
                dv,
                bmap,
                bv,
                scope.filter,
            ));
            k += 1;
        }
        proof {
            assert(els.take(k as int) =~= els);
            assert(sd.take(i + 1).drop_last() =~= sd.take(i as int));
            assert(sd.take(i + 1).last() == sd[i as int]);
        }
        i += 1;
    }
    assert(sd.take(i as int) =~= sd);
    let scs = scoped.as_slice();
    assert(scs.deep_view() =~= sd);
    let revision = revision(scs);
    let phase_by_model = phase_by_model(scs);
    Some(Assembled { revision, openings, phase_by_model })
}

} // verus!
