//! The rooms read: every in-scope model's rooms, each with the reference
//! records it joins, narrowed by building and filter. Under a milestone a
//! source the milestone pins joins the pinned upload rather than its current
//! data.
use vstd::prelude::*;
use crate::contract::{field_presence, field_presence_exec, opt_str, Field, FieldV, Intrinsic, IntrinsicV, Presence, PropV, PropertyPresence, SnapshotKind, SourceRecord, SourceRecordV};
use crate::filter::{node_holds, presence_fn, split_namespace, split_of, FilterTarget, NamespaceSplit, NamespaceSplitV, PresenceFn, RoomFilter};
use crate::join::{join_reference, joined_of, JoinSource, JoinSourceV};
use crate::keyed::{entry, has_key, lookup, lemma_index_of, Dup};
use crate::records::{Room, RoomV};
use crate::reference::load_bytes_of;
use crate::scope::{lemma_plan_needs_latest, phase_by_model, phases_of, plan_of, read_of, revision, revision_rows, scope_snapshots, ModelPhase, ModelPhaseV, Scoped, ScopedV};
use crate::settings::{milestone_of, settings_of, ProjectSettings, ProjectSettingsV, ReferenceEntity, ReferenceSourceV};
use crate::state::{latest_in, upload_in, AppState, ModelIndexRowV, ReferenceUploadV};
use crate::text::owned;

verus! {

/// A room as served: the stored room, the model it came from, and what it
/// joined.
pub struct RoomResponse {
    pub room: Room,
    pub project_id: String,
    pub model_id: String,
    pub reference: Vec<SourceRecord>,
}

pub struct RoomResponseV {
    pub room: RoomV,
    pub project_id: Seq<char>,
    pub model_id: Seq<char>,
    pub reference: Seq<SourceRecordV>,
}

impl DeepView for RoomResponse {
    type V = RoomResponseV;

    open spec fn deep_view(&self) -> RoomResponseV {
        RoomResponseV {
            room: self.room.deep_view(),
            project_id: self.project_id@,
            model_id: self.model_id@,
            reference: self.reference.deep_view(),
        }
    }
}

impl Dup for RoomResponse {
    fn dup(&self) -> (r: Self) {
        RoomResponse {
            room: self.room.dup(),
            project_id: self.project_id.dup(),
            model_id: self.model_id.dup(),
            reference: self.reference.dup(),
        }
    }
}

/// A room's own fields: `$id`, `$name`, `$level_id`.
pub open spec fn room_intrinsics(r: RoomV) -> Seq<IntrinsicV> {
    seq![
        IntrinsicV { name: "$id"@, value: Some(r.id) },
        IntrinsicV { name: "$name"@, value: Some(r.name) },
        IntrinsicV { name: "$level_id"@, value: Some(r.level_id) },
    ]
}

fn room_intrinsics_exec(r: &Room) -> (v: Vec<Intrinsic>)
    ensures
        v.deep_view() == room_intrinsics(r.deep_view()),
{
    let mut v: Vec<Intrinsic> = Vec::new();
    v.push(Intrinsic { name: owned("$id"), value: Some(r.id.clone()) });
    v.push(Intrinsic { name: owned("$name"), value: Some(r.name.clone()) });
    v.push(Intrinsic { name: owned("$level_id"), value: Some(r.level_id.clone()) });
    assert(v.deep_view() =~= room_intrinsics(r.deep_view()));
    v
}

/// How a room answers a field name: its intrinsics, then its properties, or
/// a joined source's label.
pub open spec fn room_presence(v: RoomResponseV, source: Option<Seq<char>>, property: Seq<char>) -> Presence {
    field_presence(room_intrinsics(v.room), v.room.properties, Seq::empty(), v.reference, source, property)
}

pub open spec fn room_fields(v: RoomResponseV) -> PresenceFn {
    |source: Option<Seq<char>>, property: Seq<char>| room_presence(v, source, property)
}

impl FilterTarget for RoomResponse {
    open spec fn presence_of(&self, source: Option<Seq<char>>, property: Seq<char>) -> Presence {
        room_presence(self.deep_view(), source, property)
    }

    fn presence(&self, source: Option<&str>, property: &str) -> (r: PropertyPresence) {
        let intrinsics = room_intrinsics_exec(&self.room);
        let none: Vec<crate::contract::Prop> = Vec::new();
        let is = intrinsics.as_slice();
        let ps = self.room.properties.as_slice();
        let ns = none.as_slice();
        let rs = self.reference.as_slice();
        assert(is.deep_view() =~= intrinsics.deep_view());
        assert(ps.deep_view() =~= self.room.properties.deep_view());
        assert(ns.deep_view() =~= Seq::<PropV>::empty());
        assert(rs.deep_view() =~= self.reference.deep_view());
        field_presence_exec(is, ps, ns, rs, source, property)
    }
}

/// Whether a room joined the named source at all.
pub fn source_joined(room: &RoomResponse, source: &str) -> (r: bool)
    ensures
        r == has_key::<SourceRecord>(room.reference.deep_view(), source@),
{
    let rs = room.reference.as_slice();
    assert(rs.deep_view() =~= room.reference.deep_view());
    let found = lookup(rs, source);
    proof {
        lemma_index_of::<SourceRecord>(room.reference.deep_view(), source@);
    }
    found.is_some()
}

/// A field name resolved against a room: which joined source it read (if
/// qualified), and its presence. A name qualified by an unknown source reads
/// as absent.
pub open spec fn resolved_of(v: RoomResponseV, field: Seq<char>, known: Seq<Seq<char>>) -> (Option<Seq<char>>, Presence) {
    match split_of(field, known) {
        NamespaceSplitV::Joined { source, property } => (Some(source), room_presence(v, Some(source), property)),
        NamespaceSplitV::Unqualified(name) => (None, room_presence(v, None, name)),
        NamespaceSplitV::UnknownSource(_) => (None, Presence::Absent),
    }
}

/// Resolve one comparable or filterable field name against a room.
pub fn resolve_presence(room: &RoomResponse, field: &str, known: &[String]) -> (r: (Option<String>, PropertyPresence))
    ensures
        (match r.0 {
            Some(s) => Some(s@),
            None => None,
        }, r.1@) == resolved_of(room.deep_view(), field@, known.deep_view()),
{
    match split_namespace(field, known) {
        NamespaceSplit::Joined { source, property } => {
            let p = room.presence(Some(source.as_str()), property.as_str());
            (Some(source), p)
        },
        NamespaceSplit::Unqualified(name) => (None, room.presence(None, name.as_str())),
        NamespaceSplit::UnknownSource(_) => (None, PropertyPresence::Absent),
    }
}

/// Everything that narrows a rooms read.
pub struct RoomScope<'a> {
    pub project: Option<&'a str>,
    /// The building key a room's classification gives.
    pub building: Option<&'a str>,
    pub milestone: Option<&'a str>,
    pub filter: Option<&'a RoomFilter>,
}

/// The merged rooms payload.
pub struct RoomsResult {
    pub revision: String,
    pub rooms: Vec<RoomResponse>,
    pub phase_by_model: Vec<ModelPhase>,
}

/// Whether any model's latest snapshots include one of `kind`.
pub open spec fn has_any(index: Seq<ModelIndexRowV>, kind: SnapshotKind) -> bool {
    exists|i: int| 0 <= i < index.len() && (#[trigger] latest_in(index[i].latest, kind)) is Some
}

impl AppState {
    /// Whether anything of this kind was ever pushed.
    pub fn has_any_snapshot(&self, kind: SnapshotKind) -> (r: bool)
        ensures
            r == has_any(self.index.deep_view(), kind),
    {
        let ghost d = self.index.deep_view();
        let mut i: usize = 0;
        while i < self.index.len()
            invariant
                i <= self.index@.len(),
                d == self.index.deep_view(),
                forall|j: int| 0 <= j < i ==> (#[trigger] latest_in(d[j].latest, kind)) is None,
            decreases self.index@.len() - i,
        {
            assert(d[i as int] == self.index@[i as int].deep_view());
            if crate::scope::latest_id(&self.index[i], kind).is_some() {
                assert(latest_in(d[i as int].latest, kind) is Some);
                return true;
            }
            i += 1;
        }
        false
    }
}

/// The sources a rooms read joins in one project: each rooms source at the
/// upload the milestone pins for it, or at its current data when nothing is
/// pinned. A pin naming an upload that is missing or does not parse joins
/// nothing.
pub open spec fn room_sources_from(
    reference: Seq<ReferenceSourceV>,
    uploads: Seq<ReferenceUploadV>,
    project: Seq<char>,
    pins: Seq<FieldV>,
) -> Seq<JoinSourceV>
    decreases reference.len(),
{
    if reference.len() == 0 {
        Seq::empty()
    } else {
        let rest = room_sources_from(reference.drop_last(), uploads, project, pins);
        let s = reference.last();
        if s.entity != ReferenceEntity::Rooms {
            rest
        } else {
            match entry::<Field>(pins, s.name) {
                Some(pin) => match upload_in(uploads, project, s.name, pin.value) {
                    Some(bytes) => match load_bytes_of(bytes) {
                        Ok(d) => rest.push(JoinSourceV { name: s.name, data: d }),
                        Err(_) => rest,
                    },
                    None => rest,
                },
                None => match s.data {
                    Some(d) => rest.push(JoinSourceV { name: s.name, data: d }),
                    None => rest,
                },
            }
        }
    }
}

/// The reference pins a read applies: the milestone's, or none.
pub open spec fn reference_pins(settings: ProjectSettingsV, milestone: Option<Seq<char>>) -> Seq<FieldV> {
    match milestone {
        Some(m) => match milestone_of(settings, m) {
            Some(ms) => ms.reference_snapshots,
            None => Seq::empty(),
        },
        None => Seq::empty(),
    }
}

/// The sources a rooms read joins for one project.
pub open spec fn room_sources_of(state: AppState, project: Seq<char>, milestone: Option<Seq<char>>) -> Seq<JoinSourceV> {
    match settings_of(state.registry.view_projects(), project) {
        Some(s) => room_sources_from(s.reference, state.uploads.deep_view(), project, reference_pins(s, milestone)),
        None => Seq::empty(),
    }
}

/// The sources a rooms read joins for one project.
pub fn room_sources(state: &AppState, project: &str, milestone: Option<&str>) -> (r: Vec<JoinSource>)
    ensures
        r.deep_view() == room_sources_of(*state, project@, opt_str(milestone)),
{
    let settings = match state.settings().settings_for(project) {
        Some(s) => s,
        None => {
            let v: Vec<JoinSource> = Vec::new();
            assert(v.deep_view() =~= Seq::<JoinSourceV>::empty());
            return v;
        },
    };
    let empty: Vec<Field> = Vec::new();
    let pins: &[Field] = match milestone {
        Some(m) => match settings.milestone(m) {
            Some(ms) => ms.reference_snapshots.as_slice(),
            None => empty.as_slice(),
        },
        None => empty.as_slice(),
    };
    assert(pins.deep_view() =~= reference_pins(settings.deep_view(), opt_str(milestone)));
    let ghost d = settings.reference.deep_view();
    let mut out: Vec<JoinSource> = Vec::new();
    let mut i: usize = 0;
    while i < settings.reference.len()
        invariant
            i <= settings.reference@.len(),
            d == settings.reference.deep_view(),
            out.deep_view() == room_sources_from(d.take(i as int), state.uploads.deep_view(), project@, pins.deep_view()),
        decreases settings.reference@.len() - i,
    {
        let s = &settings.reference[i];
        assert(s.deep_view() == d[i as int]);
        proof {
            assert(d.take(i + 1).drop_last() =~= d.take(i as int));
            assert(d.take(i + 1).last() == d[i as int]);
        }
        let ghost before = out.deep_view();
        if s.entity == ReferenceEntity::Rooms {
            match lookup(pins, s.name.as_str()) {
                Some(pin) => {
                    match state.get_drofus(project, s.name.as_str(), pin.value.as_str()) {
                        Some(bytes) => {
                            let bs = bytes.as_slice();
                            match crate::reference::load_reference_from_bytes(bs) {
                                Ok(data) => {
                                    out.push(JoinSource { name: s.name.clone(), data });
                                },
                                Err(_) => {},
                            }
                        },
                        None => {},
                    }
                },
                None => {
                    if let Some(data) = &s.data {
                        out.push(JoinSource { name: s.name.clone(), data: data.dup() });
                    }
                },
            }
        }
        assert(out.deep_view() =~= room_sources_from(d.take(i + 1), state.uploads.deep_view(), project@, pins.deep_view()));
        i += 1;
    }
    assert(d.take(i as int) =~= d);
    out
}

/// The response a room gets from one contributing snapshot.
pub open spec fn room_response_of(s: ScopedV<RoomV>, r: RoomV, sources: Seq<JoinSourceV>) -> RoomResponseV {
    RoomResponseV {
        room: r,
        project_id: s.payload.project.id,
        model_id: s.payload.model.id,
        reference: joined_of(r.properties, Seq::empty(), sources),
    }
}

/// Whether a room is kept: in the asked building, and matching the filter.
pub open spec fn room_kept(v: RoomResponseV, building: Option<Seq<char>>, filter: Option<&RoomFilter>) -> bool {
    &&& (building matches Some(b) ==> v.room.building == Some(b))
    &&& (filter matches Some(f) ==> node_holds(f.root, room_fields(v)))
}

/// The kept responses of one snapshot's rooms, in order.
pub open spec fn snapshot_rooms(
    s: ScopedV<RoomV>,
    rooms: Seq<RoomV>,
    sources: Seq<JoinSourceV>,
    building: Option<Seq<char>>,
    filter: Option<&RoomFilter>,
) -> Seq<RoomResponseV>
    decreases rooms.len(),
{
    if rooms.len() == 0 {
        Seq::empty()
    } else {
        let rest = snapshot_rooms(s, rooms.drop_last(), sources, building, filter);
        let v = room_response_of(s, rooms.last(), sources);
        if room_kept(v, building, filter) {
            rest.push(v)
        } else {
            rest
        }
    }
}

/// The kept responses of every contributing snapshot, in read order.
pub open spec fn scoped_rooms(
    state: AppState,
    scoped: Seq<ScopedV<RoomV>>,
    milestone: Option<Seq<char>>,
    building: Option<Seq<char>>,
    filter: Option<&RoomFilter>,
) -> Seq<RoomResponseV>
    decreases scoped.len(),
{
    if scoped.len() == 0 {
        Seq::empty()
    } else {
        let s = scoped.last();
        scoped_rooms(state, scoped.drop_last(), milestone, building, filter) + snapshot_rooms(
            s,
            s.payload.elements,
            room_sources_of(state, s.payload.project.id, milestone),
            building,
            filter,
        )
    }
}

/// What a rooms read scopes: the snapshots its plan names.
pub open spec fn rooms_scoped_of(state: AppState, project: Option<Seq<char>>, milestone: Option<Seq<char>>) -> Seq<ScopedV<RoomV>> {
    read_of(
        state.rooms.deep_view(),
        plan_of(state.index.deep_view(), state.registry.view_projects(), SnapshotKind::Rooms, project, milestone),
    )
}

/// With no rooms snapshot anywhere, a rooms read in any scope serves nothing.
pub proof fn lemma_no_rooms_scoped(state: AppState, project: Option<Seq<char>>, milestone: Option<Seq<char>>, building: Option<Seq<char>>)
    requires
        !has_any(state.index.deep_view(), SnapshotKind::Rooms),
    ensures
        scoped_rooms(state, rooms_scoped_of(state, project, milestone), milestone, building, None) == Seq::<RoomResponseV>::empty(),
{
    let index = state.index.deep_view();
    assert forall|i: int| 0 <= i < index.len() implies (#[trigger] latest_in(index[i].latest, SnapshotKind::Rooms)) is None by {
        if latest_in(index[i].latest, SnapshotKind::Rooms) is Some {
            assert(has_any(index, SnapshotKind::Rooms));
        }
    }
    lemma_plan_needs_latest(index, state.registry.view_projects(), SnapshotKind::Rooms, project, milestone);
    assert(rooms_scoped_of(state, project, milestone) =~= Seq::<ScopedV<RoomV>>::empty());
}

fn filter_keeps(filter: Option<&RoomFilter>, room: &RoomResponse) -> (r: bool)
    ensures
        r == (filter matches Some(f) ==> node_holds(f.root, room_fields(room.deep_view()))),
{
    match filter {
        Some(f) => {
            let k = f.matches(room);
            assert(presence_fn(*room) =~= room_fields(room.deep_view()));
            k
        },
        None => true,
    }
}

fn building_keeps(building: Option<&str>, room: &RoomResponse) -> (r: bool)
    ensures
        r == (opt_str(building) matches Some(b) ==> room.room.building.deep_view() == Some(b)),
{
    match building {
        Some(b) => match &room.room.building {
            Some(rb) => crate::text::text_eq(rb.as_str(), b),
            None => false,
        },
        None => true,
    }
}

/// Merge every in-scope model's rooms. `None` when no rooms were ever pushed;
/// a scope that matches nothing is an empty list.
pub fn assemble_rooms(state: &AppState, scope: &RoomScope) -> (r: Option<RoomsResult>)
    ensures
        match r {
            None => !has_any(state.index.deep_view(), SnapshotKind::Rooms),
            Some(res) => {
                let scoped = rooms_scoped_of(*state, opt_str(scope.project), opt_str(scope.milestone));
                &&& has_any(state.index.deep_view(), SnapshotKind::Rooms)
                &&& res.rooms.deep_view() == scoped_rooms(
                    *state,
                    scoped,
                    opt_str(scope.milestone),
                    opt_str(scope.building),
                    scope.filter,
                )
                &&& res.revision@ == crate::cursor::cursor_of(revision_rows(scoped))
                &&& res.phase_by_model.deep_view() == phases_of(scoped)
            },
        },
{
    if !state.has_any_snapshot(SnapshotKind::Rooms) {
        return None;
    }
    let idx = state.index.as_slice();
    let hist = state.rooms.as_slice();
    assert(idx.deep_view() =~= state.index.deep_view());
    assert(hist.deep_view() =~= state.rooms.deep_view());
    let scoped = scope_snapshots(idx, state.settings(), hist, SnapshotKind::Rooms, scope.project, scope.milestone);
    let ghost sd = scoped.deep_view();
    let ghost mv = opt_str(scope.milestone);
    let ghost bv = opt_str(scope.building);
    let mut rooms: Vec<RoomResponse> = Vec::new();
    let mut i: usize = 0;
    while i < scoped.len()
        invariant
            i <= scoped@.len(),
            sd == scoped.deep_view(),
            mv == opt_str(scope.milestone),
            bv == opt_str(scope.building),
            rooms.deep_view() == scoped_rooms(*state, sd.take(i as int), mv, bv, scope.filter),
        decreases scoped@.len() - i,
    {
        let s = &scoped[i];
        assert(s.deep_view() == sd[i as int]);
        let sources = room_sources(state, s.payload.project.id.as_str(), scope.milestone);
        let ghost srcv = sources.deep_view();
        let ghost base = rooms.deep_view();
        let ghost els = sd[i as int].payload.elements;
        let mut k: usize = 0;
        while k < s.payload.elements.len()
            invariant
                k <= s.payload.elements@.len(),
                i < sd.len(),
                s.deep_view() == sd[i as int],
                els == s.payload.elements.deep_view(),
                srcv == sources.deep_view(),
                bv == opt_str(scope.building),
                rooms.deep_view() == base + snapshot_rooms(sd[i as int], els.take(k as int), srcv, bv, scope.filter),
            decreases s.payload.elements@.len() - k,
        {
            let room = &s.payload.elements[k];
            assert(room.deep_view() == els[k as int]);
            let ps = room.properties.as_slice();
            let none: Vec<crate::contract::Prop> = Vec::new();
            let ns = none.as_slice();
            let ss = sources.as_slice();
            assert(ps.deep_view() =~= room.properties.deep_view());
            assert(ns.deep_view() =~= Seq::<PropV>::empty());
            assert(ss.deep_view() =~= srcv);
            let reference = join_reference(ps, ns, ss);
            let response = RoomResponse {
                room: room.dup(),
                project_id: s.payload.project.id.clone(),
                model_id: s.payload.model.id.clone(),
                reference,
            };
            assert(response.deep_view() == room_response_of(sd[i as int], els[k as int], srcv));
            proof {
                assert(els.take(k + 1).drop_last() =~= els.take(k as int));
                assert(els.take(k + 1).last() == els[k as int]);
            }
            let ghost before = rooms.deep_view();
            if building_keeps(scope.building, &response) && filter_keeps(scope.filter, &response) {
                rooms.push(response);
                assert(rooms.deep_view() =~= before.push(room_response_of(sd[i as int], els[k as int], srcv)));
            }
            assert(rooms.deep_view() =~= base + snapshot_rooms(sd[i as int], els.take(k + 1), srcv, bv, scope.filter));
            k += 1;
        }
        proof {
            assert(els.take(k as int) =~= els);
            assert(sd.take(i + 1).drop_last() =~= sd.take(i as int));
            assert(sd.take(i + 1).last() == sd[i as int]);
        }
        i += 1;
    }
    assert(sd.take(i as int) =~= sd);
    let ss = scoped.as_slice();
    assert(ss.deep_view() =~= sd);
    let revision = revision(ss);
    let phase_by_model = phase_by_model(ss);
    Some(RoomsResult { revision, rooms, phase_by_model })
}

} // verus!
