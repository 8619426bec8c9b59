//! The doors read in its first form: each door attributed by the project's
//! policy to the rooms its model states, with no geometry, narrowed by
//! building (the owning room's) and filter.
use vstd::prelude::*;
use crate::attribution::{building_by_room, building_lookup, building_of, scope_buildings, RoomBuilding, RoomBuildingV};
use crate::contract::{opt_str, Presence, PropertyPresence, SnapshotKind, SourceRecord, SourceRecordV, SUPPORTED_DOOR_SCHEMA};
use crate::filter::{node_holds, presence_fn, split_namespace, split_of, FilterTarget, NamespaceSplit, NamespaceSplitV, PresenceFn, RoomFilter};
use crate::join::{join_reference, joined_of, JoinSource, JoinSourceV};
use crate::keyed::Dup;
use crate::openings::{opening_presence, opening_presence_exec, opening_sources_of, policy_of, OpeningKind};
use crate::records::{Opening, OpeningV};
use crate::rooms::has_any;
use crate::scope::{phase_by_model, phases_of, plan_of, read_of, revision, revision_rows, scope_snapshots, ModelPhase, ScopedV};
use crate::settings::{owners_of, RoomAttribution};
use crate::state::AppState;
use crate::text::text_eq;

verus! {

/// A door as served: the stored door, its model, the rooms the policy gives
/// it, and what it joined.
pub struct DoorResponse {
    pub door: Opening,
    pub project_id: String,
    pub model_id: String,
    /// The rooms this door is attributed to, in policy order; empty means
    /// homeless.
    pub owner_rooms: Vec<String>,
    pub reference: Vec<SourceRecord>,
}

pub struct DoorResponseV {
    pub door: OpeningV,
    pub project_id: Seq<char>,
    pub model_id: Seq<char>,
    pub owner_rooms: Seq<Seq<char>>,
    pub reference: Seq<SourceRecordV>,
}

impl DeepView for DoorResponse {
    type V = DoorResponseV;

    open spec fn deep_view(&self) -> DoorResponseV {
        DoorResponseV {
            door: self.door.deep_view(),
            project_id: self.project_id@,
            model_id: self.model_id@,
            owner_rooms: self.owner_rooms.deep_view(),
            reference: self.reference.deep_view(),
        }
    }
}

pub open spec fn door_fields(v: DoorResponseV) -> PresenceFn {
    |source: Option<Seq<char>>, property: Seq<char>| opening_presence(v.door, v.reference, source, property)
}

impl FilterTarget for DoorResponse {
    open spec fn presence_of(&self, source: Option<Seq<char>>, property: Seq<char>) -> Presence {
        opening_presence(self.door.deep_view(), self.reference.deep_view(), source, property)
    }

    fn presence(&self, source: Option<&str>, property: &str) -> (r: PropertyPresence) {
        let rs = self.reference.as_slice();
        assert(rs.deep_view() =~= self.reference.deep_view());
        opening_presence_exec(&self.door, rs, source, property)
    }
}

/// A field name resolved against a door; a name qualified by an unknown
/// source reads as absent.
pub open spec fn door_resolved_of(v: DoorResponseV, field: Seq<char>, known: Seq<Seq<char>>) -> Presence {
    match split_of(field, known) {
        NamespaceSplitV::Joined { source, property } => opening_presence(v.door, v.reference, Some(source), property),
        NamespaceSplitV::Unqualified(name) => opening_presence(v.door, v.reference, None, name),
        NamespaceSplitV::UnknownSource(_) => Presence::Absent,
    }
}

/// Resolve one comparable or filterable field name against a door.
pub fn resolve_presence(door: &DoorResponse, field: &str, known: &[String]) -> (r: PropertyPresence)
    ensures
        r@ == door_resolved_of(door.deep_view(), field@, known.deep_view()),
{
    match split_namespace(field, known) {
        NamespaceSplit::Joined { source, property } => door.presence(Some(source.as_str()), property.as_str()),
        NamespaceSplit::Unqualified(name) => door.presence(None, name.as_str()),
        NamespaceSplit::UnknownSource(_) => PropertyPresence::Absent,
    }
}

/// Everything that narrows a doors read.
pub struct DoorScope<'a> {
    pub project: Option<&'a str>,
    /// A door's building is its owning room's building; a homeless door is in
    /// none.
    pub building: Option<&'a str>,
    pub milestone: Option<&'a str>,
    pub filter: Option<&'a RoomFilter>,
}

/// The merged doors payload.
pub struct DoorsResult {
    pub schema_version: u32,
    pub revision: String,
    pub doors: Vec<DoorResponse>,
    pub phase_by_model: Vec<ModelPhase>,
}

pub open spec fn door_response_of(s: ScopedV<OpeningV>, o: OpeningV, sources: Seq<JoinSourceV>, attribution: RoomAttribution) -> DoorResponseV {
    DoorResponseV {
        door: o,
        project_id: s.payload.project.id,
        model_id: s.payload.model.id,
        owner_rooms: owners_of(attribution, o.from_room, o.to_room),
        reference: joined_of(o.properties, o.type_properties, sources),
    }
}

/// Whether one of a door's owners, in its own model, is in the building.
pub open spec fn owns_in(v: DoorResponseV, map: Seq<RoomBuildingV>, wanted: Seq<char>) -> bool {
    exists|i: int| 0 <= i < v.owner_rooms.len() && building_of(map, v.model_id, v.owner_rooms[i]) == Some(wanted)
}

pub open spec fn door_kept(v: DoorResponseV, map: Seq<RoomBuildingV>, building: Option<Seq<char>>, filter: Option<&RoomFilter>) -> bool {
    &&& (building matches Some(b) ==> owns_in(v, map, b))
    &&& (filter matches Some(f) ==> node_holds(f.root, door_fields(v)))
}

pub open spec fn snapshot_doors(
    s: ScopedV<OpeningV>,
    items: Seq<OpeningV>,
    sources: Seq<JoinSourceV>,
    attribution: RoomAttribution,
    map: Seq<RoomBuildingV>,
    building: Option<Seq<char>>,
    filter: Option<&RoomFilter>,
) -> Seq<DoorResponseV>
    decreases items.len(),
{
    if items.len() == 0 {
        Seq::empty()
    } else {
        let rest = snapshot_doors(s, items.drop_last(), sources, attribution, map, building, filter);
        let v = door_response_of(s, items.last(), sources, attribution);
        if door_kept(v, map, building, filter) {
            rest.push(v)
        } else {
            rest
        }
    }
}

pub open spec fn scoped_doors(
    state: AppState,
    scoped: Seq<ScopedV<OpeningV>>,
    map: Seq<RoomBuildingV>,
    building: Option<Seq<char>>,
    filter: Option<&RoomFilter>,
) -> Seq<DoorResponseV>
    decreases scoped.len(),
{
    if scoped.len() == 0 {
        Seq::empty()
    } else {
        let s = scoped.last();
        let p = s.payload.project.id;
        scoped_doors(state, scoped.drop_last(), map, building, filter) + snapshot_doors(
            s,
            s.payload.elements,
            opening_sources_of(state, OpeningKind::Doors, p),
            policy_of(state, OpeningKind::Doors, p).room_attribution,
            map,
            building,
            filter,
        )
    }
}

pub open spec fn doors_scoped_of(state: AppState, project: Option<Seq<char>>, milestone: Option<Seq<char>>) -> Seq<ScopedV<OpeningV>> {
    read_of(
        state.doors.deep_view(),
        plan_of(state.index.deep_view(), state.registry.view_projects(), SnapshotKind::Doors, project, milestone),
    )
}

fn owns_in_exec(r: &DoorResponse, map: &[RoomBuilding], wanted: &str) -> (k: bool)
    ensures
        k == owns_in(r.deep_view(), map.deep_view(), wanted@),
{
    let ghost v = r.deep_view();
    let mut i: usize = 0;
    while i < r.owner_rooms.len()
        invariant
            i <= r.owner_rooms@.len(),
            v == r.deep_view(),
            forall|j: int|
                0 <= j < i ==> building_of(map.deep_view(), v.model_id, #[trigger] v.owner_rooms[j]) != Some(wanted@),
        decreases r.owner_rooms@.len() - i,
    {
        assert(v.owner_rooms[i as int] == r.owner_rooms@[i as int]@);
        let found = building_lookup(map, r.model_id.as_str(), r.owner_rooms[i].as_str());
        if let Some(b) = found {
            if text_eq(b.as_str(), wanted) {
                return true;
            }
        }
        i += 1;
    }
    false
}

fn door_kept_exec(r: &DoorResponse, map: &[RoomBuilding], building: Option<&str>, filter: Option<&RoomFilter>) -> (k: bool)
    ensures
        k == door_kept(r.deep_view(), map.deep_view(), opt_str(building), filter),
{
    let in_building = match building {
        Some(b) => owns_in_exec(r, map, b),
        None => true,
    };
    if !in_building {
        return false;
    }
    match filter {
        Some(f) => {
            let k = f.matches(r);
            assert(presence_fn(*r) =~= door_fields(r.deep_view()));
            k
        },
        None => true,
    }
}

/// Merge every in-scope model's doors. `None` when no doors were ever pushed;
/// a scope that matches nothing is an empty list.
pub fn assemble_doors(state: &AppState, scope: &DoorScope) -> (r: Option<DoorsResult>)
    ensures
        match r {
            None => !has_any(state.index.deep_view(), SnapshotKind::Doors),
            Some(res) => {
                let scoped = doors_scoped_of(*state, opt_str(scope.project), opt_str(scope.milestone));
                &&& has_any(state.index.deep_view(), SnapshotKind::Doors)
                &&& res.schema_version == SUPPORTED_DOOR_SCHEMA
                &&& res.doors.deep_view() == scoped_doors(
                    *state,
                    scoped,
                    if scope.building is Some {
                        scope_buildings(*state, opt_str(scope.project), opt_str(scope.milestone))
                    } else {
                        Seq::empty()
                    },
                    opt_str(scope.building),
                    scope.filter,
                )
                &&& res.revision@ == crate::cursor::cursor_of(revision_rows(scoped))
                &&& res.phase_by_model.deep_view() == phases_of(scoped)
            },
        },
{
    if !state.has_any_snapshot(SnapshotKind::Doors) {
        return None;
    }
    let idx = state.index.as_slice();
    let hist = state.doors.as_slice();
    assert(idx.deep_view() =~= state.index.deep_view());
    assert(hist.deep_view() =~= state.doors.deep_view());
    let scoped = scope_snapshots(idx, state.settings(), hist, SnapshotKind::Doors, scope.project, scope.milestone);
    let buildings: Vec<RoomBuilding> = match scope.building {
        Some(_) => building_by_room(state, scope.project, scope.milestone),
        None => Vec::new(),
    };
    let bs = buildings.as_slice();
    let ghost bmap = bs.deep_view();
    assert(bmap =~= (if scope.building is Some {
        scope_buildings(*state, opt_str(scope.project), opt_str(scope.milestone))
    } else {
        Seq::empty()
    }));
    let ghost sd = scoped.deep_view();
    let ghost bv = opt_str(scope.building);
    let mut doors: Vec<DoorResponse> = Vec::new();
    let mut i: usize = 0;
    while i < scoped.len()
        invariant
            i <= scoped@.len(),
            sd == scoped.deep_view(),
            bv == opt_str(scope.building),
            bmap == bs.deep_view(),
            doors.deep_view() == scoped_doors(*state, sd.take(i as int), bmap, bv, scope.filter),
        decreases scoped@.len() - i,
    {
        let s = &scoped[i];
        assert(s.deep_view() == sd[i as int]);
        let project = s.payload.project.id.as_str();
        let (sources, attribution): (Vec<JoinSource>, RoomAttribution) = match state.settings().settings_for(project) {
            Some(b) => (crate::join::entity_sources(b, crate::settings::ReferenceEntity::Doors), b.doors.room_attribution),
            None => (Vec::new(), RoomAttribution::ToRoomThenFromRoom),
        };
        assert(sources.deep_view() =~= opening_sources_of(*state, OpeningKind::Doors, project@));
        assert(attribution == policy_of(*state, OpeningKind::Doors, project@).room_attribution);
        let ss = sources.as_slice();
        assert(ss.deep_view() =~= sources.deep_view());
        let ghost srcv = sources.deep_view();
        let ghost base = doors.deep_view();
        let ghost els = sd[i as int].payload.elements;
        let mut k: usize = 0;
        while k < s.payload.elements.len()
            invariant
                k <= s.payload.elements@.len(),
                i < sd.len(),
                s.deep_view() == sd[i as int],
                els == s.payload.elements.deep_view(),
                srcv == ss.deep_view(),
                bv == opt_str(scope.building),
                bmap == bs.deep_view(),
                doors.deep_view() == base + snapshot_doors(sd[i as int], els.take(k as int), srcv, attribution, bmap, bv, scope.filter),
            decreases s.payload.elements@.len() - k,
        {
            let o = &s.payload.elements[k];
            assert(o.deep_view() == els[k as int]);
            let ps = o.properties.as_slice();
            let ts = o.type_properties.as_slice();
            assert(ps.deep_view() =~= o.properties.deep_view());
            assert(ts.deep_view() =~= o.type_properties.deep_view());
            let reference = join_reference(ps, ts, ss);
            let owner_rooms = attribution.owner_ids(o.from_room.as_ref(), o.to_room.as_ref());
            let response = DoorResponse {
                door: o.dup(),
                project_id: s.payload.project.id.clone(),
                model_id: s.payload.model.id.clone(),
                owner_rooms,
                reference,
            };
            assert(response.deep_view() == door_response_of(sd[i as int], els[k as int], srcv, attribution));
            proof {
                assert(els.take(k + 1).drop_last() =~= els.take(k as int));
                assert(els.take(k + 1).last() == els[k as int]);
            }
            let ghost before = doors.deep_view();
            if door_kept_exec(&response, bs, scope.building, scope.filter) {
                doors.push(response);
                assert(doors.deep_view() =~= before.push(door_response_of(sd[i as int], els[k as int], srcv, attribution)));
            }
            assert(doors.deep_view() =~= base + snapshot_doors(sd[i as int], els.take(k + 1), srcv, attribution, bmap, bv, scope.filter));
            k += 1;
        }
        proof {
            assert(els.take(k as int) =~= els);
            assert(sd.take(i + 1).drop_last() =~= sd.take(i as int));
            assert(sd.take(i + 1).last() == sd[i as int]);
        }
        i += 1;
    }
    assert(sd.take(i as int) =~= sd);
    let scs = scoped.as_slice();
    assert(scs.deep_view() =~= sd);
    let revision = revision(scs);
    let phase_by_model = phase_by_model(scs);
    Some(DoorsResult { schema_version: SUPPORTED_DOOR_SCHEMA, revision, doors, phase_by_model })
}

} // verus!
