//! What every element read needs to know about the rooms it is attributed to:
//! which building a room is in, which owners are in this element's own model,
//! and what geometry derived for an element whose model left a side absent.
//!
//! Geometry itself (probing plan outlines) is floating point and is not done
//! here: its answers arrive as `DerivedSides` / `DerivedRoom` records, keyed by
//! model and element, and an element geometry has no answer for reads
//! `no_candidate`.
use vstd::prelude::*;
use crate::contract::{opt_str, Located, LocatedV, RoomRef, RoomRefV, Sides, SidesV, SnapshotKind, Unresolved};
use crate::keyed::{first_where, lemma_first_where, lemma_first_where_at, Dup};
use crate::rooms::{assemble_rooms, has_any, rooms_scoped_of, scoped_rooms, RoomResponseV, RoomScope};
use crate::state::AppState;
use crate::text::text_eq;

verus! {

/// One room's building key.
pub struct RoomBuilding {
    pub model_id: String,
    pub room_id: String,
    pub building: String,
}

pub struct RoomBuildingV {
    pub model_id: Seq<char>,
    pub room_id: Seq<char>,
    pub building: Seq<char>,
}

impl DeepView for RoomBuilding {
    type V = RoomBuildingV;

    open spec fn deep_view(&self) -> RoomBuildingV {
        RoomBuildingV { model_id: self.model_id@, room_id: self.room_id@, building: self.building@ }
    }
}

/// The rooms that have a building, with it, in read order.
pub open spec fn buildings_of(rooms: Seq<RoomResponseV>) -> Seq<RoomBuildingV>
    decreases rooms.len(),
{
    if rooms.len() == 0 {
        Seq::empty()
    } else {
        let rest = buildings_of(rooms.drop_last());
        let r = rooms.last();
        match r.room.building {
            Some(b) => rest.push(RoomBuildingV { model_id: r.model_id, room_id: r.room.id, building: b }),
            None => rest,
        }
    }
}

/// The building of every room in a project and milestone's scope, with no
/// building or property filter: the filtering happens per element, against
/// its owner.
pub open spec fn scope_buildings(state: AppState, project: Option<Seq<char>>, milestone: Option<Seq<char>>) -> Seq<RoomBuildingV> {
    if has_any(state.index.deep_view(), SnapshotKind::Rooms) {
        buildings_of(scoped_rooms(state, rooms_scoped_of(state, project, milestone), milestone, None, None))
    } else {
        Seq::empty()
    }
}

/// `(model, room)` -> building key, for the rooms in scope.
pub fn building_by_room(state: &AppState, project: Option<&str>, milestone: Option<&str>) -> (r: Vec<RoomBuilding>)
    ensures
        r.deep_view() == scope_buildings(*state, opt_str(project), opt_str(milestone)),
{
    let scope = RoomScope { project, building: None, milestone, filter: None };
    let rooms = match assemble_rooms(state, &scope) {
        Some(res) => res.rooms,
        None => {
            let v: Vec<RoomBuilding> = Vec::new();
            assert(v.deep_view() =~= Seq::<RoomBuildingV>::empty());
            return v;
        },
    };
    let ghost d = rooms.deep_view();
    let mut out: Vec<RoomBuilding> = Vec::new();
    let mut i: usize = 0;
    while i < rooms.len()
        invariant
            i <= rooms@.len(),
            d == rooms.deep_view(),
            out.deep_view() == buildings_of(d.take(i as int)),
        decreases rooms@.len() - i,
    {
        let r = &rooms[i];
        assert(r.deep_view() == d[i as int]);
        proof {
            assert(d.take(i + 1).drop_last() =~= d.take(i as int));
            assert(d.take(i + 1).last() == d[i as int]);
        }
        let ghost before = out.deep_view();
        if let Some(b) = &r.room.building {
            out.push(RoomBuilding { model_id: r.model_id.clone(), room_id: r.room.id.clone(), building: b.clone() });
            assert(out.deep_view() =~= before.push(
                RoomBuildingV { model_id: d[i as int].model_id, room_id: d[i as int].room.id, building: b@ },
            ));
        }
        i += 1;
    }
    assert(d.take(i as int) =~= d);
    out
}

pub open spec fn is_room(model: Seq<char>, room: Seq<char>) -> spec_fn(RoomBuildingV) -> bool {
    |b: RoomBuildingV| b.model_id == model && b.room_id == room
}

/// A room's building, when it has one.
pub open spec fn building_of(map: Seq<RoomBuildingV>, model: Seq<char>, room: Seq<char>) -> Option<Seq<char>> {
    let i = first_where(map, is_room(model, room));
    if i < 0 {
        None
    } else {
        Some(map[i].building)
    }
}

/// Whether one of the owners is in the wanted building. An element with no
/// owner is in none.
pub open spec fn owned_in(owners: Seq<RoomRefV>, map: Seq<RoomBuildingV>, wanted: Seq<char>) -> bool {
    exists|i: int| 0 <= i < owners.len() && building_of(map, owners[i].model_id, owners[i].room_id) == Some(wanted)
}

pub fn building_lookup<'a>(map: &'a [RoomBuilding], model: &str, room: &str) -> (r: Option<&'a String>)
    ensures
        match r {
            Some(b) => building_of(map.deep_view(), model@, room@) == Some(b@),
            None => building_of(map.deep_view(), model@, room@) is None,
        },
{
    let ghost d = map.deep_view();
    let mut i: usize = 0;
    while i < map.len()
        invariant
            i <= map@.len(),
            d == map.deep_view(),
            forall|j: int| 0 <= j < i ==> !is_room(model@, room@)(#[trigger] d[j]),
        decreases map@.len() - i,
    {
        assert(d[i as int] == map@[i as int].deep_view());
        assert(is_room(model@, room@)(d[i as int]) == (d[i as int].model_id == model@ && d[i as int].room_id
            == room@));
        if text_eq(map[i].model_id.as_str(), model) && text_eq(map[i].room_id.as_str(), room) {
            proof {
                lemma_first_where_at(d, is_room(model@, room@), i as int);
            }
            return Some(&map[i].building);
        }
        i += 1;
    }
    proof {
        lemma_first_where_at(d, is_room(model@, room@), i as int);
    }
    None
}

/// Whether one of the owners is in the wanted building.
pub fn owned_in_exec(owners: &[RoomRef], map: &[RoomBuilding], wanted: &str) -> (r: bool)
    ensures
        r == owned_in(owners.deep_view(), map.deep_view(), wanted@),
{
    let ghost d = owners.deep_view();
    let mut i: usize = 0;
    while i < owners.len()
        invariant
            i <= owners@.len(),
            d == owners.deep_view(),
            forall|j: int|
                0 <= j < i ==> building_of(map.deep_view(), #[trigger] d[j].model_id, d[j].room_id) != Some(wanted@),
        decreases owners@.len() - i,
    {
        assert(d[i as int] == owners@[i as int].deep_view());
        match building_lookup(map, owners[i].model_id.as_str(), owners[i].room_id.as_str()) {
            Some(b) => {
                if text_eq(b.as_str(), wanted) {
                    return true;
                }
            },
            None => {},
        }
        i += 1;
    }
    false
}

/// The owners in the element's own model, as bare room ids.
pub open spec fn same_model_ids(owners: Seq<RoomRefV>, model: Seq<char>) -> Seq<Seq<char>>
    decreases owners.len(),
{
    if owners.len() == 0 {
        Seq::empty()
    } else {
        let rest = same_model_ids(owners.drop_last(), model);
        if owners.last().model_id == model {
            rest.push(owners.last().room_id)
        } else {
            rest
        }
    }
}

/// The owners in the element's own model, as bare room ids.
pub fn same_model_rooms(owners: &[RoomRef], model: &str) -> (r: Vec<String>)
    ensures
        r.deep_view() == same_model_ids(owners.deep_view(), model@),
{
    let ghost d = owners.deep_view();
    let mut out: Vec<String> = Vec::new();
    let mut i: usize = 0;
    while i < owners.len()
        invariant
            i <= owners@.len(),
            d == owners.deep_view(),
            out.deep_view() == same_model_ids(d.take(i as int), model@),
        decreases owners@.len() - i,
    {
        assert(d[i as int] == owners@[i as int].deep_view());
        proof {
            assert(d.take(i + 1).drop_last() =~= d.take(i as int));
            assert(d.take(i + 1).last() == d[i as int]);
        }
        let ghost before = out.deep_view();
        if text_eq(owners[i].model_id.as_str(), model) {
            out.push(owners[i].room_id.clone());
            assert(out.deep_view() =~= before.push(d[i as int].room_id));
        }
        i += 1;
    }
    assert(d.take(i as int) =~= d);
    out
}

/// What geometry found for both sides of one element.
pub struct DerivedSides {
    pub model_id: String,
    pub element_id: String,
    pub sides: Sides,
}

pub struct DerivedSidesV {
    pub model_id: Seq<char>,
    pub element_id: Seq<char>,
    pub sides: SidesV,
}

impl DeepView for DerivedSides {
    type V = DerivedSidesV;

    open spec fn deep_view(&self) -> DerivedSidesV {
        DerivedSidesV { model_id: self.model_id@, element_id: self.element_id@, sides: self.sides.deep_view() }
    }
}

/// Both sides unresolved: the probe found nothing.
pub open spec fn no_candidate_sides() -> SidesV {
    SidesV {
        from: LocatedV::Unresolved(Unresolved::NoCandidate),
        to: LocatedV::Unresolved(Unresolved::NoCandidate),
    }
}

pub open spec fn is_element(model: Seq<char>, id: Seq<char>) -> spec_fn(DerivedSidesV) -> bool {
    |d: DerivedSidesV| d.model_id == model && d.element_id == id
}

/// Geometry's answer for one element, or nothing found.
pub open spec fn derived_sides_of(derived: Seq<DerivedSidesV>, model: Seq<char>, id: Seq<char>) -> SidesV {
    let i = first_where(derived, is_element(model, id));
    if i < 0 {
        no_candidate_sides()
    } else {
        derived[i].sides
    }
}

/// Geometry's answer for one element, or nothing found.
pub fn derived_sides(derived: &[DerivedSides], model: &str, id: &str) -> (r: Sides)
    ensures
        r.deep_view() == derived_sides_of(derived.deep_view(), model@, id@),
{
    let ghost d = derived.deep_view();
    let mut i: usize = 0;
    while i < derived.len()
        invariant
            i <= derived@.len(),
            d == derived.deep_view(),
            forall|j: int| 0 <= j < i ==> !is_element(model@, id@)(#[trigger] d[j]),
        decreases derived@.len() - i,
    {
        assert(d[i as int] == derived@[i as int].deep_view());
        assert(is_element(model@, id@)(d[i as int]) == (d[i as int].model_id == model@ && d[i as int].element_id
            == id@));
        if text_eq(derived[i].model_id.as_str(), model) && text_eq(derived[i].element_id.as_str(), id) {
            proof {
                lemma_first_where_at(d, is_element(model@, id@), i as int);
            }
            return derived[i].sides.dup();
        }
        i += 1;
    }
    proof {
        lemma_first_where_at(d, is_element(model@, id@), i as int);
    }
    Sides { from: Located::Unresolved(Unresolved::NoCandidate), to: Located::Unresolved(Unresolved::NoCandidate) }
}

/// What geometry found for the one room an element stands in.
pub struct DerivedRoom {
    pub model_id: String,
    pub element_id: String,
    pub located: Located,
}

pub struct DerivedRoomV {
    pub model_id: Seq<char>,
    pub element_id: Seq<char>,
    pub located: LocatedV,
}

impl DeepView for DerivedRoom {
    type V = DerivedRoomV;

    open spec fn deep_view(&self) -> DerivedRoomV {
        DerivedRoomV { model_id: self.model_id@, element_id: self.element_id@, located: self.located.deep_view() }
    }
}

pub open spec fn is_item(model: Seq<char>, id: Seq<char>) -> spec_fn(DerivedRoomV) -> bool {
    |d: DerivedRoomV| d.model_id == model && d.element_id == id
}

/// Geometry's answer for one item, or nothing found.
pub open spec fn derived_room_of(derived: Seq<DerivedRoomV>, model: Seq<char>, id: Seq<char>) -> LocatedV {
    let i = first_where(derived, is_item(model, id));
    if i < 0 {
        LocatedV::Unresolved(Unresolved::NoCandidate)
    } else {
        derived[i].located
    }
}

/// Geometry's answer for one item, or nothing found.
pub fn derived_room(derived: &[DerivedRoom], model: &str, id: &str) -> (r: Located)
    ensures
        r.deep_view() == derived_room_of(derived.deep_view(), model@, id@),
{
    let ghost d = derived.deep_view();
    let mut i: usize = 0;
    while i < derived.len()
        invariant
            i <= derived@.len(),
            d == derived.deep_view(),
            forall|j: int| 0 <= j < i ==> !is_item(model@, id@)(#[trigger] d[j]),
        decreases derived@.len() - i,
    {
        assert(d[i as int] == derived@[i as int].deep_view());
        assert(is_item(model@, id@)(d[i as int]) == (d[i as int].model_id == model@ && d[i as int].element_id
            == id@));
        if text_eq(derived[i].model_id.as_str(), model) && text_eq(derived[i].element_id.as_str(), id) {
            proof {
                lemma_first_where_at(d, is_item(model@, id@), i as int);
            }
            return derived[i].located.dup();
        }
        i += 1;
    }
    proof {
        lemma_first_where_at(d, is_item(model@, id@), i as int);
    }
    Located::Unresolved(Unresolved::NoCandidate)
}

} // verus!
