//! The ceilings read: every ceiling of every in-scope snapshot, with the
//! rooms it lies over, and the same answer turned round room by room.
//!
//! A ceiling names no room and no room names a ceiling, so which rooms a
//! ceiling lies over is only ever an answer of plan geometry, computed
//! outside the library and handed in. The library scopes the read exactly as
//! every other entity's, gives each ceiling the rooms found for it, and
//! inverts the result, so both answers come from one attribution and cannot
//! disagree.
use vstd::prelude::*;
use crate::contract::{
    field_presence, field_presence_exec, opt_str, Field, FieldV, Intrinsic, IntrinsicV, Presence, PropertyPresence, RoomRef, RoomRefV,
    SnapshotKind, SourceRecord, SourceRecordV,
};
use crate::filter::FilterTarget;
use crate::keyed::Dup;
use crate::order::{sort, sorted, sorted_of};
use crate::records::{Ceiling, CeilingV};
use crate::rooms::has_any;
use crate::scope::{
    levels_by_model, levels_of, phase_by_model, phases_of, plan_of, read_of, revision, revision_rows, scope_snapshots,
    ModelLevels, ModelPhase, ScopedV,
};
use crate::state::AppState;
use crate::text::{owned, text_eq};

verus! {

broadcast use vstd::seq_lib::group_to_multiset_ensures;

/// One room a ceiling lies over, with what the overlap measured (each
/// measure a number written as text).
pub struct CeilingRoom {
    pub room: RoomRef,
    pub measures: Vec<Field>,
}

pub struct CeilingRoomV {
    pub room: RoomRefV,
    pub measures: Seq<FieldV>,
}

impl DeepView for CeilingRoom {
    type V = CeilingRoomV;

    open spec fn deep_view(&self) -> CeilingRoomV {
        CeilingRoomV { room: self.room.deep_view(), measures: self.measures.deep_view() }
    }
}

impl Dup for CeilingRoom {
    fn dup(&self) -> (r: Self) {
        CeilingRoom { room: self.room.dup(), measures: self.measures.dup() }
    }
}

/// The rooms plan geometry found one ceiling lies over, largest overlap
/// first.
pub struct DerivedCeilingRooms {
    pub model_id: String,
    pub ceiling_id: String,
    pub rooms: Vec<CeilingRoom>,
}

pub struct DerivedCeilingRoomsV {
    pub model_id: Seq<char>,
    pub ceiling_id: Seq<char>,
    pub rooms: Seq<CeilingRoomV>,
}

impl DeepView for DerivedCeilingRooms {
    type V = DerivedCeilingRoomsV;

    open spec fn deep_view(&self) -> DerivedCeilingRoomsV {
        DerivedCeilingRoomsV { model_id: self.model_id@, ceiling_id: self.ceiling_id@, rooms: self.rooms.deep_view() }
    }
}

/// One ceiling as served: the stored ceiling, its model, and the rooms it
/// lies over; none means it lies over no room, which is a reported state.
pub struct CeilingResponse {
    pub ceiling: Ceiling,
    pub project_id: String,
    pub model_id: String,
    pub source: String,
    pub rooms: Vec<CeilingRoom>,
}

pub struct CeilingResponseV {
    pub ceiling: CeilingV,
    pub project_id: Seq<char>,
    pub model_id: Seq<char>,
    pub source: Seq<char>,
    pub rooms: Seq<CeilingRoomV>,
}

impl DeepView for CeilingResponse {
    type V = CeilingResponseV;

    open spec fn deep_view(&self) -> CeilingResponseV {
        CeilingResponseV {
            ceiling: self.ceiling.deep_view(),
            project_id: self.project_id@,
            model_id: self.model_id@,
            source: self.source@,
            rooms: self.rooms.deep_view(),
        }
    }
}

/// A ceiling's own fields. Its height offset is a plan-geometry measure the
/// stored record does not carry, so it reads as absent.
pub open spec fn ceiling_intrinsics(c: CeilingV) -> Seq<IntrinsicV> {
    seq![
        IntrinsicV { name: "$id"@, value: Some(c.id) },
        IntrinsicV { name: "$type_name"@, value: Some(c.type_label) },
        IntrinsicV { name: "$type_id"@, value: Some(c.type_id) },
        IntrinsicV { name: "$level_id"@, value: Some(c.level_id) },
        IntrinsicV { name: "$height_offset"@, value: None },
    ]
}

fn ceiling_intrinsics_exec(c: &Ceiling) -> (v: Vec<Intrinsic>)
    ensures
        v.deep_view() == ceiling_intrinsics(c.deep_view()),
{
    let mut v: Vec<Intrinsic> = Vec::new();
    v.push(Intrinsic { name: owned("$id"), value: Some(c.id.dup()) });
    v.push(Intrinsic { name: owned("$type_name"), value: Some(c.type_label.dup()) });
    v.push(Intrinsic { name: owned("$type_id"), value: Some(c.type_id.dup()) });
    v.push(Intrinsic { name: owned("$level_id"), value: Some(c.level_id.dup()) });
    v.push(Intrinsic { name: owned("$height_offset"), value: None });
    assert(v.deep_view() =~= ceiling_intrinsics(c.deep_view()));
    v
}

/// How a ceiling answers a field name: its intrinsics, then its instance
/// properties, then its type's. No reference source joins a surface.
pub open spec fn ceiling_presence(c: CeilingV, source: Option<Seq<char>>, property: Seq<char>) -> Presence {
    field_presence(ceiling_intrinsics(c), c.properties, c.type_properties, Seq::empty(), source, property)
}

impl FilterTarget for CeilingResponse {
    open spec fn presence_of(&self, source: Option<Seq<char>>, property: Seq<char>) -> Presence {
        ceiling_presence(self.ceiling.deep_view(), source, property)
    }

    fn presence(&self, source: Option<&str>, property: &str) -> (r: PropertyPresence) {
        let intrinsics = ceiling_intrinsics_exec(&self.ceiling);
        let is = intrinsics.as_slice();
        let ps = self.ceiling.properties.as_slice();
        let ts = self.ceiling.type_properties.as_slice();
        let none: Vec<SourceRecord> = Vec::new();
        let ns = none.as_slice();
        assert(is.deep_view() =~= intrinsics.deep_view());
        assert(ps.deep_view() =~= self.ceiling.properties.deep_view());
        assert(ts.deep_view() =~= self.ceiling.type_properties.deep_view());
        assert(ns.deep_view() =~= Seq::<SourceRecordV>::empty());
        field_presence_exec(is, ps, ts, ns, source, property)
    }
}

/// What a ceilings read is scoped to.
pub struct CeilingScope<'a> {
    pub project: Option<&'a str>,
    pub milestone: Option<&'a str>,
}

/// The merged ceilings payload.
pub struct CeilingsResult {
    pub revision: String,
    pub phase_by_model: Vec<ModelPhase>,
    pub levels_by_model: Vec<ModelLevels>,
    pub ceilings: Vec<CeilingResponse>,
}

/// The rooms found for one ceiling of one model: those of the first entry
/// naming it, and none when no entry does.
pub open spec fn derived_rooms_of(derived: Seq<DerivedCeilingRoomsV>, model: Seq<char>, id: Seq<char>) -> Seq<CeilingRoomV>
    decreases derived.len(),
{
    if derived.len() == 0 {
        Seq::empty()
    } else if derived[0].model_id == model && derived[0].ceiling_id == id {
        derived[0].rooms
    } else {
        derived_rooms_of(derived.drop_first(), model, id)
    }
}

pub open spec fn ceiling_response_of(s: ScopedV<CeilingV>, c: CeilingV, derived: Seq<DerivedCeilingRoomsV>) -> CeilingResponseV {
    CeilingResponseV {
        ceiling: c,
        project_id: s.payload.project.id,
        model_id: s.payload.model.id,
        source: s.payload.model.source,
        rooms: derived_rooms_of(derived, s.payload.model.id, c.id),
    }
}

/// Every ceiling of the scoped snapshots, in read order.
pub open spec fn scoped_ceilings(scoped: Seq<ScopedV<CeilingV>>, derived: Seq<DerivedCeilingRoomsV>) -> Seq<CeilingResponseV>
    decreases scoped.len(),
{
    if scoped.len() == 0 {
        Seq::empty()
    } else {
        let s = scoped.last();
        scoped_ceilings(scoped.drop_last(), derived) + s.payload.elements.map_values(
            |c: CeilingV| ceiling_response_of(s, c, derived),
        )
    }
}

/// The ceilings snapshots a read of this scope takes, in read order.
pub open spec fn ceilings_scoped_of(state: AppState, project: Option<Seq<char>>, milestone: Option<Seq<char>>) -> Seq<ScopedV<CeilingV>> {
    read_of(
        state.ceilings.deep_view(),
        plan_of(state.index.deep_view(), state.registry.view_projects(), SnapshotKind::Ceilings, project, milestone),
    )
}

fn derived_rooms(derived: &[DerivedCeilingRooms], model: &str, id: &str) -> (r: Vec<CeilingRoom>)
    ensures
        r.deep_view() == derived_rooms_of(derived.deep_view(), model@, id@),
{
    let ghost d = derived.deep_view();
    let mut i: usize = 0;
    proof {
        assert(d.subrange(0, d.len() as int) =~= d);
    }
    while i < derived.len()
        invariant
            i <= d.len(),
            d == derived.deep_view(),
            derived_rooms_of(d, model@, id@) == derived_rooms_of(d.subrange(i as int, d.len() as int), model@, id@),
        decreases d.len() - i,
    {
        let e = &derived[i];
        assert(e.deep_view() == d[i as int]);
        assert(d.subrange(i as int, d.len() as int)[0] == d[i as int]);
        if text_eq(e.model_id.as_str(), model) && text_eq(e.ceiling_id.as_str(), id) {
            return e.rooms.dup();
        }
        assert(d.subrange(i as int, d.len() as int).drop_first() =~= d.subrange(i + 1, d.len() as int));
        i += 1;
    }
    Vec::new()
}

/// Every in-scope model's ceilings, each with the rooms plan geometry found
/// it lies over. `None` when no ceilings were ever pushed; a scope that
/// matches nothing is an empty list.
pub fn assemble_ceilings(state: &AppState, scope: &CeilingScope, derived: &[DerivedCeilingRooms]) -> (r: Option<CeilingsResult>)
    ensures
        match r {
            None => !has_any(state.index.deep_view(), SnapshotKind::Ceilings),
            Some(res) => {
                let scoped = ceilings_scoped_of(*state, crate::contract::opt_str(scope.project), crate::contract::opt_str(scope.milestone));
                &&& has_any(state.index.deep_view(), SnapshotKind::Ceilings)
                &&& res.ceilings.deep_view() == scoped_ceilings(scoped, derived.deep_view())
                &&& res.revision@ == crate::cursor::cursor_of(revision_rows(scoped))
                &&& res.phase_by_model.deep_view() == phases_of(scoped)
                &&& res.levels_by_model.deep_view() == levels_of(scoped)
            },
        },
{
    if !state.has_any_snapshot(SnapshotKind::Ceilings) {
        return None;
    }
    let idx = state.index.as_slice();
    let hist = state.ceilings.as_slice();
    assert(idx.deep_view() =~= state.index.deep_view());
    assert(hist.deep_view() =~= state.ceilings.deep_view());
    let scoped = scope_snapshots(idx, state.settings(), hist, SnapshotKind::Ceilings, scope.project, scope.milestone);
    let ghost sd = scoped.deep_view();
    let ghost dd = derived.deep_view();
    let mut ceilings: Vec<CeilingResponse> = Vec::new();
    let mut i: usize = 0;
    while i < scoped.len()
        invariant
            i <= scoped@.len(),
            sd == scoped.deep_view(),
            dd == derived.deep_view(),
            ceilings.deep_view() == scoped_ceilings(sd.take(i as int), dd),
        decreases scoped@.len() - i,
    {
        let s = &scoped[i];
        assert(s.deep_view() == sd[i as int]);
        let ghost base = ceilings.deep_view();
        let ghost els = sd[i as int].payload.elements;
        let ghost f = |c: CeilingV| ceiling_response_of(sd[i as int], c, dd);
        let mut k: usize = 0;
        while k < s.payload.elements.len()
            invariant
                k <= s.payload.elements@.len(),
                i < sd.len(),
                s.deep_view() == sd[i as int],
                els == s.payload.elements.deep_view(),
                dd == derived.deep_view(),
                f == (|c: CeilingV| ceiling_response_of(sd[i as int], c, dd)),
                ceilings.deep_view() == base + els.take(k as int).map_values(f),
            decreases s.payload.elements@.len() - k,
        {
            let c = &s.payload.elements[k];
            assert(c.deep_view() == els[k as int]);
            let rooms = derived_rooms(derived, s.payload.model.id.as_str(), c.id.as_str());
            let response = CeilingResponse {
                ceiling: c.dup(),
                project_id: s.payload.project.id.dup(),
                model_id: s.payload.model.id.dup(),
                source: s.payload.model.source.dup(),
                rooms,
            };
            assert(response.deep_view() == f(els[k as int]));
            let ghost before = ceilings.deep_view();
            ceilings.push(response);
            proof {
                assert(ceilings.deep_view() =~= before.push(f(els[k as int])));
                assert(els.take(k + 1) =~= els.take(k as int).push(els[k as int]));
                assert(els.take(k + 1).map_values(f) =~= els.take(k as int).map_values(f).push(f(els[k as int])));
            }
            k += 1;
        }
        proof {
            assert(els.take(k as int) =~= els);
            assert(sd.take(i + 1).drop_last() =~= sd.take(i as int));
            assert(sd.take(i + 1).last() == sd[i as int]);
        }
        i += 1;
    }
    assert(sd.take(i as int) =~= sd);
    let scs = scoped.as_slice();
    assert(scs.deep_view() =~= sd);
    let revision = revision(scs);
    let phase_by_model = phase_by_model(scs);
    let levels_by_model = levels_by_model(scs);
    Some(CeilingsResult { revision, phase_by_model, levels_by_model, ceilings })
}

/// The ceilings lying over one room, as positions in a ceilings answer.
pub struct RoomCeilings {
    pub room: RoomRef,
    pub ceilings: Vec<usize>,
}

pub struct RoomCeilingsV {
    pub room: RoomRefV,
    pub ceilings: Seq<usize>,
}

impl DeepView for RoomCeilings {
    type V = RoomCeilingsV;

    open spec fn deep_view(&self) -> RoomCeilingsV {
        RoomCeilingsV { room: self.room.deep_view(), ceilings: self.ceilings@ }
    }
}

/// The rooms a ceiling lies over, without what was measured.
pub open spec fn room_refs(rooms: Seq<CeilingRoomV>) -> Seq<RoomRefV> {
    rooms.map_values(|c: CeilingRoomV| c.room)
}

/// A room as an ordering key: model id, then room id.
pub open spec fn room_key(r: RoomRefV) -> Seq<Seq<char>> {
    seq![r.model_id, r.room_id]
}

/// Position `i` once for each time `rooms` names `rr`.
pub open spec fn rooms_hits(i: usize, rooms: Seq<RoomRefV>, rr: RoomRefV) -> Seq<usize>
    decreases rooms.len(),
{
    if rooms.len() == 0 {
        Seq::empty()
    } else {
        let rest = rooms_hits(i, rooms.drop_last(), rr);
        if rooms.last() == rr {
            rest.push(i)
        } else {
            rest
        }
    }
}

/// The positions of the ceilings lying over room `rr`, in order.
pub open spec fn hits(cs: Seq<CeilingResponseV>, rr: RoomRefV) -> Seq<usize>
    decreases cs.len(),
{
    if cs.len() == 0 {
        Seq::empty()
    } else {
        hits(cs.drop_last(), rr) + rooms_hits((cs.len() - 1) as usize, room_refs(cs.last().rooms), rr)
    }
}

/// `seen`, followed by the keys of `rooms` it does not hold yet, first seen
/// first.
pub open spec fn with_keys(seen: Seq<Seq<Seq<char>>>, rooms: Seq<RoomRefV>) -> Seq<Seq<Seq<char>>>
    decreases rooms.len(),
{
    if rooms.len() == 0 {
        seen
    } else {
        let s = with_keys(seen, rooms.drop_last());
        let k = room_key(rooms.last());
        if s.contains(k) {
            s
        } else {
            s.push(k)
        }
    }
}

/// The rooms any ceiling lies over, each once, first seen first.
pub open spec fn covered(cs: Seq<CeilingResponseV>) -> Seq<Seq<Seq<char>>>
    decreases cs.len(),
{
    if cs.len() == 0 {
        Seq::empty()
    } else {
        with_keys(covered(cs.drop_last()), room_refs(cs.last().rooms))
    }
}

/// Every key is a room key.
spec fn all_room_keys(ks: Seq<Seq<Seq<char>>>) -> bool {
    forall|j: int| 0 <= j < ks.len() ==> (#[trigger] ks[j]).len() == 2
}

fn key_in(keys: &Vec<Vec<String>>, model: &str, room: &str) -> (r: bool)
    requires
        all_room_keys(keys.deep_view()),
    ensures
        r == keys.deep_view().contains(seq![model@, room@]),
{
    let ghost d = keys.deep_view();
    let mut j: usize = 0;
    while j < keys.len()
        invariant
            j <= d.len(),
            d == keys.deep_view(),
            all_room_keys(d),
            forall|q: int| 0 <= q < j ==> d[q] != seq![model@, room@],
        decreases d.len() - j,
    {
        assert(keys@[j as int].deep_view() == d[j as int]);
        assert(d[j as int].len() == 2);
        assert(keys@[j as int]@.len() == 2);
        assert(d[j as int][0] == keys@[j as int]@[0]@);
        assert(d[j as int][1] == keys@[j as int]@[1]@);
        if text_eq(keys[j][0].as_str(), model) && text_eq(keys[j][1].as_str(), room) {
            assert(d[j as int] =~= seq![model@, room@]);
            return true;
        }
        assert(d[j as int] != seq![model@, room@]) by {
            if d[j as int] == seq![model@, room@] {
                assert(d[j as int][0] == model@);
                assert(d[j as int][1] == room@);
            }
        }
        j += 1;
    }
    false
}

fn hits_exec(cs: &Vec<CeilingResponse>, model: &str, room: &str) -> (r: Vec<usize>)
    ensures
        r@ == hits(cs.deep_view(), RoomRefV { model_id: model@, room_id: room@ }),
{
    let ghost d = cs.deep_view();
    let ghost rr = RoomRefV { model_id: model@, room_id: room@ };
    let mut out: Vec<usize> = Vec::new();
    let mut i: usize = 0;
    while i < cs.len()
        invariant
            i <= d.len(),
            d == cs.deep_view(),
            rr == (RoomRefV { model_id: model@, room_id: room@ }),
            out@ == hits(d.take(i as int), rr),
        decreases d.len() - i,
    {
        let rooms = &cs[i].rooms;
        let ghost rd = room_refs(rooms.deep_view());
        assert(cs@[i as int].deep_view() == d[i as int]);
        assert(rd == room_refs(d[i as int].rooms));
        let ghost base = out@;
        let mut k: usize = 0;
        while k < rooms.len()
            invariant
                k <= rd.len(),
                rd == room_refs(rooms.deep_view()),
                rr == (RoomRefV { model_id: model@, room_id: room@ }),
                out@ == base + rooms_hits(i, rd.take(k as int), rr),
            decreases rd.len() - k,
        {
            assert(rooms@[k as int].room.deep_view() == rd[k as int]);
            assert(rd.take(k + 1).drop_last() =~= rd.take(k as int));
            assert(rd.take(k + 1).last() == rd[k as int]);
            let ghost before = out@;
            assert(rd[k as int].model_id == rooms@[k as int].room.model_id@);
            assert(rd[k as int].room_id == rooms@[k as int].room.room_id@);
            if text_eq(rooms[k].room.model_id.as_str(), model) && text_eq(rooms[k].room.room_id.as_str(), room) {
                assert(rd[k as int] == rr);
                out.push(i);
                assert(rooms_hits(i, rd.take(k + 1), rr) == rooms_hits(i, rd.take(k as int), rr).push(i));
                assert(out@ =~= base + rooms_hits(i, rd.take(k + 1), rr));
            } else {
                assert(rd[k as int] != rr);
                assert(rooms_hits(i, rd.take(k + 1), rr) == rooms_hits(i, rd.take(k as int), rr));
            }
            k += 1;
        }
        proof {
            assert(rd.take(k as int) =~= rd);
            assert(d.take(i + 1).drop_last() =~= d.take(i as int));
            assert(d.take(i + 1).last() == d[i as int]);
            assert(out@ =~= hits(d.take(i + 1), rr));
        }
        i += 1;
    }
    assert(d.take(i as int) =~= d);
    out
}

fn covered_exec(cs: &Vec<CeilingResponse>) -> (r: Vec<Vec<String>>)
    ensures
        r.deep_view() == covered(cs.deep_view()),
        all_room_keys(r.deep_view()),
{
    let ghost d = cs.deep_view();
    let mut keys: Vec<Vec<String>> = Vec::new();
    let mut i: usize = 0;
    while i < cs.len()
        invariant
            i <= d.len(),
            d == cs.deep_view(),
            keys.deep_view() == covered(d.take(i as int)),
            all_room_keys(keys.deep_view()),
        decreases d.len() - i,
    {
        let rooms = &cs[i].rooms;
        let ghost rd = room_refs(rooms.deep_view());
        assert(cs@[i as int].deep_view() == d[i as int]);
        assert(rd == room_refs(d[i as int].rooms));
        let ghost base = keys.deep_view();
        let mut k: usize = 0;
        while k < rooms.len()
            invariant
                k <= rd.len(),
                rd == room_refs(rooms.deep_view()),
                keys.deep_view() == with_keys(base, rd.take(k as int)),
                all_room_keys(keys.deep_view()),
            decreases rd.len() - k,
        {
            assert(rooms@[k as int].room.deep_view() == rd[k as int]);
            assert(rd.take(k + 1).drop_last() =~= rd.take(k as int));
            assert(rd.take(k + 1).last() == rd[k as int]);
            let m = rooms[k].room.model_id.as_str();
            let rm = rooms[k].room.room_id.as_str();
            assert(room_key(rd[k as int]) == seq![m@, rm@]);
            if !key_in(&keys, m, rm) {
                let ghost before = keys.deep_view();
                let mut key: Vec<String> = Vec::new();
                key.push(rooms[k].room.model_id.dup());
                key.push(rooms[k].room.room_id.dup());
                assert(key.deep_view() =~= seq![m@, rm@]);
                keys.push(key);
                assert(keys.deep_view() =~= before.push(seq![m@, rm@]));
            }
            k += 1;
        }
        proof {
            assert(rd.take(k as int) =~= rd);
            assert(d.take(i + 1).drop_last() =~= d.take(i as int));
            assert(d.take(i + 1).last() == d[i as int]);
        }
        i += 1;
    }
    assert(d.take(i as int) =~= d);
    keys
}

/// The ceilings answer turned round: each room some ceiling lies over, once,
/// in order of model id and then room id, with the positions of the ceilings
/// over it in the order they were served.
pub fn by_room(result: &CeilingsResult) -> (r: Vec<RoomCeilings>)
    ensures
        r.deep_view().map_values(|e: RoomCeilingsV| room_key(e.room)) == sorted_of::<Vec<String>>(
            covered(result.ceilings.deep_view()),
        ),
        forall|i: int| 0 <= i < r@.len() ==> (#[trigger] r@[i]).ceilings@ == hits(result.ceilings.deep_view(), r@[i].room.deep_view()),
{
    let ghost cd = result.ceilings.deep_view();
    let keys = covered_exec(&result.ceilings);
    let ghost kd = keys.deep_view();
    let sorted_keys = sort(keys);
    let ghost sk = sorted_keys.deep_view();
    proof {
        assert forall|j: int| 0 <= j < sk.len() implies (#[trigger] sk[j]).len() == 2 by {
            assert(sk.to_multiset().count(sk[j]) > 0);
            assert(kd.to_multiset().count(sk[j]) > 0);
            assert(kd.contains(sk[j]));
        }
    }
    let mut out: Vec<RoomCeilings> = Vec::new();
    let mut j: usize = 0;
    while j < sorted_keys.len()
        invariant
            j <= sk.len(),
            sk == sorted_keys.deep_view(),
            sk == sorted_of::<Vec<String>>(covered(cd)),
            cd == result.ceilings.deep_view(),
            all_room_keys(sk),
            out.deep_view().map_values(|e: RoomCeilingsV| room_key(e.room)) == sk.take(j as int),
            forall|i: int| 0 <= i < out@.len() ==> (#[trigger] out@[i]).ceilings@ == hits(cd, out@[i].room.deep_view()),
        decreases sk.len() - j,
    {
        assert(sorted_keys@[j as int].deep_view() == sk[j as int]);
        assert(sk[j as int].len() == 2);
        let key = &sorted_keys[j];
        assert(key@.len() == 2);
        assert(sk[j as int][0] == key@[0]@);
        assert(sk[j as int][1] == key@[1]@);
        let model = key[0].as_str();
        let room = key[1].as_str();
        let ceilings = hits_exec(&result.ceilings, model, room);
        let entry = RoomCeilings { room: RoomRef { model_id: key[0].dup(), room_id: key[1].dup() }, ceilings };
        let ghost ev = entry.deep_view();
        assert(room_key(ev.room) =~= sk[j as int]);
        let ghost before = out.deep_view();
        let ghost before_exec = out@;
        out.push(entry);
        proof {
            assert(out.deep_view() =~= before.push(ev));
            assert(sk.take(j + 1) =~= sk.take(j as int).push(sk[j as int]));
            assert(out.deep_view().map_values(|e: RoomCeilingsV| room_key(e.room)) =~= before.map_values(
                |e: RoomCeilingsV| room_key(e.room),
            ).push(room_key(ev.room)));
            assert forall|i: int| 0 <= i < out@.len() implies (#[trigger] out@[i]).ceilings@ == hits(cd, out@[i].room.deep_view()) by {
                if i < before_exec.len() {
                    assert(out@[i] == before_exec[i]);
                }
            }
        }
        j += 1;
    }
    assert(sk.take(j as int) =~= sk);
    out
}

proof fn lemma_rooms_hits(i: usize, rooms: Seq<RoomRefV>, rr: RoomRefV, q: usize)
    ensures
        rooms_hits(i, rooms, rr).contains(q) <==> (q == i && rooms.contains(rr)),
    decreases rooms.len(),
{
    if rooms.len() > 0 {
        let init = rooms.drop_last();
        lemma_rooms_hits(i, init, rr, q);
        let rest = rooms_hits(i, init, rr);
        if init.contains(rr) {
            let k = choose|k: int| 0 <= k < init.len() && init[k] == rr;
            assert(rooms[k] == rr);
        }
        if rooms.contains(rr) && !init.contains(rr) {
            let k = choose|k: int| 0 <= k < rooms.len() && rooms[k] == rr;
            if k < init.len() {
                assert(init[k] == rr);
            }
            assert(rooms.last() == rr);
        }
        if rooms.last() == rr {
            assert(rest.push(i)[rest.len() as int] == i);
            if rest.contains(q) {
                let k = choose|k: int| 0 <= k < rest.len() && rest[k] == q;
                assert(rest.push(i)[k] == q);
            }
            if rest.push(i).contains(q) && q != i {
                let k = choose|k: int| 0 <= k < rest.len() + 1 && rest.push(i)[k] == q;
                assert(rest[k] == q);
            }
        }
    }
}

proof fn lemma_hits(cs: Seq<CeilingResponseV>, rr: RoomRefV, q: usize)
    requires
        cs.len() <= usize::MAX,
    ensures
        hits(cs, rr).contains(q) <==> (q < cs.len() && room_refs(cs[q as int].rooms).contains(rr)),
    decreases cs.len(),
{
    if cs.len() > 0 {
        let init = cs.drop_last();
        let last = (cs.len() - 1) as usize;
        lemma_hits(init, rr, q);
        lemma_rooms_hits(last, room_refs(cs.last().rooms), rr, q);
        let a = hits(init, rr);
        let b = rooms_hits(last, room_refs(cs.last().rooms), rr);
        if a.contains(q) {
            let k = choose|k: int| 0 <= k < a.len() && a[k] == q;
            assert((a + b)[k] == q);
            assert(init[q as int] == cs[q as int]);
        }
        if b.contains(q) {
            let k = choose|k: int| 0 <= k < b.len() && b[k] == q;
            assert((a + b)[a.len() + k] == q);
        }
        if (a + b).contains(q) {
            let k = choose|k: int| 0 <= k < (a + b).len() && (a + b)[k] == q;
            if k < a.len() {
                assert(a[k] == q);
            } else {
                assert(b[k - a.len()] == q);
            }
        }
        if q < init.len() {
            assert(init[q as int] == cs[q as int]);
        }
    }
}

proof fn lemma_with_keys(seen: Seq<Seq<Seq<char>>>, rooms: Seq<RoomRefV>, k: Seq<Seq<char>>)
    ensures
        with_keys(seen, rooms).contains(k) <==> (seen.contains(k) || exists|j: int| 0 <= j < rooms.len() && room_key(
            #[trigger] rooms[j],
        ) == k),
    decreases rooms.len(),
{
    if rooms.len() > 0 {
        let init = rooms.drop_last();
        lemma_with_keys(seen, init, k);
        let s = with_keys(seen, init);
        let key = room_key(rooms.last());
        if exists|j: int| 0 <= j < init.len() && room_key(#[trigger] init[j]) == k {
            let j = choose|j: int| 0 <= j < init.len() && room_key(#[trigger] init[j]) == k;
            assert(rooms[j] == init[j]);
        }
        if exists|j: int| 0 <= j < rooms.len() && room_key(#[trigger] rooms[j]) == k {
            let j = choose|j: int| 0 <= j < rooms.len() && room_key(#[trigger] rooms[j]) == k;
            if j < init.len() {
                assert(init[j] == rooms[j]);
            } else {
                assert(rooms[j] == rooms.last());
            }
        }
        if !s.contains(key) {
            let t = s.push(key);
            if s.contains(k) {
                let q = choose|q: int| 0 <= q < s.len() && s[q] == k;
                assert(t[q] == k);
            }
            if t.contains(k) && k != key {
                let q = choose|q: int| 0 <= q < t.len() && t[q] == k;
                assert(s[q] == k);
            }
            assert(t[s.len() as int] == key);
        }
        assert(rooms[rooms.len() - 1] == rooms.last());
    }
}

proof fn lemma_covered(cs: Seq<CeilingResponseV>, rr: RoomRefV)
    ensures
        covered(cs).contains(room_key(rr)) <==> exists|i: int| 0 <= i < cs.len() && room_refs((#[trigger] cs[i]).rooms).contains(rr),
    decreases cs.len(),
{
    if cs.len() > 0 {
        let init = cs.drop_last();
        lemma_covered(init, rr);
        lemma_with_keys(covered(init), room_refs(cs.last().rooms), room_key(rr));
        let rooms = room_refs(cs.last().rooms);
        assert forall|j: int| 0 <= j < rooms.len() && room_key(#[trigger] rooms[j]) == room_key(rr) implies rooms[j] == rr by {
            assert(room_key(rooms[j])[0] == rooms[j].model_id);
            assert(room_key(rooms[j])[1] == rooms[j].room_id);
            assert(room_key(rr)[0] == rr.model_id);
            assert(room_key(rr)[1] == rr.room_id);
        }
        if exists|i: int| 0 <= i < init.len() && room_refs((#[trigger] init[i]).rooms).contains(rr) {
            let i = choose|i: int| 0 <= i < init.len() && room_refs((#[trigger] init[i]).rooms).contains(rr);
            assert(cs[i] == init[i]);
        }
        if exists|i: int| 0 <= i < cs.len() && room_refs((#[trigger] cs[i]).rooms).contains(rr) {
            let i = choose|i: int| 0 <= i < cs.len() && room_refs((#[trigger] cs[i]).rooms).contains(rr);
            if i < init.len() {
                assert(init[i] == cs[i]);
            } else {
                let j = choose|j: int| 0 <= j < rooms.len() && rooms[j] == rr;
                assert(room_key(rooms[j]) == room_key(rr));
            }
        }
        if rooms.contains(rr) {
            let j = choose|j: int| 0 <= j < rooms.len() && rooms[j] == rr;
            assert(room_key(rooms[j]) == room_key(rr));
            assert(room_refs(cs[cs.len() - 1].rooms).contains(rr));
        }
    }
}

pub(crate) proof fn lemma_by_room_agrees(cs: Seq<CeilingResponseV>, rr: RoomRefV, q: usize)
    requires
        cs.len() <= usize::MAX,
    ensures
        covered(cs).contains(room_key(rr)) <==> exists|i: int| 0 <= i < cs.len() && room_refs((#[trigger] cs[i]).rooms).contains(rr),
        hits(cs, rr).contains(q) <==> (q < cs.len() && room_refs(cs[q as int].rooms).contains(rr)),
{
    lemma_covered(cs, rr);
    lemma_hits(cs, rr, q);
}

} // verus!
