//! The snapshot store every read plans against: a per-model index of the
//! latest snapshot of each kind, the pushed snapshots themselves, and the
//! uploaded reference datasets, beside the settings registry.
//!
//! A snapshot is identified by its model and its `taken_at`; pushing one with
//! an id already stored replaces it, so a re-push is idempotent. The latest
//! snapshot of a kind is the one most recently pushed.
use vstd::prelude::*;
use crate::contract::{ModelKey, ModelKeyV, SnapshotKind};
use crate::keyed::{first_where, lemma_first_where, lemma_first_where_at, Dup};
use crate::order::{sort, sorted, sorted_of};
use crate::records::{Ceiling, Item, Opening, Payload, PayloadV, Room};
use crate::settings::SettingsRegistry;
use crate::text::text_eq;

verus! {

broadcast use vstd::seq_lib::group_to_multiset_ensures;

impl Dup for u8 {
    fn dup(&self) -> (r: Self) {
        *self
    }
}

/// The latest snapshot id of one kind.
pub struct KindId {
    pub kind: SnapshotKind,
    pub id: String,
}

pub struct KindIdV {
    pub kind: SnapshotKind,
    pub id: Seq<char>,
}

impl DeepView for KindId {
    type V = KindIdV;

    open spec fn deep_view(&self) -> KindIdV {
        KindIdV { kind: self.kind, id: self.id@ }
    }
}

impl Dup for KindId {
    fn dup(&self) -> (r: Self) {
        KindId { kind: self.kind, id: self.id.dup() }
    }
}

/// One model's row in the store index.
pub struct ModelIndexRow {
    pub key: ModelKey,
    pub project_name: String,
    pub model_name: String,
    /// Kind -> the id of that kind's latest snapshot; a kind never pushed has
    /// no entry.
    pub latest: Vec<KindId>,
}

pub struct ModelIndexRowV {
    pub key: ModelKeyV,
    pub project_name: Seq<char>,
    pub model_name: Seq<char>,
    pub latest: Seq<KindIdV>,
}

impl DeepView for ModelIndexRow {
    type V = ModelIndexRowV;

    open spec fn deep_view(&self) -> ModelIndexRowV {
        ModelIndexRowV {
            key: self.key.deep_view(),
            project_name: self.project_name@,
            model_name: self.model_name@,
            latest: self.latest.deep_view(),
        }
    }
}

impl Dup for ModelIndexRow {
    fn dup(&self) -> (r: Self) {
        ModelIndexRow {
            key: self.key.dup(),
            project_name: self.project_name.dup(),
            model_name: self.model_name.dup(),
            latest: self.latest.dup(),
        }
    }
}

pub open spec fn is_kind(kind: SnapshotKind) -> spec_fn(KindIdV) -> bool {
    |e: KindIdV| e.kind == kind
}

/// A row's latest snapshot id of `kind`.
pub open spec fn latest_in(latest: Seq<KindIdV>, kind: SnapshotKind) -> Option<Seq<char>> {
    let i = first_where(latest, is_kind(kind));
    if i < 0 {
        None
    } else {
        Some(latest[i].id)
    }
}

/// `latest` with `kind` now naming `id`.
pub open spec fn with_latest(latest: Seq<KindIdV>, kind: SnapshotKind, id: Seq<char>) -> Seq<KindIdV> {
    let i = first_where(latest, is_kind(kind));
    if i < 0 {
        latest.push(KindIdV { kind, id })
    } else {
        latest.update(i, KindIdV { kind, id })
    }
}

pub open spec fn is_model(project: Seq<char>, model: Seq<char>) -> spec_fn(ModelIndexRowV) -> bool {
    |r: ModelIndexRowV| r.key.project_id == project && r.key.model_id == model
}

/// The index after a push of `kind` with these identities.
pub open spec fn indexed_after(
    index: Seq<ModelIndexRowV>,
    project: Seq<char>,
    model: Seq<char>,
    project_name: Seq<char>,
    model_name: Seq<char>,
    kind: SnapshotKind,
    id: Seq<char>,
) -> Seq<ModelIndexRowV> {
    let i = first_where(index, is_model(project, model));
    if i < 0 {
        index.push(
            ModelIndexRowV {
                key: ModelKeyV { project_id: project, model_id: model },
                project_name,
                model_name,
                latest: seq![KindIdV { kind, id }],
            },
        )
    } else {
        index.update(
            i,
            ModelIndexRowV {
                key: index[i].key,
                project_name,
                model_name,
                latest: with_latest(index[i].latest, kind, id),
            },
        )
    }
}

pub open spec fn is_snapshot<V>(project: Seq<char>, model: Seq<char>, taken_at: Seq<char>) -> spec_fn(PayloadV<V>) -> bool {
    |p: PayloadV<V>| p.project.id == project && p.model.id == model && p.taken_at == taken_at
}

/// A snapshot history after storing `p`: it replaces the stored snapshot with
/// the same model and id, or is appended.
pub open spec fn stored_after<V>(history: Seq<PayloadV<V>>, p: PayloadV<V>) -> Seq<PayloadV<V>> {
    let i = first_where(history, is_snapshot::<V>(p.project.id, p.model.id, p.taken_at));
    if i < 0 {
        history.push(p)
    } else {
        history.update(i, p)
    }
}

/// The stored snapshot of one model with this id.
pub open spec fn snapshot_in<V>(history: Seq<PayloadV<V>>, project: Seq<char>, model: Seq<char>, taken_at: Seq<char>) -> Option<PayloadV<V>> {
    let i = first_where(history, is_snapshot::<V>(project, model, taken_at));
    if i < 0 {
        None
    } else {
        Some(history[i])
    }
}

/// One uploaded reference CSV.
pub struct ReferenceUpload {
    pub project_id: String,
    pub source: String,
    pub taken_at: String,
    pub bytes: Vec<u8>,
}

pub struct ReferenceUploadV {
    pub project_id: Seq<char>,
    pub source: Seq<char>,
    pub taken_at: Seq<char>,
    pub bytes: Seq<u8>,
}

impl DeepView for ReferenceUpload {
    type V = ReferenceUploadV;

    open spec fn deep_view(&self) -> ReferenceUploadV {
        ReferenceUploadV {
            project_id: self.project_id@,
            source: self.source@,
            taken_at: self.taken_at@,
            bytes: self.bytes@,
        }
    }
}

pub open spec fn is_upload(project: Seq<char>, source: Seq<char>, taken_at: Seq<char>) -> spec_fn(ReferenceUploadV) -> bool {
    |u: ReferenceUploadV| u.project_id == project && u.source == source && u.taken_at == taken_at
}

/// The ids of one project's uploads of one source, in upload order.
pub open spec fn upload_ids(uploads: Seq<ReferenceUploadV>, project: Seq<char>, source: Seq<char>) -> Seq<Seq<char>>
    decreases uploads.len(),
{
    if uploads.len() == 0 {
        Seq::empty()
    } else {
        let rest = upload_ids(uploads.drop_last(), project, source);
        let u = uploads.last();
        if u.project_id == project && u.source == source {
            rest.push(u.taken_at)
        } else {
            rest
        }
    }
}

/// The snapshot store and the settings a read is resolved against.
pub struct AppState {
    pub registry: SettingsRegistry,
    pub index: Vec<ModelIndexRow>,
    pub rooms: Vec<Payload<Room>>,
    pub doors: Vec<Payload<Opening>>,
    pub windows: Vec<Payload<Opening>>,
    pub ffe: Vec<Payload<Item>>,
    pub ceilings: Vec<Payload<Ceiling>>,
    pub uploads: Vec<ReferenceUpload>,
}

/// Record a push in the index.
fn record_push(
    index: &mut Vec<ModelIndexRow>,
    project: &String,
    model: &String,
    project_name: &String,
    model_name: &String,
    kind: SnapshotKind,
    id: &String,
)
    ensures
        final(index).deep_view() == indexed_after(
            old(index).deep_view(),
            project@,
            model@,
            project_name@,
            model_name@,
            kind,
            id@,
        ),
{
    let ghost d = index.deep_view();
    let mut i: usize = 0;
    while i < index.len()
        invariant
            i <= index@.len(),
            index.deep_view() == d,
            d == old(index).deep_view(),
            forall|j: int| 0 <= j < i ==> !is_model(project@, model@)(#[trigger] d[j]),
        decreases index@.len() - i,
    {
        assert(d[i as int] == index@[i as int].deep_view());
        assert(is_model(project@, model@)(d[i as int]) == (d[i as int].key.project_id == project@ && d[i as int].key.model_id == model@));
        if text_eq(index[i].key.project_id.as_str(), project.as_str()) && text_eq(
            index[i].key.model_id.as_str(),
            model.as_str(),
        ) {
            proof {
                lemma_first_where_at(d, is_model(project@, model@), i as int);
            }
            let mut latest = index[i].latest.dup();
            let ghost ld = latest.deep_view();
            let mut k: usize = 0;
            let mut found = false;
            while k < latest.len()
                invariant
                    k <= latest@.len(),
                    latest.deep_view() == ld,
                    forall|j: int| 0 <= j < k ==> !is_kind(kind)(#[trigger] ld[j]),
                ensures
                    k <= latest@.len(),
                    latest.deep_view() == ld,
                    forall|j: int| 0 <= j < k ==> !is_kind(kind)(#[trigger] ld[j]),
                    k < latest@.len() ==> is_kind(kind)(ld[k as int]),
                decreases latest@.len() - k,
            {
                assert(ld[k as int] == latest@[k as int].deep_view());
                assert(is_kind(kind)(ld[k as int]) == (ld[k as int].kind == kind));
                if latest[k].kind == kind {
                    break;
                }
                k += 1;
            }
            proof {
                if k < latest@.len() {
                    assert(ld[k as int] == latest@[k as int].deep_view());
                    assert(is_kind(kind)(ld[k as int]) == (ld[k as int].kind == kind));
                }
                lemma_first_where_at(ld, is_kind(kind), k as int);
            }
            if k < latest.len() {
                latest.set(k, KindId { kind, id: id.clone() });
            } else {
                latest.push(KindId { kind, id: id.clone() });
            }
            assert(latest.deep_view() =~= with_latest(ld, kind, id@));
            let row = ModelIndexRow {
                key: index[i].key.dup(),
                project_name: project_name.clone(),
                model_name: model_name.clone(),
                latest,
            };
            index.set(i, row);
            assert(index.deep_view() =~= indexed_after(d, project@, model@, project_name@, model_name@, kind, id@));
            return;
        }
        i += 1;
    }
    proof {
        lemma_first_where_at(d, is_model(project@, model@), i as int);
    }
    let mut latest: Vec<KindId> = Vec::new();
    latest.push(KindId { kind, id: id.clone() });
    assert(latest.deep_view() =~= seq![KindIdV { kind, id: id@ }]);
    index.push(
        ModelIndexRow {
            key: ModelKey { project_id: project.clone(), model_id: model.clone() },
            project_name: project_name.clone(),
            model_name: model_name.clone(),
            latest,
        },
    );
    assert(index.deep_view() =~= indexed_after(d, project@, model@, project_name@, model_name@, kind, id@));
}

/// Position of the stored snapshot of this model with this id.
fn position_of<E: Dup>(history: &[Payload<E>], project: &str, model: &str, taken_at: &str) -> (r: Option<usize>)
    ensures
        match r {
            Some(i) => first_where(history.deep_view(), is_snapshot::<E::V>(project@, model@, taken_at@)) == i
                && i < history@.len(),
            None => first_where(history.deep_view(), is_snapshot::<E::V>(project@, model@, taken_at@)) == -1,
        },
{
    let ghost d = history.deep_view();
    let mut i: usize = 0;
    while i < history.len()
        invariant
            i <= history@.len(),
            d == history.deep_view(),
            d.len() == history@.len(),
            forall|j: int| 0 <= j < i ==> !is_snapshot::<E::V>(project@, model@, taken_at@)(#[trigger] d[j]),
        decreases history@.len() - i,
    {
        assert(d[i as int] == history@[i as int].deep_view());
        assert(is_snapshot::<E::V>(project@, model@, taken_at@)(d[i as int]) == (d[i as int].project.id == project@ && d[i as int].model.id == model@
            && d[i as int].taken_at == taken_at@));
        if text_eq(history[i].project.id.as_str(), project) && text_eq(history[i].model.id.as_str(), model)
            && text_eq(history[i].snapshot.taken_at.as_str(), taken_at) {
            proof {
                lemma_first_where_at(d, is_snapshot::<E::V>(project@, model@, taken_at@), i as int);
            }
            return Some(i);
        }
        i += 1;
    }
    proof {
        lemma_first_where_at(d, is_snapshot::<E::V>(project@, model@, taken_at@), i as int);
    }
    None
}

/// Store a snapshot in its history, replacing one with the same model and id.
fn store<E: Dup>(history: &mut Vec<Payload<E>>, p: Payload<E>)
    ensures
        final(history).deep_view() == stored_after(old(history).deep_view(), p.deep_view()),
{
    let ghost d = history.deep_view();
    let hs = history.as_slice();
    assert(hs.deep_view() =~= d);
    let pos = position_of(hs, p.project.id.as_str(), p.model.id.as_str(), p.snapshot.taken_at.as_str());
    let ghost pv = p.deep_view();
    match pos {
        Some(i) => {
            history.set(i, p);
            assert(history.deep_view() =~= d.update(i as int, pv));
        },
        None => {
            history.push(p);
            assert(history.deep_view() =~= d.push(pv));
        },
    }
}

/// The stored snapshot of one model with this id.
pub fn find_snapshot<'a, E: Dup>(history: &'a [Payload<E>], key: &ModelKey, taken_at: &str) -> (r: Option<&'a Payload<E>>)
    ensures
        match r {
            Some(p) => snapshot_in(history.deep_view(), key.project_id@, key.model_id@, taken_at@) == Some(
                p.deep_view(),
            ),
            None => snapshot_in(history.deep_view(), key.project_id@, key.model_id@, taken_at@) is None,
        },
{
    match position_of(history, key.project_id.as_str(), key.model_id.as_str(), taken_at) {
        Some(i) => {
            assert(history.deep_view()[i as int] == history@[i as int].deep_view());
            Some(&history[i])
        },
        None => None,
    }
}

impl AppState {
    /// An empty store over these settings.
    pub fn new(registry: SettingsRegistry) -> (r: Self)
        ensures
            r.registry == registry,
            r.index@.len() == 0,
            r.rooms@.len() == 0,
            r.doors@.len() == 0,
            r.windows@.len() == 0,
            r.ffe@.len() == 0,
            r.ceilings@.len() == 0,
            r.uploads@.len() == 0,
    {
        AppState {
            registry,
            index: Vec::new(),
            rooms: Vec::new(),
            doors: Vec::new(),
            windows: Vec::new(),
            ffe: Vec::new(),
            ceilings: Vec::new(),
            uploads: Vec::new(),
        }
    }

    /// The settings every read resolves against.
    pub fn settings(&self) -> (r: &SettingsRegistry)
        ensures
            *r == self.registry,
    {
        &self.registry
    }

    /// The store index: one row per model that ever pushed.
    pub fn model_index(&self) -> (r: &[ModelIndexRow])
        ensures
            r@ == self.index@,
    {
        self.index.as_slice()
    }

    /// Store a rooms snapshot and make it its model's latest.
    pub fn set_snapshot(&mut self, payload: Payload<Room>)
        ensures
            final(self).rooms.deep_view() == stored_after(old(self).rooms.deep_view(), payload.deep_view()),
            final(self).index.deep_view() == indexed_after(
                old(self).index.deep_view(),
                payload.project.id@,
                payload.model.id@,
                payload.project.name@,
                payload.model.name@,
                SnapshotKind::Rooms,
                payload.snapshot.taken_at@,
            ),
            final(self).registry == old(self).registry,
            final(self).doors == old(self).doors,
            final(self).windows == old(self).windows,
            final(self).ffe == old(self).ffe,
            final(self).ceilings == old(self).ceilings,
            final(self).uploads == old(self).uploads,
    {
        record_push(
            &mut self.index,
            &payload.project.id,
            &payload.model.id,
            &payload.project.name,
            &payload.model.name,
            SnapshotKind::Rooms,
            &payload.snapshot.taken_at,
        );
        store(&mut self.rooms, payload);
    }

    /// Store a doors snapshot and make it its model's latest.
    pub fn set_door_snapshot(&mut self, payload: Payload<Opening>)
        ensures
            final(self).doors.deep_view() == stored_after(old(self).doors.deep_view(), payload.deep_view()),
            final(self).index.deep_view() == indexed_after(
                old(self).index.deep_view(),
                payload.project.id@,
                payload.model.id@,
                payload.project.name@,
                payload.model.name@,
                SnapshotKind::Doors,
                payload.snapshot.taken_at@,
            ),
            final(self).registry == old(self).registry,
            final(self).rooms == old(self).rooms,
            final(self).windows == old(self).windows,
            final(self).ffe == old(self).ffe,
            final(self).ceilings == old(self).ceilings,
            final(self).uploads == old(self).uploads,
    {
        record_push(
            &mut self.index,
            &payload.project.id,
            &payload.model.id,
            &payload.project.name,
            &payload.model.name,
            SnapshotKind::Doors,
            &payload.snapshot.taken_at,
        );
        store(&mut self.doors, payload);
    }

    /// Store a windows snapshot and make it its model's latest.
    pub fn set_window_snapshot(&mut self, payload: Payload<Opening>)
        ensures
            final(self).windows.deep_view() == stored_after(old(self).windows.deep_view(), payload.deep_view()),
            final(self).index.deep_view() == indexed_after(
                old(self).index.deep_view(),
                payload.project.id@,
                payload.model.id@,
                payload.project.name@,
                payload.model.name@,
                SnapshotKind::Windows,
                payload.snapshot.taken_at@,
            ),
            final(self).registry == old(self).registry,
            final(self).rooms == old(self).rooms,
            final(self).doors == old(self).doors,
            final(self).ffe == old(self).ffe,
            final(self).ceilings == old(self).ceilings,
            final(self).uploads == old(self).uploads,
    {
        record_push(
            &mut self.index,
            &payload.project.id,
            &payload.model.id,
            &payload.project.name,
            &payload.model.name,
            SnapshotKind::Windows,
            &payload.snapshot.taken_at,
        );
        store(&mut self.windows, payload);
    }

    /// Store an FF&E snapshot and make it its model's latest.
    pub fn set_ffe_snapshot(&mut self, payload: Payload<Item>)
        ensures
            final(self).ffe.deep_view() == stored_after(old(self).ffe.deep_view(), payload.deep_view()),
            final(self).index.deep_view() == indexed_after(
                old(self).index.deep_view(),
                payload.project.id@,
                payload.model.id@,
                payload.project.name@,
                payload.model.name@,
                SnapshotKind::Ffe,
                payload.snapshot.taken_at@,
            ),
            final(self).registry == old(self).registry,
            final(self).rooms == old(self).rooms,
            final(self).doors == old(self).doors,
            final(self).windows == old(self).windows,
            final(self).ceilings == old(self).ceilings,
            final(self).uploads == old(self).uploads,
    {
        record_push(
            &mut self.index,
            &payload.project.id,
            &payload.model.id,
            &payload.project.name,
            &payload.model.name,
            SnapshotKind::Ffe,
            &payload.snapshot.taken_at,
        );
        store(&mut self.ffe, payload);
    }

    /// Store a ceilings snapshot and make it its model's latest.
    pub fn set_ceiling_snapshot(&mut self, payload: Payload<Ceiling>)
        ensures
            final(self).ceilings.deep_view() == stored_after(old(self).ceilings.deep_view(), payload.deep_view()),
            final(self).index.deep_view() == indexed_after(
                old(self).index.deep_view(),
                payload.project.id@,
                payload.model.id@,
                payload.project.name@,
                payload.model.name@,
                SnapshotKind::Ceilings,
                payload.snapshot.taken_at@,
            ),
            final(self).registry == old(self).registry,
            final(self).rooms == old(self).rooms,
            final(self).doors == old(self).doors,
            final(self).windows == old(self).windows,
            final(self).ffe == old(self).ffe,
            final(self).uploads == old(self).uploads,
    {
        record_push(
            &mut self.index,
            &payload.project.id,
            &payload.model.id,
            &payload.project.name,
            &payload.model.name,
            SnapshotKind::Ceilings,
            &payload.snapshot.taken_at,
        );
        store(&mut self.ceilings, payload);
    }
}


/// The uploads after storing one: it replaces the upload with the same
/// project, source and id, or is appended.
pub open spec fn uploaded_after(uploads: Seq<ReferenceUploadV>, u: ReferenceUploadV) -> Seq<ReferenceUploadV> {
    let i = first_where(uploads, is_upload(u.project_id, u.source, u.taken_at));
    if i < 0 {
        uploads.push(u)
    } else {
        uploads.update(i, u)
    }
}

/// The stored bytes of one upload.
pub open spec fn upload_in(uploads: Seq<ReferenceUploadV>, project: Seq<char>, source: Seq<char>, taken_at: Seq<char>) -> Option<Seq<u8>> {
    let i = first_where(uploads, is_upload(project, source, taken_at));
    if i < 0 {
        None
    } else {
        Some(uploads[i].bytes)
    }
}


/// Every listed id names a stored upload of that project's source.
pub proof fn lemma_upload_ids(uploads: Seq<ReferenceUploadV>, project: Seq<char>, source: Seq<char>, k: int)
    requires
        0 <= k < upload_ids(uploads, project, source).len(),
    ensures
        exists|j: int|
            0 <= j < uploads.len() && #[trigger] is_upload(project, source, upload_ids(uploads, project, source)[k])(
                uploads[j],
            ),
    decreases uploads.len(),
{
    let rest = uploads.drop_last();
    let ids = upload_ids(uploads, project, source);
    let rids = upload_ids(rest, project, source);
    if k < rids.len() {
        lemma_upload_ids(rest, project, source, k);
        assert(ids[k] == rids[k]);
        let j = choose|j: int| 0 <= j < rest.len() && #[trigger] is_upload(project, source, rids[k])(rest[j]);
        assert(uploads[j] == rest[j]);
        assert(is_upload(project, source, ids[k])(uploads[j]));
    } else {
        assert(is_upload(project, source, ids[k])(uploads[uploads.len() - 1]));
    }
}

fn upload_position(uploads: &[ReferenceUpload], project: &str, source: &str, taken_at: &str) -> (r: Option<usize>)
    ensures
        match r {
            Some(i) => first_where(uploads.deep_view(), is_upload(project@, source@, taken_at@)) == i && i
                < uploads@.len(),
            None => first_where(uploads.deep_view(), is_upload(project@, source@, taken_at@)) == -1,
        },
{
    let ghost d = uploads.deep_view();
    let mut i: usize = 0;
    while i < uploads.len()
        invariant
            i <= uploads@.len(),
            d == uploads.deep_view(),
            d.len() == uploads@.len(),
            forall|j: int| 0 <= j < i ==> !is_upload(project@, source@, taken_at@)(#[trigger] d[j]),
        decreases uploads@.len() - i,
    {
        assert(d[i as int] == uploads@[i as int].deep_view());
        assert(is_upload(project@, source@, taken_at@)(d[i as int]) == (d[i as int].project_id == project@
            && d[i as int].source == source@ && d[i as int].taken_at == taken_at@));
        if text_eq(uploads[i].project_id.as_str(), project) && text_eq(uploads[i].source.as_str(), source)
            && text_eq(uploads[i].taken_at.as_str(), taken_at) {
            proof {
                lemma_first_where_at(d, is_upload(project@, source@, taken_at@), i as int);
            }
            return Some(i);
        }
        i += 1;
    }
    proof {
        lemma_first_where_at(d, is_upload(project@, source@, taken_at@), i as int);
    }
    None
}

impl AppState {
    /// Store an uploaded reference CSV for one project's source.
    pub fn put_drofus(&mut self, project: &str, source: &str, taken_at: &str, bytes: &[u8])
        ensures
            final(self).uploads.deep_view() == uploaded_after(
                old(self).uploads.deep_view(),
                ReferenceUploadV { project_id: project@, source: source@, taken_at: taken_at@, bytes: bytes@ },
            ),
            final(self).registry == old(self).registry,
            final(self).index == old(self).index,
            final(self).rooms == old(self).rooms,
            final(self).doors == old(self).doors,
            final(self).windows == old(self).windows,
            final(self).ffe == old(self).ffe,
            final(self).ceilings == old(self).ceilings,
    {
        let ghost d = self.uploads.deep_view();
        let us = self.uploads.as_slice();
        assert(us.deep_view() =~= d);
        let pos = upload_position(us, project, source, taken_at);
        let mut copy: Vec<u8> = Vec::new();
        let mut k: usize = 0;
        while k < bytes.len()
            invariant
                k <= bytes@.len(),
                copy@ == bytes@.take(k as int),
            decreases bytes@.len() - k,
        {
            copy.push(bytes[k]);
            assert(bytes@.take(k + 1) == bytes@.take(k as int).push(bytes@[k as int]));
            k += 1;
        }
        assert(copy@ =~= bytes@);
        let u = ReferenceUpload {
            project_id: crate::text::owned(project),
            source: crate::text::owned(source),
            taken_at: crate::text::owned(taken_at),
            bytes: copy,
        };
        let ghost uv = u.deep_view();
        match pos {
            Some(i) => {
                self.uploads.set(i, u);
                assert(self.uploads.deep_view() =~= d.update(i as int, uv));
            },
            None => {
                self.uploads.push(u);
                assert(self.uploads.deep_view() =~= d.push(uv));
            },
        }
    }

    /// Every stored upload id for one project's source, ascending.
    pub fn list_drofus_snapshot_ids(&self, project: &str, source: &str) -> (r: Vec<String>)
        ensures
            r.deep_view() == sorted_of::<String>(upload_ids(self.uploads.deep_view(), project@, source@)),
            sorted::<String>(r.deep_view()),
            r.deep_view().to_multiset() == upload_ids(self.uploads.deep_view(), project@, source@).to_multiset(),
    {
        let ghost d = self.uploads.deep_view();
        let mut ids: Vec<String> = Vec::new();
        let mut i: usize = 0;
        while i < self.uploads.len()
            invariant
                i <= self.uploads@.len(),
                d == self.uploads.deep_view(),
                ids.deep_view() == upload_ids(d.take(i as int), project@, source@),
            decreases self.uploads@.len() - i,
        {
            let u = &self.uploads[i];
            assert(u.deep_view() == d[i as int]);
            proof {
                assert(d.take(i + 1).drop_last() =~= d.take(i as int));
                assert(d.take(i + 1).last() == d[i as int]);
            }
            let ghost before = ids.deep_view();
            if text_eq(u.project_id.as_str(), project) && text_eq(u.source.as_str(), source) {
                ids.push(u.taken_at.clone());
                assert(ids.deep_view() =~= before.push(d[i as int].taken_at));
            }
            i += 1;
        }
        assert(d.take(i as int) =~= d);
        sort(ids)
    }

    /// The bytes of one stored upload.
    pub fn get_drofus(&self, project: &str, source: &str, taken_at: &str) -> (r: Option<Vec<u8>>)
        ensures
            match r {
                Some(b) => upload_in(self.uploads.deep_view(), project@, source@, taken_at@) == Some(b@),
                None => upload_in(self.uploads.deep_view(), project@, source@, taken_at@) is None,
            },
    {
        let us = self.uploads.as_slice();
        assert(us.deep_view() =~= self.uploads.deep_view());
        match upload_position(us, project, source, taken_at) {
            Some(i) => {
                assert(self.uploads.deep_view()[i as int] == self.uploads@[i as int].deep_view());
                let b = self.uploads[i].bytes.dup();
                assert(b@ =~= self.uploads@[i as int].bytes@) by {
                    assert(b.deep_view() == self.uploads@[i as int].bytes.deep_view());
                    assert(b.deep_view() =~= b@);
                    assert(self.uploads@[i as int].bytes.deep_view() =~= self.uploads@[i as int].bytes@);
                }
                Some(b)
            },
            None => None,
        }
    }

    /// The latest stored upload of one project's source: the greatest id.
    pub fn get_latest_drofus(&self, project: &str, source: &str) -> (r: Option<(String, Vec<u8>)>)
        ensures
            match r {
                Some((id, b)) => {
                    let ids = sorted_of::<String>(upload_ids(self.uploads.deep_view(), project@, source@));
                    &&& ids.len() > 0
                    &&& id@ == ids.last()
                    &&& upload_in(self.uploads.deep_view(), project@, source@, id@) == Some(b@)
                },
                None => sorted_of::<String>(upload_ids(self.uploads.deep_view(), project@, source@)).len() == 0,
            },
    {
        let ids = self.list_drofus_snapshot_ids(project, source);
        if ids.len() == 0 {
            return None;
        }
        let id = ids[ids.len() - 1].clone();
        assert(ids.deep_view()[ids@.len() - 1] == ids@[ids@.len() - 1]@);
        proof {
            let u = upload_ids(self.uploads.deep_view(), project@, source@);
            let sd = ids.deep_view();
            assert(sd.contains(id@));
            assert(sd.to_multiset().count(id@) > 0);
            assert(u.contains(id@));
            let k = choose|k: int| 0 <= k < u.len() && u[k] == id@;
            lemma_upload_ids(self.uploads.deep_view(), project@, source@, k);
            let d = self.uploads.deep_view();
            let j = choose|j: int| 0 <= j < d.len() && #[trigger] is_upload(project@, source@, u[k])(d[j]);
            crate::keyed::lemma_first_where(d, is_upload(project@, source@, id@));
        }
        match self.get_drofus(project, source, id.as_str()) {
            Some(b) => Some((id, b)),
            None => None,
        }
    }
}

} // verus!
