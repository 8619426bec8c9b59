//! Reference-source uploads, read side: which uploads exist for one project's
//! source, and a summary of one of them. An unregistered project has none.
use vstd::prelude::*;
use crate::reference::load_bytes_of;
use crate::settings::settings_of;
use crate::state::{upload_ids, upload_in, AppState, ReferenceUploadV};
use crate::order::sorted_of;
use crate::{ServiceError, ServiceErrorV};

verus! {

/// Every upload id of one project's source, ascending, and the latest.
pub struct DrofusSnapshotList {
    pub project_id: String,
    pub snapshots: Vec<String>,
    pub latest: Option<String>,
}

/// A summary of one stored upload.
pub struct DrofusSnapshotInfo {
    pub taken_at: String,
    pub record_count: usize,
    pub link_property: String,
    pub labels: Vec<String>,
}

/// The ids a listing shows: the project's uploads of the source, ascending,
/// or none for an unregistered project.
pub open spec fn listed_ids(state: AppState, project: Seq<char>, source: Seq<char>) -> Seq<Seq<char>> {
    if settings_of(state.registry.view_projects(), project) is None {
        Seq::empty()
    } else {
        sorted_of::<String>(upload_ids(state.uploads.deep_view(), project, source))
    }
}

/// Every uploaded snapshot id for one project's named source.
pub fn list_drofus_snapshots(state: &AppState, project_id: &str, source: &str) -> (r: Result<DrofusSnapshotList, ServiceError>)
    ensures
        r matches Ok(l) && l.project_id@ == project_id@ && l.snapshots.deep_view() == listed_ids(
            *state,
            project_id@,
            source@,
        ) && (if l.snapshots@.len() == 0 {
            l.latest is None
        } else {
            l.latest matches Some(x) && x@ == l.snapshots.deep_view().last()
        }),
{
    if state.settings().settings_for(project_id).is_none() {
        let snapshots: Vec<String> = Vec::new();
        assert(snapshots.deep_view() =~= Seq::<Seq<char>>::empty());
        return Ok(DrofusSnapshotList { project_id: crate::text::owned(project_id), snapshots, latest: None });
    }
    let snapshots = state.list_drofus_snapshot_ids(project_id, source);
    let latest = if snapshots.len() == 0 {
        None
    } else {
        assert(snapshots.deep_view()[snapshots@.len() - 1] == snapshots@[snapshots@.len() - 1]@);
        Some(snapshots[snapshots.len() - 1].clone())
    };
    Ok(DrofusSnapshotList { project_id: crate::text::owned(project_id), snapshots, latest })
}

/// The upload a summary reads: the named one, or the latest when none is
/// named.
pub open spec fn chosen_upload(
    uploads: Seq<ReferenceUploadV>,
    project: Seq<char>,
    source: Seq<char>,
    taken_at: Option<Seq<char>>,
) -> Option<(Seq<char>, Seq<u8>)> {
    match taken_at {
        Some(id) => match upload_in(uploads, project, source, id) {
            Some(b) => Some((id, b)),
            None => None,
        },
        None => {
            let ids = sorted_of::<String>(upload_ids(uploads, project, source));
            if ids.len() == 0 {
                None
            } else {
                match upload_in(uploads, project, source, ids.last()) {
                    Some(b) => Some((ids.last(), b)),
                    None => None,
                }
            }
        },
    }
}

/// A parsed summary of one stored upload: the named one, or the latest.
/// `None` for an unregistered project or an upload that does not exist; a
/// stored file that no longer parses is an internal error.
pub fn get_drofus_snapshot(state: &AppState, project_id: &str, source: &str, taken_at: Option<&str>) -> (r: Result<
    Option<DrofusSnapshotInfo>,
    ServiceError,
>)
    ensures
        ({
            let registered = settings_of(state.registry.view_projects(), project_id@) is Some;
            let chosen = chosen_upload(
                state.uploads.deep_view(),
                project_id@,
                source@,
                crate::contract::opt_str(taken_at),
            );
            match r {
                Ok(None) => !registered || chosen is None,
                Ok(Some(info)) => {
                    &&& registered
                    &&& chosen matches Some((id, bytes))
                    &&& id == info.taken_at@
                    &&& load_bytes_of(bytes) matches Ok(d)
                    &&& info.record_count == d.by_id.len()
                    &&& info.link_property@ == d.link_property
                    &&& info.labels.deep_view() == d.all_labels
                },
                Err(e) => {
                    &&& registered
                    &&& chosen matches Some((id, bytes))
                    &&& load_bytes_of(bytes) matches Err(m)
                    &&& e@ == ServiceErrorV::Internal(m)
                },
            }
        }),
{
    if state.settings().settings_for(project_id).is_none() {
        return Ok(None);
    }
    let resolved: Option<(String, Vec<u8>)> = match taken_at {
        Some(id) => match state.get_drofus(project_id, source, id) {
            Some(bytes) => Some((crate::text::owned(id), bytes)),
            None => None,
        },
        None => state.get_latest_drofus(project_id, source),
    };
    let (id, bytes) = match resolved {
        Some(x) => x,
        None => {
            return Ok(None);
        },
    };
    let bs = bytes.as_slice();
    match crate::reference::load_reference_from_bytes(bs) {
        Ok(data) => Ok(
            Some(
                DrofusSnapshotInfo {
                    taken_at: id,
                    record_count: data.by_id.len(),
                    link_property: data.link_property,
                    labels: data.all_labels,
                },
            ),
        ),
        Err(m) => Err(ServiceError::Internal(m)),
    }
}

} // verus!
