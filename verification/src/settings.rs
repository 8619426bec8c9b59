//! Per-project settings: the policies a read applies, the milestones a project
//! defines, and the reference sources it joins.
use vstd::prelude::*;
use crate::contract::{Field, FieldV, ReferenceData, ReferenceDataV, RoomRef};
use crate::keyed::{entry, lookup, Dup, Keyed};

verus! {

/// Which room(s) own a two-sided element, from its two room references.
#[derive(Clone, Copy, PartialEq, Eq, Structural, Debug)]
pub enum RoomAttribution {
    /// The `to` side only.
    ToRoom,
    /// The `from` side only.
    FromRoom,
    /// `to`, else `from`. The default.
    ToRoomThenFromRoom,
    /// `from`, else `to`.
    FromRoomThenToRoom,
    /// Both sides: `to` first, then `from`.
    Both,
}

impl Default for RoomAttribution {
    fn default() -> (r: Self)
        ensures
            r == RoomAttribution::ToRoomThenFromRoom,
    {
        RoomAttribution::ToRoomThenFromRoom
    }
}

pub open spec fn opt_seq<T>(o: Option<T>) -> Seq<T> {
    match o {
        Some(x) => seq![x],
        None => Seq::empty(),
    }
}

/// The owners a policy gives, in policy order.
pub open spec fn owners_of<T>(policy: RoomAttribution, from: Option<T>, to: Option<T>) -> Seq<T> {
    match policy {
        RoomAttribution::ToRoom => opt_seq(to),
        RoomAttribution::FromRoom => opt_seq(from),
        RoomAttribution::ToRoomThenFromRoom => if to is Some {
            opt_seq(to)
        } else {
            opt_seq(from)
        },
        RoomAttribution::FromRoomThenToRoom => if from is Some {
            opt_seq(from)
        } else {
            opt_seq(to)
        },
        RoomAttribution::Both => opt_seq(to) + opt_seq(from),
    }
}

impl RoomAttribution {
    /// The rooms this policy attributes an element to, given its two sides.
    pub fn owners(self, from: Option<&RoomRef>, to: Option<&RoomRef>) -> (r: Vec<RoomRef>)
        ensures
            r.deep_view() == owners_of(
                self,
                match from {
                    Some(x) => Some(x.deep_view()),
                    None => None,
                },
                match to {
                    Some(x) => Some(x.deep_view()),
                    None => None,
                },
            ),
    {
        let mut r: Vec<RoomRef> = Vec::new();
        match self {
            RoomAttribution::ToRoom => {
                if let Some(t) = to {
                    r.push(t.dup());
                }
            },
            RoomAttribution::FromRoom => {
                if let Some(f) = from {
                    r.push(f.dup());
                }
            },
            RoomAttribution::ToRoomThenFromRoom => {
                if let Some(t) = to {
                    r.push(t.dup());
                } else if let Some(f) = from {
                    r.push(f.dup());
                }
            },
            RoomAttribution::FromRoomThenToRoom => {
                if let Some(f) = from {
                    r.push(f.dup());
                } else if let Some(t) = to {
                    r.push(t.dup());
                }
            },
            RoomAttribution::Both => {
                if let Some(t) = to {
                    r.push(t.dup());
                }
                if let Some(f) = from {
                    r.push(f.dup());
                }
            },
        }
        assert(r.deep_view() =~= owners_of(
            self,
            match from {
                Some(x) => Some(x.deep_view()),
                None => None,
            },
            match to {
                Some(x) => Some(x.deep_view()),
                None => None,
            },
        ));
        r
    }

    /// The same-model room ids this policy attributes an element to.
    pub fn owner_ids(self, from: Option<&String>, to: Option<&String>) -> (r: Vec<String>)
        ensures
            r.deep_view() == owners_of(
                self,
                match from {
                    Some(x) => Some(x@),
                    None => None,
                },
                match to {
                    Some(x) => Some(x@),
                    None => None,
                },
            ),
    {
        let mut r: Vec<String> = Vec::new();
        match self {
            RoomAttribution::ToRoom => {
                if let Some(t) = to {
                    r.push(t.clone());
                }
            },
            RoomAttribution::FromRoom => {
                if let Some(f) = from {
                    r.push(f.clone());
                }
            },
            RoomAttribution::ToRoomThenFromRoom => {
                if let Some(t) = to {
                    r.push(t.clone());
                } else if let Some(f) = from {
                    r.push(f.clone());
                }
            },
            RoomAttribution::FromRoomThenToRoom => {
                if let Some(f) = from {
                    r.push(f.clone());
                } else if let Some(t) = to {
                    r.push(t.clone());
                }
            },
            RoomAttribution::Both => {
                if let Some(t) = to {
                    r.push(t.clone());
                }
                if let Some(f) = from {
                    r.push(f.clone());
                }
            },
        }
        assert(r.deep_view() =~= owners_of(
            self,
            match from {
                Some(x) => Some(x@),
                None => None,
            },
            match to {
                Some(x) => Some(x@),
                None => None,
            },
        ));
        r
    }
}

/// Whether geometry may fill a room reference the model left absent, and
/// which rooms it may reach.
#[derive(Clone, Copy, PartialEq, Eq, Structural, Debug)]
pub enum RoomResolution {
    /// Never: every side reports what the model stated. The default.
    Off,
    /// Only rooms of the element's own model.
    SameModel,
    /// Any room of the project, in the project's shared frame.
    Project,
}

impl Default for RoomResolution {
    fn default() -> (r: Self)
        ensures
            r == RoomResolution::Off,
    {
        RoomResolution::Off
    }
}

/// Whether an FF&E instance nested in another is served.
#[derive(Clone, Copy, PartialEq, Eq, Structural, Debug)]
pub enum NestedComponents {
    /// Dropped and counted. The default.
    Exclude,
    /// Served, flagged as a component.
    Include,
}

impl Default for NestedComponents {
    fn default() -> (r: Self)
        ensures
            r == NestedComponents::Exclude,
    {
        NestedComponents::Exclude
    }
}

/// A door or window policy section.
#[derive(Clone, Copy, PartialEq, Eq, Structural, Debug)]
pub struct OpeningPolicy {
    pub room_attribution: RoomAttribution,
    pub room_resolution: RoomResolution,
}

impl Default for OpeningPolicy {
    fn default() -> (r: Self)
        ensures
            r.room_attribution == RoomAttribution::ToRoomThenFromRoom,
            r.room_resolution == RoomResolution::Off,
    {
        OpeningPolicy { room_attribution: RoomAttribution::ToRoomThenFromRoom, room_resolution: RoomResolution::Off }
    }
}

/// The FF&E policy section.
#[derive(Clone, Copy, PartialEq, Eq, Structural, Debug)]
pub struct FfePolicy {
    pub nested_components: NestedComponents,
    pub room_resolution: RoomResolution,
}

impl Default for FfePolicy {
    fn default() -> (r: Self)
        ensures
            r.nested_components == NestedComponents::Exclude,
            r.room_resolution == RoomResolution::Off,
    {
        FfePolicy { nested_components: NestedComponents::Exclude, room_resolution: RoomResolution::Off }
    }
}

/// Which entity a reference source joins onto.
#[derive(Clone, Copy, PartialEq, Eq, Structural, Debug)]
pub enum ReferenceEntity {
    Rooms,
    Doors,
    Windows,
    Ffe,
    Spaces,
}

/// One configured reference source: its name, the entity it joins, and its
/// current data (none before the first upload).
pub struct ReferenceSource {
    pub name: String,
    pub entity: ReferenceEntity,
    pub data: Option<ReferenceData>,
}

pub struct ReferenceSourceV {
    pub name: Seq<char>,
    pub entity: ReferenceEntity,
    pub data: Option<ReferenceDataV>,
}

impl DeepView for ReferenceSource {
    type V = ReferenceSourceV;

    open spec fn deep_view(&self) -> ReferenceSourceV {
        ReferenceSourceV { name: self.name@, entity: self.entity, data: self.data.deep_view() }
    }
}

impl Keyed for ReferenceSource {
    open spec fn key_of(v: ReferenceSourceV) -> Seq<char> {
        v.name
    }

    fn key_str(&self) -> (r: &str) {
        self.name.as_str()
    }
}

/// A named, dated set of pins: for each entity, model id -> the snapshot id
/// (`taken_at`) the milestone serves; and reference source -> its pinned upload.
pub struct Milestone {
    pub name: String,
    pub date: String,
    pub reference_snapshots: Vec<Field>,
    pub attachments: Vec<Field>,
    pub door_attachments: Vec<Field>,
    pub window_attachments: Vec<Field>,
    pub ffe_attachments: Vec<Field>,
    pub space_attachments: Vec<Field>,
    pub ceiling_attachments: Vec<Field>,
    pub floor_attachments: Vec<Field>,
}

pub struct MilestoneV {
    pub name: Seq<char>,
    pub date: Seq<char>,
    pub reference_snapshots: Seq<FieldV>,
    pub attachments: Seq<FieldV>,
    pub door_attachments: Seq<FieldV>,
    pub window_attachments: Seq<FieldV>,
    pub ffe_attachments: Seq<FieldV>,
    pub space_attachments: Seq<FieldV>,
    pub ceiling_attachments: Seq<FieldV>,
    pub floor_attachments: Seq<FieldV>,
}

impl DeepView for Milestone {
    type V = MilestoneV;

    open spec fn deep_view(&self) -> MilestoneV {
        MilestoneV {
            name: self.name@,
            date: self.date@,
            reference_snapshots: self.reference_snapshots.deep_view(),
            attachments: self.attachments.deep_view(),
            door_attachments: self.door_attachments.deep_view(),
            window_attachments: self.window_attachments.deep_view(),
            ffe_attachments: self.ffe_attachments.deep_view(),
            space_attachments: self.space_attachments.deep_view(),
            ceiling_attachments: self.ceiling_attachments.deep_view(),
            floor_attachments: self.floor_attachments.deep_view(),
        }
    }
}

impl Keyed for Milestone {
    open spec fn key_of(v: MilestoneV) -> Seq<char> {
        v.name
    }

    fn key_str(&self) -> (r: &str) {
        self.name.as_str()
    }
}

/// A resolved classification value at one tier.
pub struct TierValue {
    pub tier: String,
    pub code: Option<String>,
    pub name: Option<String>,
    pub undefined: bool,
}

pub struct TierValueV {
    pub tier: Seq<char>,
    pub code: Option<Seq<char>>,
    pub name: Option<Seq<char>>,
    pub undefined: bool,
}

impl DeepView for TierValue {
    type V = TierValueV;

    open spec fn deep_view(&self) -> TierValueV {
        TierValueV {
            tier: self.tier@,
            code: self.code.deep_view(),
            name: self.name.deep_view(),
            undefined: self.undefined,
        }
    }
}

impl Dup for TierValue {
    fn dup(&self) -> (r: Self) {
        TierValue { tier: self.tier.dup(), code: self.code.dup(), name: self.name.dup(), undefined: self.undefined }
    }
}

/// What a project withholds from its area roll-ups.
pub enum HierarchyExclusion {
    /// A group, named by its tier and its resolved code or name, is withheld
    /// from its parent's dissolve.
    Group { tier: String, value: String },
    /// These rooms are dropped before any geometry.
    Rooms { ids: Vec<String> },
}

pub enum HierarchyExclusionV {
    Group { tier: Seq<char>, value: Seq<char> },
    Rooms { ids: Seq<Seq<char>> },
}

impl DeepView for HierarchyExclusion {
    type V = HierarchyExclusionV;

    open spec fn deep_view(&self) -> HierarchyExclusionV {
        match self {
            HierarchyExclusion::Group { tier, value } => HierarchyExclusionV::Group { tier: tier@, value: value@ },
            HierarchyExclusion::Rooms { ids } => HierarchyExclusionV::Rooms { ids: ids.deep_view() },
        }
    }
}

/// One project's resolved settings.
pub struct ProjectSettings {
    pub reference: Vec<ReferenceSource>,
    pub milestones: Vec<Milestone>,
    /// The room property rooms are matched on across milestones, if any.
    pub comparison_key: Option<String>,
    /// The room properties a milestone comparison diffs.
    pub comparison_properties: Vec<String>,
    pub doors: OpeningPolicy,
    pub windows: OpeningPolicy,
    pub ffe: FfePolicy,
    pub hierarchy_exclusions: Vec<HierarchyExclusion>,
    /// The model whose frame the project is drawn in, if named.
    pub anchor_model: Option<String>,
}

pub struct ProjectSettingsV {
    pub reference: Seq<ReferenceSourceV>,
    pub milestones: Seq<MilestoneV>,
    pub comparison_key: Option<Seq<char>>,
    pub comparison_properties: Seq<Seq<char>>,
    pub doors: OpeningPolicy,
    pub windows: OpeningPolicy,
    pub ffe: FfePolicy,
    pub hierarchy_exclusions: Seq<HierarchyExclusionV>,
    pub anchor_model: Option<Seq<char>>,
}

impl DeepView for ProjectSettings {
    type V = ProjectSettingsV;

    open spec fn deep_view(&self) -> ProjectSettingsV {
        ProjectSettingsV {
            reference: self.reference.deep_view(),
            milestones: self.milestones.deep_view(),
            comparison_key: self.comparison_key.deep_view(),
            comparison_properties: self.comparison_properties.deep_view(),
            doors: self.doors,
            windows: self.windows,
            ffe: self.ffe,
            hierarchy_exclusions: self.hierarchy_exclusions.deep_view(),
            anchor_model: self.anchor_model.deep_view(),
        }
    }
}

impl ProjectSettings {
    /// Settings with nothing configured: no sources, milestones, comparison
    /// key or exclusions, and every policy at its default.
    pub fn new() -> (r: Self)
        ensures
            r.reference@.len() == 0,
            r.milestones@.len() == 0,
            (r.comparison_key is None),
            r.comparison_properties@.len() == 0,
            r.doors.room_attribution == RoomAttribution::ToRoomThenFromRoom,
            r.doors.room_resolution == RoomResolution::Off,
            r.windows == r.doors,
            r.ffe.nested_components == NestedComponents::Exclude,
            r.ffe.room_resolution == RoomResolution::Off,
            r.hierarchy_exclusions@.len() == 0,
            (r.anchor_model is None),
    {
        ProjectSettings {
            reference: Vec::new(),
            milestones: Vec::new(),
            comparison_key: None,
            comparison_properties: Vec::new(),
            doors: OpeningPolicy::default(),
            windows: OpeningPolicy::default(),
            ffe: FfePolicy::default(),
            hierarchy_exclusions: Vec::new(),
            anchor_model: None,
        }
    }
}

/// One registered project.
pub struct ProjectEntry {
    pub id: String,
    pub settings: ProjectSettings,
}

pub struct ProjectEntryV {
    pub id: Seq<char>,
    pub settings: ProjectSettingsV,
}

impl DeepView for ProjectEntry {
    type V = ProjectEntryV;

    open spec fn deep_view(&self) -> ProjectEntryV {
        ProjectEntryV { id: self.id@, settings: self.settings.deep_view() }
    }
}

impl Keyed for ProjectEntry {
    open spec fn key_of(v: ProjectEntryV) -> Seq<char> {
        v.id
    }

    fn key_str(&self) -> (r: &str) {
        self.id.as_str()
    }
}

/// Every registered project's settings. A project not registered here is
/// invisible to every read.
pub struct SettingsRegistry {
    pub projects: Vec<ProjectEntry>,
}

/// A project's settings, when it is registered.
pub open spec fn settings_of(projects: Seq<ProjectEntryV>, id: Seq<char>) -> Option<ProjectSettingsV> {
    match entry::<ProjectEntry>(projects, id) {
        Some(e) => Some(e.settings),
        None => None,
    }
}

impl SettingsRegistry {
    pub open spec fn view_projects(&self) -> Seq<ProjectEntryV> {
        self.projects.deep_view()
    }

    /// The settings of a registered project.
    pub fn settings_for(&self, project_id: &str) -> (r: Option<&ProjectSettings>)
        ensures
            match r {
                Some(s) => settings_of(self.view_projects(), project_id@) == Some(s.deep_view()),
                None => settings_of(self.view_projects(), project_id@) is None,
            },
    {
        let ps = self.projects.as_slice();
        assert(ps.deep_view() =~= self.projects.deep_view());
        match lookup(ps, project_id) {
            Some(e) => Some(&e.settings),
            None => None,
        }
    }
}

/// A milestone of a project by name.
pub open spec fn milestone_of(s: ProjectSettingsV, name: Seq<char>) -> Option<MilestoneV> {
    entry::<Milestone>(s.milestones, name)
}

impl ProjectSettings {
    /// The milestone of this name.
    pub fn milestone(&self, name: &str) -> (r: Option<&Milestone>)
        ensures
            match r {
                Some(m) => milestone_of(self.deep_view(), name@) == Some(m.deep_view()),
                None => milestone_of(self.deep_view(), name@) is None,
            },
    {
        let ms = self.milestones.as_slice();
        assert(ms.deep_view() =~= self.milestones.deep_view());
        lookup(ms, name)
    }
}

} // verus!
