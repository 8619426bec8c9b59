//! The element records a model pushes, and the snapshot envelope around them.
use vstd::prelude::*;
use crate::contract::{Level, LevelV, Model, Project, Prop, PropV, Snapshot};
use crate::keyed::Dup;

verus! {

pub struct ProjectV {
    pub id: Seq<char>,
    pub name: Seq<char>,
}

impl DeepView for Project {
    type V = ProjectV;

    open spec fn deep_view(&self) -> ProjectV {
        ProjectV { id: self.id@, name: self.name@ }
    }
}

impl Dup for Project {
    fn dup(&self) -> (r: Self) {
        Project { id: self.id.dup(), name: self.name.dup() }
    }
}

pub struct ModelV {
    pub id: Seq<char>,
    pub name: Seq<char>,
    pub source: Seq<char>,
}

impl DeepView for Model {
    type V = ModelV;

    open spec fn deep_view(&self) -> ModelV {
        ModelV { id: self.id@, name: self.name@, source: self.source@ }
    }
}

impl Dup for Model {
    fn dup(&self) -> (r: Self) {
        Model { id: self.id.dup(), name: self.name.dup(), source: self.source.dup() }
    }
}

impl DeepView for Snapshot {
    type V = Seq<char>;

    open spec fn deep_view(&self) -> Seq<char> {
        self.taken_at@
    }
}

impl Dup for Snapshot {
    fn dup(&self) -> (r: Self) {
        Snapshot { taken_at: self.taken_at.dup() }
    }
}

/// One pushed snapshot of one model: who pushed it, when, under which phase,
/// the storeys it declares, and its elements.
pub struct Payload<E> {
    pub project: Project,
    pub model: Model,
    pub snapshot: Snapshot,
    /// The Revit phase the export was filtered to, if any.
    pub phase: Option<String>,
    pub levels: Vec<Level>,
    pub elements: Vec<E>,
}

pub struct PayloadV<V> {
    pub project: ProjectV,
    pub model: ModelV,
    pub taken_at: Seq<char>,
    pub phase: Option<Seq<char>>,
    pub levels: Seq<LevelV>,
    pub elements: Seq<V>,
}

impl<E: DeepView> DeepView for Payload<E> {
    type V = PayloadV<E::V>;

    open spec fn deep_view(&self) -> PayloadV<E::V> {
        PayloadV {
            project: self.project.deep_view(),
            model: self.model.deep_view(),
            taken_at: self.snapshot.deep_view(),
            phase: self.phase.deep_view(),
            levels: self.levels.deep_view(),
            elements: self.elements.deep_view(),
        }
    }
}

impl<E: Dup> Dup for Payload<E> {
    fn dup(&self) -> (r: Self) {
        Payload {
            project: self.project.dup(),
            model: self.model.dup(),
            snapshot: self.snapshot.dup(),
            phase: self.phase.dup(),
            levels: self.levels.dup(),
            elements: self.elements.dup(),
        }
    }
}

/// A room as exported, with the building key its classification resolved (if
/// the project's hierarchy has a building tier and the room has a value there).
pub struct Room {
    pub id: String,
    pub name: String,
    pub level_id: String,
    pub building: Option<String>,
    pub properties: Vec<Prop>,
}

pub struct RoomV {
    pub id: Seq<char>,
    pub name: Seq<char>,
    pub level_id: Seq<char>,
    pub building: Option<Seq<char>>,
    pub properties: Seq<PropV>,
}

impl DeepView for Room {
    type V = RoomV;

    open spec fn deep_view(&self) -> RoomV {
        RoomV {
            id: self.id@,
            name: self.name@,
            level_id: self.level_id@,
            building: self.building.deep_view(),
            properties: self.properties.deep_view(),
        }
    }
}

impl Dup for Room {
    fn dup(&self) -> (r: Self) {
        Room {
            id: self.id.dup(),
            name: self.name.dup(),
            level_id: self.level_id.dup(),
            building: self.building.dup(),
            properties: self.properties.dup(),
        }
    }
}

/// A door or a window: a wall-hosted element between a `from` and a `to` room.
pub struct Opening {
    pub id: String,
    pub level_id: String,
    pub from_room: Option<String>,
    pub to_room: Option<String>,
    pub type_id: String,
    pub type_label: String,
    pub properties: Vec<Prop>,
    pub type_properties: Vec<Prop>,
}

pub struct OpeningV {
    pub id: Seq<char>,
    pub level_id: Seq<char>,
    pub from_room: Option<Seq<char>>,
    pub to_room: Option<Seq<char>>,
    pub type_id: Seq<char>,
    pub type_label: Seq<char>,
    pub properties: Seq<PropV>,
    pub type_properties: Seq<PropV>,
}

impl DeepView for Opening {
    type V = OpeningV;

    open spec fn deep_view(&self) -> OpeningV {
        OpeningV {
            id: self.id@,
            level_id: self.level_id@,
            from_room: self.from_room.deep_view(),
            to_room: self.to_room.deep_view(),
            type_id: self.type_id@,
            type_label: self.type_label@,
            properties: self.properties.deep_view(),
            type_properties: self.type_properties.deep_view(),
        }
    }
}

impl Dup for Opening {
    fn dup(&self) -> (r: Self) {
        Opening {
            id: self.id.dup(),
            level_id: self.level_id.dup(),
            from_room: self.from_room.dup(),
            to_room: self.to_room.dup(),
            type_id: self.type_id.dup(),
            type_label: self.type_label.dup(),
            properties: self.properties.dup(),
            type_properties: self.type_properties.dup(),
        }
    }
}

/// A ceiling: a surface on one storey. Nothing in it names a room; which
/// rooms it lies over is a question of plan geometry.
pub struct Ceiling {
    pub id: String,
    pub level_id: String,
    pub type_id: String,
    pub type_label: String,
    pub properties: Vec<Prop>,
    pub type_properties: Vec<Prop>,
}

pub struct CeilingV {
    pub id: Seq<char>,
    pub level_id: Seq<char>,
    pub type_id: Seq<char>,
    pub type_label: Seq<char>,
    pub properties: Seq<PropV>,
    pub type_properties: Seq<PropV>,
}

impl DeepView for Ceiling {
    type V = CeilingV;

    open spec fn deep_view(&self) -> CeilingV {
        CeilingV {
            id: self.id@,
            level_id: self.level_id@,
            type_id: self.type_id@,
            type_label: self.type_label@,
            properties: self.properties.deep_view(),
            type_properties: self.type_properties.deep_view(),
        }
    }
}

impl Dup for Ceiling {
    fn dup(&self) -> (r: Self) {
        Ceiling {
            id: self.id.dup(),
            level_id: self.level_id.dup(),
            type_id: self.type_id.dup(),
            type_label: self.type_label.dup(),
            properties: self.properties.dup(),
            type_properties: self.type_properties.dup(),
        }
    }
}

/// An FF&E instance: it names the one room it stands in, if any, and the
/// instance it is a component of, if any.
pub struct Item {
    pub id: String,
    pub level_id: String,
    pub category: String,
    pub room: Option<String>,
    pub super_component_id: Option<String>,
    pub type_id: String,
    pub type_label: String,
    pub properties: Vec<Prop>,
    pub type_properties: Vec<Prop>,
}

pub struct ItemV {
    pub id: Seq<char>,
    pub level_id: Seq<char>,
    pub category: Seq<char>,
    pub room: Option<Seq<char>>,
    pub super_component_id: Option<Seq<char>>,
    pub type_id: Seq<char>,
    pub type_label: Seq<char>,
    pub properties: Seq<PropV>,
    pub type_properties: Seq<PropV>,
}

impl DeepView for Item {
    type V = ItemV;

    open spec fn deep_view(&self) -> ItemV {
        ItemV {
            id: self.id@,
            level_id: self.level_id@,
            category: self.category@,
            room: self.room.deep_view(),
            super_component_id: self.super_component_id.deep_view(),
            type_id: self.type_id@,
            type_label: self.type_label@,
            properties: self.properties.deep_view(),
            type_properties: self.type_properties.deep_view(),
        }
    }
}

impl Dup for Item {
    fn dup(&self) -> (r: Self) {
        Item {
            id: self.id.dup(),
            level_id: self.level_id.dup(),
            category: self.category.dup(),
            room: self.room.dup(),
            super_component_id: self.super_component_id.dup(),
            type_id: self.type_id.dup(),
            type_label: self.type_label.dup(),
            properties: self.properties.dup(),
            type_properties: self.type_properties.dup(),
        }
    }
}

pub type RoomPayload = Payload<Room>;

pub type DoorPayload = Payload<Opening>;

pub type WindowPayload = Payload<Opening>;

pub type FfePayload = Payload<Item>;

} // verus!
