//! The records a model pushes, and how a named field of one is read.
//!
//! Plan geometry (loops, insertion points, directions) is not held here: it is
//! floating point, and is resolved outside this library. What the library
//! reads of an element is its identity, its room references and its
//! properties.
use vstd::prelude::*;
use crate::keyed::{entry, lookup, Dup, Keyed};


verus! {

/// One property value as exported, with Revit's storage type when stated.
pub struct PropertyValue {
    pub value: String,
    pub storage_type: Option<String>,
}

pub struct PropertyValueV {
    pub value: Seq<char>,
    pub storage_type: Option<Seq<char>>,
}

impl DeepView for PropertyValue {
    type V = PropertyValueV;

    open spec fn deep_view(&self) -> PropertyValueV {
        PropertyValueV { value: self.value@, storage_type: self.storage_type.deep_view() }
    }
}

impl Dup for PropertyValue {
    fn dup(&self) -> (r: Self) {
        PropertyValue { value: self.value.dup(), storage_type: self.storage_type.dup() }
    }
}

/// One named property.
pub struct Prop {
    pub name: String,
    pub value: PropertyValue,
}

pub struct PropV {
    pub name: Seq<char>,
    pub value: PropertyValueV,
}

impl DeepView for Prop {
    type V = PropV;

    open spec fn deep_view(&self) -> PropV {
        PropV { name: self.name@, value: self.value.deep_view() }
    }
}

impl Dup for Prop {
    fn dup(&self) -> (r: Self) {
        Prop { name: self.name.dup(), value: self.value.dup() }
    }
}

impl Keyed for Prop {
    open spec fn key_of(v: PropV) -> Seq<char> {
        v.name
    }

    fn key_str(&self) -> (r: &str) {
        self.name.as_str()
    }
}

/// One named text value: a reference record's field, or a pin.
pub struct Field {
    pub name: String,
    pub value: String,
}

pub struct FieldV {
    pub name: Seq<char>,
    pub value: Seq<char>,
}

impl DeepView for Field {
    type V = FieldV;

    open spec fn deep_view(&self) -> FieldV {
        FieldV { name: self.name@, value: self.value@ }
    }
}

impl Dup for Field {
    fn dup(&self) -> (r: Self) {
        Field { name: self.name.dup(), value: self.value.dup() }
    }
}

impl Keyed for Field {
    open spec fn key_of(v: FieldV) -> Seq<char> {
        v.name
    }

    fn key_str(&self) -> (r: &str) {
        self.name.as_str()
    }
}

/// One joined reference-source row: label -> value.
pub struct ReferenceRecord {
    pub fields: Vec<Field>,
}

impl DeepView for ReferenceRecord {
    type V = Seq<FieldV>;

    open spec fn deep_view(&self) -> Seq<FieldV> {
        self.fields.deep_view()
    }
}

impl Dup for ReferenceRecord {
    fn dup(&self) -> (r: Self) {
        ReferenceRecord { fields: self.fields.dup() }
    }
}

/// A reference record under the name of the source it came from.
pub struct SourceRecord {
    pub source: String,
    pub record: ReferenceRecord,
}

pub struct SourceRecordV {
    pub source: Seq<char>,
    pub fields: Seq<FieldV>,
}

impl DeepView for SourceRecord {
    type V = SourceRecordV;

    open spec fn deep_view(&self) -> SourceRecordV {
        SourceRecordV { source: self.source@, fields: self.record.deep_view() }
    }
}

impl Dup for SourceRecord {
    fn dup(&self) -> (r: Self) {
        SourceRecord { source: self.source.dup(), record: self.record.dup() }
    }
}

impl Keyed for SourceRecord {
    open spec fn key_of(v: SourceRecordV) -> Seq<char> {
        v.source
    }

    fn key_str(&self) -> (r: &str) {
        self.source.as_str()
    }
}

/// A reference record under the link value that selects it.
pub struct KeyedRecord {
    pub id: String,
    pub record: ReferenceRecord,
}

pub struct KeyedRecordV {
    pub id: Seq<char>,
    pub fields: Seq<FieldV>,
}

impl DeepView for KeyedRecord {
    type V = KeyedRecordV;

    open spec fn deep_view(&self) -> KeyedRecordV {
        KeyedRecordV { id: self.id@, fields: self.record.deep_view() }
    }
}

impl Dup for KeyedRecord {
    fn dup(&self) -> (r: Self) {
        KeyedRecord { id: self.id.dup(), record: self.record.dup() }
    }
}

impl Keyed for KeyedRecord {
    open spec fn key_of(v: KeyedRecordV) -> Seq<char> {
        v.id
    }

    fn key_str(&self) -> (r: &str) {
        self.id.as_str()
    }
}

/// One uploaded reference dataset: the element property holding the link value,
/// the records by link value, and every label a record may carry.
pub struct ReferenceData {
    pub link_property: String,
    pub by_id: Vec<KeyedRecord>,
    pub all_labels: Vec<String>,
}

pub struct ReferenceDataV {
    pub link_property: Seq<char>,
    pub by_id: Seq<KeyedRecordV>,
    pub all_labels: Seq<Seq<char>>,
}

impl DeepView for ReferenceData {
    type V = ReferenceDataV;

    open spec fn deep_view(&self) -> ReferenceDataV {
        ReferenceDataV {
            link_property: self.link_property@,
            by_id: self.by_id.deep_view(),
            all_labels: self.all_labels.deep_view(),
        }
    }
}

impl Dup for ReferenceData {
    fn dup(&self) -> (r: Self) {
        ReferenceData {
            link_property: self.link_property.dup(),
            by_id: self.by_id.dup(),
            all_labels: self.all_labels.dup(),
        }
    }
}

/// Whether a field is there, there and blank, or there with a value.
pub enum PropertyPresence {
    Absent,
    Empty,
    Present(String),
}

/// `PropertyPresence` as text: the value's chars when present.
pub enum Presence {
    Absent,
    Empty,
    Present(Seq<char>),
}

impl View for PropertyPresence {
    type V = Presence;

    open spec fn view(&self) -> Presence {
        match self {
            PropertyPresence::Absent => Presence::Absent,
            PropertyPresence::Empty => Presence::Empty,
            PropertyPresence::Present(v) => Presence::Present(v@),
        }
    }
}

/// A text value read as a field: blank is `Empty`, anything else `Present`.
pub open spec fn value_presence(v: Seq<char>) -> Presence {
    if v.len() == 0 {
        Presence::Empty
    } else {
        Presence::Present(v)
    }
}

pub fn value_presence_exec(v: &String) -> (r: PropertyPresence)
    ensures
        r@ == value_presence(v@),
{
    if v.as_str().is_empty() {
        PropertyPresence::Empty
    } else {
        PropertyPresence::Present(v.clone())
    }
}

/// A record field that may be missing: missing is `Absent`.
pub open spec fn intrinsic(v: Option<Seq<char>>) -> Presence {
    match v {
        None => Presence::Absent,
        Some(s) => value_presence(s),
    }
}

/// The instance tier wins where it has a value, then the type tier; a blank
/// instance value does not shadow the type's. A name either tier carries only
/// blank is `Empty`; a name neither carries is `Absent`.
pub open spec fn tier_presence(inst: Seq<PropV>, typ: Seq<PropV>, name: Seq<char>) -> Presence {
    let i = entry::<Prop>(inst, name);
    let t = entry::<Prop>(typ, name);
    if i is Some && i.unwrap().value.value.len() > 0 {
        Presence::Present(i.unwrap().value.value)
    } else if t is Some && t.unwrap().value.value.len() > 0 {
        Presence::Present(t.unwrap().value.value)
    } else if i is Some || t is Some {
        Presence::Empty
    } else {
        Presence::Absent
    }
}

/// The value of a property by the tier rule, when it has one.
pub open spec fn tier_value(inst: Seq<PropV>, typ: Seq<PropV>, name: Seq<char>) -> Option<Seq<char>> {
    match tier_presence(inst, typ, name) {
        Presence::Present(v) => Some(v),
        _ => None,
    }
}

pub fn tier_presence_exec(inst: &[Prop], typ: &[Prop], name: &str) -> (r: PropertyPresence)
    ensures
        r@ == tier_presence(inst.deep_view(), typ.deep_view(), name@),
{
    let i = lookup(inst, name);
    let t = lookup(typ, name);
    if let Some(p) = i {
        if !p.value.value.as_str().is_empty() {
            return PropertyPresence::Present(p.value.value.clone());
        }
    }
    if let Some(p) = t {
        if !p.value.value.as_str().is_empty() {
            return PropertyPresence::Present(p.value.value.clone());
        }
    }
    if i.is_some() || t.is_some() {
        PropertyPresence::Empty
    } else {
        PropertyPresence::Absent
    }
}

/// The value of a property by the tier rule, when it has one.
pub fn tier_value_exec(inst: &[Prop], typ: &[Prop], name: &str) -> (r: Option<String>)
    ensures
        r.deep_view() == tier_value(inst.deep_view(), typ.deep_view(), name@),
{
    match tier_presence_exec(inst, typ, name) {
        PropertyPresence::Present(v) => Some(v),
        _ => None,
    }
}

/// A field of a joined source: `Absent` when the source joined nothing or the
/// row has no such label.
pub open spec fn reference_presence(refs: Seq<SourceRecordV>, source: Seq<char>, label: Seq<char>) -> Presence {
    match entry::<SourceRecord>(refs, source) {
        None => Presence::Absent,
        Some(r) => match entry::<Field>(r.fields, label) {
            None => Presence::Absent,
            Some(f) => value_presence(f.value),
        },
    }
}

pub fn reference_presence_exec(refs: &[SourceRecord], source: &str, label: &str) -> (r: PropertyPresence)
    ensures
        r@ == reference_presence(refs.deep_view(), source@, label@),
{
    match lookup(refs, source) {
        None => PropertyPresence::Absent,
        Some(r) => {
            let fs = r.record.fields.as_slice();
            assert(fs.deep_view() =~= r.record.fields.deep_view());
            match lookup(fs, label) {
                None => PropertyPresence::Absent,
                Some(f) => value_presence_exec(&f.value),
            }
        },
    }
}

/// One intrinsic field of a record: a `$`-name and the value it reads, when
/// the record has one.
pub struct Intrinsic {
    pub name: String,
    pub value: Option<String>,
}

pub struct IntrinsicV {
    pub name: Seq<char>,
    pub value: Option<Seq<char>>,
}

impl DeepView for Intrinsic {
    type V = IntrinsicV;

    open spec fn deep_view(&self) -> IntrinsicV {
        IntrinsicV { name: self.name@, value: self.value.deep_view() }
    }
}

impl Dup for Intrinsic {
    fn dup(&self) -> (r: Self) {
        Intrinsic { name: self.name.dup(), value: self.value.dup() }
    }
}

impl Keyed for Intrinsic {
    open spec fn key_of(v: IntrinsicV) -> Seq<char> {
        v.name
    }

    fn key_str(&self) -> (r: &str) {
        self.name.as_str()
    }
}

/// The view of an optional borrowed name.
pub open spec fn opt_str(o: Option<&str>) -> Option<Seq<char>> {
    match o {
        Some(s) => Some(s@),
        None => None,
    }
}

/// How any element answers a field name: a source-qualified name reads the
/// joined source; an unqualified one reads the element's intrinsics first and
/// then its two property tiers.
pub open spec fn field_presence(
    intrinsics: Seq<IntrinsicV>,
    inst: Seq<PropV>,
    typ: Seq<PropV>,
    refs: Seq<SourceRecordV>,
    source: Option<Seq<char>>,
    name: Seq<char>,
) -> Presence {
    match source {
        Some(s) => reference_presence(refs, s, name),
        None => match entry::<Intrinsic>(intrinsics, name) {
            Some(f) => intrinsic(f.value),
            None => tier_presence(inst, typ, name),
        },
    }
}

pub fn field_presence_exec(
    intrinsics: &[Intrinsic],
    inst: &[Prop],
    typ: &[Prop],
    refs: &[SourceRecord],
    source: Option<&str>,
    name: &str,
) -> (r: PropertyPresence)
    ensures
        r@ == field_presence(
            intrinsics.deep_view(),
            inst.deep_view(),
            typ.deep_view(),
            refs.deep_view(),
            opt_str(source),
            name@,
        ),
{
    match source {
        Some(s) => reference_presence_exec(refs, s, name),
        None => match lookup(intrinsics, name) {
            Some(f) => match &f.value {
                None => PropertyPresence::Absent,
                Some(v) => value_presence_exec(v),
            },
            None => tier_presence_exec(inst, typ, name),
        },
    }
}

/// One storey as a model declares it. The elevation is carried as an integer
/// count of micrometres, so storeys are compared exactly.
pub struct Level {
    pub id: String,
    pub name: String,
    pub elevation_um: i64,
}

pub struct LevelV {
    pub id: Seq<char>,
    pub name: Seq<char>,
    pub elevation_um: i64,
}

impl DeepView for Level {
    type V = LevelV;

    open spec fn deep_view(&self) -> LevelV {
        LevelV { id: self.id@, name: self.name@, elevation_um: self.elevation_um }
    }
}

impl Dup for Level {
    fn dup(&self) -> (r: Self) {
        Level { id: self.id.dup(), name: self.name.dup(), elevation_um: self.elevation_um }
    }
}

/// A room, named unambiguously: room ids are unique only within a model.
pub struct RoomRef {
    pub model_id: String,
    pub room_id: String,
}

pub struct RoomRefV {
    pub model_id: Seq<char>,
    pub room_id: Seq<char>,
}

impl DeepView for RoomRef {
    type V = RoomRefV;

    open spec fn deep_view(&self) -> RoomRefV {
        RoomRefV { model_id: self.model_id@, room_id: self.room_id@ }
    }
}

impl Dup for RoomRef {
    fn dup(&self) -> (r: Self) {
        RoomRef { model_id: self.model_id.dup(), room_id: self.room_id.dup() }
    }
}

/// Why a side could not be resolved. Every one is a reported state.
#[derive(Clone, Copy, PartialEq, Eq, Structural, Debug)]
pub enum Unresolved {
    /// The probe landed in no room; normally right for an external opening.
    NoCandidate,
    /// Two or more rooms contain the probe point.
    Ambiguous,
    /// No plan direction to step along.
    NoDirection,
    /// Neither an insertion point nor a footprint.
    NoPosition,
    /// The element names a level nothing in scope has an elevation for.
    UnknownLevel,
}

/// One side's geometric answer.
pub enum Located {
    Found(RoomRef),
    Unresolved(Unresolved),
}

pub enum LocatedV {
    Found(RoomRefV),
    Unresolved(Unresolved),
}

impl DeepView for Located {
    type V = LocatedV;

    open spec fn deep_view(&self) -> LocatedV {
        match self {
            Located::Found(r) => LocatedV::Found(r.deep_view()),
            Located::Unresolved(u) => LocatedV::Unresolved(*u),
        }
    }
}

impl Dup for Located {
    fn dup(&self) -> (r: Self) {
        match self {
            Located::Found(x) => Located::Found(x.dup()),
            Located::Unresolved(u) => Located::Unresolved(*u),
        }
    }
}

/// Both sides of one wall-hosted element.
pub struct Sides {
    pub from: Located,
    pub to: Located,
}

pub struct SidesV {
    pub from: LocatedV,
    pub to: LocatedV,
}

impl DeepView for Sides {
    type V = SidesV;

    open spec fn deep_view(&self) -> SidesV {
        SidesV { from: self.from.deep_view(), to: self.to.deep_view() }
    }
}

impl Dup for Sides {
    fn dup(&self) -> (r: Self) {
        Sides { from: self.from.dup(), to: self.to.dup() }
    }
}

/// The rooms contract version a rooms read answers with.
pub const SUPPORTED_SCHEMA: u32 = 7;

/// The doors contract version a doors read answers with.
pub const SUPPORTED_DOOR_SCHEMA: u32 = 2;

/// The windows contract version a windows read answers with.
pub const SUPPORTED_WINDOW_SCHEMA: u32 = 1;

/// The FF&E contract version an FF&E read answers with.
pub const SUPPORTED_FFE_SCHEMA: u32 = 1;

/// Which entity a snapshot holds.
#[derive(Clone, Copy, PartialEq, Eq, Structural, Debug)]
pub enum SnapshotKind {
    Rooms,
    Doors,
    Windows,
    Ceilings,
    Floors,
    Spaces,
    Ffe,
}

/// The name a kind is known by.
pub open spec fn kind_label(kind: SnapshotKind) -> Seq<char> {
    match kind {
        SnapshotKind::Rooms => seq!['r', 'o', 'o', 'm', 's'],
        SnapshotKind::Doors => seq!['d', 'o', 'o', 'r', 's'],
        SnapshotKind::Windows => seq!['w', 'i', 'n', 'd', 'o', 'w', 's'],
        SnapshotKind::Ceilings => seq!['c', 'e', 'i', 'l', 'i', 'n', 'g', 's'],
        SnapshotKind::Floors => seq!['f', 'l', 'o', 'o', 'r', 's'],
        SnapshotKind::Spaces => seq!['s', 'p', 'a', 'c', 'e', 's'],
        SnapshotKind::Ffe => seq!['f', 'f', 'e'],
    }
}

impl SnapshotKind {
    /// The kind's name.
    pub fn label(self) -> (r: String)
        ensures
            r@ == kind_label(self),
    {
        let chars: Vec<char> = match self {
            SnapshotKind::Rooms => vec!['r', 'o', 'o', 'm', 's'],
            SnapshotKind::Doors => vec!['d', 'o', 'o', 'r', 's'],
            SnapshotKind::Windows => vec!['w', 'i', 'n', 'd', 'o', 'w', 's'],
            SnapshotKind::Ceilings => vec!['c', 'e', 'i', 'l', 'i', 'n', 'g', 's'],
            SnapshotKind::Floors => vec!['f', 'l', 'o', 'o', 'r', 's'],
            SnapshotKind::Spaces => vec!['s', 'p', 'a', 'c', 'e', 's'],
            SnapshotKind::Ffe => vec!['f', 'f', 'e'],
        };
        let r = crate::text::string_of(chars.as_slice());
        assert(r@ =~= kind_label(self));
        r
    }
}

/// A model, named within its project.
pub struct ModelKey {
    pub project_id: String,
    pub model_id: String,
}

pub struct ModelKeyV {
    pub project_id: Seq<char>,
    pub model_id: Seq<char>,
}

impl DeepView for ModelKey {
    type V = ModelKeyV;

    open spec fn deep_view(&self) -> ModelKeyV {
        ModelKeyV { project_id: self.project_id@, model_id: self.model_id@ }
    }
}

impl Dup for ModelKey {
    fn dup(&self) -> (r: Self) {
        ModelKey { project_id: self.project_id.dup(), model_id: self.model_id.dup() }
    }
}

pub struct Project {
    pub id: String,
    pub name: String,
}

/// The exporting model: its id, name, and the tool it came from.
pub struct Model {
    pub id: String,
    pub name: String,
    pub source: String,
}

/// When a snapshot was taken: also its id.
pub struct Snapshot {
    pub taken_at: String,
}

} // verus!
