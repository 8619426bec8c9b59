//! Tabular reports: a schedule of one entity, or one entity by room.
//!
//! Three rules this module keeps: it never computes an attribution (which
//! room an element belongs to is read off the element's own response); a
//! column is resolved through the same field vocabulary a filter parses; and
//! an unmatched row (an element with no room, a room with no element) is a
//! reported state rather than something dropped.
use vstd::prelude::*;
use crate::contract::{opt_str, Field, FieldV, Presence, Prop, PropV, PropertyPresence, RoomRef, RoomRefV, SnapshotKind};
use crate::decimal::hundredths_of;
use crate::filter::{holds, holds_exec, split_namespace, split_of, FilterTarget, Mode, NamespaceSplit, NamespaceSplitV, Op, Predicate, PredicateV};
use crate::keyed::{entry, first_where, index_of, lemma_first_where_at, lemma_index_of, lookup, Dup, Keyed};
use crate::order::{sort, sorted_of};
use crate::items::{assemble_items, item_fields, item_presence, items_scoped_of, scoped_items, ItemResponse, ItemResponseV, ItemScope};
use crate::openings::{
    assemble_openings, consulted_buildings, opening_fields, opening_presence, opening_snapshot_kind, openings_scoped_of,
    scoped_openings, OpeningKind, OpeningResponse, OpeningResponseV, OpeningScope,
};
use crate::rooms::{
    assemble_rooms, has_any, room_fields, room_presence, rooms_scoped_of, scoped_rooms, RoomResponse, RoomResponseV, RoomScope,
};
use crate::attribution::{scope_buildings, DerivedRoom, DerivedRoomV, DerivedSides, DerivedSidesV};
use crate::cursor::cursor_of;
use crate::settings::{settings_of, ReferenceEntity, ReferenceSource, ReferenceSourceV};
use crate::state::{find_snapshot, latest_in, snapshot_in, AppState, ModelIndexRow, ModelIndexRowV};
use crate::records::{Ceiling, CeilingV, Item, ItemV, Opening, OpeningV, Payload, PayloadV, Room, RoomV};
use crate::ceilings::{
    assemble_ceilings, ceiling_presence, ceilings_scoped_of, scoped_ceilings, CeilingResponse, CeilingResponseV, CeilingRoomV, CeilingScope,
    DerivedCeilingRooms, DerivedCeilingRoomsV,
};
use crate::{ServiceError, ServiceErrorV};
use crate::scope::{latest_id, origin_label, scope_cursor, scope_rows};
use crate::text::{
    chars_eq, chars_of, concat, debug_quoted, debug_text, fold, fold_chars, join, joined, owned, string_of, text_eq, trim, trimmed,
};

verus! {

/// Which entity a report is about.
#[derive(Clone, Copy, PartialEq, Eq, Structural, Debug)]
pub enum Entity {
    Rooms,
    Doors,
    Windows,
    Ceilings,
    Floors,
    Spaces,
    Ffe,
}

/// The entity a wire name spells.
pub open spec fn entity_named(name: Seq<char>) -> Option<Entity> {
    if name == "rooms"@ {
        Some(Entity::Rooms)
    } else if name == "doors"@ {
        Some(Entity::Doors)
    } else if name == "windows"@ {
        Some(Entity::Windows)
    } else if name == "ceilings"@ {
        Some(Entity::Ceilings)
    } else if name == "floors"@ {
        Some(Entity::Floors)
    } else if name == "spaces"@ {
        Some(Entity::Spaces)
    } else if name == "ffe"@ {
        Some(Entity::Ffe)
    } else {
        None
    }
}

/// The singular noun a message uses.
pub open spec fn entity_one(e: Entity) -> Seq<char> {
    match e {
        Entity::Rooms => "room"@,
        Entity::Doors => "door"@,
        Entity::Windows => "window"@,
        Entity::Ceilings => "ceiling"@,
        Entity::Floors => "floor"@,
        Entity::Spaces => "space"@,
        Entity::Ffe => "item"@,
    }
}

/// The storage kind an entity is pushed as.
pub open spec fn entity_kind(e: Entity) -> SnapshotKind {
    match e {
        Entity::Rooms => SnapshotKind::Rooms,
        Entity::Doors => SnapshotKind::Doors,
        Entity::Windows => SnapshotKind::Windows,
        Entity::Ceilings => SnapshotKind::Ceilings,
        Entity::Floors => SnapshotKind::Floors,
        Entity::Spaces => SnapshotKind::Spaces,
        Entity::Ffe => SnapshotKind::Ffe,
    }
}

/// The kinds a read of this entity depends on: its own, plus rooms for a
/// by-room read of anything but rooms.
pub open spec fn entity_kinds(e: Entity, by_room: bool) -> Seq<SnapshotKind> {
    if by_room && entity_kind(e) != SnapshotKind::Rooms {
        seq![entity_kind(e), SnapshotKind::Rooms]
    } else {
        seq![entity_kind(e)]
    }
}

/// Rooms are the other side of the join, and spaces carry no per-row room
/// match: every other entity can be reported by room.
pub open spec fn entity_joins_rooms(e: Entity) -> bool {
    !(e == Entity::Rooms || e == Entity::Spaces)
}

impl Entity {
    /// The entity a wire name spells.
    pub fn parse(name: &str) -> (r: Option<Entity>)
        ensures
            r == entity_named(name@),
    {
        if text_eq(name, "rooms") {
            Some(Entity::Rooms)
        } else if text_eq(name, "doors") {
            Some(Entity::Doors)
        } else if text_eq(name, "windows") {
            Some(Entity::Windows)
        } else if text_eq(name, "ceilings") {
            Some(Entity::Ceilings)
        } else if text_eq(name, "floors") {
            Some(Entity::Floors)
        } else if text_eq(name, "spaces") {
            Some(Entity::Spaces)
        } else if text_eq(name, "ffe") {
            Some(Entity::Ffe)
        } else {
            None
        }
    }

    /// The singular noun a message uses: "3 doors with no room".
    pub fn one(self) -> (r: String)
        ensures
            r@ == entity_one(self),
    {
        match self {
            Entity::Rooms => owned("room"),
            Entity::Doors => owned("door"),
            Entity::Windows => owned("window"),
            Entity::Ceilings => owned("ceiling"),
            Entity::Floors => owned("floor"),
            Entity::Spaces => owned("space"),
            Entity::Ffe => owned("item"),
        }
    }

    /// The snapshot kinds a read of this entity depends on.
    pub fn kinds(self, by_room: bool) -> (r: Vec<SnapshotKind>)
        ensures
            r@ == entity_kinds(self, by_room),
    {
        let own = match self {
            Entity::Rooms => SnapshotKind::Rooms,
            Entity::Doors => SnapshotKind::Doors,
            Entity::Windows => SnapshotKind::Windows,
            Entity::Ceilings => SnapshotKind::Ceilings,
            Entity::Floors => SnapshotKind::Floors,
            Entity::Spaces => SnapshotKind::Spaces,
            Entity::Ffe => SnapshotKind::Ffe,
        };
        let mut v: Vec<SnapshotKind> = Vec::new();
        v.push(own);
        if by_room && own != SnapshotKind::Rooms {
            v.push(SnapshotKind::Rooms);
        }
        assert(v@ =~= entity_kinds(self, by_room));
        v
    }

    /// Whether this entity can be reported by room.
    pub fn joins_rooms(self) -> (r: bool)
        ensures
            r == entity_joins_rooms(self),
    {
        !matches!(self, Entity::Rooms | Entity::Spaces)
    }
}

/// One row per match, or one row per room with the matches aggregated.
#[derive(Clone, Copy, PartialEq, Eq, Structural, Debug)]
pub enum Shape {
    PerMatch,
    PerRoom,
}

/// Which side of the join a condition asks about.
#[derive(Clone, Copy, PartialEq, Eq, Structural, Debug)]
pub enum Side {
    /// The room the element is attributed to.
    Room,
    /// The element itself.
    Element,
    /// What the join measured.
    Join,
}

/// One condition in a report filter: a predicate, and the side it reads.
pub struct Condition {
    pub side: Side,
    pub predicate: Predicate,
}

pub struct ConditionV {
    pub side: Side,
    pub predicate: PredicateV,
}

impl DeepView for Condition {
    type V = ConditionV;

    open spec fn deep_view(&self) -> ConditionV {
        ConditionV { side: self.side, predicate: self.predicate.deep_view() }
    }
}

impl Dup for Condition {
    fn dup(&self) -> (r: Self) {
        Condition { side: self.side, predicate: self.predicate.dup() }
    }
}

/// A report filter: groups of conditions, each condition with its side.
pub enum ReportFilter {
    Group { mode: Mode, items: Vec<ReportFilter> },
    Condition(Condition),
}

/// `is not` and `does not contain`.
pub open spec fn negative(p: PredicateV) -> bool {
    p.op == Op::Ne || p.op == Op::NotContains
}

/// The positive form a negative operator negates.
pub open spec fn positive(p: PredicateV) -> PredicateV {
    PredicateV {
        op: match p.op {
            Op::Ne => Op::Eq,
            Op::NotContains => Op::Contains,
            other => other,
        },
        ..p
    }
}

/// Whether a negation asks about the set rather than a row.
pub fn is_negative(predicate: &Predicate) -> (r: bool)
    ensures
        r == negative(predicate.deep_view()),
{
    predicate.op == Op::Ne || predicate.op == Op::NotContains
}

/// The positive form of a predicate.
pub fn positive_form(predicate: &Predicate) -> (r: Predicate)
    ensures
        r.deep_view() == positive(predicate.deep_view()),
{
    let mut p = predicate.dup();
    p.op = match predicate.op {
        Op::Ne => Op::Eq,
        Op::NotContains => Op::Contains,
        other => other,
    };
    p
}

/// A filter with no condition anywhere.
pub open spec fn filter_empty(f: ReportFilter) -> bool
    decreases f,
{
    match f {
        ReportFilter::Condition(_) => false,
        ReportFilter::Group { items, .. } => forall|i: int| 0 <= i < items@.len() ==> filter_empty(#[trigger] items@[i]),
    }
}

/// Whether some condition asks about `side` (the join counts as the element's
/// side) with this polarity.
pub open spec fn filter_has(f: ReportFilter, side: Side, neg: bool) -> bool
    decreases f,
{
    match f {
        ReportFilter::Condition(c) => (c.side == side || (side == Side::Element && c.side == Side::Join))
            && negative(c.predicate.deep_view()) == neg,
        ReportFilter::Group { items, .. } => exists|i: int|
            0 <= i < items@.len() && filter_has(#[trigger] items@[i], side, neg),
    }
}

/// The positive, non-room conditions every ancestor group ANDs, in order:
/// the ones that also narrow the rows listed under a kept room.
pub open spec fn row_conditions(f: ReportFilter, conjunctive: bool) -> Seq<ConditionV>
    decreases f,
{
    match f {
        ReportFilter::Condition(c) => if conjunctive && c.side != Side::Room && !negative(c.predicate.deep_view()) {
            seq![c.deep_view()]
        } else {
            Seq::empty()
        },
        ReportFilter::Group { mode, items } => row_conditions_items(items@, conjunctive && mode == Mode::All, items@.len() as int),
    }
}

/// `row_conditions` of the first `n` items, concatenated.
pub open spec fn row_conditions_items(items: Seq<ReportFilter>, conjunctive: bool, n: int) -> Seq<ConditionV>
    decreases items, n,
{
    if n <= 0 || n > items.len() {
        Seq::empty()
    } else {
        row_conditions_items(items, conjunctive, n - 1) + row_conditions(items[n - 1], conjunctive)
    }
}

impl ReportFilter {
    /// Whether no condition appears anywhere.
    pub fn is_empty(&self) -> (r: bool)
        ensures
            r == filter_empty(*self),
        decreases self,
    {
        match self {
            ReportFilter::Condition(_) => false,
            ReportFilter::Group { items, .. } => {
                let mut i: usize = 0;
                while i < items.len()
                    invariant
                        i <= items@.len(),
                        *self == (ReportFilter::Group { mode: self->mode, items: *items }),
                        forall|j: int| 0 <= j < i ==> filter_empty(#[trigger] items@[j]),
                    decreases items@.len() - i,
                {
                    proof {
                        assert(decreases_to!(*self => (*self)->items));
                        assert(decreases_to!((*self)->items => (*self)->items@));
                        assert(decreases_to!((*self)->items@ => (*self)->items@[i as int]));
                    }
                    if !items[i].is_empty() {
                        return false;
                    }
                    i += 1;
                }
                true
            },
        }
    }

    /// Does any condition ask about this side with this polarity?
    pub fn has(&self, side: Side, negative_: bool) -> (r: bool)
        ensures
            r == filter_has(*self, side, negative_),
        decreases self,
    {
        match self {
            ReportFilter::Condition(c) => (c.side == side || (side == Side::Element && c.side == Side::Join))
                && is_negative(&c.predicate) == negative_,
            ReportFilter::Group { items, .. } => {
                let mut i: usize = 0;
                while i < items.len()
                    invariant
                        i <= items@.len(),
                        *self == (ReportFilter::Group { mode: self->mode, items: *items }),
                        forall|j: int| 0 <= j < i ==> !filter_has(#[trigger] items@[j], side, negative_),
                    decreases items@.len() - i,
                {
                    proof {
                        assert(decreases_to!(*self => (*self)->items));
                        assert(decreases_to!((*self)->items => (*self)->items@));
                        assert(decreases_to!((*self)->items@ => (*self)->items@[i as int]));
                    }
                    if items[i].has(side, negative_) {
                        return true;
                    }
                    i += 1;
                }
                false
            },
        }
    }

    /// Append the conditions that also narrow the rows under a kept room.
    pub fn row_filters(&self, conjunctive: bool, out: &mut Vec<Condition>)
        ensures
            final(out).deep_view() == old(out).deep_view() + row_conditions(*self, conjunctive),
        decreases self,
    {
        match self {
            ReportFilter::Condition(c) => {
                let ghost before = out.deep_view();
                if conjunctive && c.side != Side::Room && !is_negative(&c.predicate) {
                    out.push(c.dup());
                    assert(out.deep_view() =~= before + seq![c.deep_view()]);
                } else {
                    assert(out.deep_view() =~= before + Seq::<ConditionV>::empty());
                }
            },
            ReportFilter::Group { mode, items } => {
                let all = *mode == Mode::All;
                let ghost start = out.deep_view();
                let mut i: usize = 0;
                assert(start =~= start + row_conditions_items(items@, conjunctive && all, 0));
                while i < items.len()
                    invariant
                        i <= items@.len(),
                        *self == (ReportFilter::Group { mode: *mode, items: *items }),
                        all == (*mode == Mode::All),
                        out.deep_view() == start + row_conditions_items(items@, conjunctive && all, i as int),
                    decreases items@.len() - i,
                {
                    proof {
                        assert(decreases_to!(*self => (*self)->items));
                        assert(decreases_to!((*self)->items => (*self)->items@));
                        assert(decreases_to!((*self)->items@ => (*self)->items@[i as int]));
                    }
                    items[i].row_filters(conjunctive && all, out);
                    assert(out.deep_view() =~= start + row_conditions_items(items@, conjunctive && all, i + 1));
                    i += 1;
                }
            },
        }
    }
}


/// The operator a wire name spells.
pub open spec fn op_named(name: Seq<char>) -> Option<Op> {
    if name == "eq"@ {
        Some(Op::Eq)
    } else if name == "ne"@ {
        Some(Op::Ne)
    } else if name == "gt"@ {
        Some(Op::Gt)
    } else if name == "ge"@ {
        Some(Op::Ge)
    } else if name == "lt"@ {
        Some(Op::Lt)
    } else if name == "le"@ {
        Some(Op::Le)
    } else if name == "contains"@ {
        Some(Op::Contains)
    } else if name == "not_contains"@ {
        Some(Op::NotContains)
    } else if name == "starts_with"@ {
        Some(Op::StartsWith)
    } else if name == "ends_with"@ {
        Some(Op::EndsWith)
    } else if name == "between"@ {
        Some(Op::Between)
    } else if name == "blank"@ {
        Some(Op::Blank)
    } else if name == "has_value"@ {
        Some(Op::HasValue)
    } else {
        None
    }
}

pub open spec fn op_error(name: Seq<char>) -> Seq<char> {
    "unknown filter operator "@ + debug_text(name)
        + " — expected one of eq, ne, gt, ge, lt, le, contains, not_contains, starts_with, ends_with, between, blank, has_value"@
}

/// An operator's own name, as an error message writes it.
pub open spec fn op_label(op: Op) -> Seq<char> {
    match op {
        Op::Eq => "Eq"@,
        Op::Ne => "Ne"@,
        Op::Gt => "Gt"@,
        Op::Ge => "Ge"@,
        Op::Lt => "Lt"@,
        Op::Le => "Le"@,
        Op::Contains => "Contains"@,
        Op::NotContains => "NotContains"@,
        Op::StartsWith => "StartsWith"@,
        Op::EndsWith => "EndsWith"@,
        Op::Between => "Between"@,
        Op::Blank => "Blank"@,
        Op::HasValue => "HasValue"@,
    }
}

/// An operator's own name, as an error message writes it.
pub fn op_name(op: Op) -> (r: &'static str)
    ensures
        r@ == op_label(op),
{
    match op {
        Op::Eq => "Eq",
        Op::Ne => "Ne",
        Op::Gt => "Gt",
        Op::Ge => "Ge",
        Op::Lt => "Lt",
        Op::Le => "Le",
        Op::Contains => "Contains",
        Op::NotContains => "NotContains",
        Op::StartsWith => "StartsWith",
        Op::EndsWith => "EndsWith",
        Op::Between => "Between",
        Op::Blank => "Blank",
        Op::HasValue => "HasValue",
    }
}

/// The known sources as an error lists them: each once, in order.
pub open spec fn known_listing(known: Seq<Seq<char>>) -> Seq<char> {
    joined(sorted_of::<String>(distinct_names(known)), ", "@)
}

fn known_listing_exec(known: &[String]) -> (r: String)
    ensures
        r@ == known_listing(known.deep_view()),
{
    let ghost d = known.deep_view();
    let mut names: Vec<String> = Vec::new();
    let mut i: usize = 0;
    while i < known.len()
        invariant
            i <= known@.len(),
            d == known.deep_view(),
            names.deep_view() == distinct_names(d.take(i as int)),
        decreases known@.len() - i,
    {
        assert(d.take(i + 1).drop_last() =~= d.take(i as int));
        assert(d[i as int] == known@[i as int]@);
        let ghost before = names.deep_view();
        let seen = names.as_slice();
        assert(seen.deep_view() =~= before);
        if !contains_text(seen, known[i].as_str()) {
            names.push(known[i].dup());
            assert(names.deep_view() =~= before.push(d[i as int]));
        }
        i += 1;
    }
    assert(d.take(i as int) =~= d);
    let sorted = sort(names);
    join(sorted.as_slice(), ", ")
}

/// The operator names a report filter sends.
pub fn parse_op(name: &str) -> (r: Result<Op, String>)
    ensures
        match r {
            Ok(op) => op_named(name@) == Some(op),
            Err(m) => op_named(name@) is None && m@ == op_error(name@),
        },
{
    if text_eq(name, "eq") {
        Ok(Op::Eq)
    } else if text_eq(name, "ne") {
        Ok(Op::Ne)
    } else if text_eq(name, "gt") {
        Ok(Op::Gt)
    } else if text_eq(name, "ge") {
        Ok(Op::Ge)
    } else if text_eq(name, "lt") {
        Ok(Op::Lt)
    } else if text_eq(name, "le") {
        Ok(Op::Le)
    } else if text_eq(name, "contains") {
        Ok(Op::Contains)
    } else if text_eq(name, "not_contains") {
        Ok(Op::NotContains)
    } else if text_eq(name, "starts_with") {
        Ok(Op::StartsWith)
    } else if text_eq(name, "ends_with") {
        Ok(Op::EndsWith)
    } else if text_eq(name, "between") {
        Ok(Op::Between)
    } else if text_eq(name, "blank") {
        Ok(Op::Blank)
    } else if text_eq(name, "has_value") {
        Ok(Op::HasValue)
    } else {
        let q = debug_quoted(name);
        let a = concat("unknown filter operator ", q.as_str());
        Err(concat(
            a.as_str(),
            " — expected one of eq, ne, gt, ge, lt, le, contains, not_contains, starts_with, ends_with, between, blank, has_value",
        ))
    }
}

/// A report filter as it arrives: groups of `{mode, items}` and conditions
/// of `{side, field, op, value, value2, case_sensitive}`.
pub enum FilterWire {
    Group { mode: String, items: Vec<FilterWire> },
    Condition {
        /// `room`, `element` or `join`; absent means `element`.
        side: Option<String>,
        field: String,
        op: String,
        value: Option<String>,
        /// The upper bound of a `between`.
        value2: Option<String>,
        case_sensitive: bool,
    },
}

/// The side a wire name spells; absent is the element.
pub open spec fn side_named(side: Option<Seq<char>>) -> Option<Side> {
    match side {
        None => Some(Side::Element),
        Some(s) => if s == "element"@ {
            Some(Side::Element)
        } else if s == "room"@ {
            Some(Side::Room)
        } else if s == "join"@ {
            Some(Side::Join)
        } else {
            None
        },
    }
}

pub open spec fn mode_named(mode: Seq<char>) -> Option<Mode> {
    if mode == "all"@ {
        Some(Mode::All)
    } else if mode == "any"@ {
        Some(Mode::Any)
    } else {
        None
    }
}

pub open spec fn or_empty(v: Option<Seq<char>>) -> Seq<char> {
    match v {
        Some(s) => s,
        None => Seq::empty(),
    }
}

/// What is wrong with one wire condition, if anything: its side, its
/// operator, a missing value (every operator but `blank` and `has_value`
/// needs one, and `between` both ends), or a field qualified by an unknown
/// source.
pub open spec fn condition_error(
    side: Option<Seq<char>>,
    field: Seq<char>,
    op: Seq<char>,
    value: Option<Seq<char>>,
    value2: Option<Seq<char>>,
    known: Seq<Seq<char>>,
) -> Option<Seq<char>> {
    if side_named(side) is None {
        Some("unknown filter side "@ + debug_text(side.unwrap()) + " — expected room, element or join"@)
    } else if op_named(op) is None {
        Some(op_error(op))
    } else if !(op_named(op) == Some(Op::Blank) || op_named(op) == Some(Op::HasValue)) && trim(or_empty(value)).len()
        == 0 {
        Some("filter on "@ + debug_text(field) + ": "@ + op_label(op_named(op).unwrap()) + " needs a value"@)
    } else if op_named(op) == Some(Op::Between) && trim(or_empty(value2)).len() == 0 {
        Some("filter on "@ + debug_text(field) + ": between needs both ends"@)
    } else if side_named(side) != Some(Side::Join) && split_of(field, known) is UnknownSource {
        Some(
            "filter field "@ + debug_text(field) + ": "@ + debug_text(split_of(field, known)->UnknownSource_0)
                + " is not a known data source — known: "@ + known_listing(known),
        )
    } else {
        None
    }
}

/// The condition a valid wire condition states. The join's measures never
/// split on a source.
pub open spec fn condition_of(
    side: Option<Seq<char>>,
    field: Seq<char>,
    op: Seq<char>,
    value: Option<Seq<char>>,
    value2: Option<Seq<char>>,
    case_sensitive: bool,
    known: Seq<Seq<char>>,
) -> ConditionV {
    let s = side_named(side).unwrap();
    let o = op_named(op).unwrap();
    let (source, property) = if s == Side::Join {
        (None, field)
    } else {
        match split_of(field, known) {
            NamespaceSplitV::Joined { source, property } => (Some(source), property),
            NamespaceSplitV::Unqualified(name) => (None, name),
            NamespaceSplitV::UnknownSource(_) => (None, field),
        }
    };
    ConditionV {
        side: s,
        predicate: PredicateV { source, property, op: o, value: or_empty(value), value2, case_sensitive },
    }
}

pub open spec fn opt_view(o: Option<String>) -> Option<Seq<char>> {
    match o {
        Some(s) => Some(s@),
        None => None,
    }
}

/// Whether a wire filter parses.
pub open spec fn wire_ok(w: FilterWire, known: Seq<Seq<char>>) -> bool
    decreases w,
{
    match w {
        FilterWire::Group { mode, items } => mode_named(mode@) is Some && forall|i: int|
            0 <= i < items@.len() ==> wire_ok(#[trigger] items@[i], known),
        FilterWire::Condition { side, field, op, value, value2, .. } => condition_error(
            opt_view(side),
            field@,
            op@,
            opt_view(value),
            opt_view(value2),
            known,
        ) is None,
    }
}

/// Whether `m` is one of the things wrong with a wire filter.
pub open spec fn wire_error(w: FilterWire, known: Seq<Seq<char>>, m: Seq<char>) -> bool
    decreases w,
{
    match w {
        FilterWire::Group { mode, items } => if mode_named(mode@) is None {
            m == "unknown filter mode "@ + debug_text(mode@) + " — expected all or any"@
        } else {
            exists|i: int|
                0 <= i < items@.len() && (forall|j: int| 0 <= j < i ==> wire_ok(#[trigger] items@[j], known)) && wire_error(
                    #[trigger] items@[i],
                    known,
                    m,
                )
        },
        FilterWire::Condition { side, field, op, value, value2, .. } => condition_error(
            opt_view(side),
            field@,
            op@,
            opt_view(value),
            opt_view(value2),
            known,
        ) == Some(m),
    }
}

/// Whether `f` is what a valid wire filter parses to.
pub open spec fn parsed_as(w: FilterWire, f: ReportFilter, known: Seq<Seq<char>>) -> bool
    decreases w,
{
    match (w, f) {
        (FilterWire::Group { mode, items }, ReportFilter::Group { mode: fm, items: fi }) => {
            &&& mode_named(mode@) == Some(fm)
            &&& items@.len() == fi@.len()
            &&& forall|i: int| 0 <= i < items@.len() ==> parsed_as(#[trigger] items@[i], fi@[i], known)
        },
        (FilterWire::Condition { side, field, op, value, value2, case_sensitive }, ReportFilter::Condition(c)) => {
            c.deep_view() == condition_of(
                opt_view(side),
                field@,
                op@,
                opt_view(value),
                opt_view(value2),
                case_sensitive,
                known,
            )
        },
        _ => false,
    }
}

fn parse_condition(
    side: &Option<String>,
    field: &String,
    op: &String,
    value: &Option<String>,
    value2: &Option<String>,
    case_sensitive: bool,
    known: &[String],
) -> (r: Result<Condition, String>)
    ensures
        match r {
            Ok(c) => condition_error(opt_view(*side), field@, op@, opt_view(*value), opt_view(*value2), known.deep_view())
                is None && c.deep_view() == condition_of(
                opt_view(*side),
                field@,
                op@,
                opt_view(*value),
                opt_view(*value2),
                case_sensitive,
                known.deep_view(),
            ),
            Err(m) => condition_error(
                opt_view(*side),
                field@,
                op@,
                opt_view(*value),
                opt_view(*value2),
                known.deep_view(),
            ) == Some(m@),
        },
{
    let s = match side {
        None => Side::Element,
        Some(name) => {
            if text_eq(name.as_str(), "element") {
                Side::Element
            } else if text_eq(name.as_str(), "room") {
                Side::Room
            } else if text_eq(name.as_str(), "join") {
                Side::Join
            } else {
                let q = debug_quoted(name.as_str());
                let a = concat("unknown filter side ", q.as_str());
                return Err(concat(a.as_str(), " — expected room, element or join"));
            }
        },
    };
    assert(side_named(opt_view(*side)) == Some(s));
    let o = match parse_op(op.as_str()) {
        Ok(o) => o,
        Err(m) => {
            return Err(m);
        },
    };
    let needs_value = !(o == Op::Blank || o == Op::HasValue);
    let v: String = match value {
        Some(x) => x.clone(),
        None => String::new(),
    };
    assert(v@ == or_empty(opt_view(*value)));
    let vt = trimmed(v.as_str());
    if needs_value && vt.len() == 0 {
        let q = debug_quoted(field.as_str());
        let a = concat("filter on ", q.as_str());
        let b = concat(a.as_str(), ": ");
        let c = concat(b.as_str(), op_name(o));
        return Err(concat(c.as_str(), " needs a value"));
    }
    if o == Op::Between {
        let w: &str = match value2 {
            Some(x) => x.as_str(),
            None => "",
        };
        assert(w@ == or_empty(opt_view(*value2))) by {
            if value2.is_none() {
                reveal_strlit("");
                assert(""@ =~= Seq::<char>::empty());
            }
        }
        let wt = trimmed(w);
        if wt.len() == 0 {
            let q = debug_quoted(field.as_str());
            let a = concat("filter on ", q.as_str());
            return Err(concat(a.as_str(), ": between needs both ends"));
        }
    }
    let (source, property): (Option<String>, String) = if s == Side::Join {
        (None, field.clone())
    } else {
        match split_namespace(field.as_str(), known) {
            NamespaceSplit::Joined { source, property } => (Some(source), property),
            NamespaceSplit::Unqualified(name) => (None, name),
            NamespaceSplit::UnknownSource(name) => {
                let names = known_listing_exec(known);
                let qf = debug_quoted(field.as_str());
                let qn = debug_quoted(name.as_str());
                let a = concat("filter field ", qf.as_str());
                let b = concat(a.as_str(), ": ");
                let c = concat(b.as_str(), qn.as_str());
                let d = concat(c.as_str(), " is not a known data source — known: ");
                return Err(concat(d.as_str(), names.as_str()));
            },
        }
    };
    let predicate = Predicate { source, property, op: o, value: v, value2: value2.dup(), case_sensitive };
    Ok(Condition { side: s, predicate })
}

impl FilterWire {
    /// Turn the wire shape into a filter, naming what is wrong on failure.
    /// `known` is the recognised reference-source vocabulary.
    pub fn parse(&self, known: &[String]) -> (r: Result<ReportFilter, String>)
        ensures
            match r {
                Ok(f) => wire_ok(*self, known.deep_view()) && parsed_as(*self, f, known.deep_view()),
                Err(m) => !wire_ok(*self, known.deep_view()) && wire_error(*self, known.deep_view(), m@),
            },
        decreases self,
    {
        match self {
            FilterWire::Group { mode, items } => {
                let m = if text_eq(mode.as_str(), "all") {
                    Mode::All
                } else if text_eq(mode.as_str(), "any") {
                    Mode::Any
                } else {
                    let q = debug_quoted(mode.as_str());
                    let a = concat("unknown filter mode ", q.as_str());
                    return Err(concat(a.as_str(), " — expected all or any"));
                };
                let mut out: Vec<ReportFilter> = Vec::new();
                let mut i: usize = 0;
                while i < items.len()
                    invariant
                        i <= items@.len(),
                        *self == (FilterWire::Group { mode: *mode, items: *items }),
                        mode_named(mode@) == Some(m),
                        out@.len() == i,
                        forall|j: int| 0 <= j < i ==> wire_ok(#[trigger] items@[j], known.deep_view()),
                        forall|j: int| 0 <= j < i ==> parsed_as(#[trigger] items@[j], out@[j], known.deep_view()),
                    decreases items@.len() - i,
                {
                    proof {
                        assert(decreases_to!(*self => (*self)->items));
                        assert(decreases_to!((*self)->items => (*self)->items@));
                        assert(decreases_to!((*self)->items@ => (*self)->items@[i as int]));
                    }
                    match items[i].parse(known) {
                        Ok(f) => {
                            out.push(f);
                        },
                        Err(e) => {
                            return Err(e);
                        },
                    }
                    i += 1;
                }
                Ok(ReportFilter::Group { mode: m, items: out })
            },
            FilterWire::Condition { side, field, op, value, value2, case_sensitive } => {
                match parse_condition(side, field, op, value, value2, *case_sensitive, known) {
                    Ok(c) => Ok(ReportFilter::Condition(c)),
                    Err(m) => Err(m),
                }
            },
        }
    }
}


/// What to report, as the caller asked for it.
pub struct ReportDefinition {
    pub entity: Entity,
    /// Report the entity by room rather than as a flat schedule.
    pub by_room: bool,
    /// Columns over the entity itself.
    pub columns: Vec<String>,
    /// Columns over the room, for a by-room report.
    pub room_columns: Vec<String>,
    /// What the join produced.
    pub measures: Vec<String>,
    pub shape: Shape,
    /// List a room no element matched. Ignored by a schedule.
    pub include_rooms_without: bool,
    /// List an element no room matched. Ignored by a schedule.
    pub include_unattributed: bool,
    /// Cap the rows returned; the total still counts them all.
    pub limit: Option<usize>,
    pub filter: Option<ReportFilter>,
}

/// What a report read is scoped to.
pub struct ReportScope<'a> {
    pub project: Option<&'a str>,
    pub building: Option<&'a str>,
    pub milestone: Option<&'a str>,
}

/// One column, and which side of the join it came from.
pub struct Column {
    pub name: String,
    /// `room`, `element` or `join`.
    pub side: String,
}

pub struct ColumnV {
    pub name: Seq<char>,
    pub side: Seq<char>,
}

impl DeepView for Column {
    type V = ColumnV;

    open spec fn deep_view(&self) -> ColumnV {
        ColumnV { name: self.name@, side: self.side@ }
    }
}

/// The reference sources a column may name before its dot: those joined to
/// the reported entity, and those joined to rooms.
pub struct Sources {
    pub element: Vec<String>,
    pub room: Vec<String>,
}

pub struct SourcesV {
    pub element: Seq<Seq<char>>,
    pub room: Seq<Seq<char>>,
}

impl DeepView for Sources {
    type V = SourcesV;

    open spec fn deep_view(&self) -> SourcesV {
        SourcesV { element: self.element.deep_view(), room: self.room.deep_view() }
    }
}

/// A report, ready to render.
pub struct ReportResult {
    pub revision: String,
    pub columns: Vec<Column>,
    pub rows: Vec<Vec<String>>,
    /// Rows before the limit.
    pub total_rows: usize,
    /// How many rows are of the nothing-matched kind.
    pub unmatched_rows: usize,
}

/// One thing a column or a condition may name.
pub struct ColumnInfo {
    pub name: String,
    /// `property`, `intrinsic`, `reference` or `measure`.
    pub kind: String,
    /// `text` or `number`.
    pub value_type: String,
}

pub struct ColumnInfoV {
    pub name: Seq<char>,
    pub kind: Seq<char>,
    pub value_type: Seq<char>,
}

impl DeepView for ColumnInfo {
    type V = ColumnInfoV;

    open spec fn deep_view(&self) -> ColumnInfoV {
        ColumnInfoV { name: self.name@, kind: self.kind@, value_type: self.value_type@ }
    }
}

/// What a report over one entity may name, in one project.
pub struct ColumnCatalog {
    pub entity: Vec<ColumnInfo>,
    /// The room side, for an entity that can be reported by room.
    pub rooms: Vec<ColumnInfo>,
    /// What the join measured.
    pub measures: Vec<ColumnInfo>,
}

pub open spec fn info(name: Seq<char>, kind: Seq<char>, value_type: Seq<char>) -> ColumnInfoV {
    ColumnInfoV { name, kind, value_type }
}

/// The intrinsics each entity answers.
pub open spec fn intrinsics_of(entity: Entity) -> Seq<ColumnInfoV> {
    let t = "text"@;
    let k = "intrinsic"@;
    match entity {
        Entity::Rooms | Entity::Spaces => seq![info("$id"@, k, t), info("$name"@, k, t), info("$level_id"@, k, t)],
        Entity::Doors | Entity::Windows => seq![
            info("$id"@, k, t),
            info("$type_name"@, k, t),
            info("$type_id"@, k, t),
            info("$level_id"@, k, t),
            info("$from_room"@, k, t),
            info("$to_room"@, k, t),
        ],
        Entity::Ceilings | Entity::Floors => seq![
            info("$id"@, k, t),
            info("$type_name"@, k, t),
            info("$type_id"@, k, t),
            info("$level_id"@, k, t),
            info("$height_offset"@, k, "number"@),
        ],
        Entity::Ffe => seq![
            info("$id"@, k, t),
            info("$category"@, k, t),
            info("$type_name"@, k, t),
            info("$type_id"@, k, t),
            info("$level_id"@, k, t),
            info("$room"@, k, t),
        ],
    }
}

fn mk(name: &str, kind: &str, value_type: &str) -> (r: ColumnInfo)
    ensures
        r.deep_view() == info(name@, kind@, value_type@),
{
    ColumnInfo { name: owned(name), kind: owned(kind), value_type: owned(value_type) }
}

/// The intrinsics each entity answers: fields of the record itself.
pub fn intrinsics(entity: Entity) -> (r: Vec<ColumnInfo>)
    ensures
        r.deep_view() == intrinsics_of(entity),
{
    let mut v: Vec<ColumnInfo> = Vec::new();
    match entity {
        Entity::Rooms | Entity::Spaces => {
            v.push(mk("$id", "intrinsic", "text"));
            v.push(mk("$name", "intrinsic", "text"));
            v.push(mk("$level_id", "intrinsic", "text"));
        },
        Entity::Doors | Entity::Windows => {
            v.push(mk("$id", "intrinsic", "text"));
            v.push(mk("$type_name", "intrinsic", "text"));
            v.push(mk("$type_id", "intrinsic", "text"));
            v.push(mk("$level_id", "intrinsic", "text"));
            v.push(mk("$from_room", "intrinsic", "text"));
            v.push(mk("$to_room", "intrinsic", "text"));
        },
        Entity::Ceilings | Entity::Floors => {
            v.push(mk("$id", "intrinsic", "text"));
            v.push(mk("$type_name", "intrinsic", "text"));
            v.push(mk("$type_id", "intrinsic", "text"));
            v.push(mk("$level_id", "intrinsic", "text"));
            v.push(mk("$height_offset", "intrinsic", "number"));
        },
        Entity::Ffe => {
            v.push(mk("$id", "intrinsic", "text"));
            v.push(mk("$category", "intrinsic", "text"));
            v.push(mk("$type_name", "intrinsic", "text"));
            v.push(mk("$type_id", "intrinsic", "text"));
            v.push(mk("$level_id", "intrinsic", "text"));
            v.push(mk("$room", "intrinsic", "text"));
        },
    }
    assert(v.deep_view() =~= intrinsics_of(entity));
    v
}

/// What the join produced, per entity.
pub open spec fn measures_of(entity: Entity) -> Seq<ColumnInfoV> {
    let k = "measure"@;
    let n = "number"@;
    match entity {
        Entity::Ceilings | Entity::Floors => seq![
            info("overlap_area"@, k, n),
            info("fraction_of_room"@, k, n),
            info("fraction_of_element"@, k, n),
            info("mean_width"@, k, n),
        ],
        Entity::Ffe => seq![info("room_origin"@, k, "text"@)],
        _ => Seq::empty(),
    }
}

/// What the join produced, per entity.
pub fn measures(entity: Entity) -> (r: Vec<ColumnInfo>)
    ensures
        r.deep_view() == measures_of(entity),
{
    let mut v: Vec<ColumnInfo> = Vec::new();
    match entity {
        Entity::Ceilings | Entity::Floors => {
            v.push(mk("overlap_area", "measure", "number"));
            v.push(mk("fraction_of_room", "measure", "number"));
            v.push(mk("fraction_of_element", "measure", "number"));
            v.push(mk("mean_width", "measure", "number"));
        },
        Entity::Ffe => {
            v.push(mk("room_origin", "measure", "text"));
        },
        _ => {},
    }
    assert(v.deep_view() =~= measures_of(entity));
    v
}

/// Revit's storage type as a filter cares about it: `Double` and `Integer`
/// (in any case) are numbers, anything else text.
pub open spec fn value_type_of(storage_type: Option<Seq<char>>) -> Seq<char> {
    match storage_type {
        Some(t) => if fold(t) == "double"@ || fold(t) == "integer"@ {
            "number"@
        } else {
            "text"@
        },
        None => "text"@,
    }
}

/// Revit's storage type, as a filter cares about it.
pub fn value_type(storage_type: Option<&str>) -> (r: String)
    ensures
        r@ == value_type_of(opt_str(storage_type)),
{
    match storage_type {
        Some(t) => {
            let c = chars_of(t);
            let f = fold_chars(c.as_slice());
            let d = chars_of("double");
            let i = chars_of("integer");
            if chars_eq(f.as_slice(), d.as_slice()) || chars_eq(f.as_slice(), i.as_slice()) {
                owned("number")
            } else {
                owned("text")
            }
        },
        None => owned("text"),
    }
}

/// A cell: the value, or empty for absent and blank alike.
pub open spec fn cell_of(p: Presence) -> Seq<char> {
    match p {
        Presence::Present(v) => v,
        _ => Seq::empty(),
    }
}

/// A cell: the value, or empty for absent and blank alike.
pub fn cell(presence: PropertyPresence) -> (r: String)
    ensures
        r@ == cell_of(presence@),
{
    match presence {
        PropertyPresence::Present(v) => v,
        _ => String::new(),
    }
}

pub open spec fn named_columns(names: Seq<Seq<char>>, side: Seq<char>) -> Seq<ColumnV> {
    names.map_values(|n: Seq<char>| ColumnV { name: n, side })
}

/// The extra header a grouped report carries, named for the entity.
pub open spec fn count_column(entity: Entity) -> ColumnV {
    ColumnV { name: entity_one(entity) + " count"@, side: "join"@ }
}

/// The header, in the order the cells are written: room columns and the
/// grouped count for a by-room report, then element columns, then measures.
pub open spec fn columns_of(
    entity: Entity,
    by_room: bool,
    shape: Shape,
    columns: Seq<Seq<char>>,
    room_columns: Seq<Seq<char>>,
    measures: Seq<Seq<char>>,
) -> Seq<ColumnV> {
    let room_part = if by_room {
        named_columns(room_columns, "room"@) + if shape == Shape::PerRoom {
            seq![count_column(entity)]
        } else {
            Seq::empty()
        }
    } else {
        Seq::empty()
    };
    room_part + named_columns(columns, "element"@) + named_columns(measures, "join"@)
}

pub open spec fn def_columns(def: ReportDefinition) -> Seq<ColumnV> {
    columns_of(
        def.entity,
        def.by_room,
        def.shape,
        def.columns.deep_view(),
        def.room_columns.deep_view(),
        def.measures.deep_view(),
    )
}

fn push_named(out: &mut Vec<Column>, names: &[String], side: &str)
    ensures
        final(out).deep_view() == old(out).deep_view() + named_columns(names.deep_view(), side@),
{
    let ghost start = out.deep_view();
    let ghost d = names.deep_view();
    let mut i: usize = 0;
    while i < names.len()
        invariant
            i <= names@.len(),
            d == names.deep_view(),
            start == old(out).deep_view(),
            out.deep_view() == start + named_columns(d.take(i as int), side@),
        decreases names@.len() - i,
    {
        assert(d[i as int] == names@[i as int]@);
        let ghost before = out.deep_view();
        out.push(Column { name: names[i].clone(), side: owned(side) });
        assert(out.deep_view() =~= before.push(ColumnV { name: d[i as int], side: side@ }));
        assert(named_columns(d.take(i + 1), side@) =~= named_columns(d.take(i as int), side@).push(
            ColumnV { name: d[i as int], side: side@ },
        ));
        assert(out.deep_view() =~= start + named_columns(d.take(i + 1), side@));
        i += 1;
    }
    assert(d.take(i as int) =~= d);
}

/// The extra header a grouped report carries.
pub fn grouped_count_column(entity: Entity) -> (r: Column)
    ensures
        r.deep_view() == count_column(entity),
{
    let one = entity.one();
    Column { name: concat(one.as_str(), " count"), side: owned("join") }
}

/// The header, in the order the cells are written.
pub fn columns_for(def: &ReportDefinition) -> (r: Vec<Column>)
    ensures
        r.deep_view() == def_columns(*def),
{
    let mut columns: Vec<Column> = Vec::new();
    let rc = def.room_columns.as_slice();
    let ec = def.columns.as_slice();
    let mc = def.measures.as_slice();
    assert(rc.deep_view() =~= def.room_columns.deep_view());
    assert(ec.deep_view() =~= def.columns.deep_view());
    assert(mc.deep_view() =~= def.measures.deep_view());
    if def.by_room {
        push_named(&mut columns, rc, "room");
        if def.shape == Shape::PerRoom {
            columns.push(grouped_count_column(def.entity));
        }
    }
    push_named(&mut columns, ec, "element");
    push_named(&mut columns, mc, "join");
    assert(columns.deep_view() =~= def_columns(*def));
    columns
}

/// The non-blank values, each once, in first-seen order.
pub open spec fn first_seen(values: Seq<Seq<char>>) -> Seq<Seq<char>>
    decreases values.len(),
{
    if values.len() == 0 {
        Seq::empty()
    } else {
        let rest = first_seen(values.drop_last());
        let v = values.last();
        if v.len() == 0 || rest.contains(v) {
            rest
        } else {
            rest.push(v)
        }
    }
}

/// The non-blank values, each once, in first-seen order, comma-separated.
pub open spec fn distinct_of(values: Seq<Seq<char>>) -> Seq<char> {
    joined(first_seen(values), ", "@)
}

fn contains_text(seen: &[String], v: &str) -> (r: bool)
    ensures
        r == seen.deep_view().contains(v@),
{
    let ghost d = seen.deep_view();
    let mut i: usize = 0;
    while i < seen.len()
        invariant
            i <= seen@.len(),
            d == seen.deep_view(),
            forall|j: int| 0 <= j < i ==> d[j] != v@,
        decreases seen@.len() - i,
    {
        assert(d[i as int] == seen@[i as int]@);
        if text_eq(seen[i].as_str(), v) {
            return true;
        }
        i += 1;
    }
    false
}

/// The non-blank values, each once, in first-seen order, comma-separated.
pub fn distinct(values: &[String]) -> (r: String)
    ensures
        r@ == distinct_of(values.deep_view()),
{
    let ghost d = values.deep_view();
    let mut seen: Vec<String> = Vec::new();
    let mut i: usize = 0;
    while i < values.len()
        invariant
            i <= values@.len(),
            d == values.deep_view(),
            seen.deep_view() == first_seen(d.take(i as int)),
        decreases values@.len() - i,
    {
        assert(d[i as int] == values@[i as int]@);
        assert(d.take(i + 1).drop_last() =~= d.take(i as int));
        let ghost before = seen.deep_view();
        let sv = seen.as_slice();
        assert(sv.deep_view() =~= before);
        if !values[i].as_str().is_empty() && !contains_text(sv, values[i].as_str()) {
            seen.push(values[i].clone());
            assert(seen.deep_view() =~= before.push(d[i as int]));
        }
        i += 1;
    }
    assert(d.take(i as int) =~= d);
    let ss = seen.as_slice();
    assert(ss.deep_view() =~= seen.deep_view());
    join(ss, ", ")
}

/// Whether a CSV field must be quoted: it holds a comma, a quote or a line
/// break.
pub open spec fn needs_quotes(v: Seq<char>) -> bool {
    exists|i: int| 0 <= i < v.len() && (v[i] == ',' || v[i] == '"' || v[i] == '\n' || v[i] == '\r')
}

/// The field with each quote doubled.
pub open spec fn doubled_quotes(v: Seq<char>) -> Seq<char>
    decreases v.len(),
{
    if v.len() == 0 {
        Seq::empty()
    } else {
        doubled_quotes(v.drop_last()) + if v.last() == '"' {
            seq!['"', '"']
        } else {
            seq![v.last()]
        }
    }
}

/// One CSV field (RFC 4180): quoted, with quotes doubled, only when it needs
/// to be.
pub open spec fn csv_field(v: Seq<char>) -> Seq<char> {
    if needs_quotes(v) {
        seq!['"'] + doubled_quotes(v) + seq!['"']
    } else {
        v
    }
}

/// One CSV record: its fields, comma-separated.
pub open spec fn csv_record(cells: Seq<Seq<char>>) -> Seq<char> {
    joined(cells.map_values(|c: Seq<char>| csv_field(c)), ","@)
}

/// The records after the header, each introduced by CRLF.
pub open spec fn csv_rows(rows: Seq<Seq<Seq<char>>>) -> Seq<char>
    decreases rows.len(),
{
    if rows.len() == 0 {
        Seq::empty()
    } else {
        csv_rows(rows.drop_last()) + "\r\n"@ + csv_record(rows.last())
    }
}

/// A report as CSV: the header record, then each row.
pub open spec fn csv_of(columns: Seq<ColumnV>, rows: Seq<Seq<Seq<char>>>) -> Seq<char> {
    csv_record(columns.map_values(|c: ColumnV| c.name)) + csv_rows(rows)
}

fn csv_escape(value: &str) -> (r: String)
    ensures
        r@ == csv_field(value@),
{
    let c = chars_of(value);
    let mut quote = false;
    let mut i: usize = 0;
    while i < c.len()
        invariant
            i <= c@.len(),
            quote == exists|j: int| 0 <= j < i && (c@[j] == ',' || c@[j] == '"' || c@[j] == '\n' || c@[j] == '\r'),
        decreases c@.len() - i,
    {
        if c[i] == ',' || c[i] == '"' || c[i] == '\n' || c[i] == '\r' {
            quote = true;
        }
        i += 1;
    }
    if !quote {
        return owned(value);
    }
    let mut out: Vec<char> = Vec::new();
    out.push('"');
    let mut k: usize = 0;
    while k < c.len()
        invariant
            k <= c@.len(),
            out@ == seq!['"'] + doubled_quotes(c@.take(k as int)),
        decreases c@.len() - k,
    {
        assert(c@.take(k + 1).drop_last() =~= c@.take(k as int));
        if c[k] == '"' {
            out.push('"');
            out.push('"');
        } else {
            out.push(c[k]);
        }
        assert(out@ =~= seq!['"'] + doubled_quotes(c@.take(k + 1)));
        k += 1;
    }
    assert(c@.take(k as int) =~= c@);
    out.push('"');
    string_of(out.as_slice())
}

fn csv_line(cells: &[String]) -> (r: String)
    ensures
        r@ == csv_record(cells.deep_view()),
{
    let ghost d = cells.deep_view();
    let mut escaped: Vec<String> = Vec::new();
    let mut i: usize = 0;
    while i < cells.len()
        invariant
            i <= cells@.len(),
            d == cells.deep_view(),
            escaped.deep_view() == d.take(i as int).map_values(|c: Seq<char>| csv_field(c)),
        decreases cells@.len() - i,
    {
        assert(d[i as int] == cells@[i as int]@);
        let ghost before = escaped.deep_view();
        escaped.push(csv_escape(cells[i].as_str()));
        assert(escaped.deep_view() =~= before.push(csv_field(d[i as int])));
        assert(escaped.deep_view() =~= d.take(i + 1).map_values(|c: Seq<char>| csv_field(c)));
        i += 1;
    }
    assert(d.take(i as int) =~= d);
    let es = escaped.as_slice();
    assert(es.deep_view() =~= escaped.deep_view());
    join(es, ",")
}

/// The same rows as CSV (RFC 4180): CRLF between records, quotes doubled
/// inside a quoted field, a field quoted only when it needs to be.
pub fn to_csv(result: &ReportResult) -> (r: String)
    ensures
        r@ == csv_of(result.columns.deep_view(), result.rows.deep_view()),
{
    let ghost cd = result.columns.deep_view();
    let mut names: Vec<String> = Vec::new();
    let mut i: usize = 0;
    while i < result.columns.len()
        invariant
            i <= result.columns@.len(),
            cd == result.columns.deep_view(),
            names.deep_view() == cd.take(i as int).map_values(|c: ColumnV| c.name),
        decreases result.columns@.len() - i,
    {
        assert(cd[i as int] == result.columns@[i as int].deep_view());
        let ghost before = names.deep_view();
        names.push(result.columns[i].name.clone());
        assert(names.deep_view() =~= before.push(cd[i as int].name));
        assert(names.deep_view() =~= cd.take(i + 1).map_values(|c: ColumnV| c.name));
        i += 1;
    }
    assert(cd.take(i as int) =~= cd);
    let ns = names.as_slice();
    assert(ns.deep_view() =~= names.deep_view());
    let mut out = csv_line(ns);
    let ghost rd = result.rows.deep_view();
    let ghost header = out@;
    let mut k: usize = 0;
    while k < result.rows.len()
        invariant
            k <= result.rows@.len(),
            rd == result.rows.deep_view(),
            header == csv_record(cd.map_values(|c: ColumnV| c.name)),
            out@ == header + csv_rows(rd.take(k as int)),
        decreases result.rows@.len() - k,
    {
        assert(rd[k as int] == result.rows@[k as int].deep_view());
        let rs = result.rows[k].as_slice();
        assert(rs.deep_view() =~= result.rows@[k as int].deep_view());
        let line = csv_line(rs);
        let a = concat(out.as_str(), "\r\n");
        out = concat(a.as_str(), line.as_str());
        assert(rd.take(k + 1).drop_last() =~= rd.take(k as int));
        assert(out@ =~= header + csv_rows(rd.take(k + 1)));
        k += 1;
    }
    assert(rd.take(k as int) =~= rd);
    out
}


/// The record an element was read from.
pub enum Record {
    Room(RoomResponse),
    Opening(OpeningResponse),
    Item(ItemResponse),
    Ceiling(CeilingResponse),
}

pub enum RecordV {
    Room(RoomResponseV),
    Opening(OpeningResponseV),
    Item(ItemResponseV),
    Ceiling(CeilingResponseV),
}

impl DeepView for Record {
    type V = RecordV;

    open spec fn deep_view(&self) -> RecordV {
        match self {
            Record::Room(r) => RecordV::Room(r.deep_view()),
            Record::Opening(o) => RecordV::Opening(o.deep_view()),
            Record::Item(i) => RecordV::Item(i.deep_view()),
            Record::Ceiling(c) => RecordV::Ceiling(c.deep_view()),
        }
    }
}

/// How a record answers a field name.
pub open spec fn record_presence(r: RecordV, source: Option<Seq<char>>, property: Seq<char>) -> Presence {
    match r {
        RecordV::Room(v) => room_presence(v, source, property),
        RecordV::Opening(v) => opening_presence(v.door, v.reference, source, property),
        RecordV::Item(v) => item_presence(v.item, v.reference, source, property),
        RecordV::Ceiling(v) => ceiling_presence(v.ceiling, source, property),
    }
}

impl FilterTarget for Record {
    open spec fn presence_of(&self, source: Option<Seq<char>>, property: Seq<char>) -> Presence {
        record_presence(self.deep_view(), source, property)
    }

    fn presence(&self, source: Option<&str>, property: &str) -> (r: PropertyPresence) {
        match self {
            Record::Room(v) => v.presence(source, property),
            Record::Opening(v) => v.presence(source, property),
            Record::Item(v) => v.presence(source, property),
            Record::Ceiling(v) => v.presence(source, property),
        }
    }
}

/// One element-to-room attribution, with what the join measured.
pub struct Attribution {
    pub model_id: String,
    pub room_id: String,
    pub measures: Vec<Field>,
}

pub struct AttributionV {
    pub model_id: Seq<char>,
    pub room_id: Seq<char>,
    pub measures: Seq<FieldV>,
}

impl DeepView for Attribution {
    type V = AttributionV;

    open spec fn deep_view(&self) -> AttributionV {
        AttributionV { model_id: self.model_id@, room_id: self.room_id@, measures: self.measures.deep_view() }
    }
}

/// One element, reduced to what a report needs: its fields, and the rooms it
/// is attributed to; no room means unattributed.
pub struct Element {
    pub read: Record,
    pub rooms: Vec<Attribution>,
}

pub struct ElementV {
    pub read: RecordV,
    pub rooms: Seq<AttributionV>,
}

impl DeepView for Element {
    type V = ElementV;

    open spec fn deep_view(&self) -> ElementV {
        ElementV { read: self.read.deep_view(), rooms: self.rooms.deep_view() }
    }
}

/// A measure's value on an attribution: empty where it carries none.
pub open spec fn measure_value(a: Option<AttributionV>, name: Seq<char>) -> Seq<char> {
    match a {
        Some(a) => match entry::<Field>(a.measures, name) {
            Some(f) => f.value,
            None => Seq::empty(),
        },
        None => Seq::empty(),
    }
}

/// A rendered value read as a field: empty is blank.
pub open spec fn text_presence(v: Seq<char>) -> Presence {
    if v.len() == 0 {
        Presence::Empty
    } else {
        Presence::Present(v)
    }
}

/// One measure value as a record the filter can ask: the value itself, or
/// blank.
pub struct MeasureTarget(pub String);

impl FilterTarget for MeasureTarget {
    open spec fn presence_of(&self, source: Option<Seq<char>>, property: Seq<char>) -> Presence {
        text_presence(self.0@)
    }

    fn presence(&self, source: Option<&str>, property: &str) -> (r: PropertyPresence) {
        if self.0.as_str().is_empty() {
            PropertyPresence::Empty
        } else {
            PropertyPresence::Present(self.0.clone())
        }
    }
}

/// One condition against one element and one attribution: an element
/// condition reads the element, a join condition the measure (blank where
/// the attribution carries none), and a room condition is decided by whoever
/// holds the room.
pub open spec fn cond_holds(c: ConditionV, e: ElementV, a: Option<AttributionV>) -> bool {
    match c.side {
        Side::Element => holds(c.predicate, record_presence(e.read, c.predicate.source, c.predicate.property)),
        Side::Join => holds(c.predicate, text_presence(measure_value(a, c.predicate.property))),
        Side::Room => true,
    }
}

fn measure_of(a: Option<&Attribution>, name: &str) -> (r: String)
    ensures
        r@ == measure_value(
            match a {
                Some(x) => Some(x.deep_view()),
                None => None,
            },
            name@,
        ),
{
    match a {
        Some(x) => {
            let ms = x.measures.as_slice();
            assert(ms.deep_view() =~= x.measures.deep_view());
            match lookup(ms, name) {
                Some(f) => f.value.clone(),
                None => String::new(),
            }
        },
        None => String::new(),
    }
}

pub open spec fn opt_attr(a: Option<&Attribution>) -> Option<AttributionV> {
    match a {
        Some(x) => Some(x.deep_view()),
        None => None,
    }
}

/// One condition against one element and one attribution.
pub fn condition_holds(condition: &Condition, element: &Element, attribution: Option<&Attribution>) -> (r: bool)
    ensures
        r == cond_holds(condition.deep_view(), element.deep_view(), opt_attr(attribution)),
{
    match condition.side {
        Side::Element => {
            let src: Option<&str> = match &condition.predicate.source {
                Some(s) => Some(s.as_str()),
                None => None,
            };
            let p = element.read.presence(src, condition.predicate.property.as_str());
            holds_exec(&condition.predicate, &p)
        },
        Side::Join => {
            let v = measure_of(attribution, condition.predicate.property.as_str());
            let t = MeasureTarget(v);
            let p = t.presence(None, "");
            holds_exec(&condition.predicate, &p)
        },
        Side::Room => true,
    }
}

/// A report filter against one element and attribution: an empty group
/// holds, `all` needs every item, `any` one.
pub open spec fn eval_row(f: ReportFilter, e: ElementV, a: Option<AttributionV>) -> bool
    decreases f,
{
    match f {
        ReportFilter::Condition(c) => cond_holds(c.deep_view(), e, a),
        ReportFilter::Group { mode, items } => match mode {
            Mode::All => forall|i: int| 0 <= i < items@.len() ==> eval_row(#[trigger] items@[i], e, a),
            Mode::Any => items@.len() == 0 || exists|i: int|
                0 <= i < items@.len() && eval_row(#[trigger] items@[i], e, a),
        },
    }
}

/// Evaluate a report filter against one element and attribution.
pub fn evaluate(filter: &ReportFilter, element: &Element, attribution: Option<&Attribution>) -> (r: bool)
    ensures
        r == eval_row(*filter, element.deep_view(), opt_attr(attribution)),
    decreases filter,
{
    match filter {
        ReportFilter::Condition(c) => condition_holds(c, element, attribution),
        ReportFilter::Group { mode, items } => {
            let want = *mode == Mode::All;
            if items.len() == 0 {
                return true;
            }
            let mut i: usize = 0;
            while i < items.len()
                invariant
                    i <= items@.len(),
                    *filter == (ReportFilter::Group { mode: *mode, items: *items }),
                    want == (*mode == Mode::All),
                    items@.len() > 0,
                    forall|j: int|
                        0 <= j < i ==> eval_row(#[trigger] items@[j], element.deep_view(), opt_attr(attribution))
                            == want,
                decreases items@.len() - i,
            {
                proof {
                    assert(decreases_to!(*filter => (*filter)->items));
                    assert(decreases_to!((*filter)->items => (*filter)->items@));
                    assert(decreases_to!((*filter)->items@ => (*filter)->items@[i as int]));
                }
                let v = evaluate(&items[i], element, attribution);
                if v != want {
                    return v;
                }
                i += 1;
            }
            proof {
                if !want {
                    assert(!eval_row(items@[0], element.deep_view(), opt_attr(attribution)));
                }
            }
            want
        },
    }
}

/// One column's cell for an element: a name whose part before the first dot
/// is a known source reads that source, anything else the element's own
/// fields.
pub open spec fn element_cell_of(e: ElementV, name: Seq<char>, known: Seq<Seq<char>>) -> Seq<char> {
    match split_of(name, known) {
        NamespaceSplitV::Joined { source, property } => cell_of(record_presence(e.read, Some(source), property)),
        _ => cell_of(record_presence(e.read, None, name)),
    }
}

/// One column's cell for an element.
pub fn element_cell(element: &Element, name: &str, known: &[String]) -> (r: String)
    ensures
        r@ == element_cell_of(element.deep_view(), name@, known.deep_view()),
{
    match split_namespace(name, known) {
        NamespaceSplit::Joined { source, property } => cell(element.read.presence(Some(source.as_str()), property.as_str())),
        _ => cell(element.read.presence(None, name)),
    }
}

/// One room column's cell.
pub open spec fn room_cell_of(room: RoomResponseV, name: Seq<char>, known: Seq<Seq<char>>) -> Seq<char> {
    match split_of(name, known) {
        NamespaceSplitV::Joined { source, property } => cell_of(room_presence(room, Some(source), property)),
        _ => cell_of(room_presence(room, None, name)),
    }
}

/// One room column's cell.
pub fn room_cell(room: &RoomResponse, name: &str, known: &[String]) -> (r: String)
    ensures
        r@ == room_cell_of(room.deep_view(), name@, known.deep_view()),
{
    match split_namespace(name, known) {
        NamespaceSplit::Joined { source, property } => cell(room.presence(Some(source.as_str()), property.as_str())),
        _ => cell(room.presence(None, name)),
    }
}

/// An element's cells for the given columns.
pub open spec fn element_cells(e: ElementV, names: Seq<Seq<char>>, known: Seq<Seq<char>>) -> Seq<Seq<char>> {
    names.map_values(|n: Seq<char>| element_cell_of(e, n, known))
}

/// A schedule row: the element's columns, then a blank under each measure,
/// which a schedule has no join to fill.
pub open spec fn schedule_row_of(def: ReportDefinition, known: Seq<Seq<char>>, e: ElementV) -> Seq<Seq<char>> {
    element_cells(e, def.columns.deep_view(), known) + blanks(def.measures@.len())
}

/// A schedule's rows: each element that passes the filter, as the asked
/// columns.
pub open spec fn schedule_of(def: ReportDefinition, known: Seq<Seq<char>>, elements: Seq<ElementV>) -> Seq<Seq<Seq<char>>>
    decreases elements.len(),
{
    if elements.len() == 0 {
        Seq::empty()
    } else {
        let rest = schedule_of(def, known, elements.drop_last());
        let e = elements.last();
        let pass = match def.filter {
            None => true,
            Some(f) => eval_row(f, e, None),
        };
        if pass {
            rest.push(schedule_row_of(def, known, e))
        } else {
            rest
        }
    }
}

fn element_cells_exec(element: &Element, names: &[String], known: &[String]) -> (r: Vec<String>)
    ensures
        r.deep_view() == element_cells(element.deep_view(), names.deep_view(), known.deep_view()),
{
    let ghost d = names.deep_view();
    let mut out: Vec<String> = Vec::new();
    let mut i: usize = 0;
    while i < names.len()
        invariant
            i <= names@.len(),
            d == names.deep_view(),
            out.deep_view() == element_cells(element.deep_view(), d.take(i as int), known.deep_view()),
        decreases names@.len() - i,
    {
        assert(d[i as int] == names@[i as int]@);
        let ghost before = out.deep_view();
        out.push(element_cell(element, names[i].as_str(), known));
        assert(out.deep_view() =~= before.push(element_cell_of(element.deep_view(), d[i as int], known.deep_view())));
        assert(element_cells(element.deep_view(), d.take(i + 1), known.deep_view()) =~= element_cells(
            element.deep_view(),
            d.take(i as int),
            known.deep_view(),
        ).push(element_cell_of(element.deep_view(), d[i as int], known.deep_view())));
        i += 1;
    }
    assert(d.take(i as int) =~= d);
    out
}

/// A schedule filters per row: a row is the thing the question is about.
/// `known` names the sources a column may read before its dot.
pub fn schedule_rows(def: &ReportDefinition, known: &[String], elements: &[Element]) -> (r: ReportResult)
    ensures
        r.rows.deep_view() == schedule_of(*def, known.deep_view(), elements.deep_view()),
        r.columns.deep_view() == def_columns(*def),
        r.unmatched_rows == 0,
        r.total_rows == 0,
        r.revision@ == Seq::<char>::empty(),
{
    let cs = def.columns.as_slice();
    assert(cs.deep_view() =~= def.columns.deep_view());
    let ghost d = elements.deep_view();
    let mut rows: Vec<Vec<String>> = Vec::new();
    let mut i: usize = 0;
    while i < elements.len()
        invariant
            i <= elements@.len(),
            d == elements.deep_view(),
            cs.deep_view() == def.columns.deep_view(),
            rows.deep_view() == schedule_of(*def, known.deep_view(), d.take(i as int)),
        decreases elements@.len() - i,
    {
        let e = &elements[i];
        assert(e.deep_view() == d[i as int]);
        assert(d.take(i + 1).drop_last() =~= d.take(i as int));
        let pass = match &def.filter {
            None => true,
            Some(f) => evaluate(f, e, None),
        };
        let ghost before = rows.deep_view();
        if pass {
            let mut row = element_cells_exec(e, cs, known);
            append(&mut row, blanks_exec(def.measures.len()));
            rows.push(row);
            assert(rows.deep_view() =~= before.push(schedule_row_of(*def, known.deep_view(), d[i as int])));
        }
        i += 1;
    }
    assert(d.take(i as int) =~= d);
    ReportResult { revision: String::new(), columns: columns_for(def), rows, total_rows: 0, unmatched_rows: 0 }
}


/// An element with one of its attributions, or with none (an element no room
/// matched is its own group).
pub type MemberV = (ElementV, Option<AttributionV>);

/// Does the room survive the filter? Room conditions read the room (a
/// missing room is blank); every other condition asks about the room's whole
/// set of matches: a positive one that some match satisfies it, a negative one
/// that no match satisfies its positive form.
pub open spec fn survives(f: ReportFilter, room: Option<RoomResponseV>, members: Seq<MemberV>) -> bool
    decreases f,
{
    match f {
        ReportFilter::Condition(c) => {
            let p = c.predicate.deep_view();
            match c.side {
                Side::Room => match room {
                    Some(r) => holds(p, room_presence(r, p.source, p.property)),
                    None => holds(p, Presence::Empty),
                },
                _ => {
                    let probe = ConditionV { side: c.side, predicate: positive(p) };
                    let found = exists|i: int| 0 <= i < members.len() && cond_holds(probe, #[trigger] members[i].0, members[i].1);
                    if negative(p) {
                        !found
                    } else {
                        found
                    }
                },
            }
        },
        ReportFilter::Group { mode, items } => match mode {
            Mode::All => forall|i: int| 0 <= i < items@.len() ==> survives(#[trigger] items@[i], room, members),
            Mode::Any => items@.len() == 0 || exists|i: int|
                0 <= i < items@.len() && survives(#[trigger] items@[i], room, members),
        },
    }
}

/// The members an index list names.
pub open spec fn members_view(elements: Seq<ElementV>, members: Seq<(usize, Option<usize>)>) -> Seq<MemberV> {
    members.map_values(
        |m: (usize, Option<usize>)|
            (
                elements[m.0 as int],
                match m.1 {
                    Some(k) => Some(elements[m.0 as int].rooms[k as int]),
                    None => None,
                },
            ),
    )
}

pub open spec fn members_valid(elements: Seq<ElementV>, members: Seq<(usize, Option<usize>)>) -> bool {
    forall|i: int|
        0 <= i < members.len() ==> (#[trigger] members[i]).0 < elements.len() && (members[i].1 matches Some(k) ==> k
            < elements[members[i].0 as int].rooms.len())
}

fn any_member_holds(probe: &Condition, elements: &[Element], members: &[(usize, Option<usize>)]) -> (r: bool)
    requires
        members_valid(elements.deep_view(), members@),
    ensures
        r == exists|i: int|
            0 <= i < members@.len() && cond_holds(
                probe.deep_view(),
                #[trigger] members_view(elements.deep_view(), members@)[i].0,
                members_view(elements.deep_view(), members@)[i].1,
            ),
{
    let ghost mv = members_view(elements.deep_view(), members@);
    let mut i: usize = 0;
    while i < members.len()
        invariant
            i <= members@.len(),
            mv == members_view(elements.deep_view(), members@),
            members_valid(elements.deep_view(), members@),
            forall|j: int| 0 <= j < i ==> !cond_holds(probe.deep_view(), #[trigger] mv[j].0, mv[j].1),
        decreases members@.len() - i,
    {
        let (e, a) = members[i];
        assert(members@[i as int] == (e, a));
        let el = &elements[e];
        assert(el.deep_view() == elements.deep_view()[e as int]);
        let attr: Option<&Attribution> = match a {
            Some(k) => {
                assert(el.rooms.deep_view()[k as int] == el.rooms@[k as int].deep_view());
                Some(&el.rooms[k])
            },
            None => None,
        };
        assert(opt_attr(attr) == mv[i as int].1);
        assert(mv[i as int].0 == el.deep_view());
        if condition_holds(probe, el, attr) {
            assert(cond_holds(probe.deep_view(), mv[i as int].0, mv[i as int].1));
            return true;
        }
        i += 1;
    }
    false
}

/// Does this room survive the filter, over its whole set of matches?
pub fn room_survives(
    filter: &ReportFilter,
    room: Option<&RoomResponse>,
    elements: &[Element],
    members: &[(usize, Option<usize>)],
) -> (r: bool)
    requires
        members_valid(elements.deep_view(), members@),
    ensures
        r == survives(
            *filter,
            match room {
                Some(x) => Some(x.deep_view()),
                None => None,
            },
            members_view(elements.deep_view(), members@),
        ),
    decreases filter,
{
    let ghost rv = match room {
        Some(x) => Some(x.deep_view()),
        None => None,
    };
    let ghost mv = members_view(elements.deep_view(), members@);
    match filter {
        ReportFilter::Condition(c) => match c.side {
            Side::Room => {
                let src: Option<&str> = match &c.predicate.source {
                    Some(s) => Some(s.as_str()),
                    None => None,
                };
                match room {
                    Some(r) => {
                        let p = r.presence(src, c.predicate.property.as_str());
                        holds_exec(&c.predicate, &p)
                    },
                    None => holds_exec(&c.predicate, &PropertyPresence::Empty),
                }
            },
            _ => {
                let negative_ = is_negative(&c.predicate);
                let probe = Condition { side: c.side, predicate: positive_form(&c.predicate) };
                let found = any_member_holds(&probe, elements, members);
                if negative_ {
                    !found
                } else {
                    found
                }
            },
        },
        ReportFilter::Group { mode, items } => {
            let want = *mode == Mode::All;
            if items.len() == 0 {
                return true;
            }
            let mut i: usize = 0;
            while i < items.len()
                invariant
                    i <= items@.len(),
                    *filter == (ReportFilter::Group { mode: *mode, items: *items }),
                    want == (*mode == Mode::All),
                    items@.len() > 0,
                    members_valid(elements.deep_view(), members@),
                    rv == match room {
                        Some(x) => Some(x.deep_view()),
                        None => None,
                    },
                    mv == members_view(elements.deep_view(), members@),
                    forall|j: int| 0 <= j < i ==> survives(#[trigger] items@[j], rv, mv) == want,
                decreases items@.len() - i,
            {
                proof {
                    assert(decreases_to!(*filter => (*filter)->items));
                    assert(decreases_to!((*filter)->items => (*filter)->items@));
                    assert(decreases_to!((*filter)->items@ => (*filter)->items@[i as int]));
                }
                let v = room_survives(&items[i], room, elements, members);
                if v != want {
                    return v;
                }
                i += 1;
            }
            proof {
                if !want {
                    assert(!survives(items@[0], rv, mv));
                }
            }
            want
        },
    }
}


/// The `[model, room]` key of every attribution, in element order.
pub open spec fn keys_of(elements: Seq<ElementV>) -> Seq<Seq<Seq<char>>>
    decreases elements.len(),
{
    if elements.len() == 0 {
        Seq::empty()
    } else {
        keys_of(elements.drop_last()) + elements.last().rooms.map_values(
            |a: AttributionV| seq![a.model_id, a.room_id],
        )
    }
}

/// A sorted sequence with repeats collapsed.
pub open spec fn dedup_adjacent(s: Seq<Seq<Seq<char>>>) -> Seq<Seq<Seq<char>>>
    decreases s.len(),
{
    if s.len() == 0 {
        Seq::empty()
    } else {
        let r = dedup_adjacent(s.drop_last());
        if r.len() > 0 && r.last() == s.last() {
            r
        } else {
            r.push(s.last())
        }
    }
}

/// The rooms matched, each once, in `(model, room)` order.
pub open spec fn group_keys(elements: Seq<ElementV>) -> Seq<Seq<Seq<char>>> {
    dedup_adjacent(sorted_of::<Vec<String>>(keys_of(elements)))
}

fn keys_exec(elements: &[Element]) -> (r: Vec<Vec<String>>)
    ensures
        r.deep_view() == keys_of(elements.deep_view()),
{
    let ghost d = elements.deep_view();
    let mut out: Vec<Vec<String>> = Vec::new();
    let mut i: usize = 0;
    while i < elements.len()
        invariant
            i <= elements@.len(),
            d == elements.deep_view(),
            out.deep_view() == keys_of(d.take(i as int)),
        decreases elements@.len() - i,
    {
        let e = &elements[i];
        assert(e.deep_view() == d[i as int]);
        assert(d.take(i + 1).drop_last() =~= d.take(i as int));
        let ghost base = out.deep_view();
        let ghost rd = e.rooms.deep_view();
        let mut k: usize = 0;
        while k < e.rooms.len()
            invariant
                k <= e.rooms@.len(),
                rd == e.rooms.deep_view(),
                out.deep_view() == base + rd.take(k as int).map_values(|a: AttributionV| seq![a.model_id, a.room_id]),
            decreases e.rooms@.len() - k,
        {
            assert(rd[k as int] == e.rooms@[k as int].deep_view());
            let mut key: Vec<String> = Vec::new();
            key.push(e.rooms[k].model_id.clone());
            key.push(e.rooms[k].room_id.clone());
            assert(key.deep_view() =~= seq![rd[k as int].model_id, rd[k as int].room_id]);
            let ghost before = out.deep_view();
            out.push(key);
            assert(out.deep_view() =~= before.push(seq![rd[k as int].model_id, rd[k as int].room_id]));
            assert(rd.take(k + 1).map_values(|a: AttributionV| seq![a.model_id, a.room_id]) =~= rd.take(k as int).map_values(
                |a: AttributionV| seq![a.model_id, a.room_id],
            ).push(seq![rd[k as int].model_id, rd[k as int].room_id]));
            k += 1;
        }
        assert(rd.take(k as int) =~= rd);
        i += 1;
    }
    assert(d.take(i as int) =~= d);
    out
}

fn key_eq(a: &Vec<String>, b: &Vec<String>) -> (r: bool)
    ensures
        r == (a.deep_view() == b.deep_view()),
{
    if a.len() != b.len() {
        assert(a.deep_view().len() != b.deep_view().len());
        return false;
    }
    let mut i: usize = 0;
    while i < a.len()
        invariant
            i <= a@.len(),
            a@.len() == b@.len(),
            forall|j: int| 0 <= j < i ==> a.deep_view()[j] == b.deep_view()[j],
        decreases a@.len() - i,
    {
        assert(a.deep_view()[i as int] == a@[i as int]@);
        assert(b.deep_view()[i as int] == b@[i as int]@);
        if !text_eq(a[i].as_str(), b[i].as_str()) {
            assert(a.deep_view()[i as int] != b.deep_view()[i as int]);
            return false;
        }
        i += 1;
    }
    assert(a.deep_view() =~= b.deep_view());
    true
}

/// The rooms matched, each once, in `(model, room)` order.
pub fn group_keys_exec(elements: &[Element]) -> (r: Vec<Vec<String>>)
    ensures
        r.deep_view() == group_keys(elements.deep_view()),
        forall|j: int| 0 <= j < r.deep_view().len() ==> (#[trigger] r.deep_view()[j]).len() == 2,
{
    let all = keys_exec(elements);
    let ghost ad = all.deep_view();
    let sorted = sort(all);
    let ghost sd = sorted.deep_view();
    proof {
        broadcast use vstd::seq_lib::group_to_multiset_ensures;
        lemma_keys_shape(elements.deep_view());
        assert forall|j: int| 0 <= j < sd.len() implies (#[trigger] sd[j]).len() == 2 by {
            assert(sd.contains(sd[j]));
            assert(sd.to_multiset().count(sd[j]) > 0);
            assert(ad.contains(sd[j]));
        }
        lemma_dedup_keeps(sd);
    }
    let mut out: Vec<Vec<String>> = Vec::new();
    let mut i: usize = 0;
    while i < sorted.len()
        invariant
            i <= sorted@.len(),
            sd == sorted.deep_view(),
            out.deep_view() == dedup_adjacent(sd.take(i as int)),
        decreases sorted@.len() - i,
    {
        assert(sd[i as int] == sorted@[i as int].deep_view());
        assert(sd.take(i + 1).drop_last() =~= sd.take(i as int));
        let ghost before = out.deep_view();
        let dup = out.len() > 0 && key_eq(&out[out.len() - 1], &sorted[i]);
        proof {
            if out@.len() > 0 {
                assert(before.last() == out@[out@.len() - 1].deep_view());
            }
        }
        if !dup {
            out.push(sorted[i].dup());
            assert(out.deep_view() =~= before.push(sd[i as int]));
        }
        i += 1;
    }
    assert(sd.take(i as int) =~= sd);
    proof {
        assert forall|j: int| 0 <= j < out.deep_view().len() implies (#[trigger] out.deep_view()[j]).len() == 2 by {
            assert(sd.contains(out.deep_view()[j]));
        }
    }
    out
}

/// An element's attributions to one room.
pub open spec fn attr_members(e: ElementV, rooms: Seq<AttributionV>, model: Seq<char>, room: Seq<char>) -> Seq<MemberV>
    decreases rooms.len(),
{
    if rooms.len() == 0 {
        Seq::empty()
    } else {
        let r = attr_members(e, rooms.drop_last(), model, room);
        let a = rooms.last();
        if a.model_id == model && a.room_id == room {
            r.push((e, Some(a)))
        } else {
            r
        }
    }
}

/// Every element's attributions to one room, in element order.
pub open spec fn members_of(elements: Seq<ElementV>, model: Seq<char>, room: Seq<char>) -> Seq<MemberV>
    decreases elements.len(),
{
    if elements.len() == 0 {
        Seq::empty()
    } else {
        members_of(elements.drop_last(), model, room) + attr_members(
            elements.last(),
            elements.last().rooms,
            model,
            room,
        )
    }
}

fn members_exec(elements: &[Element], model: &str, room: &str) -> (r: Vec<(usize, Option<usize>)>)
    ensures
        members_valid(elements.deep_view(), r@),
        members_view(elements.deep_view(), r@) == members_of(elements.deep_view(), model@, room@),
{
    let ghost d = elements.deep_view();
    let mut out: Vec<(usize, Option<usize>)> = Vec::new();
    let mut i: usize = 0;
    while i < elements.len()
        invariant
            i <= elements@.len(),
            d == elements.deep_view(),
            members_valid(d, out@),
            members_view(d, out@) == members_of(d.take(i as int), model@, room@),
        decreases elements@.len() - i,
    {
        let e = &elements[i];
        assert(e.deep_view() == d[i as int]);
        assert(d.take(i + 1).drop_last() =~= d.take(i as int));
        let ghost base = members_view(d, out@);
        let ghost rd = e.rooms.deep_view();
        let mut k: usize = 0;
        while k < e.rooms.len()
            invariant
                k <= e.rooms@.len(),
                i < d.len(),
                e.deep_view() == d[i as int],
                rd == e.rooms.deep_view(),
                d == elements.deep_view(),
                members_valid(d, out@),
                members_view(d, out@) == base + attr_members(d[i as int], rd.take(k as int), model@, room@),
            decreases e.rooms@.len() - k,
        {
            assert(rd[k as int] == e.rooms@[k as int].deep_view());
            assert(rd.take(k + 1).drop_last() =~= rd.take(k as int));
            let ghost before = out@;
            if text_eq(e.rooms[k].model_id.as_str(), model) && text_eq(e.rooms[k].room_id.as_str(), room) {
                out.push((i, Some(k)));
                assert(members_view(d, out@) =~= members_view(d, before).push((d[i as int], Some(rd[k as int]))));
            }
            k += 1;
        }
        assert(rd.take(k as int) =~= rd);
        i += 1;
    }
    assert(d.take(i as int) =~= d);
    out
}

pub open spec fn is_room_resp(model: Seq<char>, room: Seq<char>) -> spec_fn(RoomResponseV) -> bool {
    |r: RoomResponseV| r.model_id == model && r.room.id == room
}

/// The room in scope with this model and id.
pub open spec fn room_at(rooms: Seq<RoomResponseV>, model: Seq<char>, room: Seq<char>) -> Option<RoomResponseV> {
    let i = first_where(rooms, is_room_resp(model, room));
    if i < 0 {
        None
    } else {
        Some(rooms[i])
    }
}

fn room_at_exec<'a>(rooms: &'a [RoomResponse], model: &str, room: &str) -> (r: Option<&'a RoomResponse>)
    ensures
        match r {
            Some(x) => room_at(rooms.deep_view(), model@, room@) == Some(x.deep_view()),
            None => room_at(rooms.deep_view(), model@, room@) is None,
        },
{
    let ghost d = rooms.deep_view();
    let mut i: usize = 0;
    while i < rooms.len()
        invariant
            i <= rooms@.len(),
            d == rooms.deep_view(),
            forall|j: int| 0 <= j < i ==> !is_room_resp(model@, room@)(#[trigger] d[j]),
        decreases rooms@.len() - i,
    {
        assert(d[i as int] == rooms@[i as int].deep_view());
        assert(is_room_resp(model@, room@)(d[i as int]) == (d[i as int].model_id == model@ && d[i as int].room.id
            == room@));
        if text_eq(rooms[i].model_id.as_str(), model) && text_eq(rooms[i].room.id.as_str(), room) {
            proof {
                lemma_first_where_at(d, is_room_resp(model@, room@), i as int);
            }
            return Some(&rooms[i]);
        }
        i += 1;
    }
    proof {
        lemma_first_where_at(d, is_room_resp(model@, room@), i as int);
    }
    None
}

/// Whether the report's filter says anything at all.
pub open spec fn filtering(def: ReportDefinition) -> bool {
    def.filter matches Some(f) && !filter_empty(f)
}

/// Whether a matched room survives.
pub open spec fn key_survives(def: ReportDefinition, rooms: Seq<RoomResponseV>, all: Seq<ElementV>, model: Seq<char>, room: Seq<char>) -> bool {
    match def.filter {
        Some(f) => filter_empty(f) || survives(f, room_at(rooms, model, room), members_of(all, model, room)),
        None => true,
    }
}

/// The conditions that also narrow the rows listed under a kept room.
pub open spec fn row_conds(def: ReportDefinition) -> Seq<ConditionV> {
    match def.filter {
        Some(f) => row_conditions(f, true),
        None => Seq::empty(),
    }
}

/// Whether a match is listed under its kept room.
pub open spec fn listed(def: ReportDefinition, e: ElementV, a: Option<AttributionV>) -> bool {
    forall|i: int| 0 <= i < row_conds(def).len() ==> cond_holds(#[trigger] row_conds(def)[i], e, a)
}

fn listed_exec(conds: &[Condition], element: &Element, attribution: Option<&Attribution>) -> (r: bool)
    ensures
        r == forall|i: int|
            0 <= i < conds.deep_view().len() ==> cond_holds(
                #[trigger] conds.deep_view()[i],
                element.deep_view(),
                opt_attr(attribution),
            ),
{
    let mut i: usize = 0;
    while i < conds.len()
        invariant
            i <= conds@.len(),
            forall|j: int|
                0 <= j < i ==> cond_holds(#[trigger] conds.deep_view()[j], element.deep_view(), opt_attr(attribution)),
        decreases conds@.len() - i,
    {
        assert(conds.deep_view()[i as int] == conds@[i as int].deep_view());
        if !condition_holds(&conds[i], element, attribution) {
            return false;
        }
        i += 1;
    }
    true
}

/// Room cells: a column of the room, or blank with no room.
pub open spec fn room_cells(names: Seq<Seq<char>>, room: Option<RoomResponseV>, known: Seq<Seq<char>>) -> Seq<Seq<char>> {
    names.map_values(
        |n: Seq<char>|
            match room {
                Some(r) => room_cell_of(r, n, known),
                None => Seq::empty(),
            },
    )
}

/// Measure cells: what the attribution measured, blank where it did not.
pub open spec fn measure_cells(names: Seq<Seq<char>>, a: Option<AttributionV>) -> Seq<Seq<char>> {
    names.map_values(|n: Seq<char>| measure_value(a, n))
}

pub open spec fn blanks(n: nat) -> Seq<Seq<char>> {
    Seq::new(n, |i: int| Seq::<char>::empty())
}

/// The blank a row that is no group leaves under a grouped report's count.
pub open spec fn count_gap(def: ReportDefinition) -> Seq<Seq<char>> {
    if def.shape == Shape::PerRoom {
        blanks(1)
    } else {
        Seq::empty()
    }
}

/// One match: the room's columns, the element's, the join's.
pub open spec fn match_row_of(def: ReportDefinition, ks: SourcesV, e: ElementV, a: AttributionV, room: Option<RoomResponseV>) -> Seq<Seq<char>> {
    room_cells(def.room_columns.deep_view(), room, ks.room) + element_cells(e, def.columns.deep_view(), ks.element)
        + measure_cells(def.measures.deep_view(), Some(a))
}

/// An element no room matched: its own columns filled, the rest blank.
pub open spec fn unattributed_row_of(def: ReportDefinition, ks: SourcesV, e: ElementV) -> Seq<Seq<char>> {
    blanks(def.room_columns@.len()) + count_gap(def) + element_cells(e, def.columns.deep_view(), ks.element) + blanks(
        def.measures@.len(),
    )
}

/// A room nothing matched: its columns filled, the rest blank.
pub open spec fn room_only_row_of(def: ReportDefinition, ks: SourcesV, r: RoomResponseV) -> Seq<Seq<char>> {
    room_cells(def.room_columns.deep_view(), Some(r), ks.room) + count_gap(def) + blanks(def.columns@.len()) + blanks(
        def.measures@.len(),
    )
}


pub open spec fn digits() -> Seq<char> {
    seq!['0', '1', '2', '3', '4', '5', '6', '7', '8', '9']
}

/// A count in decimal.
pub open spec fn decimal_text(n: nat) -> Seq<char>
    decreases n,
{
    if n < 10 {
        seq![digits()[n as int]]
    } else {
        decimal_text(n / 10).push(digits()[(n % 10) as int])
    }
}

fn decimal_chars(n: usize) -> (r: Vec<char>)
    ensures
        r@ == decimal_text(n as nat),
    decreases n,
{
    let ds: Vec<char> = vec!['0', '1', '2', '3', '4', '5', '6', '7', '8', '9'];
    assert(ds@ =~= digits());
    if n < 10 {
        let mut v: Vec<char> = Vec::new();
        v.push(ds[n]);
        assert(v@ =~= seq![digits()[n as int]]);
        v
    } else {
        let mut v = decimal_chars(n / 10);
        v.push(ds[n % 10]);
        v
    }
}

/// A count in decimal.
pub fn usize_text(n: usize) -> (r: String)
    ensures
        r@ == decimal_text(n as nat),
{
    let v = decimal_chars(n);
    string_of(v.as_slice())
}

fn room_cells_exec(names: &[String], room: Option<&RoomResponse>, known: &[String]) -> (r: Vec<String>)
    ensures
        r.deep_view() == room_cells(
            names.deep_view(),
            match room {
                Some(x) => Some(x.deep_view()),
                None => None,
            },
            known.deep_view(),
        ),
{
    let ghost rv = match room {
        Some(x) => Some(x.deep_view()),
        None => None,
    };
    let ghost kd = known.deep_view();
    let ghost d = names.deep_view();
    let mut out: Vec<String> = Vec::new();
    let mut i: usize = 0;
    while i < names.len()
        invariant
            i <= names@.len(),
            d == names.deep_view(),
            kd == known.deep_view(),
            rv == match room {
                Some(x) => Some(x.deep_view()),
                None => None,
            },
            out.deep_view() == room_cells(d.take(i as int), rv, kd),
        decreases names@.len() - i,
    {
        assert(d[i as int] == names@[i as int]@);
        let c = match room {
            Some(r) => room_cell(r, names[i].as_str(), known),
            None => String::new(),
        };
        let ghost before = out.deep_view();
        out.push(c);
        assert(out.deep_view() =~= before.push(
            match rv {
                Some(r) => room_cell_of(r, d[i as int], kd),
                None => Seq::empty(),
            },
        ));
        assert(room_cells(d.take(i + 1), rv, kd) =~= room_cells(d.take(i as int), rv, kd).push(
            match rv {
                Some(r) => room_cell_of(r, d[i as int], kd),
                None => Seq::empty(),
            },
        ));
        i += 1;
    }
    assert(d.take(i as int) =~= d);
    out
}

fn measure_cells_exec(names: &[String], a: Option<&Attribution>) -> (r: Vec<String>)
    ensures
        r.deep_view() == measure_cells(names.deep_view(), opt_attr(a)),
{
    let ghost d = names.deep_view();
    let mut out: Vec<String> = Vec::new();
    let mut i: usize = 0;
    while i < names.len()
        invariant
            i <= names@.len(),
            d == names.deep_view(),
            out.deep_view() == measure_cells(d.take(i as int), opt_attr(a)),
        decreases names@.len() - i,
    {
        assert(d[i as int] == names@[i as int]@);
        let ghost before = out.deep_view();
        out.push(measure_of(a, names[i].as_str()));
        assert(out.deep_view() =~= before.push(measure_value(opt_attr(a), d[i as int])));
        assert(measure_cells(d.take(i + 1), opt_attr(a)) =~= measure_cells(d.take(i as int), opt_attr(a)).push(
            measure_value(opt_attr(a), d[i as int]),
        ));
        i += 1;
    }
    assert(d.take(i as int) =~= d);
    out
}

fn blanks_exec(n: usize) -> (r: Vec<String>)
    ensures
        r.deep_view() == blanks(n as nat),
{
    let mut out: Vec<String> = Vec::new();
    let mut i: usize = 0;
    while i < n
        invariant
            i <= n,
            out.deep_view() == blanks(i as nat),
        decreases n - i,
    {
        let ghost before = out.deep_view();
        let blank = String::new();
        assert(blank@ =~= Seq::<char>::empty());
        out.push(blank);
        assert(out.deep_view() =~= before.push(Seq::<char>::empty()));
        assert(out.deep_view() =~= blanks((i + 1) as nat));
        i += 1;
    }
    out
}

fn append(a: &mut Vec<String>, b: Vec<String>)
    ensures
        final(a).deep_view() == old(a).deep_view() + b.deep_view(),
{
    let ghost start = a.deep_view();
    let ghost bd = b.deep_view();
    let mut i: usize = 0;
    while i < b.len()
        invariant
            i <= b@.len(),
            bd == b.deep_view(),
            start == old(a).deep_view(),
            a.deep_view() == start + bd.take(i as int),
        decreases b@.len() - i,
    {
        assert(bd[i as int] == b@[i as int]@);
        let ghost before = a.deep_view();
        a.push(b[i].clone());
        assert(a.deep_view() =~= before.push(bd[i as int]));
        assert(a.deep_view() =~= start + bd.take(i + 1));
        i += 1;
    }
    assert(bd.take(i as int) =~= bd);
}

/// The blank under a grouped report's count, for a row that is no group.
fn push_count_gap(def: &ReportDefinition, row: &mut Vec<String>)
    ensures
        final(row).deep_view() == old(row).deep_view() + count_gap(*def),
{
    let ghost before = row.deep_view();
    if def.shape == Shape::PerRoom {
        row.push(String::new());
        assert(row.deep_view() =~= before + blanks(1));
    } else {
        assert(row.deep_view() =~= before + Seq::<Seq<char>>::empty());
    }
}

/// One match's row.
pub fn match_row(def: &ReportDefinition, ks: &Sources, element: &Element, attribution: &Attribution, room: Option<&RoomResponse>) -> (r: Vec<String>)
    ensures
        r.deep_view() == match_row_of(
            *def,
            ks.deep_view(),
            element.deep_view(),
            attribution.deep_view(),
            match room {
                Some(x) => Some(x.deep_view()),
                None => None,
            },
        ),
{
    let rk = ks.room.as_slice();
    let ek = ks.element.as_slice();
    assert(rk.deep_view() =~= ks.room.deep_view());
    assert(ek.deep_view() =~= ks.element.deep_view());
    let rc = def.room_columns.as_slice();
    let ec = def.columns.as_slice();
    let mc = def.measures.as_slice();
    assert(rc.deep_view() =~= def.room_columns.deep_view());
    assert(ec.deep_view() =~= def.columns.deep_view());
    assert(mc.deep_view() =~= def.measures.deep_view());
    let mut row = room_cells_exec(rc, room, rk);
    append(&mut row, element_cells_exec(element, ec, ek));
    append(&mut row, measure_cells_exec(mc, Some(attribution)));
    row
}

/// An element no room matched: its columns filled, room and join blank.
pub fn unattributed_row(def: &ReportDefinition, ks: &Sources, element: &Element) -> (r: Vec<String>)
    ensures
        r.deep_view() == unattributed_row_of(*def, ks.deep_view(), element.deep_view()),
{
    let ek = ks.element.as_slice();
    assert(ek.deep_view() =~= ks.element.deep_view());
    let ec = def.columns.as_slice();
    assert(ec.deep_view() =~= def.columns.deep_view());
    let mut row = blanks_exec(def.room_columns.len());
    push_count_gap(def, &mut row);
    append(&mut row, element_cells_exec(element, ec, ek));
    append(&mut row, blanks_exec(def.measures.len()));
    row
}

/// A room nothing matched: its columns filled, the rest blank.
pub fn room_only_row(def: &ReportDefinition, ks: &Sources, room: &RoomResponse) -> (r: Vec<String>)
    ensures
        r.deep_view() == room_only_row_of(*def, ks.deep_view(), room.deep_view()),
{
    let rk = ks.room.as_slice();
    assert(rk.deep_view() =~= ks.room.deep_view());
    let rc = def.room_columns.as_slice();
    assert(rc.deep_view() =~= def.room_columns.deep_view());
    let mut row = room_cells_exec(rc, Some(room), rk);
    push_count_gap(def, &mut row);
    append(&mut row, blanks_exec(def.columns.len()));
    append(&mut row, blanks_exec(def.measures.len()));
    row
}

/// The total of the non-blank values in hundredths, when every one of them
/// is a plain number with at most two decimals.
pub open spec fn total_of(values: Seq<Seq<char>>) -> Option<int>
    decreases values.len(),
{
    if values.len() == 0 {
        Some(0)
    } else {
        match total_of(values.drop_last()) {
            None => None,
            Some(t) => if values.last().len() == 0 {
                Some(t)
            } else {
                match hundredths_of(values.last()) {
                    Some(v) => Some(t + v),
                    None => None,
                }
            },
        }
    }
}

/// An amount of hundredths written with two decimals.
pub open spec fn two_decimals(v: int) -> Seq<char> {
    let m = (if v < 0 {
        -v
    } else {
        v
    }) as nat;
    (if v < 0 {
        "-"@
    } else {
        ""@
    }) + decimal_text(m / 100) + seq!['.', digits()[((m % 100) / 10) as int], digits()[(m % 10) as int]]
}

/// A measure aggregated over a room's matches: numbers are summed and
/// written with two decimals (nothing at all sums to zero); a measure that is
/// a word lists its distinct values, and so does a column mixing words and
/// numbers, because a partial sum would be a wrong number.
pub open spec fn group_measure(values: Seq<Seq<char>>) -> Seq<char> {
    match total_of(values) {
        Some(t) => two_decimals(t),
        None => distinct_of(values),
    }
}

/// One room with its matches aggregated: the count, then each element column
/// as its distinct values, then each measure.
pub open spec fn grouped_row_of(def: ReportDefinition, ks: SourcesV, room: Option<RoomResponseV>, shown: Seq<MemberV>) -> Seq<Seq<char>> {
    room_cells(def.room_columns.deep_view(), room, ks.room) + seq![decimal_text(shown.len())] + def.columns.deep_view().map_values(
        |c: Seq<char>| distinct_of(shown.map_values(|m: MemberV| element_cell_of(m.0, c, ks.element))),
    ) + def.measures.deep_view().map_values(
        |n: Seq<char>| group_measure(shown.map_values(|m: MemberV| measure_value(m.1, n))),
    )
}

fn member_at<'a>(elements: &'a [Element], m: (usize, Option<usize>)) -> (r: (&'a Element, Option<&'a Attribution>))
    requires
        m.0 < elements@.len(),
        m.1 matches Some(k) ==> k < elements@[m.0 as int].rooms@.len(),
    ensures
        r.0.deep_view() == elements.deep_view()[m.0 as int],
        opt_attr(r.1) == match m.1 {
            Some(k) => Some(elements.deep_view()[m.0 as int].rooms[k as int]),
            None => None,
        },
{
    let e = &elements[m.0];
    assert(e.deep_view() == elements.deep_view()[m.0 as int]);
    match m.1 {
        Some(k) => {
            assert(e.rooms.deep_view()[k as int] == e.rooms@[k as int].deep_view());
            (e, Some(&e.rooms[k]))
        },
        None => (e, None),
    }
}

fn decimal_chars_u128(n: u128) -> (r: Vec<char>)
    ensures
        r@ == decimal_text(n as nat),
    decreases n,
{
    let ds: Vec<char> = vec!['0', '1', '2', '3', '4', '5', '6', '7', '8', '9'];
    assert(ds@ =~= digits());
    if n < 10 {
        let mut v: Vec<char> = Vec::new();
        v.push(ds[n as usize]);
        assert(v@ =~= seq![digits()[n as int]]);
        v
    } else {
        let mut v = decimal_chars_u128(n / 10);
        v.push(ds[(n % 10) as usize]);
        v
    }
}

/// An amount of hundredths written with two decimals.
fn two_decimals_exec(v: i128) -> (r: String)
    requires
        v > i128::MIN,
    ensures
        r@ == two_decimals(v as int),
{
    let m: u128 = if v < 0 {
        (-v) as u128
    } else {
        v as u128
    };
    let ds: Vec<char> = vec!['0', '1', '2', '3', '4', '5', '6', '7', '8', '9'];
    assert(ds@ =~= digits());
    let mut out: Vec<char> = Vec::new();
    if v < 0 {
        out.push('-');
    }
    let whole = decimal_chars_u128(m / 100);
    let mut k: usize = 0;
    let ghost head = out@;
    while k < whole.len()
        invariant
            k <= whole@.len(),
            out@ == head + whole@.take(k as int),
        decreases whole@.len() - k,
    {
        out.push(whole[k]);
        assert(whole@.take(k + 1) == whole@.take(k as int).push(whole@[k as int]));
        k += 1;
    }
    assert(whole@.take(k as int) =~= whole@);
    out.push('.');
    out.push(ds[((m % 100) / 10) as usize]);
    out.push(ds[(m % 10) as usize]);
    proof {
        let mm = (if (v as int) < 0 {
            -(v as int)
        } else {
            v as int
        }) as nat;
        assert(mm == m as nat);
        let sign = if (v as int) < 0 {
            "-"@
        } else {
            ""@
        };
        reveal_strlit("-");
        reveal_strlit("");
        assert(head =~= sign);
        assert(out@ =~= sign + decimal_text(mm / 100) + seq!['.', digits()[((mm % 100) / 10) as int], digits()[(mm % 10) as int]]);
    }
    string_of(out.as_slice())
}

/// A measure aggregated over a room's matches.
fn measure_total(values: &[String]) -> (r: String)
    ensures
        r@ == group_measure(values.deep_view()),
{
    let ghost d = values.deep_view();
    let mut total: i128 = 0;
    let mut i: usize = 0;
    while i < values.len()
        invariant
            i <= values@.len(),
            d == values.deep_view(),
            total_of(d.take(i as int)) == Some(total as int),
            -(i as int) * 1_000_000_000_000_000_000 <= total <= (i as int) * 1_000_000_000_000_000_000,
        decreases values@.len() - i,
    {
        assert(d[i as int] == values@[i as int]@);
        assert(d.take(i + 1).drop_last() =~= d.take(i as int));
        assert(d.take(i + 1).last() == d[i as int]);
        if !values[i].as_str().is_empty() {
            match crate::decimal::hundredths_exec(values[i].as_str()) {
                Some(v) => {
                    assert((i as int) < usize::MAX);
                    assert((i as int + 1) * 1_000_000_000_000_000_000 <= 18_446_744_073_709_551_616 * 1_000_000_000_000_000_000);
                    total = total + v;
                },
                None => {
                    proof {
                        lemma_total_stays_none(d, (i + 1) as int);
                    }
                    return distinct(values);
                },
            }
        } else {
            assert(d[i as int].len() == 0);
        }
        i += 1;
    }
    assert(d.take(i as int) =~= d);
    two_decimals_exec(total)
}

/// Once a value that is not a number is met, the total stays undefined.
proof fn lemma_total_stays_none(values: Seq<Seq<char>>, k: int)
    requires
        0 <= k <= values.len(),
        total_of(values.take(k)) is None,
    ensures
        total_of(values) is None,
    decreases values.len() - k,
{
    if k < values.len() {
        assert(values.take(k + 1).drop_last() =~= values.take(k));
        lemma_total_stays_none(values, k + 1);
    } else {
        assert(values.take(k) =~= values);
    }
}

/// One room with its matches aggregated.
pub fn grouped_row(
    def: &ReportDefinition,
    ks: &Sources,
    room: Option<&RoomResponse>,
    elements: &[Element],
    shown: &[(usize, Option<usize>)],
) -> (r: Vec<String>)
    requires
        members_valid(elements.deep_view(), shown@),
    ensures
        r.deep_view() == grouped_row_of(
            *def,
            ks.deep_view(),
            match room {
                Some(x) => Some(x.deep_view()),
                None => None,
            },
            members_view(elements.deep_view(), shown@),
        ),
{
    let ghost mv = members_view(elements.deep_view(), shown@);
    let ghost ekd = ks.element.deep_view();
    let rk = ks.room.as_slice();
    let ek = ks.element.as_slice();
    assert(rk.deep_view() =~= ks.room.deep_view());
    assert(ek.deep_view() =~= ekd);
    let rc = def.room_columns.as_slice();
    assert(rc.deep_view() =~= def.room_columns.deep_view());
    let mut row = room_cells_exec(rc, room, rk);
    let ghost start = row.deep_view();
    row.push(usize_text(shown.len()));
    assert(row.deep_view() =~= start + seq![decimal_text(mv.len())]);
    let ghost mid = row.deep_view();
    let ghost cd = def.columns.deep_view();
    let mut c: usize = 0;
    while c < def.columns.len()
        invariant
            c <= def.columns@.len(),
            cd == def.columns.deep_view(),
            members_valid(elements.deep_view(), shown@),
            mv == members_view(elements.deep_view(), shown@),
            ek.deep_view() == ekd,
            row.deep_view() == mid + cd.take(c as int).map_values(
                |col: Seq<char>| distinct_of(mv.map_values(|m: MemberV| element_cell_of(m.0, col, ekd))),
            ),
        decreases def.columns@.len() - c,
    {
        assert(cd[c as int] == def.columns@[c as int]@);
        let mut values: Vec<String> = Vec::new();
        let mut k: usize = 0;
        while k < shown.len()
            invariant
                k <= shown@.len(),
                c < cd.len(),
                cd == def.columns.deep_view(),
                members_valid(elements.deep_view(), shown@),
                mv == members_view(elements.deep_view(), shown@),
                ek.deep_view() == ekd,
                values.deep_view() == mv.take(k as int).map_values(
                    |m: MemberV| element_cell_of(m.0, cd[c as int], ekd),
                ),
            decreases shown@.len() - k,
        {
            let (e, _a) = member_at(elements, shown[k]);
            let ghost before = values.deep_view();
            values.push(element_cell(e, def.columns[c].as_str(), ek));
            assert(values.deep_view() =~= before.push(element_cell_of(mv[k as int].0, cd[c as int], ekd)));
            assert(values.deep_view() =~= mv.take(k + 1).map_values(
                |m: MemberV| element_cell_of(m.0, cd[c as int], ekd),
            ));
            k += 1;
        }
        assert(mv.take(k as int) =~= mv);
        let vs = values.as_slice();
        assert(vs.deep_view() =~= values.deep_view());
        let ghost before = row.deep_view();
        row.push(distinct(vs));
        assert(row.deep_view() =~= before.push(
            distinct_of(mv.map_values(|m: MemberV| element_cell_of(m.0, cd[c as int], ekd))),
        ));
        assert(cd.take(c + 1).map_values(
            |col: Seq<char>| distinct_of(mv.map_values(|m: MemberV| element_cell_of(m.0, col, ekd))),
        ) =~= cd.take(c as int).map_values(
            |col: Seq<char>| distinct_of(mv.map_values(|m: MemberV| element_cell_of(m.0, col, ekd))),
        ).push(distinct_of(mv.map_values(|m: MemberV| element_cell_of(m.0, cd[c as int], ekd)))));
        assert(row.deep_view() =~= mid + cd.take(c + 1).map_values(
            |col: Seq<char>| distinct_of(mv.map_values(|m: MemberV| element_cell_of(m.0, col, ekd))),
        ));
        c += 1;
    }
    assert(cd.take(c as int) =~= cd);
    let ghost after_cols = row.deep_view();
    let ghost md = def.measures.deep_view();
    let mut n: usize = 0;
    while n < def.measures.len()
        invariant
            n <= def.measures@.len(),
            md == def.measures.deep_view(),
            members_valid(elements.deep_view(), shown@),
            mv == members_view(elements.deep_view(), shown@),
            row.deep_view() == after_cols + md.take(n as int).map_values(
                |name: Seq<char>| group_measure(mv.map_values(|m: MemberV| measure_value(m.1, name))),
            ),
        decreases def.measures@.len() - n,
    {
        assert(md[n as int] == def.measures@[n as int]@);
        let mut values: Vec<String> = Vec::new();
        let mut k: usize = 0;
        while k < shown.len()
            invariant
                k <= shown@.len(),
                n < md.len(),
                md == def.measures.deep_view(),
                members_valid(elements.deep_view(), shown@),
                mv == members_view(elements.deep_view(), shown@),
                values.deep_view() == mv.take(k as int).map_values(|m: MemberV| measure_value(m.1, md[n as int])),
            decreases shown@.len() - k,
        {
            let (_e, a) = member_at(elements, shown[k]);
            let ghost before = values.deep_view();
            values.push(measure_of(a, def.measures[n].as_str()));
            assert(values.deep_view() =~= before.push(measure_value(mv[k as int].1, md[n as int])));
            assert(values.deep_view() =~= mv.take(k + 1).map_values(|m: MemberV| measure_value(m.1, md[n as int])));
            k += 1;
        }
        assert(mv.take(k as int) =~= mv);
        let vs = values.as_slice();
        assert(vs.deep_view() =~= values.deep_view());
        let cell = measure_total(vs);
        let ghost before = row.deep_view();
        row.push(cell);
        assert(row.deep_view() =~= before.push(
            group_measure(mv.map_values(|m: MemberV| measure_value(m.1, md[n as int]))),
        ));
        assert(md.take(n + 1).map_values(
            |name: Seq<char>| group_measure(mv.map_values(|m: MemberV| measure_value(m.1, name))),
        ) =~= md.take(n as int).map_values(
            |name: Seq<char>| group_measure(mv.map_values(|m: MemberV| measure_value(m.1, name))),
        ).push(group_measure(mv.map_values(|m: MemberV| measure_value(m.1, md[n as int])))));
        assert(row.deep_view() =~= after_cols + md.take(n + 1).map_values(
            |name: Seq<char>| group_measure(mv.map_values(|m: MemberV| measure_value(m.1, name))),
        ));
        n += 1;
    }
    assert(md.take(n as int) =~= md);
    row
}


/// Whether an element no room matched is listed: with no filter, or when its
/// own one-member group survives.
pub open spec fn unattributed_passes(def: ReportDefinition, e: ElementV) -> bool {
    match def.filter {
        Some(f) => filter_empty(f) || survives(f, None, seq![(e, None::<AttributionV>)]),
        None => true,
    }
}

/// The per-match rows of one element's attributions, in order.
pub open spec fn attr_rows(
    def: ReportDefinition,
    ks: SourcesV,
    rooms: Seq<RoomResponseV>,
    all: Seq<ElementV>,
    e: ElementV,
    attrs: Seq<AttributionV>,
) -> Seq<Seq<Seq<char>>>
    decreases attrs.len(),
{
    if attrs.len() == 0 {
        Seq::empty()
    } else {
        let rest = attr_rows(def, ks, rooms, all, e, attrs.drop_last());
        let a = attrs.last();
        if key_survives(def, rooms, all, a.model_id, a.room_id) && listed(def, e, Some(a)) {
            rest.push(match_row_of(def, ks, e, a, room_at(rooms, a.model_id, a.room_id)))
        } else {
            rest
        }
    }
}

/// The per-match rows, element by element in their own order.
pub open spec fn per_match_of(
    def: ReportDefinition,
    ks: SourcesV,
    rooms: Seq<RoomResponseV>,
    all: Seq<ElementV>,
    elements: Seq<ElementV>,
) -> Seq<Seq<Seq<char>>>
    decreases elements.len(),
{
    if elements.len() == 0 {
        Seq::empty()
    } else {
        let e = elements.last();
        per_match_of(def, ks, rooms, all, elements.drop_last()) + if e.rooms.len() == 0 {
            if def.include_unattributed && unattributed_passes(def, e) {
                seq![unattributed_row_of(def, ks, e)]
            } else {
                Seq::empty()
            }
        } else {
            attr_rows(def, ks, rooms, all, e, e.rooms)
        }
    }
}

/// How many elements no room matched are listed.
pub open spec fn unattributed_count(def: ReportDefinition, elements: Seq<ElementV>) -> nat
    decreases elements.len(),
{
    if elements.len() == 0 {
        0
    } else {
        let e = elements.last();
        unattributed_count(def, elements.drop_last()) + if e.rooms.len() == 0 && def.include_unattributed
            && unattributed_passes(def, e) {
            1nat
        } else {
            0nat
        }
    }
}

/// The matches a kept room lists.
pub open spec fn shown_of(def: ReportDefinition, members: Seq<MemberV>) -> Seq<MemberV>
    decreases members.len(),
{
    if members.len() == 0 {
        Seq::empty()
    } else {
        let rest = shown_of(def, members.drop_last());
        let m = members.last();
        if listed(def, m.0, m.1) {
            rest.push(m)
        } else {
            rest
        }
    }
}

/// The grouped rows, one per kept room in `(model, room)` order.
pub open spec fn per_room_of(
    def: ReportDefinition,
    ks: SourcesV,
    rooms: Seq<RoomResponseV>,
    all: Seq<ElementV>,
    keys: Seq<Seq<Seq<char>>>,
) -> Seq<Seq<Seq<char>>>
    decreases keys.len(),
{
    if keys.len() == 0 {
        Seq::empty()
    } else {
        let rest = per_room_of(def, ks, rooms, all, keys.drop_last());
        let k = keys.last();
        if key_survives(def, rooms, all, k[0], k[1]) {
            rest.push(grouped_row_of(def, ks, room_at(rooms, k[0], k[1]), shown_of(def, members_of(all, k[0], k[1]))))
        } else {
            rest
        }
    }
}

/// The grouped rows of elements no room matched, each its own group.
pub open spec fn unattributed_groups(def: ReportDefinition, ks: SourcesV, elements: Seq<ElementV>) -> Seq<Seq<Seq<char>>>
    decreases elements.len(),
{
    if elements.len() == 0 {
        Seq::empty()
    } else {
        let rest = unattributed_groups(def, ks, elements.drop_last());
        let e = elements.last();
        if e.rooms.len() == 0 && unattributed_passes(def, e) {
            rest.push(grouped_row_of(def, ks, None, seq![(e, None::<AttributionV>)]))
        } else {
            rest
        }
    }
}

/// Whether rooms nothing matched are listed: when asked for, or when the
/// filter asks about rooms without a match of some kind; never when the
/// filter only asks for a match they cannot have.
pub open spec fn lonely_listed(def: ReportDefinition) -> bool {
    let asks_for = filtering(def) && filter_has(def.filter.unwrap(), Side::Element, true);
    let asks_against = filtering(def) && filter_has(def.filter.unwrap(), Side::Element, false);
    (def.include_rooms_without || asks_for) && !(asks_against && !asks_for)
}

/// The rooms in scope nothing matched that survive the filter.
pub open spec fn lonely_rooms(def: ReportDefinition, all: Seq<ElementV>, rooms: Seq<RoomResponseV>) -> Seq<RoomResponseV>
    decreases rooms.len(),
{
    if rooms.len() == 0 {
        Seq::empty()
    } else {
        let rest = lonely_rooms(def, all, rooms.drop_last());
        let r = rooms.last();
        let unmatched = members_of(all, r.model_id, r.room.id).len() == 0;
        let passes = match def.filter {
            Some(f) => filter_empty(f) || survives(f, Some(r), Seq::empty()),
            None => true,
        };
        if unmatched && passes {
            rest.push(r)
        } else {
            rest
        }
    }
}

/// A by-room report's rows.
pub open spec fn by_room_of(def: ReportDefinition, ks: SourcesV, rooms: Seq<RoomResponseV>, all: Seq<ElementV>) -> Seq<Seq<Seq<char>>> {
    let main = if def.shape == Shape::PerMatch {
        per_match_of(def, ks, rooms, all, all)
    } else {
        per_room_of(def, ks, rooms, all, group_keys(all)) + if def.include_unattributed {
            unattributed_groups(def, ks, all)
        } else {
            Seq::empty()
        }
    };
    main + if lonely_listed(def) {
        lonely_rooms(def, all, rooms).map_values(|r: RoomResponseV| room_only_row_of(def, ks, r))
    } else {
        Seq::empty()
    }
}

/// How many of a by-room report's rows are unmatched.
pub open spec fn by_room_unmatched(def: ReportDefinition, rooms: Seq<RoomResponseV>, all: Seq<ElementV>) -> nat {
    unattributed_count(def, all) + if lonely_listed(def) {
        lonely_rooms(def, all, rooms).len()
    } else {
        0
    }
}


fn unattributed_passes_exec(def: &ReportDefinition, elements: &[Element], i: usize) -> (r: bool)
    requires
        i < elements@.len(),
    ensures
        r == unattributed_passes(*def, elements.deep_view()[i as int]),
{
    match &def.filter {
        Some(f) => {
            if f.is_empty() {
                true
            } else {
                let members: Vec<(usize, Option<usize>)> = vec![(i, None)];
                let ms = members.as_slice();
                assert(members_view(elements.deep_view(), ms@) =~= seq![(elements.deep_view()[i as int], None::<AttributionV>)]);
                room_survives(f, None, elements, ms)
            }
        },
        None => true,
    }
}

fn key_survives_exec(def: &ReportDefinition, rooms: &[RoomResponse], elements: &[Element], model: &str, room: &str) -> (r: bool)
    ensures
        r == key_survives(*def, rooms.deep_view(), elements.deep_view(), model@, room@),
{
    match &def.filter {
        Some(f) => {
            if f.is_empty() {
                true
            } else {
                let members = members_exec(elements, model, room);
                let at = room_at_exec(rooms, model, room);
                let ms = members.as_slice();
                room_survives(f, at, elements, ms)
            }
        },
        None => true,
    }
}

fn row_conds_exec(def: &ReportDefinition) -> (r: Vec<Condition>)
    ensures
        r.deep_view() == row_conds(*def),
{
    let mut conds: Vec<Condition> = Vec::new();
    match &def.filter {
        Some(f) => {
            f.row_filters(true, &mut conds);
            assert(conds.deep_view() =~= row_conditions(*f, true));
        },
        None => {
            assert(conds.deep_view() =~= Seq::<ConditionV>::empty());
        },
    }
    conds
}

/// The per-match rows, and how many of them are unattributed elements.
fn per_match_rows(def: &ReportDefinition, ks: &Sources, rooms: &[RoomResponse], elements: &[Element], conds: &[Condition]) -> (r: (Vec<Vec<String>>, usize))
    requires
        conds.deep_view() == row_conds(*def),
    ensures
        r.0.deep_view() == per_match_of(*def, ks.deep_view(), rooms.deep_view(), elements.deep_view(), elements.deep_view()),
        r.1 == unattributed_count(*def, elements.deep_view()),
        r.1 <= r.0@.len(),
{
    let ghost d = elements.deep_view();
    let ghost rv = rooms.deep_view();
    let mut rows: Vec<Vec<String>> = Vec::new();
    let mut unmatched: usize = 0;
    let mut i: usize = 0;
    while i < elements.len()
        invariant
            i <= elements@.len(),
            d == elements.deep_view(),
            rv == rooms.deep_view(),
            conds.deep_view() == row_conds(*def),
            rows.deep_view() == per_match_of(*def, ks.deep_view(), rv, d, d.take(i as int)),
            unmatched == unattributed_count(*def, d.take(i as int)),
            unmatched <= rows@.len(),
        decreases elements@.len() - i,
    {
        let e = &elements[i];
        assert(e.deep_view() == d[i as int]);
        assert(d.take(i + 1).drop_last() =~= d.take(i as int));
        let ghost base = rows.deep_view();
        if e.rooms.len() == 0 {
            if def.include_unattributed && unattributed_passes_exec(def, elements, i) {
                rows.push(unattributed_row(def, ks, e));
                assert(rows.deep_view() =~= base + seq![unattributed_row_of(*def, ks.deep_view(), d[i as int])]);
                let listed = rows.len();
                assert(unmatched < listed);
                unmatched += 1;
            } else {
                assert(rows.deep_view() =~= base + Seq::<Seq<Seq<char>>>::empty());
            }
        } else {
            let ghost ad = e.rooms.deep_view();
            let mut k: usize = 0;
            proof {
                assert(ad.take(0) =~= Seq::<AttributionV>::empty());
                assert(rows.deep_view() =~= base + attr_rows(*def, ks.deep_view(), rv, d, d[i as int], ad.take(0)));
            }
            while k < e.rooms.len()
                invariant
                    k <= e.rooms@.len(),
                    i < d.len(),
                    e.deep_view() == d[i as int],
                    ad == e.rooms.deep_view(),
                    d == elements.deep_view(),
                    rv == rooms.deep_view(),
                    conds.deep_view() == row_conds(*def),
                    unmatched <= rows@.len(),
                    rows.deep_view() == base + attr_rows(*def, ks.deep_view(), rv, d, d[i as int], ad.take(k as int)),
                decreases e.rooms@.len() - k,
            {
                let a = &e.rooms[k];
                assert(a.deep_view() == ad[k as int]);
                assert(ad.take(k + 1).drop_last() =~= ad.take(k as int));
                let ghost before = rows.deep_view();
                if key_survives_exec(def, rooms, elements, a.model_id.as_str(), a.room_id.as_str()) && listed_exec(
                    conds,
                    e,
                    Some(a),
                ) {
                    let room = room_at_exec(rooms, a.model_id.as_str(), a.room_id.as_str());
                    rows.push(match_row(def, ks, e, a, room));
                    assert(rows.deep_view() =~= before.push(
                        match_row_of(*def, ks.deep_view(), d[i as int], ad[k as int], room_at(rv, ad[k as int].model_id, ad[k as int].room_id)),
                    ));
                }
                k += 1;
            }
            assert(ad.take(k as int) =~= ad);
        }
        i += 1;
    }
    assert(d.take(i as int) =~= d);
    (rows, unmatched)
}

/// The matches a kept room lists, by index.
fn shown_exec(elements: &[Element], members: &[(usize, Option<usize>)], def: &ReportDefinition, conds: &[Condition]) -> (r: Vec<(usize, Option<usize>)>)
    requires
        members_valid(elements.deep_view(), members@),
        conds.deep_view() == row_conds(*def),
    ensures
        members_valid(elements.deep_view(), r@),
        members_view(elements.deep_view(), r@) == shown_of(*def, members_view(elements.deep_view(), members@)),
{
    let ghost mv = members_view(elements.deep_view(), members@);
    let mut out: Vec<(usize, Option<usize>)> = Vec::new();
    let mut i: usize = 0;
    while i < members.len()
        invariant
            i <= members@.len(),
            members_valid(elements.deep_view(), members@),
            members_valid(elements.deep_view(), out@),
            mv == members_view(elements.deep_view(), members@),
            conds.deep_view() == row_conds(*def),
            members_view(elements.deep_view(), out@) == shown_of(*def, mv.take(i as int)),
        decreases members@.len() - i,
    {
        let m = members[i];
        let (e, a) = member_at(elements, m);
        assert(mv.take(i + 1).drop_last() =~= mv.take(i as int));
        assert(mv[i as int] == (e.deep_view(), opt_attr(a)));
        let ghost before = out@;
        if listed_exec(conds, e, a) {
            out.push(m);
            assert(members_view(elements.deep_view(), out@) =~= members_view(elements.deep_view(), before).push(mv[i as int]));
        }
        i += 1;
    }
    assert(mv.take(i as int) =~= mv);
    out
}

/// The grouped rows for the rooms matched.
fn per_room_rows(def: &ReportDefinition, ks: &Sources, rooms: &[RoomResponse], elements: &[Element], conds: &[Condition]) -> (r: Vec<Vec<String>>)
    requires
        conds.deep_view() == row_conds(*def),
    ensures
        r.deep_view() == per_room_of(*def, ks.deep_view(), rooms.deep_view(), elements.deep_view(), group_keys(elements.deep_view())),
{
    let keys = group_keys_exec(elements);
    let ghost kd = keys.deep_view();
    let ghost d = elements.deep_view();
    let ghost rv = rooms.deep_view();
    let mut rows: Vec<Vec<String>> = Vec::new();
    let mut i: usize = 0;
    while i < keys.len()
        invariant
            i <= keys@.len(),
            kd == keys.deep_view(),
            kd == group_keys(d),
            forall|j: int| 0 <= j < kd.len() ==> (#[trigger] kd[j]).len() == 2,
            d == elements.deep_view(),
            rv == rooms.deep_view(),
            conds.deep_view() == row_conds(*def),
            rows.deep_view() == per_room_of(*def, ks.deep_view(), rv, d, kd.take(i as int)),
        decreases keys@.len() - i,
    {
        assert(kd[i as int] == keys@[i as int].deep_view());
        assert(kd.take(i + 1).drop_last() =~= kd.take(i as int));
        let key = &keys[i];
        assert(key@.len() == 2);
        assert(key.deep_view()[0] == key@[0]@);
        assert(key.deep_view()[1] == key@[1]@);
        let model = key[0].as_str();
        let room = key[1].as_str();
        let ghost before = rows.deep_view();
        if key_survives_exec(def, rooms, elements, model, room) {
            let members = members_exec(elements, model, room);
            let shown = shown_exec(elements, members.as_slice(), def, conds);
            let at = room_at_exec(rooms, model, room);
            rows.push(grouped_row(def, ks, at, elements, shown.as_slice()));
            assert(rows.deep_view() =~= before.push(
                grouped_row_of(*def, ks.deep_view(), room_at(rv, kd[i as int][0], kd[i as int][1]), shown_of(*def, members_of(d, kd[i as int][0], kd[i as int][1]))),
            ));
        }
        i += 1;
    }
    assert(kd.take(i as int) =~= kd);
    rows
}

/// The grouped rows of elements no room matched, each its own group.
fn unattributed_group_rows(def: &ReportDefinition, ks: &Sources, elements: &[Element]) -> (r: Vec<Vec<String>>)
    requires
        def.include_unattributed,
    ensures
        r.deep_view() == unattributed_groups(*def, ks.deep_view(), elements.deep_view()),
        r@.len() == unattributed_count(*def, elements.deep_view()),
{
    let ghost d = elements.deep_view();
    let mut rows: Vec<Vec<String>> = Vec::new();
    let mut i: usize = 0;
    while i < elements.len()
        invariant
            i <= elements@.len(),
            d == elements.deep_view(),
            def.include_unattributed,
            rows.deep_view() == unattributed_groups(*def, ks.deep_view(), d.take(i as int)),
            rows@.len() == unattributed_count(*def, d.take(i as int)),
        decreases elements@.len() - i,
    {
        assert(elements@[i as int].deep_view() == d[i as int]);
        assert(d.take(i + 1).drop_last() =~= d.take(i as int));
        let ghost before = rows.deep_view();
        if elements[i].rooms.len() == 0 && unattributed_passes_exec(def, elements, i) {
            let members: Vec<(usize, Option<usize>)> = vec![(i, None)];
            let ms = members.as_slice();
            assert(members_view(d, ms@) =~= seq![(d[i as int], None::<AttributionV>)]);
            rows.push(grouped_row(def, ks, None, elements, ms));
            assert(rows.deep_view() =~= before.push(grouped_row_of(*def, ks.deep_view(), None, seq![(d[i as int], None::<AttributionV>)])));
        }
        i += 1;
    }
    assert(d.take(i as int) =~= d);
    rows
}

/// The rows of the rooms in scope nothing matched that survive the filter.
fn rooms_with_nothing(def: &ReportDefinition, ks: &Sources, rooms: &[RoomResponse], elements: &[Element]) -> (r: Vec<Vec<String>>)
    ensures
        r.deep_view() == lonely_rooms(*def, elements.deep_view(), rooms.deep_view()).map_values(
            |x: RoomResponseV| room_only_row_of(*def, ks.deep_view(), x),
        ),
{
    let ghost d = elements.deep_view();
    let ghost rv = rooms.deep_view();
    let no_members: Vec<(usize, Option<usize>)> = Vec::new();
    let nm = no_members.as_slice();
    assert(members_view(d, nm@) =~= Seq::<MemberV>::empty());
    let mut rows: Vec<Vec<String>> = Vec::new();
    let mut i: usize = 0;
    while i < rooms.len()
        invariant
            i <= rooms@.len(),
            d == elements.deep_view(),
            rv == rooms.deep_view(),
            nm@.len() == 0,
            members_view(d, nm@) == Seq::<MemberV>::empty(),
            rows.deep_view() == lonely_rooms(*def, d, rv.take(i as int)).map_values(
                |x: RoomResponseV| room_only_row_of(*def, ks.deep_view(), x),
            ),
        decreases rooms@.len() - i,
    {
        let room = &rooms[i];
        assert(room.deep_view() == rv[i as int]);
        assert(rv.take(i + 1).drop_last() =~= rv.take(i as int));
        let ghost before = rows.deep_view();
        let ghost prev = lonely_rooms(*def, d, rv.take(i as int));
        let members = members_exec(elements, room.model_id.as_str(), room.room.id.as_str());
        let passes = match &def.filter {
            Some(f) => f.is_empty() || room_survives(f, Some(room), elements, nm),
            None => true,
        };
        if members.len() == 0 && passes {
            rows.push(room_only_row(def, ks, room));
            assert(lonely_rooms(*def, d, rv.take(i + 1)) == prev.push(rv[i as int]));
            assert(rows.deep_view() =~= before.push(room_only_row_of(*def, ks.deep_view(), rv[i as int])));
            assert(rows.deep_view() =~= prev.push(rv[i as int]).map_values(
                |x: RoomResponseV| room_only_row_of(*def, ks.deep_view(), x),
            ));
        } else {
            assert(lonely_rooms(*def, d, rv.take(i + 1)) == prev);
        }
        i += 1;
    }
    assert(rv.take(i as int) =~= rv);
    rows
}

/// A by-room report over the rooms in scope and the elements read, before
/// its revision and limit are set.
pub fn by_room_rows(def: &ReportDefinition, ks: &Sources, rooms: &[RoomResponse], elements: &[Element]) -> (r: ReportResult)
    ensures
        r.rows.deep_view() == by_room_of(*def, ks.deep_view(), rooms.deep_view(), elements.deep_view()),
        r.unmatched_rows == by_room_unmatched(*def, rooms.deep_view(), elements.deep_view()),
        r.columns.deep_view() == def_columns(*def),
        r.total_rows == 0,
        r.revision@ == Seq::<char>::empty(),
{
    let ghost d = elements.deep_view();
    let ghost rv = rooms.deep_view();
    let conds = row_conds_exec(def);
    let mut rows: Vec<Vec<String>>;
    let mut unmatched: usize;
    if def.shape == Shape::PerMatch {
        let (r, n) = per_match_rows(def, ks, rooms, elements, conds.as_slice());
        rows = r;
        unmatched = n;
    } else {
        rows = per_room_rows(def, ks, rooms, elements, conds.as_slice());
        if def.include_unattributed {
            let mut extra = unattributed_group_rows(def, ks, elements);
            unmatched = extra.len();
            let ghost before = rows.deep_view();
            let ghost ed = extra.deep_view();
            rows.append(&mut extra);
            assert(rows.deep_view() =~= before + ed);
        } else {
            unmatched = 0;
            assert(unattributed_count(*def, d) == 0) by {
                lemma_unattributed_count_off(*def, d);
            }
            assert(rows.deep_view() =~= rows.deep_view() + Seq::<Seq<Seq<char>>>::empty());
        }
    }
    assert(unmatched <= rows@.len());
    let ghost main = rows.deep_view();
    let listed_lonely = lonely_listed_exec(def);
    if listed_lonely {
        let mut lonely = rooms_with_nothing(def, ks, rooms, elements);
        let ghost lr = lonely_rooms(*def, d, rv);
        let ghost ld = lonely.deep_view();
        assert(ld.len() == lr.len());
        let added = lonely.len();
        rows.append(&mut lonely);
        assert(rows.deep_view() =~= main + ld);
        let total = rows.len();
        assert(unmatched + added <= total);
        unmatched = unmatched + added;
    } else {
        assert(rows.deep_view() =~= main + Seq::<Seq<Seq<char>>>::empty());
    }
    ReportResult { revision: String::new(), columns: columns_for(def), rows, total_rows: 0, unmatched_rows: unmatched }
}

fn lonely_listed_exec(def: &ReportDefinition) -> (r: bool)
    ensures
        r == lonely_listed(*def),
{
    let (asks_for, asks_against) = match &def.filter {
        Some(f) => {
            let on = !f.is_empty();
            (on && f.has(Side::Element, true), on && f.has(Side::Element, false))
        },
        None => (false, false),
    };
    (def.include_rooms_without || asks_for) && !(asks_against && !asks_for)
}

/// Nothing unattributed is counted when unattributed elements are not listed.
proof fn lemma_unattributed_count_off(def: ReportDefinition, elements: Seq<ElementV>)
    requires
        !def.include_unattributed,
    ensures
        unattributed_count(def, elements) == 0,
    decreases elements.len(),
{
    if elements.len() > 0 {
        lemma_unattributed_count_off(def, elements.drop_last());
    }
}

/// A room read as a report element: attributed to itself, measuring nothing.
pub open spec fn room_element(r: RoomResponseV) -> ElementV {
    ElementV {
        read: RecordV::Room(r),
        rooms: seq![AttributionV { model_id: r.model_id, room_id: r.room.id, measures: Seq::empty() }],
    }
}

fn room_elements(rooms: Vec<RoomResponse>) -> (r: Vec<Element>)
    ensures
        r.deep_view() == rooms.deep_view().map_values(|x: RoomResponseV| room_element(x)),
{
    let ghost orig = rooms@;
    let mut out: Vec<Element> = Vec::new();
    for room in it: rooms.into_iter()
        invariant
            it.seq() == orig,
            out.deep_view() == orig.take(it.index() as int).map_values(|x: RoomResponse| room_element(x.deep_view())),
    {
        let model_id = room.model_id.dup();
        let room_id = room.room.id.dup();
        let ghost rv = room.deep_view();
        let ghost before = out.deep_view();
        let measures: Vec<Field> = Vec::new();
        assert(measures.deep_view() =~= Seq::<FieldV>::empty());
        let mut attrs: Vec<Attribution> = Vec::new();
        attrs.push(Attribution { model_id, room_id, measures });
        assert(attrs.deep_view() =~= room_element(rv).rooms);
        let e = Element { read: Record::Room(room), rooms: attrs };
        assert(e.deep_view() == room_element(rv));
        out.push(e);
        assert(out.deep_view() =~= before.push(room_element(rv)));
    }
    proof {
        assert(orig.take(orig.len() as int) =~= orig);
        assert(rooms.deep_view() =~= orig.map_values(|x: RoomResponse| x.deep_view()));
    }
    assert(out.deep_view() =~= rooms.deep_view().map_values(|x: RoomResponseV| room_element(x)));
    out
}

/// One owning room as an attribution carrying the given measures.
pub open spec fn owner_attribution(o: RoomRefV, measures: Seq<FieldV>) -> AttributionV {
    AttributionV { model_id: o.model_id, room_id: o.room_id, measures }
}

fn attributions(owners: &[RoomRef], measures: &Vec<Field>) -> (r: Vec<Attribution>)
    ensures
        r.deep_view() == owners.deep_view().map_values(|o: RoomRefV| owner_attribution(o, measures.deep_view())),
{
    let ghost d = owners.deep_view();
    let ghost md = measures.deep_view();
    let mut out: Vec<Attribution> = Vec::new();
    let mut i: usize = 0;
    while i < owners.len()
        invariant
            i <= owners@.len(),
            d == owners.deep_view(),
            md == measures.deep_view(),
            out.deep_view() == d.take(i as int).map_values(|o: RoomRefV| owner_attribution(o, md)),
        decreases owners@.len() - i,
    {
        assert(owners@[i as int].deep_view() == d[i as int]);
        let ghost before = out.deep_view();
        out.push(Attribution { model_id: owners[i].model_id.dup(), room_id: owners[i].room_id.dup(), measures: measures.dup() });
        assert(d.take(i + 1) =~= d.take(i as int).push(d[i as int]));
        assert(out.deep_view() =~= before.push(owner_attribution(d[i as int], md)));
        i += 1;
    }
    assert(d.take(i as int) =~= d);
    out
}

/// A door or window read as a report element: attributed to its owning
/// rooms, measuring nothing.
pub open spec fn opening_element(o: OpeningResponseV) -> ElementV {
    ElementV {
        read: RecordV::Opening(o),
        rooms: o.owner_rooms_qualified.map_values(|r: RoomRefV| owner_attribution(r, Seq::empty())),
    }
}

fn opening_elements(openings: Vec<OpeningResponse>) -> (r: Vec<Element>)
    ensures
        r.deep_view() == openings.deep_view().map_values(|x: OpeningResponseV| opening_element(x)),
{
    let ghost orig = openings@;
    let none: Vec<Field> = Vec::new();
    assert(none.deep_view() =~= Seq::<FieldV>::empty());
    let mut out: Vec<Element> = Vec::new();
    for opening in it: openings.into_iter()
        invariant
            it.seq() == orig,
            none.deep_view() == Seq::<FieldV>::empty(),
            out.deep_view() == orig.take(it.index() as int).map_values(|x: OpeningResponse| opening_element(x.deep_view())),
    {
        let owners = opening.owner_rooms_qualified.as_slice();
        let ghost ov = opening.deep_view();
        assert(owners.deep_view() =~= ov.owner_rooms_qualified);
        let rooms = attributions(owners, &none);
        let ghost before = out.deep_view();
        let e = Element { read: Record::Opening(opening), rooms };
        assert(e.deep_view() =~= opening_element(ov));
        out.push(e);
        assert(out.deep_view() =~= before.push(opening_element(ov)));
    }
    proof {
        assert(orig.take(orig.len() as int) =~= orig);
    }
    assert(out.deep_view() =~= openings.deep_view().map_values(|x: OpeningResponseV| opening_element(x)));
    out
}

/// An item read as a report element: attributed to its owning room, with
/// where that room came from as the measure `room_origin`.
pub open spec fn item_element(i: ItemResponseV) -> ElementV {
    ElementV {
        read: RecordV::Item(i),
        rooms: i.owner_rooms_qualified.map_values(
            |r: RoomRefV| owner_attribution(r, seq![FieldV { name: "room_origin"@, value: origin_label(i.room_origin) }]),
        ),
    }
}

fn item_elements(items: Vec<ItemResponse>) -> (r: Vec<Element>)
    ensures
        r.deep_view() == items.deep_view().map_values(|x: ItemResponseV| item_element(x)),
{
    let ghost orig = items@;
    let mut out: Vec<Element> = Vec::new();
    for item in it: items.into_iter()
        invariant
            it.seq() == orig,
            out.deep_view() == orig.take(it.index() as int).map_values(|x: ItemResponse| item_element(x.deep_view())),
    {
        let ghost iv = item.deep_view();
        let mut measures: Vec<Field> = Vec::new();
        measures.push(Field { name: owned("room_origin"), value: item.room_origin.label() });
        assert(measures.deep_view() =~= seq![FieldV { name: "room_origin"@, value: origin_label(iv.room_origin) }]);
        let owners = item.owner_rooms_qualified.as_slice();
        assert(owners.deep_view() =~= iv.owner_rooms_qualified);
        let rooms = attributions(owners, &measures);
        let ghost before = out.deep_view();
        let e = Element { read: Record::Item(item), rooms };
        assert(e.deep_view() =~= item_element(iv));
        out.push(e);
        assert(out.deep_view() =~= before.push(item_element(iv)));
    }
    proof {
        assert(orig.take(orig.len() as int) =~= orig);
    }
    assert(out.deep_view() =~= items.deep_view().map_values(|x: ItemResponseV| item_element(x)));
    out
}

/// What geometry resolved for the elements a report reads: each opening's
/// sides and each item's room, where the model stated none.
pub struct Geometry {
    pub door_sides: Vec<DerivedSides>,
    pub window_sides: Vec<DerivedSides>,
    pub item_rooms: Vec<DerivedRoom>,
    /// The rooms each ceiling lies over, with what the overlap measured.
    pub ceiling_rooms: Vec<DerivedCeilingRooms>,
}

/// The rooms in a report's scope, as `/rooms` would serve them unfiltered.
pub open spec fn rooms_in_scope(state: AppState, project: Option<Seq<char>>, milestone: Option<Seq<char>>, building: Option<Seq<char>>) -> Seq<RoomResponseV> {
    scoped_rooms(state, rooms_scoped_of(state, project, milestone), milestone, building, None)
}

/// One entity read in a report's scope and flattened to elements; `None`
/// when nothing of it was ever pushed. The library keeps no floors or
/// spaces, so of those nothing ever was. A ceiling is in no building, so a
/// ceilings read ignores the building.
pub open spec fn elements_of(
    state: AppState,
    entity: Entity,
    project: Option<Seq<char>>,
    milestone: Option<Seq<char>>,
    building: Option<Seq<char>>,
    geometry: Geometry,
) -> Option<Seq<ElementV>> {
    match entity {
        Entity::Rooms => room_elements_of(state, project, milestone, building),
        Entity::Doors => opening_elements_of(state, OpeningKind::Doors, project, milestone, building, geometry.door_sides.deep_view()),
        Entity::Windows => opening_elements_of(state, OpeningKind::Windows, project, milestone, building, geometry.window_sides.deep_view()),
        Entity::Ffe => item_elements_of(state, project, milestone, building, geometry.item_rooms.deep_view()),
        Entity::Ceilings => ceiling_elements_of(state, project, milestone, geometry.ceiling_rooms.deep_view()),
        _ => None,
    }
}

/// Rooms read in a report's scope, as elements.
pub open spec fn room_elements_of(
    state: AppState,
    project: Option<Seq<char>>,
    milestone: Option<Seq<char>>,
    building: Option<Seq<char>>,
) -> Option<Seq<ElementV>> {
    if has_any(state.index.deep_view(), SnapshotKind::Rooms) {
        Some(rooms_in_scope(state, project, milestone, building).map_values(|r: RoomResponseV| room_element(r)))
    } else {
        None
    }
}

/// Items read in a report's scope, as elements.
pub open spec fn item_elements_of(
    state: AppState,
    project: Option<Seq<char>>,
    milestone: Option<Seq<char>>,
    building: Option<Seq<char>>,
    derived: Seq<DerivedRoomV>,
) -> Option<Seq<ElementV>> {
    if has_any(state.index.deep_view(), SnapshotKind::Ffe) {
        Some(
            scoped_items(
                state,
                items_scoped_of(state, project, milestone),
                derived,
                if building is Some {
                    scope_buildings(state, project, milestone)
                } else {
                    Seq::empty()
                },
                building,
                None,
            ).map_values(|i: ItemResponseV| item_element(i)),
        )
    } else {
        None
    }
}

/// Doors or windows read in a report's scope, as elements.
pub open spec fn opening_elements_of(
    state: AppState,
    kind: OpeningKind,
    project: Option<Seq<char>>,
    milestone: Option<Seq<char>>,
    building: Option<Seq<char>>,
    derived: Seq<DerivedSidesV>,
) -> Option<Seq<ElementV>> {
    if has_any(state.index.deep_view(), opening_snapshot_kind(kind)) {
        Some(
            scoped_openings(
                state,
                kind,
                openings_scoped_of(state, kind, project, milestone),
                derived,
                consulted_buildings(state, project, milestone, building),
                building,
                None,
            ).map_values(|o: OpeningResponseV| opening_element(o)),
        )
    } else {
        None
    }
}

/// A ceiling read as a report element: attributed to each room it lies
/// over, with what the overlap measured.
pub open spec fn ceiling_element(c: CeilingResponseV) -> ElementV {
    ElementV {
        read: RecordV::Ceiling(c),
        rooms: c.rooms.map_values(
            |r: CeilingRoomV| AttributionV { model_id: r.room.model_id, room_id: r.room.room_id, measures: r.measures },
        ),
    }
}

/// Ceilings read in a report's scope, as elements.
pub open spec fn ceiling_elements_of(
    state: AppState,
    project: Option<Seq<char>>,
    milestone: Option<Seq<char>>,
    derived: Seq<DerivedCeilingRoomsV>,
) -> Option<Seq<ElementV>> {
    if has_any(state.index.deep_view(), SnapshotKind::Ceilings) {
        Some(scoped_ceilings(ceilings_scoped_of(state, project, milestone), derived).map_values(|c: CeilingResponseV| ceiling_element(c)))
    } else {
        None
    }
}

fn ceiling_elements(ceilings: Vec<CeilingResponse>) -> (r: Vec<Element>)
    ensures
        r.deep_view() == ceilings.deep_view().map_values(|x: CeilingResponseV| ceiling_element(x)),
{
    let ghost orig = ceilings@;
    let mut out: Vec<Element> = Vec::new();
    for ceiling in it: ceilings.into_iter()
        invariant
            it.seq() == orig,
            out.deep_view() == orig.take(it.index() as int).map_values(|x: CeilingResponse| ceiling_element(x.deep_view())),
    {
        let ghost cv = ceiling.deep_view();
        let ghost f = |r: CeilingRoomV| AttributionV { model_id: r.room.model_id, room_id: r.room.room_id, measures: r.measures };
        let mut rooms: Vec<Attribution> = Vec::new();
        let mut k: usize = 0;
        while k < ceiling.rooms.len()
            invariant
                k <= cv.rooms.len(),
                cv == ceiling.deep_view(),
                f == (|r: CeilingRoomV| AttributionV { model_id: r.room.model_id, room_id: r.room.room_id, measures: r.measures }),
                rooms.deep_view() == cv.rooms.take(k as int).map_values(f),
            decreases cv.rooms.len() - k,
        {
            let r = &ceiling.rooms[k];
            assert(r.deep_view() == cv.rooms[k as int]);
            let ghost before = rooms.deep_view();
            rooms.push(Attribution { model_id: r.room.model_id.dup(), room_id: r.room.room_id.dup(), measures: r.measures.dup() });
            assert(rooms.deep_view() =~= before.push(f(cv.rooms[k as int])));
            assert(cv.rooms.take(k + 1) =~= cv.rooms.take(k as int).push(cv.rooms[k as int]));
            assert(cv.rooms.take(k + 1).map_values(f) =~= cv.rooms.take(k as int).map_values(f).push(f(cv.rooms[k as int])));
            k += 1;
        }
        assert(cv.rooms.take(k as int) =~= cv.rooms);
        let ghost before = out.deep_view();
        let e = Element { read: Record::Ceiling(ceiling), rooms };
        assert(e.deep_view() =~= ceiling_element(cv));
        out.push(e);
        assert(out.deep_view() =~= before.push(ceiling_element(cv)));
    }
    proof {
        assert(orig.take(orig.len() as int) =~= orig);
    }
    assert(out.deep_view() =~= ceilings.deep_view().map_values(|x: CeilingResponseV| ceiling_element(x)));
    out
}

/// Ceilings in a report's scope, attributed to the rooms they lie over.
fn read_ceilings(state: &AppState, scope: &ReportScope, derived: &[DerivedCeilingRooms]) -> (r: Option<Vec<Element>>)
    ensures
        r.deep_view() == ceiling_elements_of(*state, opt_str(scope.project), opt_str(scope.milestone), derived.deep_view()),
{
    let ceiling_scope = CeilingScope { project: scope.project, milestone: scope.milestone };
    match assemble_ceilings(state, &ceiling_scope, derived) {
        Some(res) => Some(ceiling_elements(res.ceilings)),
        None => None,
    }
}

/// Rooms in a report's scope, each its own attribution.
fn read_rooms(state: &AppState, scope: &ReportScope) -> (r: Option<Vec<Element>>)
    ensures
        r.deep_view() == room_elements_of(*state, opt_str(scope.project), opt_str(scope.milestone), opt_str(scope.building)),
{
    let room_scope = RoomScope { project: scope.project, building: scope.building, milestone: scope.milestone, filter: None };
    match assemble_rooms(state, &room_scope) {
        Some(res) => Some(room_elements(res.rooms)),
        None => None,
    }
}

/// Doors or windows in a report's scope, attributed to their owning rooms,
/// model-qualified.
fn read_openings(state: &AppState, scope: &ReportScope, kind: OpeningKind, derived: &[DerivedSides]) -> (r: Option<Vec<Element>>)
    ensures
        r.deep_view() == opening_elements_of(
            *state,
            kind,
            opt_str(scope.project),
            opt_str(scope.milestone),
            opt_str(scope.building),
            derived.deep_view(),
        ),
{
    let opening_scope = OpeningScope { project: scope.project, building: scope.building, milestone: scope.milestone, filter: None };
    match assemble_openings(state, kind, &opening_scope, derived) {
        Some(a) => Some(opening_elements(a.openings)),
        None => None,
    }
}

/// Items in a report's scope, attributed to their owning room with where
/// that room came from.
fn read_items(state: &AppState, scope: &ReportScope, derived: &[DerivedRoom]) -> (r: Option<Vec<Element>>)
    ensures
        r.deep_view() == item_elements_of(
            *state,
            opt_str(scope.project),
            opt_str(scope.milestone),
            opt_str(scope.building),
            derived.deep_view(),
        ),
{
    let item_scope = ItemScope { project: scope.project, building: scope.building, milestone: scope.milestone, filter: None };
    match assemble_items(state, &item_scope, derived) {
        Some(res) => Some(item_elements(res.ffe)),
        None => None,
    }
}

fn read_elements(state: &AppState, scope: &ReportScope, entity: Entity, geometry: &Geometry) -> (r: Option<Vec<Element>>)
    ensures
        r.deep_view() == elements_of(*state, entity, opt_str(scope.project), opt_str(scope.milestone), opt_str(scope.building), *geometry),
{
    match entity {
        Entity::Rooms => read_rooms(state, scope),
        Entity::Doors => read_openings(state, scope, OpeningKind::Doors, geometry.door_sides.as_slice()),
        Entity::Windows => read_openings(state, scope, OpeningKind::Windows, geometry.window_sides.as_slice()),
        Entity::Ffe => read_items(state, scope, geometry.item_rooms.as_slice()),
        Entity::Ceilings => read_ceilings(state, scope, geometry.ceiling_rooms.as_slice()),
        _ => None,
    }
}

/// The message a by-room report over an entity with no attribution is
/// refused with.
pub open spec fn by_room_refusal(entity: Entity) -> Seq<char> {
    entity_one(entity) + " cannot be reported by room"@
}

/// A report's rows before any limit.
pub open spec fn report_rows(def: ReportDefinition, ks: SourcesV, rooms: Seq<RoomResponseV>, elements: Seq<ElementV>) -> Seq<Seq<Seq<char>>> {
    if def.by_room {
        by_room_of(def, ks, rooms, elements)
    } else {
        schedule_of(def, ks.element, elements)
    }
}

/// The rows a report shows: all of them, or the first `limit`.
pub open spec fn limited(rows: Seq<Seq<Seq<char>>>, limit: Option<usize>) -> Seq<Seq<Seq<char>>> {
    match limit {
        Some(n) if n < rows.len() => rows.take(n as int),
        _ => rows,
    }
}

/// Every row has as many cells as the header has columns.
pub open spec fn rows_fit(rows: Seq<Seq<Seq<char>>>, width: nat) -> bool {
    forall|i: int| 0 <= i < rows.len() ==> (#[trigger] rows[i]).len() == width
}

proof fn lemma_fit_push(rows: Seq<Seq<Seq<char>>>, row: Seq<Seq<char>>, width: nat)
    requires
        rows_fit(rows, width),
        row.len() == width,
    ensures
        rows_fit(rows.push(row), width),
{
    assert forall|i: int| 0 <= i < rows.push(row).len() implies (#[trigger] rows.push(row)[i]).len() == width by {
        if i < rows.len() {
            assert(rows.push(row)[i] == rows[i]);
        }
    }
}

proof fn lemma_fit_concat(a: Seq<Seq<Seq<char>>>, b: Seq<Seq<Seq<char>>>, width: nat)
    requires
        rows_fit(a, width),
        rows_fit(b, width),
    ensures
        rows_fit(a + b, width),
{
    assert forall|i: int| 0 <= i < (a + b).len() implies (#[trigger] (a + b)[i]).len() == width by {
        if i < a.len() {
            assert((a + b)[i] == a[i]);
        } else {
            assert((a + b)[i] == b[i - a.len()]);
        }
    }
}

proof fn lemma_schedule_fits(def: ReportDefinition, known: Seq<Seq<char>>, elements: Seq<ElementV>)
    requires
        !def.by_room,
    ensures
        rows_fit(schedule_of(def, known, elements), def_columns(def).len()),
    decreases elements.len(),
{
    if elements.len() > 0 {
        lemma_schedule_fits(def, known, elements.drop_last());
        let row = schedule_row_of(def, known, elements.last());
        assert(row.len() == def_columns(def).len());
        lemma_fit_push(schedule_of(def, known, elements.drop_last()), row, def_columns(def).len());
    }
}

proof fn lemma_attr_rows_fit(
    def: ReportDefinition,
    ks: SourcesV,
    rooms: Seq<RoomResponseV>,
    all: Seq<ElementV>,
    e: ElementV,
    attrs: Seq<AttributionV>,
)
    requires
        def.by_room,
        def.shape == Shape::PerMatch,
    ensures
        rows_fit(attr_rows(def, ks, rooms, all, e, attrs), def_columns(def).len()),
    decreases attrs.len(),
{
    if attrs.len() > 0 {
        lemma_attr_rows_fit(def, ks, rooms, all, e, attrs.drop_last());
        let a = attrs.last();
        let row = match_row_of(def, ks, e, a, room_at(rooms, a.model_id, a.room_id));
        assert(row.len() == def_columns(def).len());
        lemma_fit_push(attr_rows(def, ks, rooms, all, e, attrs.drop_last()), row, def_columns(def).len());
    }
}

proof fn lemma_per_match_fits(def: ReportDefinition, ks: SourcesV, rooms: Seq<RoomResponseV>, all: Seq<ElementV>, elements: Seq<ElementV>)
    requires
        def.by_room,
        def.shape == Shape::PerMatch,
    ensures
        rows_fit(per_match_of(def, ks, rooms, all, elements), def_columns(def).len()),
    decreases elements.len(),
{
    if elements.len() > 0 {
        let w = def_columns(def).len();
        let e = elements.last();
        lemma_per_match_fits(def, ks, rooms, all, elements.drop_last());
        if e.rooms.len() == 0 {
            assert(unattributed_row_of(def, ks, e).len() == w);
            lemma_fit_concat(per_match_of(def, ks, rooms, all, elements.drop_last()), seq![unattributed_row_of(def, ks, e)], w);
            lemma_fit_concat(per_match_of(def, ks, rooms, all, elements.drop_last()), Seq::empty(), w);
        } else {
            lemma_attr_rows_fit(def, ks, rooms, all, e, e.rooms);
            lemma_fit_concat(per_match_of(def, ks, rooms, all, elements.drop_last()), attr_rows(def, ks, rooms, all, e, e.rooms), w);
        }
    }
}

proof fn lemma_per_room_fits(def: ReportDefinition, ks: SourcesV, rooms: Seq<RoomResponseV>, all: Seq<ElementV>, keys: Seq<Seq<Seq<char>>>)
    requires
        def.by_room,
        def.shape == Shape::PerRoom,
    ensures
        rows_fit(per_room_of(def, ks, rooms, all, keys), def_columns(def).len()),
    decreases keys.len(),
{
    if keys.len() > 0 {
        lemma_per_room_fits(def, ks, rooms, all, keys.drop_last());
        let k = keys.last();
        let row = grouped_row_of(def, ks, room_at(rooms, k[0], k[1]), shown_of(def, members_of(all, k[0], k[1])));
        assert(row.len() == def_columns(def).len());
        lemma_fit_push(per_room_of(def, ks, rooms, all, keys.drop_last()), row, def_columns(def).len());
    }
}

proof fn lemma_unattributed_groups_fit(def: ReportDefinition, ks: SourcesV, elements: Seq<ElementV>)
    requires
        def.by_room,
        def.shape == Shape::PerRoom,
    ensures
        rows_fit(unattributed_groups(def, ks, elements), def_columns(def).len()),
    decreases elements.len(),
{
    if elements.len() > 0 {
        lemma_unattributed_groups_fit(def, ks, elements.drop_last());
        let row = grouped_row_of(def, ks, None, seq![(elements.last(), None::<AttributionV>)]);
        assert(row.len() == def_columns(def).len());
        lemma_fit_push(unattributed_groups(def, ks, elements.drop_last()), row, def_columns(def).len());
    }
}

/// A report's rows, each as wide as its header.
pub proof fn lemma_report_rows_fit(def: ReportDefinition, ks: SourcesV, rooms: Seq<RoomResponseV>, elements: Seq<ElementV>)
    ensures
        rows_fit(report_rows(def, ks, rooms, elements), def_columns(def).len()),
{
    let w = def_columns(def).len();
    if def.by_room {
        let main = if def.shape == Shape::PerMatch {
            lemma_per_match_fits(def, ks, rooms, elements, elements);
            per_match_of(def, ks, rooms, elements, elements)
        } else {
            lemma_per_room_fits(def, ks, rooms, elements, group_keys(elements));
            lemma_unattributed_groups_fit(def, ks, elements);
            lemma_fit_concat(per_room_of(def, ks, rooms, elements, group_keys(elements)), unattributed_groups(def, ks, elements), w);
            lemma_fit_concat(per_room_of(def, ks, rooms, elements, group_keys(elements)), Seq::empty(), w);
            per_room_of(def, ks, rooms, elements, group_keys(elements)) + if def.include_unattributed {
                unattributed_groups(def, ks, elements)
            } else {
                Seq::empty()
            }
        };
        let lonely = lonely_rooms(def, elements, rooms).map_values(|r: RoomResponseV| room_only_row_of(def, ks, r));
        assert forall|i: int| 0 <= i < lonely.len() implies (#[trigger] lonely[i]).len() == w by {
            assert(lonely[i] == room_only_row_of(def, ks, lonely_rooms(def, elements, rooms)[i]));
        }
        lemma_fit_concat(main, lonely, w);
        lemma_fit_concat(main, Seq::empty(), w);
    } else {
        lemma_schedule_fits(def, ks.element, elements);
    }
}

/// Build one report. A by-room report over an entity that carries no room
/// attribution is refused; an entity nothing of which was ever pushed is
/// `None`. The revision covers every kind the report reads, each with its own
/// milestone pins; a limit caps the rows but not the total.
pub fn build_report(state: &AppState, scope: &ReportScope, def: &ReportDefinition, geometry: &Geometry) -> (r: Result<Option<ReportResult>, ServiceError>)
    ensures
        (def.by_room && !entity_joins_rooms(def.entity)) <==> r is Err,
        r matches Err(e) ==> e@ == ServiceErrorV::Invalid(by_room_refusal(def.entity)),
        r matches Ok(None) ==> elements_of(
            *state,
            def.entity,
            opt_str(scope.project),
            opt_str(scope.milestone),
            opt_str(scope.building),
            *geometry,
        ) is None,
        r matches Ok(Some(res)) ==> {
            let project = opt_str(scope.project);
            let milestone = opt_str(scope.milestone);
            let building = opt_str(scope.building);
            let found = elements_of(*state, def.entity, project, milestone, building, *geometry);
            let rows = report_rows(
                *def,
                known_sources(*state, project, def.entity),
                rooms_in_scope(*state, project, milestone, building),
                found.unwrap(),
            );
            &&& found is Some
            &&& res.revision@ == cursor_of(
                scope_rows(
                    state.index.deep_view(),
                    state.registry.view_projects(),
                    project,
                    milestone,
                    entity_kinds(def.entity, def.by_room),
                ),
            )
            &&& res.columns.deep_view() == def_columns(*def)
            &&& rows_fit(res.rows.deep_view(), res.columns.deep_view().len())
            &&& res.total_rows == rows.len()
            &&& res.rows.deep_view() == limited(rows, def.limit)
            &&& res.unmatched_rows == if def.by_room {
                by_room_unmatched(*def, rooms_in_scope(*state, project, milestone, building), found.unwrap())
            } else {
                0
            }
        },
        (r is Ok && elements_of(
            *state,
            def.entity,
            opt_str(scope.project),
            opt_str(scope.milestone),
            opt_str(scope.building),
            *geometry,
        ) is Some) ==> r matches Ok(Some(_)),
{
    if def.by_room && !def.entity.joins_rooms() {
        let one = def.entity.one();
        return Err(ServiceError::Invalid(concat(one.as_str(), " cannot be reported by room")));
    }
    let kinds = def.entity.kinds(def.by_room);
    let revision = scope_cursor(state, scope.project, scope.milestone, kinds.as_slice());
    let elements = match read_elements(state, scope, def.entity, geometry) {
        Some(v) => v,
        None => return Ok(None),
    };
    let sources = report_sources(state, scope.project, def.entity);
    let mut result = if def.by_room {
        let room_scope = RoomScope { project: scope.project, building: scope.building, milestone: scope.milestone, filter: None };
        let rooms: Vec<RoomResponse> = match assemble_rooms(state, &room_scope) {
            Some(res) => res.rooms,
            None => {
                proof {
                    crate::rooms::lemma_no_rooms_scoped(
                        *state,
                        opt_str(scope.project),
                        opt_str(scope.milestone),
                        opt_str(scope.building),
                    );
                }
                let none: Vec<RoomResponse> = Vec::new();
                assert(none.deep_view() =~= Seq::<RoomResponseV>::empty());
                none
            },
        };
        let rs = rooms.as_slice();
        assert(rs.deep_view() =~= rooms.deep_view());
        by_room_rows(def, &sources, rs, elements.as_slice())
    } else {
        let ek = sources.element.as_slice();
        assert(ek.deep_view() =~= sources.element.deep_view());
        schedule_rows(def, ek, elements.as_slice())
    };
    result.revision = revision;
    result.total_rows = result.rows.len();
    if let Some(limit) = def.limit {
        if limit < result.rows.len() {
            let ghost before = result.rows.deep_view();
            result.rows.truncate(limit);
            assert(result.rows.deep_view() =~= before.take(limit as int));
        }
    }
    proof {
        let project = opt_str(scope.project);
        let milestone = opt_str(scope.milestone);
        let building = opt_str(scope.building);
        let rows = report_rows(
            *def,
            known_sources(*state, project, def.entity),
            rooms_in_scope(*state, project, milestone, building),
            elements.deep_view(),
        );
        lemma_report_rows_fit(*def, known_sources(*state, project, def.entity), rooms_in_scope(*state, project, milestone, building), elements.deep_view());
        let shown = result.rows.deep_view();
        assert(shown == limited(rows, def.limit));
        assert forall|i: int| 0 <= i < shown.len() implies (#[trigger] shown[i]).len() == def_columns(*def).len() by {
            assert(shown[i] == rows[i]);
        }
    }
    Ok(Some(result))
}

impl Keyed for ColumnInfo {
    open spec fn key_of(v: ColumnInfoV) -> Seq<char> {
        v.name
    }

    fn key_str(&self) -> (r: &str) {
        self.name.as_str()
    }
}

impl Dup for ColumnInfo {
    fn dup(&self) -> (r: Self) {
        ColumnInfo { name: self.name.dup(), kind: self.kind.dup(), value_type: self.value_type.dup() }
    }
}

/// The names, each once, in first-seen order.
pub open spec fn distinct_names(names: Seq<Seq<char>>) -> Seq<Seq<char>>
    decreases names.len(),
{
    if names.len() == 0 {
        Seq::empty()
    } else {
        let rest = distinct_names(names.drop_last());
        if rest.contains(names.last()) {
            rest
        } else {
            rest.push(names.last())
        }
    }
}

pub proof fn lemma_distinct_names_from(names: Seq<Seq<char>>)
    ensures
        forall|j: int| 0 <= j < distinct_names(names).len() ==> names.contains(#[trigger] distinct_names(names)[j]),
    decreases names.len(),
{
    if names.len() > 0 {
        lemma_distinct_names_from(names.drop_last());
        let rest = distinct_names(names.drop_last());
        assert forall|j: int| 0 <= j < distinct_names(names).len() implies names.contains(#[trigger] distinct_names(names)[j]) by {
            if j < rest.len() {
                assert(names.drop_last().contains(rest[j]));
                let k = choose|k: int| 0 <= k < names.drop_last().len() && names.drop_last()[k] == rest[j];
                assert(names[k] == rest[j]);
            } else {
                assert(names[names.len() - 1] == names.last());
            }
        }
    }
}

/// What the stored snapshots offer: each property name once, sorted, with
/// the first description seen for it.
pub open spec fn stored_columns(infos: Seq<ColumnInfoV>) -> Seq<ColumnInfoV> {
    sorted_of::<String>(distinct_names(infos.map_values(|c: ColumnInfoV| c.name))).map_values(
        |n: Seq<char>| entry::<ColumnInfo>(infos, n).unwrap(),
    )
}

fn stored_columns_exec(infos: &[ColumnInfo]) -> (r: Vec<ColumnInfo>)
    ensures
        r.deep_view() == stored_columns(infos.deep_view()),
{
    let ghost d = infos.deep_view();
    let ghost all = d.map_values(|c: ColumnInfoV| c.name);
    let mut names: Vec<String> = Vec::new();
    let mut i: usize = 0;
    while i < infos.len()
        invariant
            i <= infos@.len(),
            d == infos.deep_view(),
            all == d.map_values(|c: ColumnInfoV| c.name),
            names.deep_view() == distinct_names(all.take(i as int)),
        decreases infos@.len() - i,
    {
        assert(infos@[i as int].deep_view() == d[i as int]);
        assert(all.take(i + 1).drop_last() =~= all.take(i as int));
        assert(all.take(i + 1).last() == infos@[i as int].name@);
        let ghost before = names.deep_view();
        if !contains_text(names.as_slice(), infos[i].name.as_str()) {
            names.push(infos[i].name.dup());
            assert(names.deep_view() =~= before.push(infos@[i as int].name@));
        }
        i += 1;
    }
    assert(all.take(i as int) =~= all);
    proof {
        lemma_distinct_names_from(all);
    }
    let ghost unsorted = names.deep_view();
    let sorted = sort(names);
    let ghost sd = sorted.deep_view();
    let mut out: Vec<ColumnInfo> = Vec::new();
    let mut k: usize = 0;
    while k < sorted.len()
        invariant
            k <= sorted@.len(),
            d == infos.deep_view(),
            all == d.map_values(|c: ColumnInfoV| c.name),
            sd == sorted.deep_view(),
            sd.to_multiset() == unsorted.to_multiset(),
            unsorted == distinct_names(all),
            forall|j: int| 0 <= j < unsorted.len() ==> all.contains(#[trigger] unsorted[j]),
            out.deep_view() == sd.take(k as int).map_values(|n: Seq<char>| entry::<ColumnInfo>(d, n).unwrap()),
        decreases sorted@.len() - k,
    {
        let n = &sorted[k];
        assert(sd[k as int] == n@);
        proof {
            broadcast use vstd::seq_lib::group_to_multiset_ensures;

            assert(sd.contains(n@));
            assert(sd.to_multiset().count(n@) > 0);
            assert(unsorted.to_multiset().count(n@) > 0);
            assert(unsorted.contains(n@));
            let j = choose|j: int| 0 <= j < unsorted.len() && unsorted[j] == n@;
            assert(all.contains(unsorted[j]));
            let m = choose|m: int| 0 <= m < all.len() && all[m] == n@;
            assert(<ColumnInfo as Keyed>::key_of(d[m]) == n@);
            lemma_index_of::<ColumnInfo>(d, n@);
            if index_of::<ColumnInfo>(d, n@) == -1 {
                assert(<ColumnInfo as Keyed>::key_of(d[m]) != n@);
            }
        }
        match lookup(infos, n.as_str()) {
            Some(c) => {
                let ghost before = out.deep_view();
                out.push(c.dup());
                assert(sd.take(k + 1) =~= sd.take(k as int).push(n@));
                assert(out.deep_view() =~= before.push(entry::<ColumnInfo>(d, n@).unwrap()));
            },
            None => {
                assert(false);
            },
        }
        k += 1;
    }
    assert(sd.take(k as int) =~= sd);
    out
}

/// A stored element's properties: its own, then its type's.
pub trait Carries: Dup {
    spec fn carried(v: Self::V) -> Seq<PropV>;

    fn tiers(&self) -> (r: (&[Prop], &[Prop]))
        ensures
            r.0.deep_view() + r.1.deep_view() == Self::carried(self.deep_view()),
    ;
}

impl Carries for Room {
    open spec fn carried(v: RoomV) -> Seq<PropV> {
        v.properties
    }

    fn tiers(&self) -> (r: (&[Prop], &[Prop])) {
        let own = self.properties.as_slice();
        let none: &[Prop] = &[];
        assert(none.deep_view() =~= Seq::<PropV>::empty());
        assert(own.deep_view() + none.deep_view() =~= self.properties.deep_view());
        (own, none)
    }
}

impl Carries for Opening {
    open spec fn carried(v: OpeningV) -> Seq<PropV> {
        v.properties + v.type_properties
    }

    fn tiers(&self) -> (r: (&[Prop], &[Prop])) {
        let own = self.properties.as_slice();
        let tier = self.type_properties.as_slice();
        assert(own.deep_view() =~= self.properties.deep_view());
        assert(tier.deep_view() =~= self.type_properties.deep_view());
        (own, tier)
    }
}

impl Carries for Item {
    open spec fn carried(v: ItemV) -> Seq<PropV> {
        v.properties + v.type_properties
    }

    fn tiers(&self) -> (r: (&[Prop], &[Prop])) {
        let own = self.properties.as_slice();
        let tier = self.type_properties.as_slice();
        assert(own.deep_view() =~= self.properties.deep_view());
        assert(tier.deep_view() =~= self.type_properties.deep_view());
        (own, tier)
    }
}

impl Carries for Ceiling {
    open spec fn carried(v: CeilingV) -> Seq<PropV> {
        v.properties + v.type_properties
    }

    fn tiers(&self) -> (r: (&[Prop], &[Prop])) {
        let own = self.properties.as_slice();
        let tier = self.type_properties.as_slice();
        assert(own.deep_view() =~= self.properties.deep_view());
        assert(tier.deep_view() =~= self.type_properties.deep_view());
        (own, tier)
    }
}

/// How a stored property is offered as a column.
pub open spec fn prop_info(p: PropV) -> ColumnInfoV {
    info(p.name, "property"@, value_type_of(p.value.storage_type))
}

/// Every property the elements carry, element by element.
pub open spec fn element_infos<E: Carries>(elements: Seq<E::V>) -> Seq<ColumnInfoV>
    decreases elements.len(),
{
    if elements.len() == 0 {
        Seq::empty()
    } else {
        element_infos::<E>(elements.drop_last()) + E::carried(elements.last()).map_values(|p: PropV| prop_info(p))
    }
}

/// Every property each in-scope model's latest snapshot of one kind carries,
/// model by model in index order.
pub open spec fn stored_infos<E: Carries>(
    index: Seq<ModelIndexRowV>,
    history: Seq<PayloadV<E::V>>,
    kind: SnapshotKind,
    project: Option<Seq<char>>,
) -> Seq<ColumnInfoV>
    decreases index.len(),
{
    if index.len() == 0 {
        Seq::empty()
    } else {
        let rest = stored_infos::<E>(index.drop_last(), history, kind, project);
        let row = index.last();
        if project is Some && row.key.project_id != project.unwrap() {
            rest
        } else {
            match latest_in(row.latest, kind) {
                None => rest,
                Some(id) => match snapshot_in(history, row.key.project_id, row.key.model_id, id) {
                    None => rest,
                    Some(p) => rest + element_infos::<E>(p.elements),
                },
            }
        }
    }
}

fn push_props(out: &mut Vec<ColumnInfo>, props: &[Prop])
    ensures
        final(out).deep_view() == old(out).deep_view() + props.deep_view().map_values(|p: PropV| prop_info(p)),
{
    let ghost start = out.deep_view();
    let ghost pd = props.deep_view();
    let mut i: usize = 0;
    while i < props.len()
        invariant
            i <= props@.len(),
            pd == props.deep_view(),
            out.deep_view() == start + pd.take(i as int).map_values(|p: PropV| prop_info(p)),
        decreases props@.len() - i,
    {
        assert(props@[i as int].deep_view() == pd[i as int]);
        let p = &props[i];
        let vt = match &p.value.storage_type {
            Some(t) => value_type(Some(t.as_str())),
            None => value_type(None),
        };
        let c = ColumnInfo { name: p.name.dup(), kind: owned("property"), value_type: vt };
        assert(c.deep_view() == prop_info(pd[i as int]));
        let ghost before = out.deep_view();
        out.push(c);
        assert(out.deep_view() =~= before.push(prop_info(pd[i as int])));
        assert(pd.take(i + 1) =~= pd.take(i as int).push(pd[i as int]));
        assert(out.deep_view() =~= start + pd.take(i + 1).map_values(|p: PropV| prop_info(p)));
        i += 1;
    }
    assert(pd.take(i as int) =~= pd);
}

fn stored_infos_exec<E: Carries>(
    index: &[ModelIndexRow],
    history: &[Payload<E>],
    kind: SnapshotKind,
    project: Option<&str>,
) -> (r: Vec<ColumnInfo>)
    ensures
        r.deep_view() == stored_infos::<E>(index.deep_view(), history.deep_view(), kind, opt_str(project)),
{
    let ghost d = index.deep_view();
    let ghost hd = history.deep_view();
    let mut out: Vec<ColumnInfo> = Vec::new();
    let mut i: usize = 0;
    while i < index.len()
        invariant
            i <= index@.len(),
            d == index.deep_view(),
            hd == history.deep_view(),
            out.deep_view() == stored_infos::<E>(d.take(i as int), hd, kind, opt_str(project)),
        decreases index@.len() - i,
    {
        let row = &index[i];
        assert(row.deep_view() == d[i as int]);
        assert(d.take(i + 1).drop_last() =~= d.take(i as int));
        let other = match project {
            Some(p) => !text_eq(row.key.project_id.as_str(), p),
            None => false,
        };
        if !other {
            if let Some(id) = latest_id(row, kind) {
                if let Some(p) = find_snapshot(history, &row.key, id.as_str()) {
                    let ghost start = out.deep_view();
                    let ghost ed = p.elements.deep_view();
                    let mut k: usize = 0;
                    while k < p.elements.len()
                        invariant
                            k <= p.elements@.len(),
                            ed == p.elements.deep_view(),
                            out.deep_view() == start + element_infos::<E>(ed.take(k as int)),
                        decreases p.elements@.len() - k,
                    {
                        let e = &p.elements[k];
                        assert(e.deep_view() == ed[k as int]);
                        assert(ed.take(k + 1).drop_last() =~= ed.take(k as int));
                        let (own, tier) = e.tiers();
                        let ghost mid = out.deep_view();
                        push_props(&mut out, own);
                        push_props(&mut out, tier);
                        assert((own.deep_view() + tier.deep_view()).map_values(|p: PropV| prop_info(p)) =~= own.deep_view().map_values(
                            |p: PropV| prop_info(p),
                        ) + tier.deep_view().map_values(|p: PropV| prop_info(p)));
                        assert(out.deep_view() =~= start + element_infos::<E>(ed.take(k + 1)));
                        k += 1;
                    }
                    assert(ed.take(k as int) =~= ed);
                }
            }
        }
        i += 1;
    }
    assert(d.take(i as int) =~= d);
    out
}

/// The property columns a kind's stored snapshots offer.
pub open spec fn stored_properties_of(state: AppState, project: Option<Seq<char>>, kind: SnapshotKind) -> Seq<ColumnInfoV> {
    let index = state.index.deep_view();
    match kind {
        SnapshotKind::Rooms => stored_columns(stored_infos::<Room>(index, state.rooms.deep_view(), kind, project)),
        SnapshotKind::Doors => stored_columns(stored_infos::<Opening>(index, state.doors.deep_view(), kind, project)),
        SnapshotKind::Windows => stored_columns(stored_infos::<Opening>(index, state.windows.deep_view(), kind, project)),
        SnapshotKind::Ffe => stored_columns(stored_infos::<Item>(index, state.ffe.deep_view(), kind, project)),
        SnapshotKind::Ceilings => stored_columns(stored_infos::<Ceiling>(index, state.ceilings.deep_view(), kind, project)),
        _ => Seq::empty(),
    }
}

fn stored_properties(state: &AppState, project: Option<&str>, kind: SnapshotKind) -> (r: Vec<ColumnInfo>)
    ensures
        r.deep_view() == stored_properties_of(*state, opt_str(project), kind),
{
    let idx = state.index.as_slice();
    assert(idx.deep_view() =~= state.index.deep_view());
    let infos = match kind {
        SnapshotKind::Rooms => {
            let h = state.rooms.as_slice();
            assert(h.deep_view() =~= state.rooms.deep_view());
            stored_infos_exec(idx, h, kind, project)
        },
        SnapshotKind::Doors => {
            let h = state.doors.as_slice();
            assert(h.deep_view() =~= state.doors.deep_view());
            stored_infos_exec(idx, h, kind, project)
        },
        SnapshotKind::Windows => {
            let h = state.windows.as_slice();
            assert(h.deep_view() =~= state.windows.deep_view());
            stored_infos_exec(idx, h, kind, project)
        },
        SnapshotKind::Ffe => {
            let h = state.ffe.as_slice();
            assert(h.deep_view() =~= state.ffe.deep_view());
            stored_infos_exec(idx, h, kind, project)
        },
        SnapshotKind::Ceilings => {
            let h = state.ceilings.as_slice();
            assert(h.deep_view() =~= state.ceilings.deep_view());
            stored_infos_exec(idx, h, kind, project)
        },
        _ => {
            let none: Vec<ColumnInfo> = Vec::new();
            assert(none.deep_view() =~= Seq::<ColumnInfoV>::empty());
            return none;
        },
    };
    stored_columns_exec(infos.as_slice())
}

/// The entity a reference source must join for its labels to be offered on
/// this one; no source joins a surface.
pub open spec fn source_entity(entity: Entity) -> Option<ReferenceEntity> {
    match entity {
        Entity::Rooms => Some(ReferenceEntity::Rooms),
        Entity::Doors => Some(ReferenceEntity::Doors),
        Entity::Windows => Some(ReferenceEntity::Windows),
        Entity::Ffe => Some(ReferenceEntity::Ffe),
        Entity::Spaces => Some(ReferenceEntity::Spaces),
        Entity::Ceilings | Entity::Floors => None,
    }
}

/// A source's labels, named `<source>.<label>`, as text columns.
pub open spec fn label_infos(source: Seq<char>, labels: Seq<Seq<char>>) -> Seq<ColumnInfoV> {
    labels.map_values(|l: Seq<char>| info(source + "."@ + l, "reference"@, "text"@))
}

/// The labels of every source joining `wanted` that holds data, source by
/// source in the order the settings list them.
pub open spec fn source_labels(sources: Seq<ReferenceSourceV>, wanted: ReferenceEntity) -> Seq<ColumnInfoV>
    decreases sources.len(),
{
    if sources.len() == 0 {
        Seq::empty()
    } else {
        let rest = source_labels(sources.drop_last(), wanted);
        let src = sources.last();
        if src.entity == wanted && src.data is Some {
            rest + label_infos(src.name, src.data.unwrap().all_labels)
        } else {
            rest
        }
    }
}

/// The reference columns offered on an entity in a project: none without a
/// registered project.
pub open spec fn reference_columns(state: AppState, project: Option<Seq<char>>, entity: Entity) -> Seq<ColumnInfoV> {
    match project {
        None => Seq::empty(),
        Some(p) => match settings_of(state.registry.view_projects(), p) {
            None => Seq::empty(),
            Some(s) => match source_entity(entity) {
                None => Seq::empty(),
                Some(w) => source_labels(s.reference, w),
            },
        },
    }
}

/// The names of the sources joined to `wanted`, in the order the settings
/// list them.
pub open spec fn source_names(sources: Seq<ReferenceSourceV>, wanted: ReferenceEntity) -> Seq<Seq<char>>
    decreases sources.len(),
{
    if sources.len() == 0 {
        Seq::empty()
    } else {
        let rest = source_names(sources.drop_last(), wanted);
        if sources.last().entity == wanted {
            rest.push(sources.last().name)
        } else {
            rest
        }
    }
}

/// The sources a report's columns may name in a project, as its filter
/// does: none without a registered project.
pub open spec fn known_sources(state: AppState, project: Option<Seq<char>>, entity: Entity) -> SourcesV {
    let none = SourcesV { element: Seq::empty(), room: Seq::empty() };
    match project {
        None => none,
        Some(p) => match settings_of(state.registry.view_projects(), p) {
            None => none,
            Some(s) => SourcesV {
                element: match source_entity(entity) {
                    None => Seq::empty(),
                    Some(w) => source_names(s.reference, w),
                },
                room: source_names(s.reference, ReferenceEntity::Rooms),
            },
        },
    }
}

fn source_names_exec(sources: &Vec<ReferenceSource>, wanted: ReferenceEntity) -> (r: Vec<String>)
    ensures
        r.deep_view() == source_names(sources.deep_view(), wanted),
{
    let ghost d = sources.deep_view();
    let mut out: Vec<String> = Vec::new();
    let mut i: usize = 0;
    while i < sources.len()
        invariant
            i <= sources@.len(),
            d == sources.deep_view(),
            out.deep_view() == source_names(d.take(i as int), wanted),
        decreases sources@.len() - i,
    {
        assert(sources@[i as int].deep_view() == d[i as int]);
        assert(d.take(i + 1).drop_last() =~= d.take(i as int));
        let ghost before = out.deep_view();
        if sources[i].entity == wanted {
            out.push(sources[i].name.dup());
            assert(out.deep_view() =~= before.push(d[i as int].name));
        }
        i += 1;
    }
    assert(d.take(i as int) =~= d);
    out
}

/// The sources a report's columns may name in a project.
pub fn report_sources(state: &AppState, project: Option<&str>, entity: Entity) -> (r: Sources)
    ensures
        r.deep_view() == known_sources(*state, opt_str(project), entity),
{
    let none = Sources { element: Vec::new(), room: Vec::new() };
    assert(none.element.deep_view() =~= Seq::<Seq<char>>::empty());
    assert(none.room.deep_view() =~= Seq::<Seq<char>>::empty());
    let p = match project {
        Some(p) => p,
        None => return none,
    };
    let bundle = match state.registry.settings_for(p) {
        Some(b) => b,
        None => return none,
    };
    let element = match entity {
        Entity::Rooms => source_names_exec(&bundle.reference, ReferenceEntity::Rooms),
        Entity::Doors => source_names_exec(&bundle.reference, ReferenceEntity::Doors),
        Entity::Windows => source_names_exec(&bundle.reference, ReferenceEntity::Windows),
        Entity::Ffe => source_names_exec(&bundle.reference, ReferenceEntity::Ffe),
        Entity::Spaces => source_names_exec(&bundle.reference, ReferenceEntity::Spaces),
        Entity::Ceilings | Entity::Floors => {
            let v: Vec<String> = Vec::new();
            assert(v.deep_view() =~= Seq::<Seq<char>>::empty());
            v
        },
    };
    let room = source_names_exec(&bundle.reference, ReferenceEntity::Rooms);
    Sources { element, room }
}

fn reference_labels(state: &AppState, project: Option<&str>, entity: Entity) -> (r: Vec<ColumnInfo>)
    ensures
        r.deep_view() == reference_columns(*state, opt_str(project), entity),
{
    let mut out: Vec<ColumnInfo> = Vec::new();
    assert(out.deep_view() =~= Seq::<ColumnInfoV>::empty());
    let p = match project {
        Some(p) => p,
        None => return out,
    };
    let bundle = match state.registry.settings_for(p) {
        Some(b) => b,
        None => return out,
    };
    let wanted = match entity {
        Entity::Rooms => ReferenceEntity::Rooms,
        Entity::Doors => ReferenceEntity::Doors,
        Entity::Windows => ReferenceEntity::Windows,
        Entity::Ffe => ReferenceEntity::Ffe,
        Entity::Spaces => ReferenceEntity::Spaces,
        Entity::Ceilings | Entity::Floors => return out,
    };
    let ghost sd = bundle.reference.deep_view();
    let mut i: usize = 0;
    while i < bundle.reference.len()
        invariant
            i <= bundle.reference@.len(),
            sd == bundle.reference.deep_view(),
            out.deep_view() == source_labels(sd.take(i as int), wanted),
        decreases bundle.reference@.len() - i,
    {
        let src = &bundle.reference[i];
        assert(src.deep_view() == sd[i as int]);
        assert(sd.take(i + 1).drop_last() =~= sd.take(i as int));
        if src.entity == wanted {
            if let Some(data) = &src.data {
                let ghost start = out.deep_view();
                let ghost ld = data.all_labels.deep_view();
                let mut k: usize = 0;
                while k < data.all_labels.len()
                    invariant
                        k <= data.all_labels@.len(),
                        ld == data.all_labels.deep_view(),
                        out.deep_view() == start + label_infos(src.name@, ld.take(k as int)),
                    decreases data.all_labels@.len() - k,
                {
                    assert(data.all_labels@[k as int]@ == ld[k as int]);
                    let prefix = concat(src.name.as_str(), ".");
                    let name = concat(prefix.as_str(), data.all_labels[k].as_str());
                    let c = ColumnInfo { name, kind: owned("reference"), value_type: owned("text") };
                    let ghost before = out.deep_view();
                    out.push(c);
                    assert(out.deep_view() =~= before.push(info(src.name@ + "."@ + ld[k as int], "reference"@, "text"@)));
                    assert(ld.take(k + 1) =~= ld.take(k as int).push(ld[k as int]));
                    assert(out.deep_view() =~= start + label_infos(src.name@, ld.take(k + 1)));
                    k += 1;
                }
                assert(ld.take(k as int) =~= ld);
            }
        }
        i += 1;
    }
    assert(sd.take(i as int) =~= sd);
    out
}

/// What a report over an entity may name in a project: its intrinsics, the
/// properties its stored snapshots carry and its reference labels; the room
/// side likewise where it can be reported by room; and what its join
/// measures.
pub open spec fn catalog_of(state: AppState, project: Option<Seq<char>>, entity: Entity) -> (Seq<ColumnInfoV>, Seq<ColumnInfoV>, Seq<ColumnInfoV>) {
    (
        intrinsics_of(entity) + stored_properties_of(state, project, entity_kind(entity)) + reference_columns(state, project, entity),
        if entity_joins_rooms(entity) {
            intrinsics_of(Entity::Rooms) + stored_properties_of(state, project, SnapshotKind::Rooms) + reference_columns(
                state,
                project,
                Entity::Rooms,
            )
        } else {
            Seq::empty()
        },
        measures_of(entity),
    )
}

fn side_columns(state: &AppState, project: Option<&str>, entity: Entity) -> (r: Vec<ColumnInfo>)
    ensures
        r.deep_view() == intrinsics_of(entity) + stored_properties_of(*state, opt_str(project), entity_kind(entity))
            + reference_columns(*state, opt_str(project), entity),
{
    let mut columns = intrinsics(entity);
    let kinds = entity.kinds(false);
    let mut stored = stored_properties(state, project, kinds[0]);
    let mut labels = reference_labels(state, project, entity);
    let ghost a = columns.deep_view();
    let ghost b = stored.deep_view();
    let ghost c = labels.deep_view();
    columns.append(&mut stored);
    assert(columns.deep_view() =~= a + b);
    columns.append(&mut labels);
    assert(columns.deep_view() =~= a + b + c);
    columns
}

/// What a report over this entity may name, in this project.
pub fn column_catalog(state: &AppState, project: Option<&str>, entity: Entity) -> (r: ColumnCatalog)
    ensures
        (r.entity.deep_view(), r.rooms.deep_view(), r.measures.deep_view()) == catalog_of(*state, opt_str(project), entity),
{
    let columns = side_columns(state, project, entity);
    let rooms = if entity.joins_rooms() {
        side_columns(state, project, Entity::Rooms)
    } else {
        let none: Vec<ColumnInfo> = Vec::new();
        assert(none.deep_view() =~= Seq::<ColumnInfoV>::empty());
        none
    };
    ColumnCatalog { entity: columns, rooms, measures: measures(entity) }
}

/// Every key is a `[model, room]` pair.
proof fn lemma_keys_shape(elements: Seq<ElementV>)
    ensures
        forall|j: int| 0 <= j < keys_of(elements).len() ==> (#[trigger] keys_of(elements)[j]).len() == 2,
    decreases elements.len(),
{
    if elements.len() > 0 {
        lemma_keys_shape(elements.drop_last());
        let pre = keys_of(elements.drop_last());
        let tail = elements.last().rooms.map_values(|a: AttributionV| seq![a.model_id, a.room_id]);
        assert forall|j: int| 0 <= j < keys_of(elements).len() implies (#[trigger] keys_of(elements)[j]).len() == 2 by {
            if j < pre.len() {
                assert(keys_of(elements)[j] == pre[j]);
            } else {
                assert(keys_of(elements)[j] == tail[j - pre.len()]);
            }
        }
    }
}

proof fn lemma_dedup_keeps(s: Seq<Seq<Seq<char>>>)
    ensures
        forall|j: int| 0 <= j < dedup_adjacent(s).len() ==> s.contains(#[trigger] dedup_adjacent(s)[j]),
    decreases s.len(),
{
    if s.len() > 0 {
        lemma_dedup_keeps(s.drop_last());
        assert forall|j: int| 0 <= j < dedup_adjacent(s).len() implies s.contains(#[trigger] dedup_adjacent(s)[j]) by {
            let r = dedup_adjacent(s.drop_last());
            if j < r.len() {
                assert(s.drop_last().contains(r[j]));
                let k = choose|k: int| 0 <= k < s.drop_last().len() && s.drop_last()[k] == r[j];
                assert(s[k] == r[j]);
            } else {
                assert(s[s.len() - 1] == s.last());
            }
        }
    }
}


} // verus!
