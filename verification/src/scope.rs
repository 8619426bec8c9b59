//! The scoping and pinning every entity's read shares: which snapshot each
//! model contributes (decided from the index and the settings alone), opening
//! exactly those, the revision over what was opened, the per-model phase and
//! level reports, and how one side's room reference is decided.
use vstd::prelude::*;
use crate::contract::{kind_label, Field, FieldV, Level, LevelV, Located, LocatedV, ModelKey, ModelKeyV, RoomRef, RoomRefV, SnapshotKind, Unresolved};
use crate::cursor::{cursor, cursor_of};
use crate::keyed::{entry, first_where, lemma_first_where, lemma_first_where_at, lookup, Dup};
use crate::order::TotalOrder;
use crate::records::{Payload, PayloadV};
use crate::settings::{milestone_of, settings_of, Milestone, MilestoneV, ProjectEntryV, SettingsRegistry};
use crate::state::{AppState, find_snapshot, latest_in, snapshot_in, ModelIndexRow, ModelIndexRowV};
use crate::text::{
    chars_of, concat, fold, fold_chars, lemma_text_lt_asymmetric, lemma_text_lt_irreflexive, lemma_text_lt_total,
    lemma_text_lt_transitive, string_of, text_eq, text_lt,
};

verus! {

/// Where one side's room reference came from.
pub enum SideOrigin {
    /// The model stated it. Always wins.
    Authored(RoomRef),
    /// The model stated nothing and the geometry found a room.
    Derived(RoomRef),
    /// The model stated nothing and the geometry did not resolve one.
    Unresolved(Unresolved),
}

pub enum SideOriginV {
    Authored(RoomRefV),
    Derived(RoomRefV),
    Unresolved(Unresolved),
}

impl DeepView for SideOrigin {
    type V = SideOriginV;

    open spec fn deep_view(&self) -> SideOriginV {
        match self {
            SideOrigin::Authored(r) => SideOriginV::Authored(r.deep_view()),
            SideOrigin::Derived(r) => SideOriginV::Derived(r.deep_view()),
            SideOrigin::Unresolved(u) => SideOriginV::Unresolved(*u),
        }
    }
}

impl Dup for SideOrigin {
    fn dup(&self) -> (r: Self) {
        match self {
            SideOrigin::Authored(x) => SideOrigin::Authored(x.dup()),
            SideOrigin::Derived(x) => SideOrigin::Derived(x.dup()),
            SideOrigin::Unresolved(u) => SideOrigin::Unresolved(*u),
        }
    }
}

/// The room a side resolves to, whatever it came from.
pub open spec fn origin_room(o: SideOriginV) -> Option<RoomRefV> {
    match o {
        SideOriginV::Authored(r) => Some(r),
        SideOriginV::Derived(r) => Some(r),
        SideOriginV::Unresolved(_) => None,
    }
}

impl SideOrigin {
    /// The room this side resolves to, whatever it came from.
    pub fn room(&self) -> (r: Option<&RoomRef>)
        ensures
            match r {
                Some(x) => origin_room(self.deep_view()) == Some(x.deep_view()),
                None => origin_room(self.deep_view()) is None,
            },
    {
        match self {
            SideOrigin::Authored(r) => Some(r),
            SideOrigin::Derived(r) => Some(r),
            SideOrigin::Unresolved(_) => None,
        }
    }
}

/// One character as it reads inside a quoted debug rendering.
pub open spec fn escaped_char(c: char) -> Seq<char> {
    if c == '"' {
        seq!['\\', '"']
    } else if c == '\\' {
        seq!['\\', '\\']
    } else if c == '\n' {
        seq!['\\', 'n']
    } else if c == '\r' {
        seq!['\\', 'r']
    } else if c == '\t' {
        seq!['\\', 't']
    } else {
        seq![c]
    }
}

/// A text as it reads between the quotes of a debug rendering.
pub open spec fn escaped(s: Seq<char>) -> Seq<char>
    decreases s.len(),
{
    if s.len() == 0 {
        Seq::empty()
    } else {
        escaped(s.drop_last()) + escaped_char(s.last())
    }
}

/// The name of an unresolved state, as its variant is spelled.
pub open spec fn unresolved_name(u: Unresolved) -> Seq<char> {
    match u {
        Unresolved::NoCandidate => "NoCandidate"@,
        Unresolved::Ambiguous => "Ambiguous"@,
        Unresolved::NoDirection => "NoDirection"@,
        Unresolved::NoPosition => "NoPosition"@,
        Unresolved::UnknownLevel => "UnknownLevel"@,
    }
}

/// A room reference's debug rendering.
pub open spec fn room_ref_debug(r: RoomRefV) -> Seq<char> {
    "RoomRef { model_id: \""@ + escaped(r.model_id) + "\", room_id: \""@ + escaped(r.room_id) + "\" }"@
}

/// A side origin's debug rendering.
pub open spec fn origin_debug(o: SideOriginV) -> Seq<char> {
    match o {
        SideOriginV::Authored(r) => "Authored("@ + room_ref_debug(r) + ")"@,
        SideOriginV::Derived(r) => "Derived("@ + room_ref_debug(r) + ")"@,
        SideOriginV::Unresolved(u) => "Unresolved("@ + unresolved_name(u) + ")"@,
    }
}

/// Where a room came from, as a report column shows it: the debug
/// rendering, lower-cased.
pub open spec fn origin_label(o: SideOriginV) -> Seq<char> {
    fold(origin_debug(o))
}

fn escaped_exec(s: &str) -> (r: String)
    ensures
        r@ == escaped(s@),
{
    let cs = chars_of(s);
    let mut out: Vec<char> = Vec::new();
    let mut i: usize = 0;
    while i < cs.len()
        invariant
            i <= cs@.len(),
            cs@ == s@,
            out@ == escaped(cs@.take(i as int)),
        decreases cs@.len() - i,
    {
        let c = cs[i];
        assert(cs@.take(i + 1).drop_last() =~= cs@.take(i as int));
        let ghost before = out@;
        if c == '"' {
            out.push('\\');
            out.push('"');
        } else if c == '\\' {
            out.push('\\');
            out.push('\\');
        } else if c == '\n' {
            out.push('\\');
            out.push('n');
        } else if c == '\r' {
            out.push('\\');
            out.push('r');
        } else if c == '\t' {
            out.push('\\');
            out.push('t');
        } else {
            out.push(c);
        }
        assert(out@ =~= before + escaped_char(c));
        i += 1;
    }
    assert(cs@.take(i as int) =~= cs@);
    string_of(out.as_slice())
}

fn room_ref_debug_exec(r: &RoomRef) -> (s: String)
    ensures
        s@ == room_ref_debug(r.deep_view()),
{
    let a = concat("RoomRef { model_id: \"", escaped_exec(r.model_id.as_str()).as_str());
    let b = concat(a.as_str(), "\", room_id: \"");
    let c = concat(b.as_str(), escaped_exec(r.room_id.as_str()).as_str());
    concat(c.as_str(), "\" }")
}

impl SideOrigin {
    /// Where this side's room came from, as a report column shows it.
    pub fn label(&self) -> (r: String)
        ensures
            r@ == origin_label(self.deep_view()),
    {
        let debug = match self {
            SideOrigin::Authored(r) => concat(concat("Authored(", room_ref_debug_exec(r).as_str()).as_str(), ")"),
            SideOrigin::Derived(r) => concat(concat("Derived(", room_ref_debug_exec(r).as_str()).as_str(), ")"),
            SideOrigin::Unresolved(u) => {
                let name = match u {
                    Unresolved::NoCandidate => "NoCandidate",
                    Unresolved::Ambiguous => "Ambiguous",
                    Unresolved::NoDirection => "NoDirection",
                    Unresolved::NoPosition => "NoPosition",
                    Unresolved::UnknownLevel => "UnknownLevel",
                };
                concat(concat("Unresolved(", name).as_str(), ")")
            },
        };
        let folded = fold_chars(chars_of(debug.as_str()).as_slice());
        string_of(folded.as_slice())
    }
}

/// Authored always wins; geometry fills only what the model left absent.
pub open spec fn side_origin_of(authored: Option<Seq<char>>, model_id: Seq<char>, derived: LocatedV) -> SideOriginV {
    match authored {
        Some(room_id) => SideOriginV::Authored(RoomRefV { model_id, room_id }),
        None => match derived {
            LocatedV::Found(r) => SideOriginV::Derived(r),
            LocatedV::Unresolved(why) => SideOriginV::Unresolved(why),
        },
    }
}

/// Fold one side's authored reference and its derived answer into one origin.
pub fn side_origin(authored: Option<&str>, model_id: &str, derived: &Located) -> (r: SideOrigin)
    ensures
        r.deep_view() == side_origin_of(crate::contract::opt_str(authored), model_id@, derived.deep_view()),
{
    if let Some(room_id) = authored {
        return SideOrigin::Authored(RoomRef { model_id: model_id.to_string(), room_id: room_id.to_string() });
    }
    match derived {
        Located::Found(reference) => SideOrigin::Derived(reference.dup()),
        Located::Unresolved(why) => SideOrigin::Unresolved(*why),
    }
}

/// The pin map a milestone keeps for one kind: model id -> snapshot id.
pub open spec fn pins_of(m: MilestoneV, kind: SnapshotKind) -> Seq<FieldV> {
    match kind {
        SnapshotKind::Rooms => m.attachments,
        SnapshotKind::Doors => m.door_attachments,
        SnapshotKind::Windows => m.window_attachments,
        SnapshotKind::Ffe => m.ffe_attachments,
        SnapshotKind::Spaces => m.space_attachments,
        SnapshotKind::Ceilings => m.ceiling_attachments,
        SnapshotKind::Floors => m.floor_attachments,
    }
}

/// This kind's snapshot pins on one milestone.
pub fn milestone_pins(milestone: &Milestone, kind: SnapshotKind) -> (r: &[Field])
    ensures
        r.deep_view() == pins_of(milestone.deep_view(), kind),
{
    let v = match kind {
        SnapshotKind::Rooms => &milestone.attachments,
        SnapshotKind::Doors => &milestone.door_attachments,
        SnapshotKind::Windows => &milestone.window_attachments,
        SnapshotKind::Ffe => &milestone.ffe_attachments,
        SnapshotKind::Spaces => &milestone.space_attachments,
        SnapshotKind::Ceilings => &milestone.ceiling_attachments,
        SnapshotKind::Floors => &milestone.floor_attachments,
    };
    let s = v.as_slice();
    assert(s.deep_view() =~= v.deep_view());
    s
}

/// One model's contribution to a scoped read, decided before any snapshot is
/// opened.
pub struct PlannedRead {
    pub key: ModelKey,
    /// The snapshot id (`taken_at`) to serve.
    pub id: String,
}

pub struct PlannedReadV {
    pub key: ModelKeyV,
    pub id: Seq<char>,
}

impl DeepView for PlannedRead {
    type V = PlannedReadV;

    open spec fn deep_view(&self) -> PlannedReadV {
        PlannedReadV { key: self.key.deep_view(), id: self.id@ }
    }
}

impl Dup for PlannedRead {
    fn dup(&self) -> (r: Self) {
        PlannedRead { key: self.key.dup(), id: self.id.dup() }
    }
}

/// What one index row contributes: nothing for another project or an
/// unregistered one, nothing for a model with no snapshot of this kind; its
/// latest without a milestone; under one, the pin, and nothing when the project
/// lacks the milestone or the milestone does not pin the model.
pub open spec fn plan_row(
    row: ModelIndexRowV,
    projects: Seq<ProjectEntryV>,
    kind: SnapshotKind,
    project: Option<Seq<char>>,
    milestone: Option<Seq<char>>,
) -> Option<PlannedReadV> {
    if project is Some && row.key.project_id != project.unwrap() {
        None
    } else {
        match settings_of(projects, row.key.project_id) {
            None => None,
            Some(s) => match latest_in(row.latest, kind) {
                None => None,
                Some(latest) => match milestone {
                    None => Some(PlannedReadV { key: row.key, id: latest }),
                    Some(wanted) => match milestone_of(s, wanted) {
                        None => None,
                        Some(ms) => match entry::<Field>(pins_of(ms, kind), row.key.model_id) {
                            None => None,
                            Some(pin) => Some(PlannedReadV { key: row.key, id: pin.value }),
                        },
                    },
                },
            },
        }
    }
}

/// The plan: each index row's contribution, in index order.
pub open spec fn plan_of(
    index: Seq<ModelIndexRowV>,
    projects: Seq<ProjectEntryV>,
    kind: SnapshotKind,
    project: Option<Seq<char>>,
    milestone: Option<Seq<char>>,
) -> Seq<PlannedReadV>
    decreases index.len(),
{
    if index.len() == 0 {
        Seq::empty()
    } else {
        let rest = plan_of(index.drop_last(), projects, kind, project, milestone);
        match plan_row(index.last(), projects, kind, project, milestone) {
            Some(p) => rest.push(p),
            None => rest,
        }
    }
}

/// A model holding no snapshot of a kind contributes nothing to a read of it.
pub proof fn lemma_plan_needs_latest(
    index: Seq<ModelIndexRowV>,
    projects: Seq<ProjectEntryV>,
    kind: SnapshotKind,
    project: Option<Seq<char>>,
    milestone: Option<Seq<char>>,
)
    requires
        forall|i: int| 0 <= i < index.len() ==> (#[trigger] latest_in(index[i].latest, kind)) is None,
    ensures
        plan_of(index, projects, kind, project, milestone) == Seq::<PlannedReadV>::empty(),
    decreases index.len(),
{
    if index.len() > 0 {
        let rest = index.drop_last();
        assert forall|i: int| 0 <= i < rest.len() implies (#[trigger] latest_in(rest[i].latest, kind)) is None by {
            assert(rest[i] == index[i]);
        }
        lemma_plan_needs_latest(rest, projects, kind, project, milestone);
        assert(latest_in(index[index.len() - 1].latest, kind) is None);
    }
}

/// A row's latest id of `kind`.
pub fn latest_id(row: &ModelIndexRow, kind: SnapshotKind) -> (r: Option<&String>)
    ensures
        match r {
            Some(id) => latest_in(row.latest.deep_view(), kind) == Some(id@),
            None => latest_in(row.latest.deep_view(), kind) is None,
        },
{
    let ghost ld = row.latest.deep_view();
    let mut k: usize = 0;
    while k < row.latest.len()
        invariant
            k <= row.latest@.len(),
            ld == row.latest.deep_view(),
            forall|j: int| 0 <= j < k ==> !crate::state::is_kind(kind)(#[trigger] ld[j]),
        decreases row.latest@.len() - k,
    {
        assert(ld[k as int] == row.latest@[k as int].deep_view());
        assert(crate::state::is_kind(kind)(ld[k as int]) == (ld[k as int].kind == kind));
        if row.latest[k].kind == kind {
            proof {
                crate::keyed::lemma_first_where_at(ld, crate::state::is_kind(kind), k as int);
            }
            return Some(&row.latest[k].id);
        }
        k += 1;
    }
    proof {
        crate::keyed::lemma_first_where_at(ld, crate::state::is_kind(kind), k as int);
    }
    None
}

/// Which snapshot of `kind` each in-scope model contributes, decided from the
/// store index and the settings alone.
pub fn plan_reads(
    index: &[ModelIndexRow],
    registry: &SettingsRegistry,
    kind: SnapshotKind,
    project: Option<&str>,
    milestone: Option<&str>,
) -> (r: Vec<PlannedRead>)
    ensures
        r.deep_view() == plan_of(
            index.deep_view(),
            registry.view_projects(),
            kind,
            crate::contract::opt_str(project),
            crate::contract::opt_str(milestone),
        ),
{
    let ghost d = index.deep_view();
    let ghost pv = crate::contract::opt_str(project);
    let ghost mv = crate::contract::opt_str(milestone);
    let ghost projects = registry.view_projects();
    let mut plan: Vec<PlannedRead> = Vec::new();
    let mut i: usize = 0;
    proof {
        assert(d.take(0) =~= Seq::<ModelIndexRowV>::empty());
        assert(plan.deep_view() =~= Seq::<PlannedReadV>::empty());
    }
    while i < index.len()
        invariant
            i <= index@.len(),
            d == index.deep_view(),
            pv == crate::contract::opt_str(project),
            mv == crate::contract::opt_str(milestone),
            projects == registry.view_projects(),
            plan.deep_view() == plan_of(d.take(i as int), projects, kind, pv, mv),
        decreases index@.len() - i,
    {
        let row = &index[i];
        let ghost rv = row.deep_view();
        assert(rv == d[i as int]);
        let ghost want = plan_row(rv, projects, kind, pv, mv);
        proof {
            assert(d.take(i + 1).drop_last() =~= d.take(i as int));
            assert(d.take(i + 1).last() == rv);
        }
        let ghost before = plan.deep_view();
        let skip_project = match project {
            Some(p) => !text_eq(row.key.project_id.as_str(), p),
            None => false,
        };
        if !skip_project {
            if let Some(bundle) = registry.settings_for(row.key.project_id.as_str()) {
                if let Some(latest) = latest_id(row, kind) {
                    match milestone {
                        None => {
                            plan.push(PlannedRead { key: row.key.dup(), id: latest.clone() });
                        },
                        Some(wanted) => {
                            if let Some(ms) = bundle.milestone(wanted) {
                                let pins = milestone_pins(ms, kind);
                                if let Some(pin) = lookup(pins, row.key.model_id.as_str()) {
                                    plan.push(PlannedRead { key: row.key.dup(), id: pin.value.clone() });
                                }
                            }
                        },
                    }
                }
            }
        }
        proof {
            match want {
                Some(p) => {
                    assert(plan.deep_view() =~= before.push(p));
                },
                None => {
                    assert(plan.deep_view() =~= before);
                },
            }
        }
        i += 1;
    }
    proof {
        assert(d.take(i as int) =~= d);
    }
    plan
}

/// One model's snapshot, as a read opened it.
pub struct Scoped<E> {
    pub key: ModelKey,
    pub payload: Payload<E>,
}

pub struct ScopedV<V> {
    pub key: ModelKeyV,
    pub payload: PayloadV<V>,
}

impl<E: DeepView> DeepView for Scoped<E> {
    type V = ScopedV<E::V>;

    open spec fn deep_view(&self) -> ScopedV<E::V> {
        ScopedV { key: self.key.deep_view(), payload: self.payload.deep_view() }
    }
}

impl<E: Dup> Dup for Scoped<E> {
    fn dup(&self) -> (r: Self) {
        Scoped { key: self.key.dup(), payload: self.payload.dup() }
    }
}

/// The snapshots a plan names, in plan order; a pin naming nothing stored is
/// skipped.
pub open spec fn read_of<V>(history: Seq<PayloadV<V>>, plan: Seq<PlannedReadV>) -> Seq<ScopedV<V>>
    decreases plan.len(),
{
    if plan.len() == 0 {
        Seq::empty()
    } else {
        let rest = read_of(history, plan.drop_last());
        let p = plan.last();
        match snapshot_in(history, p.key.project_id, p.key.model_id, p.id) {
            Some(payload) => rest.push(ScopedV { key: p.key, payload }),
            None => rest,
        }
    }
}

/// Open the snapshots a plan names, in plan order.
pub fn read_planned<E: Dup>(history: &[Payload<E>], plan: &[PlannedRead]) -> (r: Vec<Scoped<E>>)
    ensures
        r.deep_view() == read_of(history.deep_view(), plan.deep_view()),
{
    let ghost d = plan.deep_view();
    let ghost h = history.deep_view();
    let mut out: Vec<Scoped<E>> = Vec::new();
    let mut i: usize = 0;
    proof {
        assert(d.take(0) =~= Seq::<PlannedReadV>::empty());
        assert(out.deep_view() =~= Seq::<ScopedV<E::V>>::empty());
    }
    while i < plan.len()
        invariant
            i <= plan@.len(),
            d == plan.deep_view(),
            h == history.deep_view(),
            out.deep_view() == read_of(h, d.take(i as int)),
        decreases plan@.len() - i,
    {
        let p = &plan[i];
        assert(p.deep_view() == d[i as int]);
        proof {
            assert(d.take(i + 1).drop_last() =~= d.take(i as int));
            assert(d.take(i + 1).last() == d[i as int]);
        }
        let ghost before = out.deep_view();
        match find_snapshot(history, &p.key, p.id.as_str()) {
            Some(payload) => {
                out.push(Scoped { key: p.key.dup(), payload: payload.dup() });
                assert(out.deep_view() =~= before.push(ScopedV { key: d[i as int].key, payload: payload.deep_view() }));
            },
            None => {},
        }
        i += 1;
    }
    proof {
        assert(d.take(i as int) =~= d);
    }
    out
}

/// Scope one entity's stored snapshots to the request: plan from the index,
/// then open exactly what the plan names.
pub fn scope_snapshots<E: Dup>(
    index: &[ModelIndexRow],
    registry: &SettingsRegistry,
    history: &[Payload<E>],
    kind: SnapshotKind,
    project: Option<&str>,
    milestone: Option<&str>,
) -> (r: Vec<Scoped<E>>)
    ensures
        r.deep_view() == read_of(
            history.deep_view(),
            plan_of(
                index.deep_view(),
                registry.view_projects(),
                kind,
                crate::contract::opt_str(project),
                crate::contract::opt_str(milestone),
            ),
        ),
{
    let plan = plan_reads(index, registry, kind, project, milestone);
    let ps = plan.as_slice();
    assert(ps.deep_view() =~= plan.deep_view());
    read_planned(history, ps)
}

/// The rows a revision hashes: project, model and snapshot id per contributor.
pub open spec fn revision_rows<V>(scoped: Seq<ScopedV<V>>) -> Seq<Seq<Seq<char>>> {
    scoped.map_values(|s: ScopedV<V>| seq![s.key.project_id, s.key.model_id, s.payload.taken_at])
}

/// A stable content revision: which snapshot each model contributed, sorted
/// and hashed, so it does not depend on the order they were read in.
pub fn revision<E: Dup>(scoped: &[Scoped<E>]) -> (r: String)
    ensures
        r@ == cursor_of(revision_rows(scoped.deep_view())),
{
    let ghost d = scoped.deep_view();
    let mut rows: Vec<Vec<String>> = Vec::new();
    let mut i: usize = 0;
    while i < scoped.len()
        invariant
            i <= scoped@.len(),
            d == scoped.deep_view(),
            rows.deep_view() == revision_rows(d.take(i as int)),
        decreases scoped@.len() - i,
    {
        let s = &scoped[i];
        assert(s.deep_view() == d[i as int]);
        let mut row: Vec<String> = Vec::new();
        row.push(s.key.project_id.clone());
        row.push(s.key.model_id.clone());
        row.push(s.payload.snapshot.taken_at.clone());
        assert(row.deep_view() =~= seq![d[i as int].key.project_id, d[i as int].key.model_id, d[i as int].payload.taken_at]);
        let ghost before = rows.deep_view();
        rows.push(row);
        proof {
            assert(rows.deep_view() =~= before.push(seq![d[i as int].key.project_id, d[i as int].key.model_id, d[i as int].payload.taken_at]));
            assert(revision_rows(d.take(i + 1)) =~= revision_rows(d.take(i as int)).push(seq![d[i as int].key.project_id, d[i as int].key.model_id, d[i as int].payload.taken_at]));
        }
        i += 1;
    }
    proof {
        assert(d.take(i as int) =~= d);
    }
    cursor(rows)
}

/// The rows a scope's cursor hashes for one kind: project, model, kind and
/// snapshot id per planned read.
pub open spec fn kind_rows(plan: Seq<PlannedReadV>, kind: SnapshotKind) -> Seq<Seq<Seq<char>>> {
    plan.map_values(|p: PlannedReadV| seq![p.key.project_id, p.key.model_id, kind_label(kind), p.id])
}

/// The rows a scope's cursor hashes: each kind's planned reads, kind by kind.
pub open spec fn scope_rows(
    index: Seq<ModelIndexRowV>,
    projects: Seq<ProjectEntryV>,
    project: Option<Seq<char>>,
    milestone: Option<Seq<char>>,
    kinds: Seq<SnapshotKind>,
) -> Seq<Seq<Seq<char>>>
    decreases kinds.len(),
{
    if kinds.len() == 0 {
        Seq::empty()
    } else {
        scope_rows(index, projects, project, milestone, kinds.drop_last()) + kind_rows(
            plan_of(index, projects, kinds.last(), project, milestone),
            kinds.last(),
        )
    }
}

/// A cursor over everything a read of these kinds in this scope would serve,
/// decided from the index and the settings alone: the same plan the read
/// follows, each kind with its own pins.
pub fn scope_cursor(state: &AppState, project: Option<&str>, milestone: Option<&str>, kinds: &[SnapshotKind]) -> (r: String)
    ensures
        r@ == cursor_of(
            scope_rows(
                state.index.deep_view(),
                state.registry.view_projects(),
                crate::contract::opt_str(project),
                crate::contract::opt_str(milestone),
                kinds@,
            ),
        ),
{
    let ghost iv = state.index.deep_view();
    let ghost pv = state.registry.view_projects();
    let ghost po = crate::contract::opt_str(project);
    let ghost mo = crate::contract::opt_str(milestone);
    let idx = state.index.as_slice();
    assert(idx.deep_view() =~= iv);
    let mut rows: Vec<Vec<String>> = Vec::new();
    let mut k: usize = 0;
    while k < kinds.len()
        invariant
            k <= kinds@.len(),
            iv == state.index.deep_view(),
            idx.deep_view() == iv,
            pv == state.registry.view_projects(),
            po == crate::contract::opt_str(project),
            mo == crate::contract::opt_str(milestone),
            rows.deep_view() == scope_rows(iv, pv, po, mo, kinds@.take(k as int)),
        decreases kinds@.len() - k,
    {
        let kind = kinds[k];
        assert(kinds@.take(k + 1).drop_last() =~= kinds@.take(k as int));
        let plan = plan_reads(idx, &state.registry, kind, project, milestone);
        let ghost pd = plan.deep_view();
        let ghost start = rows.deep_view();
        let mut j: usize = 0;
        while j < plan.len()
            invariant
                j <= plan@.len(),
                pd == plan.deep_view(),
                rows.deep_view() == start + kind_rows(pd.take(j as int), kind),
            decreases plan@.len() - j,
        {
            let p = &plan[j];
            assert(p.deep_view() == pd[j as int]);
            let mut row: Vec<String> = Vec::new();
            row.push(p.key.project_id.dup());
            row.push(p.key.model_id.dup());
            row.push(kind.label());
            row.push(p.id.dup());
            assert(row.deep_view() =~= seq![pd[j as int].key.project_id, pd[j as int].key.model_id, kind_label(kind), pd[j as int].id]);
            let ghost before = rows.deep_view();
            rows.push(row);
            assert(rows.deep_view() =~= before.push(
                seq![pd[j as int].key.project_id, pd[j as int].key.model_id, kind_label(kind), pd[j as int].id],
            ));
            assert(kind_rows(pd.take(j + 1), kind) =~= kind_rows(pd.take(j as int), kind).push(
                seq![pd[j as int].key.project_id, pd[j as int].key.model_id, kind_label(kind), pd[j as int].id],
            ));
            assert(rows.deep_view() =~= start + kind_rows(pd.take(j + 1), kind));
            j += 1;
        }
        assert(pd.take(j as int) =~= pd);
        k += 1;
    }
    assert(kinds@.take(k as int) =~= kinds@);
    cursor(rows)
}

/// The phase one contributing model was filtered to.
pub struct ModelPhase {
    pub project_id: String,
    pub model_id: String,
    pub phase: Option<String>,
}

pub struct ModelPhaseV {
    pub project_id: Seq<char>,
    pub model_id: Seq<char>,
    pub phase: Option<Seq<char>>,
}

impl DeepView for ModelPhase {
    type V = ModelPhaseV;

    open spec fn deep_view(&self) -> ModelPhaseV {
        ModelPhaseV { project_id: self.project_id@, model_id: self.model_id@, phase: self.phase.deep_view() }
    }
}

/// Whether one model's entry sorts before another's: by project, then by
/// model.
pub open spec fn phase_before(a: ModelPhaseV, b: ModelPhaseV) -> bool {
    text_lt(a.project_id, b.project_id) || (a.project_id == b.project_id && text_lt(a.model_id, b.model_id))
}

pub open spec fn not_before(e: ModelPhaseV) -> spec_fn(ModelPhaseV) -> bool {
    |x: ModelPhaseV| !phase_before(x, e)
}

/// Where an entry goes among entries in key order: after every entry that
/// sorts before it.
pub open spec fn phase_place(s: Seq<ModelPhaseV>, e: ModelPhaseV) -> int {
    let i = first_where(s, not_before(e));
    if i < 0 {
        s.len() as int
    } else {
        i
    }
}

/// Entries in key order with one more model's phase: it replaces the entry
/// of the same model, or goes in at its place.
pub open spec fn with_phase(s: Seq<ModelPhaseV>, e: ModelPhaseV) -> Seq<ModelPhaseV> {
    let p = phase_place(s, e);
    if p < s.len() && s[p].project_id == e.project_id && s[p].model_id == e.model_id {
        s.update(p, e)
    } else {
        s.insert(p, e)
    }
}

/// One contributor's phase, read off its own snapshot.
pub open spec fn phase_entry<V>(s: ScopedV<V>) -> ModelPhaseV {
    ModelPhaseV { project_id: s.key.project_id, model_id: s.key.model_id, phase: s.payload.phase }
}

/// Each contributor's phase, per project and model in key order; a model
/// read twice keeps the phase of its later read.
pub open spec fn phases_of<V>(scoped: Seq<ScopedV<V>>) -> Seq<ModelPhaseV>
    decreases scoped.len(),
{
    if scoped.len() == 0 {
        Seq::empty()
    } else {
        with_phase(phases_of(scoped.drop_last()), phase_entry(scoped.last()))
    }
}

/// Entries strictly in key order: each model once.
pub open spec fn phases_in_order(s: Seq<ModelPhaseV>) -> bool {
    forall|i: int, j: int| 0 <= i < j < s.len() ==> phase_before(#[trigger] s[i], #[trigger] s[j])
}

proof fn lemma_phase_before_total(a: ModelPhaseV, b: ModelPhaseV)
    ensures
        phase_before(a, b) || phase_before(b, a) || (a.project_id == b.project_id && a.model_id == b.model_id),
        !(phase_before(a, b) && phase_before(b, a)),
{
    lemma_text_lt_total(a.project_id, b.project_id);
    lemma_text_lt_total(a.model_id, b.model_id);
    if text_lt(a.project_id, b.project_id) {
        lemma_text_lt_asymmetric(a.project_id, b.project_id);
    }
    if text_lt(a.model_id, b.model_id) {
        lemma_text_lt_asymmetric(a.model_id, b.model_id);
    }
    lemma_text_lt_irreflexive(a.project_id);
    lemma_text_lt_irreflexive(a.model_id);
}

proof fn lemma_phase_before_transitive(a: ModelPhaseV, b: ModelPhaseV, c: ModelPhaseV)
    requires
        phase_before(a, b),
        phase_before(b, c),
    ensures
        phase_before(a, c),
{
    if text_lt(a.project_id, b.project_id) && text_lt(b.project_id, c.project_id) {
        lemma_text_lt_transitive(a.project_id, b.project_id, c.project_id);
    } else if text_lt(a.model_id, b.model_id) && text_lt(b.model_id, c.model_id) {
        lemma_text_lt_transitive(a.model_id, b.model_id, c.model_id);
    }
}

/// Putting a phase in keeps the entries strictly in key order.
proof fn lemma_with_phase_in_order(s: Seq<ModelPhaseV>, e: ModelPhaseV)
    requires
        phases_in_order(s),
    ensures
        phases_in_order(with_phase(s, e)),
{
    let f = not_before(e);
    lemma_first_where(s, f);
    let p = phase_place(s, e);
    let out = with_phase(s, e);
    assert forall|j: int| 0 <= j < p implies phase_before(#[trigger] s[j], e) by {
        assert(!f(s[j]));
    }
    if p < s.len() {
        assert(f(s[p]));
        lemma_phase_before_total(s[p], e);
    }
    assert forall|i: int, j: int| 0 <= i < j < out.len() implies phase_before(#[trigger] out[i], #[trigger] out[j]) by {
        if p < s.len() && s[p].project_id == e.project_id && s[p].model_id == e.model_id {
            if j == p {
                assert(out[i] == s[i]);
            } else if i == p {
                assert(out[j] == s[j]);
                assert(phase_before(s[p], s[j]));
            } else {
                assert(out[i] == s[i] && out[j] == s[j]);
            }
        } else {
            if j < p {
                assert(out[i] == s[i] && out[j] == s[j]);
            } else if j == p {
                assert(out[i] == s[i] && out[j] == e);
            } else if i < p {
                assert(out[i] == s[i] && out[j] == s[j - 1]);
                if i < j - 1 {
                } else {
                    assert(i == p - 1);
                    assert(phase_before(s[i], e));
                    lemma_phase_before_total(s[p], e);
                    lemma_phase_before_transitive(s[i], e, s[p]);
                    assert(j - 1 == p);
                }
                if i < j - 1 {
                    assert(phase_before(s[i], s[j - 1]));
                }
            } else if i == p {
                assert(out[i] == e && out[j] == s[j - 1]);
                lemma_phase_before_total(s[p], e);
                if j - 1 > p {
                    lemma_phase_before_transitive(e, s[p], s[j - 1]);
                }
            } else {
                assert(out[i] == s[i - 1] && out[j] == s[j - 1]);
            }
        }
    }
}

/// The phases a read reports are strictly in key order: each model once.
pub proof fn lemma_phases_in_order<V>(scoped: Seq<ScopedV<V>>)
    ensures
        phases_in_order(phases_of(scoped)),
    decreases scoped.len(),
{
    if scoped.len() > 0 {
        lemma_phases_in_order(scoped.drop_last());
        lemma_with_phase_in_order(phases_of(scoped.drop_last()), phase_entry(scoped.last()));
    }
}

fn phase_less(a: &ModelPhase, b: &ModelPhase) -> (r: bool)
    ensures
        r == phase_before(a.deep_view(), b.deep_view()),
{
    a.project_id.less(&b.project_id) || (text_eq(a.project_id.as_str(), b.project_id.as_str()) && a.model_id.less(&b.model_id))
}

/// Put one model's phase among entries in key order.
fn put_phase(out: &mut Vec<ModelPhase>, e: ModelPhase)
    ensures
        final(out).deep_view() == with_phase(old(out).deep_view(), e.deep_view()),
{
    let ghost s = out.deep_view();
    let ghost ev = e.deep_view();
    let mut i: usize = 0;
    while i < out.len()
        invariant
            i <= out@.len(),
            s == out.deep_view(),
            ev == e.deep_view(),
            forall|j: int| 0 <= j < i ==> !not_before(ev)(#[trigger] s[j]),
        ensures
            i <= out@.len(),
            forall|j: int| 0 <= j < i ==> !not_before(ev)(#[trigger] s[j]),
            i == out@.len() || not_before(ev)(s[i as int]),
        decreases out@.len() - i,
    {
        assert(s[i as int] == out@[i as int].deep_view());
        if !phase_less(&out[i], &e) {
            break;
        }
        i += 1;
    }
    proof {
        if i < out@.len() {
            assert(s[i as int] == out@[i as int].deep_view());
        }
        lemma_first_where_at(s, not_before(ev), i as int);
    }
    if i < out.len() && text_eq(out[i].project_id.as_str(), e.project_id.as_str()) && text_eq(
        out[i].model_id.as_str(),
        e.model_id.as_str(),
    ) {
        assert(s[i as int] == out@[i as int].deep_view());
        out.set(i, e);
        assert(out.deep_view() =~= s.update(i as int, ev));
    } else {
        proof {
            if i < out@.len() {
                assert(s[i as int] == out@[i as int].deep_view());
            }
        }
        out.insert(i, e);
        assert(out.deep_view() =~= s.insert(i as int, ev));
    }
}

/// The phase each contributing model was filtered to, per project and model
/// in key order.
pub fn phase_by_model<E: Dup>(scoped: &[Scoped<E>]) -> (r: Vec<ModelPhase>)
    ensures
        r.deep_view() == phases_of(scoped.deep_view()),
        phases_in_order(r.deep_view()),
{
    let ghost d = scoped.deep_view();
    let mut out: Vec<ModelPhase> = Vec::new();
    let mut i: usize = 0;
    while i < scoped.len()
        invariant
            i <= scoped@.len(),
            d == scoped.deep_view(),
            out.deep_view() == phases_of(d.take(i as int)),
        decreases scoped@.len() - i,
    {
        let s = &scoped[i];
        assert(s.deep_view() == d[i as int]);
        assert(d.take(i + 1).drop_last() =~= d.take(i as int));
        let e = ModelPhase { project_id: s.key.project_id.clone(), model_id: s.key.model_id.clone(), phase: s.payload.phase.dup() };
        assert(e.deep_view() == phase_entry(d[i as int]));
        put_phase(&mut out, e);
        i += 1;
    }
    proof {
        assert(d.take(i as int) =~= d);
        lemma_phases_in_order(d);
    }
    out
}

/// The levels one contributing model declares.
pub struct ModelLevels {
    pub model_id: String,
    pub levels: Vec<Level>,
}

pub struct ModelLevelsV {
    pub model_id: Seq<char>,
    pub levels: Seq<LevelV>,
}

impl DeepView for ModelLevels {
    type V = ModelLevelsV;

    open spec fn deep_view(&self) -> ModelLevelsV {
        ModelLevelsV { model_id: self.model_id@, levels: self.levels.deep_view() }
    }
}

pub open spec fn levels_of<V>(scoped: Seq<ScopedV<V>>) -> Seq<ModelLevelsV> {
    scoped.map_values(|s: ScopedV<V>| ModelLevelsV { model_id: s.key.model_id, levels: s.payload.levels })
}

/// The levels each contributing model declares, by model id, in read order.
pub fn levels_by_model<E: Dup>(scoped: &[Scoped<E>]) -> (r: Vec<ModelLevels>)
    ensures
        r.deep_view() == levels_of(scoped.deep_view()),
{
    let ghost d = scoped.deep_view();
    let mut out: Vec<ModelLevels> = Vec::new();
    let mut i: usize = 0;
    while i < scoped.len()
        invariant
            i <= scoped@.len(),
            d == scoped.deep_view(),
            out.deep_view() == levels_of(d.take(i as int)),
        decreases scoped@.len() - i,
    {
        let s = &scoped[i];
        assert(s.deep_view() == d[i as int]);
        out.push(ModelLevels { model_id: s.key.model_id.clone(), levels: s.payload.levels.dup() });
        proof {
            assert(levels_of(d.take(i + 1)) =~= levels_of(d.take(i as int)).push(
                ModelLevelsV { model_id: d[i as int].key.model_id, levels: d[i as int].payload.levels },
            ));
            assert(out.deep_view() =~= levels_of(d.take(i + 1)));
        }
        i += 1;
    }
    proof {
        assert(d.take(i as int) =~= d);
    }
    out
}

} // verus!
