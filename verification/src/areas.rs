//! How rooms roll up into hierarchy groups for area take-offs: the exclusion
//! rules (a room withheld before any geometry, a group withheld from its
//! parent's dissolve), and which rooms make up each group at each tier of each
//! level. Dissolving the groups' footprints is plan geometry and happens
//! outside the library, over the plan decided here.
use vstd::prelude::*;
use crate::keyed::Dup;
use crate::records::{Room, RoomV};
use crate::reports::distinct_names;
use crate::settings::{HierarchyExclusion, HierarchyExclusionV, TierValue, TierValueV};
use crate::text::text_eq;

verus! {

/// Two tier values name the same group: the tier label is positional, so the
/// resolved code, name and undefined flag decide.
pub open spec fn same_tier_value(x: TierValueV, y: TierValueV) -> bool {
    x.code == y.code && x.name == y.name && x.undefined == y.undefined
}

/// Two classification prefixes name the same group when they match tier for
/// tier.
pub open spec fn same_path(a: Seq<TierValueV>, b: Seq<TierValueV>) -> bool {
    a.len() == b.len() && forall|i: int| 0 <= i < a.len() ==> same_tier_value(#[trigger] a[i], b[i])
}

fn opt_text_eq(a: &Option<String>, b: &Option<String>) -> (r: bool)
    ensures
        r == (a.deep_view() == b.deep_view()),
{
    match (a, b) {
        (Some(x), Some(y)) => text_eq(x.as_str(), y.as_str()),
        (None, None) => true,
        _ => false,
    }
}

/// Two classification prefixes name the same group.
pub fn path_eq(a: &[TierValue], b: &[TierValue]) -> (r: bool)
    ensures
        r == same_path(a.deep_view(), b.deep_view()),
{
    let ghost ad = a.deep_view();
    let ghost bd = b.deep_view();
    if a.len() != b.len() {
        return false;
    }
    let mut i: usize = 0;
    while i < a.len()
        invariant
            i <= a@.len(),
            a@.len() == b@.len(),
            ad == a.deep_view(),
            bd == b.deep_view(),
            forall|j: int| 0 <= j < i ==> same_tier_value(#[trigger] ad[j], bd[j]),
        decreases a@.len() - i,
    {
        assert(ad[i as int] == a@[i as int].deep_view());
        assert(bd[i as int] == b@[i as int].deep_view());
        if !(opt_text_eq(&a[i].code, &b[i].code) && opt_text_eq(&a[i].name, &b[i].name) && a[i].undefined
            == b[i].undefined) {
            assert(!same_tier_value(ad[i as int], bd[i as int]));
            return false;
        }
        i += 1;
    }
    true
}

/// Whether an exclusion withholds this room before geometry.
pub open spec fn room_excluded(id: Seq<char>, exclusions: Seq<HierarchyExclusionV>) -> bool {
    exists|i: int|
        0 <= i < exclusions.len() && match #[trigger] exclusions[i] {
            HierarchyExclusionV::Rooms { ids } => ids.contains(id),
            HierarchyExclusionV::Group { .. } => false,
        }
}

/// Whether an exclusion withholds this room before geometry.
pub fn is_room_excluded(id: &str, exclusions: &[HierarchyExclusion]) -> (r: bool)
    ensures
        r == room_excluded(id@, exclusions.deep_view()),
{
    let ghost d = exclusions.deep_view();
    let mut i: usize = 0;
    while i < exclusions.len()
        invariant
            i <= exclusions@.len(),
            d == exclusions.deep_view(),
            forall|j: int|
                0 <= j < i ==> match #[trigger] d[j] {
                    HierarchyExclusionV::Rooms { ids } => !ids.contains(id@),
                    HierarchyExclusionV::Group { .. } => true,
                },
        decreases exclusions@.len() - i,
    {
        assert(d[i as int] == exclusions@[i as int].deep_view());
        if let HierarchyExclusion::Rooms { ids } = &exclusions[i] {
            let ghost idd = ids.deep_view();
            assert(d[i as int] == HierarchyExclusionV::Rooms { ids: idd });
            let mut k: usize = 0;
            while k < ids.len()
                invariant
                    k <= ids@.len(),
                    idd == ids.deep_view(),
                    i < d.len(),
                    d == exclusions.deep_view(),
                    d[i as int] == (HierarchyExclusionV::Rooms { ids: idd }),
                    forall|j: int| 0 <= j < k ==> idd[j] != id@,
                decreases ids@.len() - k,
            {
                assert(idd[k as int] == ids@[k as int]@);
                if text_eq(ids[k].as_str(), id) {
                    assert(idd.contains(id@));
                    assert(match d[i as int] {
                        HierarchyExclusionV::Rooms { ids } => ids.contains(id@),
                        HierarchyExclusionV::Group { .. } => false,
                    });
                    return true;
                }
                k += 1;
            }
        }
        i += 1;
    }
    proof {
        if room_excluded(id@, d) {
            let j = choose|j: int|
                0 <= j < d.len() && match #[trigger] d[j] {
                    HierarchyExclusionV::Rooms { ids } => ids.contains(id@),
                    HierarchyExclusionV::Group { .. } => false,
                };
            assert(match d[j] {
                HierarchyExclusionV::Rooms { ids } => !ids.contains(id@),
                HierarchyExclusionV::Group { .. } => true,
            });
        }
    }
    false
}

/// Whether an exclusion names this group: its tier, and its resolved code or
/// name.
pub open spec fn names_group(e: HierarchyExclusionV, last: TierValueV) -> bool {
    match e {
        HierarchyExclusionV::Group { tier, value } => tier == last.tier && (last.code == Some(value) || last.name
            == Some(value)),
        HierarchyExclusionV::Rooms { .. } => false,
    }
}

/// Whether the group this path ends in is withheld from its parent's
/// dissolve; an empty path names no group.
pub open spec fn group_excluded(path: Seq<TierValueV>, exclusions: Seq<HierarchyExclusionV>) -> bool {
    path.len() > 0 && exists|i: int| 0 <= i < exclusions.len() && names_group(#[trigger] exclusions[i], path.last())
}

fn opt_is(a: &Option<String>, v: &str) -> (r: bool)
    ensures
        r == (a.deep_view() == Some(v@)),
{
    match a {
        Some(x) => text_eq(x.as_str(), v),
        None => false,
    }
}

/// Whether the group this path ends in is withheld from its parent's
/// dissolve.
pub fn is_group_excluded(path: &[TierValue], exclusions: &[HierarchyExclusion]) -> (r: bool)
    ensures
        r == group_excluded(path.deep_view(), exclusions.deep_view()),
{
    if path.len() == 0 {
        return false;
    }
    let last = &path[path.len() - 1];
    let ghost lv = last.deep_view();
    assert(lv == path.deep_view().last());
    let ghost d = exclusions.deep_view();
    let mut i: usize = 0;
    while i < exclusions.len()
        invariant
            i <= exclusions@.len(),
            d == exclusions.deep_view(),
            lv == last.deep_view(),
            path.deep_view().len() > 0,
            lv == path.deep_view().last(),
            forall|j: int| 0 <= j < i ==> !names_group(#[trigger] d[j], lv),
        decreases exclusions@.len() - i,
    {
        assert(d[i as int] == exclusions@[i as int].deep_view());
        if let HierarchyExclusion::Group { tier, value } = &exclusions[i] {
            if text_eq(tier.as_str(), last.tier.as_str()) && (opt_is(&last.code, value.as_str()) || opt_is(
                &last.name,
                value.as_str(),
            )) {
                assert(names_group(d[i as int], lv));
                assert(names_group(d[i as int], path.deep_view().last()));
                assert(path.deep_view().len() > 0);
                return true;
            }
        }
        i += 1;
    }
    false
}

/// The shallowest tier at which an exclusion withholds this path's group, if
/// any: withholding at a tier already removes the group from every tier above
/// it.
pub open spec fn excluded_depth_of(path: Seq<TierValueV>, exclusions: Seq<HierarchyExclusionV>) -> Option<nat> {
    if exists|k: int| 0 <= k < path.len() && group_excluded(#[trigger] path.take(k + 1), exclusions) {
        Some(
            (choose|k: int|
                0 <= k < path.len() && group_excluded(#[trigger] path.take(k + 1), exclusions) && forall|j: int|
                    0 <= j < k ==> !group_excluded(#[trigger] path.take(j + 1), exclusions)) as nat,
        )
    } else {
        None
    }
}

/// The shallowest tier at which an exclusion withholds this path's group.
pub fn excluded_depth(path: &[TierValue], exclusions: &[HierarchyExclusion]) -> (r: Option<usize>)
    ensures
        match r {
            Some(k) => excluded_depth_of(path.deep_view(), exclusions.deep_view()) == Some(k as nat),
            None => excluded_depth_of(path.deep_view(), exclusions.deep_view()) is None,
        },
{
    let ghost pd = path.deep_view();
    let ghost d = exclusions.deep_view();
    let mut k: usize = 0;
    while k < path.len()
        invariant
            k <= path@.len(),
            pd == path.deep_view(),
            d == exclusions.deep_view(),
            forall|j: int| 0 <= j < k ==> !group_excluded(#[trigger] pd.take(j + 1), d),
        decreases path@.len() - k,
    {
        let prefix = slice_to(path, k + 1);
        assert(prefix.deep_view() =~= pd.take(k + 1));
        if is_group_excluded(prefix, exclusions) {
            proof {
                let w = choose|w: int|
                    0 <= w < pd.len() && group_excluded(#[trigger] pd.take(w + 1), d) && forall|j: int|
                        0 <= j < w ==> !group_excluded(#[trigger] pd.take(j + 1), d);
                if w < k {
                    assert(!group_excluded(pd.take(w + 1), d));
                } else if w > k {
                    assert(!group_excluded(pd.take(k + 1), d));
                }
            }
            return Some(k);
        }
        k += 1;
    }
    None
}

/// The first `n` tier values of a path.
fn slice_to(path: &[TierValue], n: usize) -> (r: &[TierValue])
    requires
        n <= path@.len(),
    ensures
        r@ == path@.take(n as int),
{
    let (head, _) = path.split_at(n);
    head
}

/// One room with its classification path, outermost tier first.
pub struct ClassifiedRoom<'a> {
    pub room: &'a Room,
    pub path: &'a [TierValue],
}

pub struct ClassifiedRoomV {
    pub room: RoomV,
    pub path: Seq<TierValueV>,
}

impl<'a> DeepView for ClassifiedRoom<'a> {
    type V = ClassifiedRoomV;

    open spec fn deep_view(&self) -> ClassifiedRoomV {
        ClassifiedRoomV { room: self.room.deep_view(), path: self.path.deep_view() }
    }
}

/// One group at one tier on one level, and the rooms whose footprints make
/// it up.
pub struct PlannedAreaGroup {
    pub level_id: String,
    /// The group's path prefix: its length is the tier depth.
    pub path: Vec<TierValue>,
    /// The member rooms, by position in the input.
    pub members: Vec<usize>,
    /// False when an exclusion withholds the group from its parent's dissolve.
    pub counted_upward: bool,
}

pub struct PlannedAreaGroupV {
    pub level_id: Seq<char>,
    pub path: Seq<TierValueV>,
    pub members: Seq<usize>,
    pub counted_upward: bool,
}

impl DeepView for PlannedAreaGroup {
    type V = PlannedAreaGroupV;

    open spec fn deep_view(&self) -> PlannedAreaGroupV {
        PlannedAreaGroupV {
            level_id: self.level_id@,
            path: self.path.deep_view(),
            members: self.members@,
            counted_upward: self.counted_upward,
        }
    }
}

/// The positions of the rooms no exclusion withholds, in order.
pub open spec fn kept(rs: Seq<ClassifiedRoomV>, ex: Seq<HierarchyExclusionV>) -> Seq<usize>
    decreases rs.len(),
{
    if rs.len() == 0 {
        Seq::empty()
    } else {
        let rest = kept(rs.drop_last(), ex);
        if room_excluded(rs.last().room.id, ex) {
            rest
        } else {
            rest.push((rs.len() - 1) as usize)
        }
    }
}

/// The levels the kept rooms stand on, first seen first.
pub open spec fn level_order(rs: Seq<ClassifiedRoomV>, ex: Seq<HierarchyExclusionV>) -> Seq<Seq<char>> {
    distinct_names(kept(rs, ex).map_values(|i: usize| rs[i as int].room.level_id))
}

/// The rooms of `idxs` on one level, in order.
pub open spec fn on_level(rs: Seq<ClassifiedRoomV>, idxs: Seq<usize>, level: Seq<char>) -> Seq<usize>
    decreases idxs.len(),
{
    if idxs.len() == 0 {
        Seq::empty()
    } else {
        let rest = on_level(rs, idxs.drop_last(), level);
        if rs[idxs.last() as int].room.level_id == level {
            rest.push(idxs.last())
        } else {
            rest
        }
    }
}

/// How many tiers the deepest path among `idxs` has.
pub open spec fn tiers_of(rs: Seq<ClassifiedRoomV>, idxs: Seq<usize>) -> nat
    decreases idxs.len(),
{
    if idxs.len() == 0 {
        0
    } else {
        let rest = tiers_of(rs, idxs.drop_last());
        let n = rs[idxs.last() as int].path.len();
        if n > rest {
            n
        } else {
            rest
        }
    }
}

/// Whether some path of `ps` names the same group as `p`.
pub open spec fn has_same(ps: Seq<Seq<TierValueV>>, p: Seq<TierValueV>) -> bool {
    exists|j: int| 0 <= j < ps.len() && same_path(#[trigger] ps[j], p)
}

/// The full-depth paths among `idxs`, each group once, first seen first.
pub open spec fn bottom_paths(rs: Seq<ClassifiedRoomV>, idxs: Seq<usize>, n: nat) -> Seq<Seq<TierValueV>>
    decreases idxs.len(),
{
    if idxs.len() == 0 {
        Seq::empty()
    } else {
        let rest = bottom_paths(rs, idxs.drop_last(), n);
        let p = rs[idxs.last() as int].path;
        if p.len() == n && !has_same(rest, p) {
            rest.push(p)
        } else {
            rest
        }
    }
}

/// The rooms of `idxs` in the group a full path names, in order.
pub open spec fn bottom_members(rs: Seq<ClassifiedRoomV>, idxs: Seq<usize>, p: Seq<TierValueV>) -> Seq<usize>
    decreases idxs.len(),
{
    if idxs.len() == 0 {
        Seq::empty()
    } else {
        let rest = bottom_members(rs, idxs.drop_last(), p);
        if same_path(rs[idxs.last() as int].path, p) {
            rest.push(idxs.last())
        } else {
            rest
        }
    }
}

/// Whether a bottom group takes part at depth `d`: a group withheld at tier
/// `k` is still its own group at `k` and below, and part of nothing above.
pub open spec fn participates(b: Seq<TierValueV>, ex: Seq<HierarchyExclusionV>, d: nat) -> bool {
    match excluded_depth_of(b, ex) {
        Some(k) => k <= d,
        None => true,
    }
}

/// The groups at depth `d`: the prefixes of the taking-part bottom groups,
/// each once, first seen first.
pub open spec fn prefixes_at(bs: Seq<Seq<TierValueV>>, ex: Seq<HierarchyExclusionV>, d: nat) -> Seq<Seq<TierValueV>>
    decreases bs.len(),
{
    if bs.len() == 0 {
        Seq::empty()
    } else {
        let rest = prefixes_at(bs.drop_last(), ex, d);
        let b = bs.last();
        if participates(b, ex, d) && !has_same(rest, b.take(d as int + 1)) {
            rest.push(b.take(d as int + 1))
        } else {
            rest
        }
    }
}

/// The rooms of the group a prefix names at depth `d`: those of every
/// taking-part bottom group under it.
pub open spec fn prefix_members(
    rs: Seq<ClassifiedRoomV>,
    idxs: Seq<usize>,
    bs: Seq<Seq<TierValueV>>,
    ex: Seq<HierarchyExclusionV>,
    d: nat,
    p: Seq<TierValueV>,
) -> Seq<usize>
    decreases bs.len(),
{
    if bs.len() == 0 {
        Seq::empty()
    } else {
        let rest = prefix_members(rs, idxs, bs.drop_last(), ex, d, p);
        let b = bs.last();
        if participates(b, ex, d) && same_path(b.take(d as int + 1), p) {
            rest + bottom_members(rs, idxs, b)
        } else {
            rest
        }
    }
}

/// The groups of one depth on one level.
pub open spec fn depth_groups(
    rs: Seq<ClassifiedRoomV>,
    idxs: Seq<usize>,
    level: Seq<char>,
    bs: Seq<Seq<TierValueV>>,
    ex: Seq<HierarchyExclusionV>,
    d: nat,
) -> Seq<PlannedAreaGroupV> {
    prefixes_at(bs, ex, d).map_values(
        |p: Seq<TierValueV>|
            PlannedAreaGroupV {
                level_id: level,
                path: p,
                members: prefix_members(rs, idxs, bs, ex, d, p),
                counted_upward: !group_excluded(p, ex),
            },
    )
}

/// The groups of depths `k - 1` down to `0`, deepest first.
pub open spec fn tiers_down(
    rs: Seq<ClassifiedRoomV>,
    idxs: Seq<usize>,
    level: Seq<char>,
    bs: Seq<Seq<TierValueV>>,
    ex: Seq<HierarchyExclusionV>,
    k: nat,
) -> Seq<PlannedAreaGroupV>
    decreases k,
{
    if k == 0 {
        Seq::empty()
    } else {
        depth_groups(rs, idxs, level, bs, ex, (k - 1) as nat) + tiers_down(rs, idxs, level, bs, ex, (k - 1) as nat)
    }
}

/// One level's groups: bottom tier first, then each tier above. Only rooms
/// classified to the full depth form groups; a level with no hierarchy has
/// none.
pub open spec fn level_plan(rs: Seq<ClassifiedRoomV>, ex: Seq<HierarchyExclusionV>, level: Seq<char>) -> Seq<PlannedAreaGroupV> {
    let idxs = on_level(rs, kept(rs, ex), level);
    let n = tiers_of(rs, idxs);
    tiers_down(rs, idxs, level, bottom_paths(rs, idxs, n), ex, n)
}

/// The groups of the given levels, level by level.
pub open spec fn plan_over(rs: Seq<ClassifiedRoomV>, ex: Seq<HierarchyExclusionV>, levels: Seq<Seq<char>>) -> Seq<PlannedAreaGroupV>
    decreases levels.len(),
{
    if levels.len() == 0 {
        Seq::empty()
    } else {
        plan_over(rs, ex, levels.drop_last()) + level_plan(rs, ex, levels.last())
    }
}

/// Every group the roll-up dissolves: per level, first seen first; within a
/// level, bottom tier first.
pub open spec fn area_plan(rs: Seq<ClassifiedRoomV>, ex: Seq<HierarchyExclusionV>) -> Seq<PlannedAreaGroupV> {
    plan_over(rs, ex, level_order(rs, ex))
}

pub open spec fn valid_idxs(rs: Seq<ClassifiedRoomV>, idxs: Seq<usize>) -> bool {
    forall|k: int| 0 <= k < idxs.len() ==> (#[trigger] idxs[k]) < rs.len()
}

fn kept_exec(rooms: &[ClassifiedRoom], exclusions: &[HierarchyExclusion]) -> (r: Vec<usize>)
    ensures
        r@ == kept(rooms.deep_view(), exclusions.deep_view()),
        valid_idxs(rooms.deep_view(), r@),
{
    let ghost rd = rooms.deep_view();
    let ghost ed = exclusions.deep_view();
    let mut out: Vec<usize> = Vec::new();
    let mut i: usize = 0;
    while i < rooms.len()
        invariant
            i <= rooms@.len(),
            rd == rooms.deep_view(),
            ed == exclusions.deep_view(),
            out@ == kept(rd.take(i as int), ed),
            valid_idxs(rd, out@),
        decreases rooms@.len() - i,
    {
        assert(rooms@[i as int].deep_view() == rd[i as int]);
        assert(rd.take(i + 1).drop_last() =~= rd.take(i as int));
        assert(rd.take(i + 1).last() == rd[i as int]);
        if !is_room_excluded(rooms[i].room.id.as_str(), exclusions) {
            out.push(i);
        }
        i += 1;
    }
    assert(rd.take(i as int) =~= rd);
    out
}

fn has_name(names: &Vec<String>, v: &str) -> (r: bool)
    ensures
        r == names.deep_view().contains(v@),
{
    let ghost d = names.deep_view();
    let mut i: usize = 0;
    while i < names.len()
        invariant
            i <= names@.len(),
            d == names.deep_view(),
            forall|j: int| 0 <= j < i ==> d[j] != v@,
        decreases names@.len() - i,
    {
        assert(d[i as int] == names@[i as int]@);
        if text_eq(names[i].as_str(), v) {
            return true;
        }
        i += 1;
    }
    false
}

fn levels_exec(rooms: &[ClassifiedRoom], kept: &Vec<usize>) -> (r: Vec<String>)
    requires
        valid_idxs(rooms.deep_view(), kept@),
    ensures
        r.deep_view() == distinct_names(kept@.map_values(|i: usize| rooms.deep_view()[i as int].room.level_id)),
{
    let ghost rd = rooms.deep_view();
    let ghost all = kept@.map_values(|i: usize| rd[i as int].room.level_id);
    let mut out: Vec<String> = Vec::new();
    let mut j: usize = 0;
    while j < kept.len()
        invariant
            j <= kept@.len(),
            rd == rooms.deep_view(),
            valid_idxs(rd, kept@),
            all == kept@.map_values(|i: usize| rd[i as int].room.level_id),
            out.deep_view() == distinct_names(all.take(j as int)),
        decreases kept@.len() - j,
    {
        let i = kept[j];
        assert(kept@[j as int] < rd.len());
        assert(rooms@[i as int].deep_view() == rd[i as int]);
        assert(all.take(j + 1).drop_last() =~= all.take(j as int));
        assert(all.take(j + 1).last() == rd[i as int].room.level_id);
        let level = rooms[i].room.level_id.as_str();
        let ghost before = out.deep_view();
        if !has_name(&out, level) {
            out.push(rooms[i].room.level_id.dup());
            assert(out.deep_view() =~= before.push(rd[i as int].room.level_id));
        }
        j += 1;
    }
    assert(all.take(j as int) =~= all);
    out
}

fn on_level_exec(rooms: &[ClassifiedRoom], idxs: &Vec<usize>, level: &str) -> (r: Vec<usize>)
    requires
        valid_idxs(rooms.deep_view(), idxs@),
    ensures
        r@ == on_level(rooms.deep_view(), idxs@, level@),
        valid_idxs(rooms.deep_view(), r@),
{
    let ghost rd = rooms.deep_view();
    let mut out: Vec<usize> = Vec::new();
    let mut j: usize = 0;
    while j < idxs.len()
        invariant
            j <= idxs@.len(),
            rd == rooms.deep_view(),
            valid_idxs(rd, idxs@),
            valid_idxs(rd, out@),
            out@ == on_level(rd, idxs@.take(j as int), level@),
        decreases idxs@.len() - j,
    {
        let i = idxs[j];
        assert(idxs@[j as int] < rd.len());
        assert(rooms@[i as int].deep_view() == rd[i as int]);
        assert(idxs@.take(j + 1).drop_last() =~= idxs@.take(j as int));
        assert(idxs@.take(j + 1).last() == i);
        if text_eq(rooms[i].room.level_id.as_str(), level) {
            out.push(i);
        }
        j += 1;
    }
    assert(idxs@.take(j as int) =~= idxs@);
    out
}

fn tiers_exec(rooms: &[ClassifiedRoom], idxs: &Vec<usize>) -> (r: usize)
    requires
        valid_idxs(rooms.deep_view(), idxs@),
    ensures
        r == tiers_of(rooms.deep_view(), idxs@),
{
    let ghost rd = rooms.deep_view();
    let mut n: usize = 0;
    let mut j: usize = 0;
    while j < idxs.len()
        invariant
            j <= idxs@.len(),
            rd == rooms.deep_view(),
            valid_idxs(rd, idxs@),
            n == tiers_of(rd, idxs@.take(j as int)),
        decreases idxs@.len() - j,
    {
        let i = idxs[j];
        assert(idxs@[j as int] < rd.len());
        assert(rooms@[i as int].deep_view() == rd[i as int]);
        assert(idxs@.take(j + 1).drop_last() =~= idxs@.take(j as int));
        assert(idxs@.take(j + 1).last() == i);
        if rooms[i].path.len() > n {
            n = rooms[i].path.len();
        }
        j += 1;
    }
    assert(idxs@.take(j as int) =~= idxs@);
    n
}

fn has_same_exec(ps: &Vec<Vec<TierValue>>, p: &[TierValue]) -> (r: bool)
    ensures
        r == has_same(ps.deep_view(), p.deep_view()),
{
    let ghost d = ps.deep_view();
    let mut j: usize = 0;
    while j < ps.len()
        invariant
            j <= ps@.len(),
            d == ps.deep_view(),
            forall|k: int| 0 <= k < j ==> !same_path(#[trigger] d[k], p.deep_view()),
        decreases ps@.len() - j,
    {
        let q = ps[j].as_slice();
        assert(q.deep_view() =~= d[j as int]);
        if path_eq(q, p) {
            return true;
        }
        j += 1;
    }
    false
}

fn path_copy(p: &[TierValue]) -> (r: Vec<TierValue>)
    ensures
        r.deep_view() == p.deep_view(),
{
    let ghost d = p.deep_view();
    let mut out: Vec<TierValue> = Vec::new();
    let mut j: usize = 0;
    while j < p.len()
        invariant
            j <= p@.len(),
            d == p.deep_view(),
            out.deep_view() == d.take(j as int),
        decreases p@.len() - j,
    {
        assert(p@[j as int].deep_view() == d[j as int]);
        let ghost before = out.deep_view();
        out.push(p[j].dup());
        assert(out.deep_view() =~= before.push(d[j as int]));
        assert(d.take(j + 1) =~= d.take(j as int).push(d[j as int]));
        j += 1;
    }
    assert(d.take(j as int) =~= d);
    out
}

fn bottom_paths_exec(rooms: &[ClassifiedRoom], idxs: &Vec<usize>, n: usize) -> (r: Vec<Vec<TierValue>>)
    requires
        valid_idxs(rooms.deep_view(), idxs@),
    ensures
        r.deep_view() == bottom_paths(rooms.deep_view(), idxs@, n as nat),
        forall|k: int| 0 <= k < r.deep_view().len() ==> (#[trigger] r.deep_view()[k]).len() == n,
{
    let ghost rd = rooms.deep_view();
    let mut out: Vec<Vec<TierValue>> = Vec::new();
    let mut j: usize = 0;
    while j < idxs.len()
        invariant
            j <= idxs@.len(),
            rd == rooms.deep_view(),
            valid_idxs(rd, idxs@),
            out.deep_view() == bottom_paths(rd, idxs@.take(j as int), n as nat),
            forall|k: int| 0 <= k < out.deep_view().len() ==> (#[trigger] out.deep_view()[k]).len() == n,
        decreases idxs@.len() - j,
    {
        let i = idxs[j];
        assert(idxs@[j as int] < rd.len());
        assert(rooms@[i as int].deep_view() == rd[i as int]);
        assert(idxs@.take(j + 1).drop_last() =~= idxs@.take(j as int));
        assert(idxs@.take(j + 1).last() == i);
        let p = rooms[i].path;
        assert(p.deep_view() == rd[i as int].path);
        let ghost before = out.deep_view();
        if p.len() == n && !has_same_exec(&out, p) {
            out.push(path_copy(p));
            assert(out.deep_view() =~= before.push(rd[i as int].path));
        }
        j += 1;
    }
    assert(idxs@.take(j as int) =~= idxs@);
    out
}

fn bottom_members_exec(rooms: &[ClassifiedRoom], idxs: &Vec<usize>, p: &[TierValue]) -> (r: Vec<usize>)
    requires
        valid_idxs(rooms.deep_view(), idxs@),
    ensures
        r@ == bottom_members(rooms.deep_view(), idxs@, p.deep_view()),
{
    let ghost rd = rooms.deep_view();
    let mut out: Vec<usize> = Vec::new();
    let mut j: usize = 0;
    while j < idxs.len()
        invariant
            j <= idxs@.len(),
            rd == rooms.deep_view(),
            valid_idxs(rd, idxs@),
            out@ == bottom_members(rd, idxs@.take(j as int), p.deep_view()),
        decreases idxs@.len() - j,
    {
        let i = idxs[j];
        assert(idxs@[j as int] < rd.len());
        assert(rooms@[i as int].deep_view() == rd[i as int]);
        assert(idxs@.take(j + 1).drop_last() =~= idxs@.take(j as int));
        assert(idxs@.take(j + 1).last() == i);
        if path_eq(rooms[i].path, p) {
            out.push(i);
        }
        j += 1;
    }
    assert(idxs@.take(j as int) =~= idxs@);
    out
}

fn participates_exec(b: &[TierValue], exclusions: &[HierarchyExclusion], d: usize) -> (r: bool)
    ensures
        r == participates(b.deep_view(), exclusions.deep_view(), d as nat),
{
    match excluded_depth(b, exclusions) {
        Some(k) => k <= d,
        None => true,
    }
}

fn prefixes_exec(bs: &Vec<Vec<TierValue>>, exclusions: &[HierarchyExclusion], d: usize) -> (r: Vec<Vec<TierValue>>)
    requires
        forall|k: int| 0 <= k < bs.deep_view().len() ==> d < (#[trigger] bs.deep_view()[k]).len(),
    ensures
        r.deep_view() == prefixes_at(bs.deep_view(), exclusions.deep_view(), d as nat),
{
    let ghost bd = bs.deep_view();
    let ghost ed = exclusions.deep_view();
    let mut out: Vec<Vec<TierValue>> = Vec::new();
    let mut j: usize = 0;
    while j < bs.len()
        invariant
            j <= bs@.len(),
            bd == bs.deep_view(),
            ed == exclusions.deep_view(),
            forall|k: int| 0 <= k < bd.len() ==> d < (#[trigger] bd[k]).len(),
            out.deep_view() == prefixes_at(bd.take(j as int), ed, d as nat),
        decreases bs@.len() - j,
    {
        let b = bs[j].as_slice();
        assert(b.deep_view() =~= bd[j as int]);
        assert(bd.take(j + 1).drop_last() =~= bd.take(j as int));
        assert(bd.take(j + 1).last() == bd[j as int]);
        assert(d < bd[j as int].len());
        assert(b.deep_view().len() == b@.len());
        let blen = b.len();
        assert(d < blen);
        let prefix = slice_to(b, d + 1);
        assert(prefix.deep_view() =~= bd[j as int].take(d as int + 1));
        let ghost before = out.deep_view();
        if participates_exec(b, exclusions, d) && !has_same_exec(&out, prefix) {
            out.push(path_copy(prefix));
            assert(out.deep_view() =~= before.push(bd[j as int].take(d as int + 1)));
        }
        j += 1;
    }
    assert(bd.take(j as int) =~= bd);
    out
}

fn prefix_members_exec(
    rooms: &[ClassifiedRoom],
    idxs: &Vec<usize>,
    bs: &Vec<Vec<TierValue>>,
    exclusions: &[HierarchyExclusion],
    d: usize,
    p: &[TierValue],
) -> (r: Vec<usize>)
    requires
        valid_idxs(rooms.deep_view(), idxs@),
        forall|k: int| 0 <= k < bs.deep_view().len() ==> d < (#[trigger] bs.deep_view()[k]).len(),
    ensures
        r@ == prefix_members(rooms.deep_view(), idxs@, bs.deep_view(), exclusions.deep_view(), d as nat, p.deep_view()),
{
    let ghost bd = bs.deep_view();
    let ghost ed = exclusions.deep_view();
    let ghost rd = rooms.deep_view();
    let mut out: Vec<usize> = Vec::new();
    let mut j: usize = 0;
    while j < bs.len()
        invariant
            j <= bs@.len(),
            bd == bs.deep_view(),
            ed == exclusions.deep_view(),
            rd == rooms.deep_view(),
            valid_idxs(rd, idxs@),
            forall|k: int| 0 <= k < bd.len() ==> d < (#[trigger] bd[k]).len(),
            out@ == prefix_members(rd, idxs@, bd.take(j as int), ed, d as nat, p.deep_view()),
        decreases bs@.len() - j,
    {
        let b = bs[j].as_slice();
        assert(b.deep_view() =~= bd[j as int]);
        assert(bd.take(j + 1).drop_last() =~= bd.take(j as int));
        assert(bd.take(j + 1).last() == bd[j as int]);
        assert(d < bd[j as int].len());
        assert(b.deep_view().len() == b@.len());
        let blen = b.len();
        assert(d < blen);
        let prefix = slice_to(b, d + 1);
        assert(prefix.deep_view() =~= bd[j as int].take(d as int + 1));
        if participates_exec(b, exclusions, d) && path_eq(prefix, p) {
            let mut more = bottom_members_exec(rooms, idxs, b);
            let ghost before = out@;
            let ghost extra = more@;
            out.append(&mut more);
            assert(out@ =~= before + extra);
        }
        j += 1;
    }
    assert(bd.take(j as int) =~= bd);
    out
}

fn depth_groups_exec(
    rooms: &[ClassifiedRoom],
    idxs: &Vec<usize>,
    level: &str,
    bs: &Vec<Vec<TierValue>>,
    exclusions: &[HierarchyExclusion],
    d: usize,
) -> (r: Vec<PlannedAreaGroup>)
    requires
        valid_idxs(rooms.deep_view(), idxs@),
        forall|k: int| 0 <= k < bs.deep_view().len() ==> d < (#[trigger] bs.deep_view()[k]).len(),
    ensures
        r.deep_view() == depth_groups(rooms.deep_view(), idxs@, level@, bs.deep_view(), exclusions.deep_view(), d as nat),
{
    let prefixes = prefixes_exec(bs, exclusions, d);
    let ghost pd = prefixes.deep_view();
    let ghost f = |p: Seq<TierValueV>|
        PlannedAreaGroupV {
            level_id: level@,
            path: p,
            members: prefix_members(rooms.deep_view(), idxs@, bs.deep_view(), exclusions.deep_view(), d as nat, p),
            counted_upward: !group_excluded(p, exclusions.deep_view()),
        };
    let mut out: Vec<PlannedAreaGroup> = Vec::new();
    let mut j: usize = 0;
    while j < prefixes.len()
        invariant
            j <= prefixes@.len(),
            pd == prefixes.deep_view(),
            valid_idxs(rooms.deep_view(), idxs@),
            forall|k: int| 0 <= k < bs.deep_view().len() ==> d < (#[trigger] bs.deep_view()[k]).len(),
            f == (|p: Seq<TierValueV>|
                PlannedAreaGroupV {
                    level_id: level@,
                    path: p,
                    members: prefix_members(rooms.deep_view(), idxs@, bs.deep_view(), exclusions.deep_view(), d as nat, p),
                    counted_upward: !group_excluded(p, exclusions.deep_view()),
                }),
            out.deep_view() == pd.take(j as int).map_values(f),
        decreases prefixes@.len() - j,
    {
        let p = prefixes[j].as_slice();
        assert(p.deep_view() =~= pd[j as int]);
        let members = prefix_members_exec(rooms, idxs, bs, exclusions, d, p);
        let counted = !is_group_excluded(p, exclusions);
        let g = PlannedAreaGroup { level_id: crate::text::owned(level), path: path_copy(p), members, counted_upward: counted };
        assert(g.deep_view() == f(pd[j as int]));
        let ghost before = out.deep_view();
        out.push(g);
        assert(out.deep_view() =~= before.push(g.deep_view()));
        assert(pd.take(j + 1) =~= pd.take(j as int).push(pd[j as int]));
        assert(pd.take(j + 1).map_values(f) =~= pd.take(j as int).map_values(f).push(f(pd[j as int])));
        assert(out.deep_view() =~= pd.take(j + 1).map_values(f));
        j += 1;
    }
    assert(pd.take(j as int) =~= pd);
    out
}

/// Which rooms make up each group an area roll-up dissolves. Rooms an
/// exclusion withholds take no part; the rest are split by level, first seen
/// first. On each level only rooms classified to the full depth form groups,
/// bottom tier first and then each tier above, each tier's groups first seen
/// first; a group withheld at a tier is still that tier's group and part of
/// nothing above it.
pub fn area_group_plan(rooms: &[ClassifiedRoom], exclusions: &[HierarchyExclusion]) -> (r: Vec<PlannedAreaGroup>)
    ensures
        r.deep_view() == area_plan(rooms.deep_view(), exclusions.deep_view()),
        forall|g: int, k: int|
            0 <= g < r@.len() && 0 <= k < r@[g].members@.len() ==> (#[trigger] r@[g].members@[k]) < rooms@.len(),
{
    let ghost rd = rooms.deep_view();
    let ghost ed = exclusions.deep_view();
    let survivors = kept_exec(rooms, exclusions);
    let levels = levels_exec(rooms, &survivors);
    let ghost ld = levels.deep_view();
    assert(ld == level_order(rd, ed));
    let mut out: Vec<PlannedAreaGroup> = Vec::new();
    let mut l: usize = 0;
    while l < levels.len()
        invariant
            l <= levels@.len(),
            rd == rooms.deep_view(),
            ed == exclusions.deep_view(),
            ld == levels.deep_view(),
            survivors@ == kept(rd, ed),
            valid_idxs(rd, survivors@),
            out.deep_view() == plan_over(rd, ed, ld.take(l as int)),
            forall|g: int, k: int|
                0 <= g < out@.len() && 0 <= k < out@[g].members@.len() ==> (#[trigger] out@[g].members@[k]) < rooms@.len(),
        decreases levels@.len() - l,
    {
        let level = levels[l].as_str();
        assert(ld[l as int] == level@);
        assert(ld.take(l + 1).drop_last() =~= ld.take(l as int));
        let idxs = on_level_exec(rooms, &survivors, level);
        let n = tiers_exec(rooms, &idxs);
        let bs = bottom_paths_exec(rooms, &idxs, n);
        let ghost start = out.deep_view();
        let mut k: usize = n;
        while k > 0
            invariant
                k <= n,
                rd == rooms.deep_view(),
                ed == exclusions.deep_view(),
                valid_idxs(rd, idxs@),
                forall|t: int| 0 <= t < bs.deep_view().len() ==> (#[trigger] bs.deep_view()[t]).len() == n,
                out.deep_view() + tiers_down(rd, idxs@, level@, bs.deep_view(), ed, k as nat) == start + tiers_down(
                    rd,
                    idxs@,
                    level@,
                    bs.deep_view(),
                    ed,
                    n as nat,
                ),
                forall|g: int, m: int|
                    0 <= g < out@.len() && 0 <= m < out@[g].members@.len() ==> (#[trigger] out@[g].members@[m]) < rooms@.len(),
            decreases k,
        {
            let d = k - 1;
            let mut groups = depth_groups_exec(rooms, &idxs, level, &bs, exclusions, d);
            let ghost before = out.deep_view();
            let ghost gd = groups.deep_view();
            assert(tiers_down(rd, idxs@, level@, bs.deep_view(), ed, k as nat) == gd + tiers_down(
                rd,
                idxs@,
                level@,
                bs.deep_view(),
                ed,
                d as nat,
            ));
            proof {
                lemma_members_valid(rd, idxs@, bs.deep_view(), ed, d as nat, level@);
            }
            let ghost before_exec = out@;
            let ghost groups_exec = groups@;
            out.append(&mut groups);
            assert(out.deep_view() =~= before + gd);
            assert(before + gd + tiers_down(rd, idxs@, level@, bs.deep_view(), ed, d as nat) =~= before + tiers_down(
                rd,
                idxs@,
                level@,
                bs.deep_view(),
                ed,
                k as nat,
            ));
            assert forall|g: int, m: int|
                0 <= g < out@.len() && 0 <= m < out@[g].members@.len() implies (#[trigger] out@[g].members@[m])
                < rooms@.len() by {
                if g >= before_exec.len() {
                    assert(out@[g] == groups_exec[g - before_exec.len()]);
                    assert(out@[g].deep_view() == gd[g - before_exec.len()]);
                    assert(out@[g].members@ == gd[g - before_exec.len()].members);
                } else {
                    assert(out@[g] == before_exec[g]);
                }
            }
            k = d;
        }
        assert(out.deep_view() =~= start + level_plan(rd, ed, level@));
        assert(plan_over(rd, ed, ld.take(l + 1)) == plan_over(rd, ed, ld.take(l as int)) + level_plan(rd, ed, ld[l as int]));
        l += 1;
    }
    assert(ld.take(l as int) =~= ld);
    out
}

/// Every member of a planned group is one of the rooms it was planned from.
proof fn lemma_members_valid(
    rs: Seq<ClassifiedRoomV>,
    idxs: Seq<usize>,
    bs: Seq<Seq<TierValueV>>,
    ex: Seq<HierarchyExclusionV>,
    d: nat,
    level: Seq<char>,
)
    requires
        valid_idxs(rs, idxs),
    ensures
        forall|g: int, m: int|
            0 <= g < depth_groups(rs, idxs, level, bs, ex, d).len() && 0 <= m < depth_groups(
                rs,
                idxs,
                level,
                bs,
                ex,
                d,
            )[g].members.len() ==> (#[trigger] depth_groups(rs, idxs, level, bs, ex, d)[g].members[m]) < rs.len(),
{
    assert forall|g: int, m: int|
        0 <= g < depth_groups(rs, idxs, level, bs, ex, d).len() && 0 <= m < depth_groups(
            rs,
            idxs,
            level,
            bs,
            ex,
            d,
        )[g].members.len() implies (#[trigger] depth_groups(rs, idxs, level, bs, ex, d)[g].members[m]) < rs.len() by {
        let p = prefixes_at(bs, ex, d)[g];
        lemma_prefix_members_valid(rs, idxs, bs, ex, d, p);
    }
}

proof fn lemma_prefix_members_valid(
    rs: Seq<ClassifiedRoomV>,
    idxs: Seq<usize>,
    bs: Seq<Seq<TierValueV>>,
    ex: Seq<HierarchyExclusionV>,
    d: nat,
    p: Seq<TierValueV>,
)
    requires
        valid_idxs(rs, idxs),
    ensures
        valid_idxs(rs, prefix_members(rs, idxs, bs, ex, d, p)),
    decreases bs.len(),
{
    if bs.len() > 0 {
        lemma_prefix_members_valid(rs, idxs, bs.drop_last(), ex, d, p);
        lemma_bottom_members_valid(rs, idxs, bs.last());
        let rest = prefix_members(rs, idxs, bs.drop_last(), ex, d, p);
        let more = bottom_members(rs, idxs, bs.last());
        assert forall|k: int| 0 <= k < (rest + more).len() implies (#[trigger] (rest + more)[k]) < rs.len() by {
            if k < rest.len() {
                assert((rest + more)[k] == rest[k]);
            } else {
                assert((rest + more)[k] == more[k - rest.len()]);
            }
        }
    }
}

proof fn lemma_bottom_members_valid(rs: Seq<ClassifiedRoomV>, idxs: Seq<usize>, p: Seq<TierValueV>)
    requires
        valid_idxs(rs, idxs),
    ensures
        valid_idxs(rs, bottom_members(rs, idxs, p)),
    decreases idxs.len(),
{
    if idxs.len() > 0 {
        let rest = idxs.drop_last();
        assert forall|k: int| 0 <= k < rest.len() implies (#[trigger] rest[k]) < rs.len() by {
            assert(rest[k] == idxs[k]);
        }
        lemma_bottom_members_valid(rs, rest, p);
        assert(idxs[idxs.len() - 1] < rs.len());
    }
}


/// A member of a planned group belongs there: it is one of the rooms, on the
/// group's level, withheld by no room exclusion, and classified under the
/// group's path.
pub open spec fn member_belongs(rs: Seq<ClassifiedRoomV>, ex: Seq<HierarchyExclusionV>, g: PlannedAreaGroupV, m: usize) -> bool {
    &&& m < rs.len()
    &&& rs[m as int].room.level_id == g.level_id
    &&& !room_excluded(rs[m as int].room.id, ex)
    &&& g.path.len() <= rs[m as int].path.len()
    &&& same_path(rs[m as int].path.take(g.path.len() as int), g.path)
    &&& tiers_agree(rs) ==> participates(rs[m as int].path, ex, (g.path.len() - 1) as nat)
}

/// The rooms name their tiers positionally: the same label at the same depth.
pub open spec fn tiers_agree(rs: Seq<ClassifiedRoomV>) -> bool {
    forall|i: int, j: int, t: int|
        0 <= i < rs.len() && 0 <= j < rs.len() && 0 <= t < rs[i].path.len() && t < rs[j].path.len() ==> (
        #[trigger] rs[i].path[t]).tier == (#[trigger] rs[j].path[t]).tier
}

/// Each of these paths is some room's own path.
spec fn from_rooms(rs: Seq<ClassifiedRoomV>, bs: Seq<Seq<TierValueV>>) -> bool {
    forall|j: int| 0 <= j < bs.len() ==> #[trigger] room_path(rs, bs[j])
}

/// Some room's own path.
spec fn room_path(rs: Seq<ClassifiedRoomV>, b: Seq<TierValueV>) -> bool {
    exists|i: int| 0 <= i < rs.len() && (#[trigger] rs[i]).path == b
}

/// Every member of every group in `gs` belongs there.
pub open spec fn members_belong(rs: Seq<ClassifiedRoomV>, ex: Seq<HierarchyExclusionV>, gs: Seq<PlannedAreaGroupV>) -> bool {
    forall|g: int, m: int|
        0 <= g < gs.len() && 0 <= m < gs[g].members.len() ==> member_belongs(rs, ex, gs[g], #[trigger] gs[g].members[m])
}

/// Positions of rooms no exclusion withholds, all on one level.
spec fn in_scope(rs: Seq<ClassifiedRoomV>, ex: Seq<HierarchyExclusionV>, idxs: Seq<usize>, level: Seq<char>) -> bool {
    forall|k: int|
        0 <= k < idxs.len() ==> (#[trigger] idxs[k]) < rs.len() && !room_excluded(rs[idxs[k] as int].room.id, ex)
            && rs[idxs[k] as int].room.level_id == level
}

/// Positions of rooms no exclusion withholds.
spec fn all_kept(rs: Seq<ClassifiedRoomV>, ex: Seq<HierarchyExclusionV>, idxs: Seq<usize>) -> bool {
    forall|k: int| 0 <= k < idxs.len() ==> (#[trigger] idxs[k]) < rs.len() && !room_excluded(rs[idxs[k] as int].room.id, ex)
}

proof fn lemma_kept_all_kept(rs: Seq<ClassifiedRoomV>, ex: Seq<HierarchyExclusionV>)
    requires
        rs.len() <= usize::MAX,
    ensures
        all_kept(rs, ex, kept(rs, ex)),
    decreases rs.len(),
{
    if rs.len() > 0 {
        let init = rs.drop_last();
        lemma_kept_all_kept(init, ex);
        let rest = kept(init, ex);
        assert forall|k: int| 0 <= k < rest.len() implies (#[trigger] rest[k]) < rs.len() && !room_excluded(
            rs[rest[k] as int].room.id,
            ex,
        ) by {
            assert(init[rest[k] as int] == rs[rest[k] as int]);
        }
        if !room_excluded(rs.last().room.id, ex) {
            let out = rest.push((rs.len() - 1) as usize);
            assert forall|k: int| 0 <= k < out.len() implies (#[trigger] out[k]) < rs.len() && !room_excluded(
                rs[out[k] as int].room.id,
                ex,
            ) by {
                if k < rest.len() {
                    assert(out[k] == rest[k]);
                }
            }
        }
    }
}

proof fn lemma_on_level_in_scope(rs: Seq<ClassifiedRoomV>, ex: Seq<HierarchyExclusionV>, idxs: Seq<usize>, level: Seq<char>)
    requires
        all_kept(rs, ex, idxs),
    ensures
        in_scope(rs, ex, on_level(rs, idxs, level), level),
    decreases idxs.len(),
{
    if idxs.len() > 0 {
        let init = idxs.drop_last();
        assert forall|k: int| 0 <= k < init.len() implies (#[trigger] init[k]) < rs.len() && !room_excluded(
            rs[init[k] as int].room.id,
            ex,
        ) by {
            assert(init[k] == idxs[k]);
        }
        lemma_on_level_in_scope(rs, ex, init, level);
        let rest = on_level(rs, init, level);
        let last = idxs[idxs.len() - 1];
        if rs[last as int].room.level_id == level {
            let out = rest.push(last);
            assert forall|k: int| 0 <= k < out.len() implies (#[trigger] out[k]) < rs.len() && !room_excluded(
                rs[out[k] as int].room.id,
                ex,
            ) && rs[out[k] as int].room.level_id == level by {
                if k < rest.len() {
                    assert(out[k] == rest[k]);
                }
            }
        }
    }
}

proof fn lemma_bottom_members_in_scope(
    rs: Seq<ClassifiedRoomV>,
    ex: Seq<HierarchyExclusionV>,
    idxs: Seq<usize>,
    level: Seq<char>,
    p: Seq<TierValueV>,
)
    requires
        in_scope(rs, ex, idxs, level),
    ensures
        in_scope(rs, ex, bottom_members(rs, idxs, p), level),
        forall|k: int|
            0 <= k < bottom_members(rs, idxs, p).len() ==> same_path(
                rs[(#[trigger] bottom_members(rs, idxs, p)[k]) as int].path,
                p,
            ),
    decreases idxs.len(),
{
    if idxs.len() > 0 {
        let init = idxs.drop_last();
        assert forall|k: int| 0 <= k < init.len() implies (#[trigger] init[k]) < rs.len() && !room_excluded(
            rs[init[k] as int].room.id,
            ex,
        ) && rs[init[k] as int].room.level_id == level by {
            assert(init[k] == idxs[k]);
        }
        lemma_bottom_members_in_scope(rs, ex, init, level, p);
        let rest = bottom_members(rs, init, p);
        let last = idxs[idxs.len() - 1];
        if same_path(rs[last as int].path, p) {
            let out = rest.push(last);
            assert forall|k: int| 0 <= k < out.len() implies (#[trigger] out[k]) < rs.len() && !room_excluded(
                rs[out[k] as int].room.id,
                ex,
            ) && rs[out[k] as int].room.level_id == level && same_path(rs[out[k] as int].path, p) by {
                if k < rest.len() {
                    assert(out[k] == rest[k]);
                }
            }
        }
    }
}

/// A room under the group a prefix names at depth `d`: kept, on the level,
/// classified under the prefix, and taking part at that depth.
#[verifier::opaque]
spec fn under_prefix(
    rs: Seq<ClassifiedRoomV>,
    ex: Seq<HierarchyExclusionV>,
    level: Seq<char>,
    d: nat,
    p: Seq<TierValueV>,
    m: usize,
) -> bool {
    &&& m < rs.len()
    &&& !room_excluded(rs[m as int].room.id, ex)
    &&& rs[m as int].room.level_id == level
    &&& p.len() == d + 1
    &&& p.len() <= rs[m as int].path.len()
    &&& same_path(rs[m as int].path.take(p.len() as int), p)
    &&& tiers_agree(rs) ==> participates(rs[m as int].path, ex, d)
}

spec fn all_under(
    rs: Seq<ClassifiedRoomV>,
    ex: Seq<HierarchyExclusionV>,
    level: Seq<char>,
    d: nat,
    p: Seq<TierValueV>,
    ms: Seq<usize>,
) -> bool {
    forall|k: int| 0 <= k < ms.len() ==> under_prefix(rs, ex, level, d, p, #[trigger] ms[k])
}

proof fn lemma_concat_under(
    rs: Seq<ClassifiedRoomV>,
    ex: Seq<HierarchyExclusionV>,
    level: Seq<char>,
    d: nat,
    p: Seq<TierValueV>,
    a: Seq<usize>,
    b: Seq<usize>,
)
    requires
        all_under(rs, ex, level, d, p, a),
        all_under(rs, ex, level, d, p, b),
    ensures
        all_under(rs, ex, level, d, p, a + b),
{
    assert forall|k: int| 0 <= k < (a + b).len() implies under_prefix(rs, ex, level, d, p, #[trigger] (a + b)[k]) by {
        if k < a.len() {
            assert((a + b)[k] == a[k]);
        } else {
            assert((a + b)[k] == b[k - a.len()]);
        }
    }
}

/// Each member of the group a prefix names lies under that prefix.
proof fn lemma_prefix_members_in_scope(
    rs: Seq<ClassifiedRoomV>,
    ex: Seq<HierarchyExclusionV>,
    idxs: Seq<usize>,
    level: Seq<char>,
    bs: Seq<Seq<TierValueV>>,
    d: nat,
    p: Seq<TierValueV>,
)
    requires
        in_scope(rs, ex, idxs, level),
        forall|j: int| 0 <= j < bs.len() ==> d < (#[trigger] bs[j]).len(),
        from_rooms(rs, bs),
    ensures
        all_under(rs, ex, level, d, p, prefix_members(rs, idxs, bs, ex, d, p)),
    decreases bs.len(),
{
    if bs.len() > 0 {
        let init = bs.drop_last();
        assert forall|j: int| 0 <= j < init.len() implies d < (#[trigger] init[j]).len() by {
            assert(init[j] == bs[j]);
        }
        assert forall|j: int| 0 <= j < init.len() implies #[trigger] room_path(rs, init[j]) by {
            assert(init[j] == bs[j]);
            assert(room_path(rs, bs[j]));
        }
        lemma_prefix_members_in_scope(rs, ex, idxs, level, init, d, p);
        let rest = prefix_members(rs, idxs, init, ex, d, p);
        let b = bs.last();
        assert(d < b.len());
        if participates(b, ex, d) && same_path(b.take(d as int + 1), p) {
            assert(room_path(rs, bs[bs.len() - 1]));
            lemma_bottom_under(rs, ex, idxs, level, b, d, p);
            lemma_concat_under(rs, ex, level, d, p, rest, bottom_members(rs, idxs, b));
        }
    }
}

/// The rooms of a bottom group that takes part at depth `d` under a prefix
/// lie under that prefix, and take part there too.
proof fn lemma_bottom_under(
    rs: Seq<ClassifiedRoomV>,
    ex: Seq<HierarchyExclusionV>,
    idxs: Seq<usize>,
    level: Seq<char>,
    b: Seq<TierValueV>,
    d: nat,
    p: Seq<TierValueV>,
)
    requires
        in_scope(rs, ex, idxs, level),
        d < b.len(),
        participates(b, ex, d),
        same_path(b.take(d as int + 1), p),
        room_path(rs, b),
    ensures
        all_under(rs, ex, level, d, p, bottom_members(rs, idxs, b)),
{
    lemma_bottom_members_in_scope(rs, ex, idxs, level, b);
    let more = bottom_members(rs, idxs, b);
    let w = choose|i: int| 0 <= i < rs.len() && (#[trigger] rs[i]).path == b;
    assert forall|k: int| 0 <= k < more.len() implies under_prefix(rs, ex, level, d, p, #[trigger] more[k]) by {
        reveal(under_prefix);
        let m = more[k];
        let path = rs[m as int].path;
        assert(same_path(path, b));
        assert forall|t: int| 0 <= t < p.len() implies same_tier_value(#[trigger] path.take(p.len() as int)[t], p[t]) by {
            assert(same_tier_value(path[t], b[t]));
            assert(same_tier_value(b.take(d as int + 1)[t], p[t]));
        }
        if tiers_agree(rs) {
            assert forall|t: int| 0 <= t < path.len() implies path[t] == b[t] by {
                assert(same_tier_value(path[t], b[t]));
                assert(rs[m as int].path[t].tier == rs[w].path[t].tier);
            }
            assert(path =~= b);
        }
    }
}

proof fn lemma_depth_groups_belong(
    rs: Seq<ClassifiedRoomV>,
    ex: Seq<HierarchyExclusionV>,
    idxs: Seq<usize>,
    level: Seq<char>,
    bs: Seq<Seq<TierValueV>>,
    d: nat,
)
    requires
        in_scope(rs, ex, idxs, level),
        forall|j: int| 0 <= j < bs.len() ==> d < (#[trigger] bs[j]).len(),
        from_rooms(rs, bs),
    ensures
        members_belong(rs, ex, depth_groups(rs, idxs, level, bs, ex, d)),
{
    let gs = depth_groups(rs, idxs, level, bs, ex, d);
    assert forall|g: int, m: int| 0 <= g < gs.len() && 0 <= m < gs[g].members.len() implies member_belongs(
        rs,
        ex,
        gs[g],
        #[trigger] gs[g].members[m],
    ) by {
        let p = prefixes_at(bs, ex, d)[g];
        lemma_prefix_members_in_scope(rs, ex, idxs, level, bs, d, p);
        assert(gs[g].members == prefix_members(rs, idxs, bs, ex, d, p));
        assert(gs[g].members[m] == prefix_members(rs, idxs, bs, ex, d, p)[m]);
        reveal(under_prefix);
        assert(under_prefix(rs, ex, level, d, p, gs[g].members[m]));
    }
}

proof fn lemma_tiers_down_belong(
    rs: Seq<ClassifiedRoomV>,
    ex: Seq<HierarchyExclusionV>,
    idxs: Seq<usize>,
    level: Seq<char>,
    bs: Seq<Seq<TierValueV>>,
    k: nat,
)
    requires
        in_scope(rs, ex, idxs, level),
        forall|j: int| 0 <= j < bs.len() ==> k <= (#[trigger] bs[j]).len(),
        from_rooms(rs, bs),
    ensures
        members_belong(rs, ex, tiers_down(rs, idxs, level, bs, ex, k)),
    decreases k,
{
    if k > 0 {
        let d = (k - 1) as nat;
        lemma_depth_groups_belong(rs, ex, idxs, level, bs, d);
        lemma_tiers_down_belong(rs, ex, idxs, level, bs, d);
        lemma_concat_belong(rs, ex, depth_groups(rs, idxs, level, bs, ex, d), tiers_down(rs, idxs, level, bs, ex, d));
    }
}

proof fn lemma_concat_belong(rs: Seq<ClassifiedRoomV>, ex: Seq<HierarchyExclusionV>, a: Seq<PlannedAreaGroupV>, b: Seq<PlannedAreaGroupV>)
    requires
        members_belong(rs, ex, a),
        members_belong(rs, ex, b),
    ensures
        members_belong(rs, ex, a + b),
{
    let ab = a + b;
    assert forall|g: int, m: int| 0 <= g < ab.len() && 0 <= m < ab[g].members.len() implies member_belongs(
        rs,
        ex,
        ab[g],
        #[trigger] ab[g].members[m],
    ) by {
        if g < a.len() {
            assert(ab[g] == a[g]);
            assert(a[g].members[m] == ab[g].members[m]);
        } else {
            assert(ab[g] == b[g - a.len()]);
            assert(b[g - a.len()].members[m] == ab[g].members[m]);
        }
    }
}

proof fn lemma_bottom_paths_len(rs: Seq<ClassifiedRoomV>, idxs: Seq<usize>, n: nat)
    ensures
        forall|j: int| 0 <= j < bottom_paths(rs, idxs, n).len() ==> (#[trigger] bottom_paths(rs, idxs, n)[j]).len() == n,
    decreases idxs.len(),
{
    if idxs.len() > 0 {
        let init = idxs.drop_last();
        lemma_bottom_paths_len(rs, init, n);
        let rest = bottom_paths(rs, init, n);
        let p = rs[idxs.last() as int].path;
        if p.len() == n && !has_same(rest, p) {
            assert forall|j: int| 0 <= j < rest.push(p).len() implies (#[trigger] rest.push(p)[j]).len() == n by {
                if j < rest.len() {
                    assert(rest.push(p)[j] == rest[j]);
                }
            }
        }
    }
}

proof fn lemma_bottom_paths_from_rooms(
    rs: Seq<ClassifiedRoomV>,
    ex: Seq<HierarchyExclusionV>,
    idxs: Seq<usize>,
    level: Seq<char>,
    n: nat,
)
    requires
        in_scope(rs, ex, idxs, level),
    ensures
        from_rooms(rs, bottom_paths(rs, idxs, n)),
    decreases idxs.len(),
{
    if idxs.len() > 0 {
        let init = idxs.drop_last();
        assert forall|k: int| 0 <= k < init.len() implies (#[trigger] init[k]) < rs.len() && !room_excluded(
            rs[init[k] as int].room.id,
            ex,
        ) && rs[init[k] as int].room.level_id == level by {
            assert(init[k] == idxs[k]);
        }
        lemma_bottom_paths_from_rooms(rs, ex, init, level, n);
        let rest = bottom_paths(rs, init, n);
        let last = idxs[idxs.len() - 1];
        let p = rs[last as int].path;
        if p.len() == n && !has_same(rest, p) {
            let out = rest.push(p);
            assert forall|j: int| 0 <= j < out.len() implies #[trigger] room_path(rs, out[j]) by {
                if j < rest.len() {
                    assert(out[j] == rest[j]);
                    assert(room_path(rs, rest[j]));
                } else {
                    assert(rs[last as int].path == out[j]);
                    assert(last < rs.len());
                }
            }
        }
    }
}

/// Every group of the plan over the given levels has only members that
/// belong there.
pub proof fn lemma_plan_over_belongs(rs: Seq<ClassifiedRoomV>, ex: Seq<HierarchyExclusionV>, levels: Seq<Seq<char>>)
    requires
        rs.len() <= usize::MAX,
    ensures
        members_belong(rs, ex, plan_over(rs, ex, levels)),
    decreases levels.len(),
{
    if levels.len() > 0 {
        lemma_plan_over_belongs(rs, ex, levels.drop_last());
        let level = levels.last();
        lemma_kept_all_kept(rs, ex);
        lemma_on_level_in_scope(rs, ex, kept(rs, ex), level);
        let idxs = on_level(rs, kept(rs, ex), level);
        let n = tiers_of(rs, idxs);
        let bs = bottom_paths(rs, idxs, n);
        lemma_bottom_paths_len(rs, idxs, n);
        lemma_bottom_paths_from_rooms(rs, ex, idxs, level, n);
        lemma_tiers_down_belong(rs, ex, idxs, level, bs, n);
        lemma_concat_belong(rs, ex, plan_over(rs, ex, levels.drop_last()), level_plan(rs, ex, level));
    }
}

} // verus!
