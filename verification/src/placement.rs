//! Which model's own coordinate space each project is drawn in, and which
//! models have to be moved into it.
//!
//! A project is drawn in one model's frame, its anchor: the model the
//! project's settings name, where that model declares a placement, and
//! otherwise the placed model whose id sorts first. Every other placed model
//! of the project is moved into the anchor's frame; a model that declares no
//! placement cannot be positioned and is drawn where it was authored. The
//! anchor is a property of the project, so it does not depend on the order
//! the models are listed in, nor on any other project. Composing the
//! transforms themselves is floating-point plane geometry and happens outside
//! the library, over the plan decided here.
use vstd::prelude::*;
use crate::contract::{Field, FieldV, ModelKey, ModelKeyV};
use crate::state::{AppState, ModelIndexRowV};
use crate::keyed::{entry, index_of, lemma_index_of, lemma_index_of_at, lookup, Dup, Keyed};
use crate::settings::{ProjectEntryV, SettingsRegistry};
use crate::text::{
    chars_of, lemma_text_lt_asymmetric, lemma_text_lt_irreflexive, lemma_text_lt_total, lemma_text_lt_transitive, text_eq,
    text_lt, text_lt_exec,
};

verus! {

/// One model in scope, and whether it declares where it sits in shared
/// space.
pub struct PlacedModel {
    pub project_id: String,
    pub model_id: String,
    pub placed: bool,
}

pub struct PlacedModelV {
    pub project_id: Seq<char>,
    pub model_id: Seq<char>,
    pub placed: bool,
}

impl DeepView for PlacedModel {
    type V = PlacedModelV;

    open spec fn deep_view(&self) -> PlacedModelV {
        PlacedModelV { project_id: self.project_id@, model_id: self.model_id@, placed: self.placed }
    }
}

/// A model to move into its project's frame: its own placement composed
/// with the inverse of the anchor's.
pub struct Reframe {
    pub project_id: String,
    pub model_id: String,
    pub anchor_id: String,
}

pub struct ReframeV {
    pub project_id: Seq<char>,
    pub model_id: Seq<char>,
    pub anchor_id: Seq<char>,
}

impl DeepView for Reframe {
    type V = ReframeV;

    open spec fn deep_view(&self) -> ReframeV {
        ReframeV { project_id: self.project_id@, model_id: self.model_id@, anchor_id: self.anchor_id@ }
    }
}

/// The ids of the models of project `p` that declare a placement.
pub open spec fn declared(ms: Seq<PlacedModelV>, p: Seq<char>) -> Set<Seq<char>> {
    Set::new(
        |m: Seq<char>|
            exists|i: int| 0 <= i < ms.len() && (#[trigger] ms[i]).placed && ms[i].project_id == p && ms[i].model_id == m,
    )
}

/// `m` is in `s` and sorts before every other member.
pub open spec fn lowest_in(s: Set<Seq<char>>, m: Seq<char>) -> bool {
    s.contains(m) && forall|o: Seq<char>| #[trigger] s.contains(o) ==> o == m || text_lt(m, o)
}

/// The anchor among these placed models: the wanted one where it is among
/// them, else the one that sorts first; none when there are none.
pub open spec fn anchor_in(s: Set<Seq<char>>, wanted: Option<Seq<char>>) -> Option<Seq<char>> {
    if wanted is Some && s.contains(wanted.unwrap()) {
        wanted
    } else if exists|m: Seq<char>| lowest_in(s, m) {
        Some(choose|m: Seq<char>| lowest_in(s, m))
    } else {
        None
    }
}

/// The model a project's settings ask to anchor on: the first entry naming
/// the project.
pub open spec fn preferred_of(preferred: Seq<FieldV>, p: Seq<char>) -> Option<Seq<char>> {
    match entry::<Field>(preferred, p) {
        Some(f) => Some(f.value),
        None => None,
    }
}

/// Project `p`'s anchor.
pub open spec fn anchor_of(ms: Seq<PlacedModelV>, preferred: Seq<FieldV>, p: Seq<char>) -> Option<Seq<char>> {
    anchor_in(declared(ms, p), preferred_of(preferred, p))
}

/// The models of `xs` to move, in order: each that declares a placement and
/// is not its project's anchor among `ms`.
pub open spec fn reframes_over(ms: Seq<PlacedModelV>, preferred: Seq<FieldV>, xs: Seq<PlacedModelV>) -> Seq<ReframeV>
    decreases xs.len(),
{
    if xs.len() == 0 {
        Seq::empty()
    } else {
        let rest = reframes_over(ms, preferred, xs.drop_last());
        let x = xs.last();
        match anchor_of(ms, preferred, x.project_id) {
            Some(a) => if x.placed && a != x.model_id {
                rest.push(ReframeV { project_id: x.project_id, model_id: x.model_id, anchor_id: a })
            } else {
                rest
            },
            None => rest,
        }
    }
}

/// Every model to move into its project's frame, in the order given.
pub open spec fn reframes_of(ms: Seq<PlacedModelV>, preferred: Seq<FieldV>) -> Seq<ReframeV> {
    reframes_over(ms, preferred, ms)
}

/// The anchors projects' settings name, one entry per project that names
/// one, in registry order.
pub open spec fn configured_anchors(projects: Seq<ProjectEntryV>) -> Seq<FieldV>
    decreases projects.len(),
{
    if projects.len() == 0 {
        Seq::empty()
    } else {
        let rest = configured_anchors(projects.drop_last());
        let e = projects.last();
        match e.settings.anchor_model {
            Some(a) => rest.push(FieldV { name: e.id, value: a }),
            None => rest,
        }
    }
}

/// The next anchor once model `m` turns out to be placed, from the anchor so
/// far: a wanted anchor already found stays, the wanted model takes over
/// when it arrives, and otherwise the id that sorts first wins.
pub open spec fn next_anchor(current: Option<Seq<char>>, wanted: Option<Seq<char>>, m: Seq<char>) -> Option<Seq<char>> {
    match current {
        None => Some(m),
        Some(c) => if wanted == Some(c) {
            Some(c)
        } else if wanted == Some(m) || text_lt(m, c) {
            Some(m)
        } else {
            Some(c)
        },
    }
}

proof fn lemma_lowest_unique(s: Set<Seq<char>>, a: Seq<char>, b: Seq<char>)
    requires
        lowest_in(s, a),
        lowest_in(s, b),
    ensures
        a == b,
{
    if a != b {
        assert(s.contains(b));
        assert(s.contains(a));
        assert(text_lt(a, b));
        assert(text_lt(b, a));
        lemma_text_lt_asymmetric(a, b);
    }
}

proof fn lemma_lowest_insert(s: Set<Seq<char>>, c: Seq<char>, m: Seq<char>)
    requires
        lowest_in(s, c),
    ensures
        lowest_in(s.insert(m), if text_lt(m, c) { m } else { c }),
{
    let t = s.insert(m);
    if text_lt(m, c) {
        assert forall|o: Seq<char>| #[trigger] t.contains(o) implies o == m || text_lt(m, o) by {
            if o != m {
                assert(s.contains(o));
                if o != c {
                    assert(text_lt(c, o));
                    lemma_text_lt_transitive(m, c, o);
                }
            }
        }
    } else {
        assert forall|o: Seq<char>| #[trigger] t.contains(o) implies o == c || text_lt(c, o) by {
            if o == m && o != c {
                lemma_text_lt_total(m, c);
            } else if o != m {
                assert(s.contains(o));
            }
        }
    }
}

proof fn lemma_lowest_single(m: Seq<char>)
    ensures
        lowest_in(Set::<Seq<char>>::empty().insert(m), m),
{
}

/// The chosen lowest is the lowest.
proof fn lemma_anchor_lowest(s: Set<Seq<char>>, c: Seq<char>)
    requires
        lowest_in(s, c),
    ensures
        (choose|m: Seq<char>| lowest_in(s, m)) == c,
{
    let k = choose|m: Seq<char>| lowest_in(s, m);
    lemma_lowest_unique(s, k, c);
}

/// How the anchor of a set of placed models moves when one more arrives.
proof fn lemma_anchor_step(s: Set<Seq<char>>, wanted: Option<Seq<char>>, m: Seq<char>)
    requires
        s.is_empty() || exists|c: Seq<char>| lowest_in(s, c),
    ensures
        anchor_in(s.insert(m), wanted) == next_anchor(anchor_in(s, wanted), wanted, m),
        exists|c: Seq<char>| lowest_in(s.insert(m), c),
{
    let t = s.insert(m);
    if s.is_empty() {
        assert(t =~= Set::<Seq<char>>::empty().insert(m));
        lemma_lowest_single(m);
        assert(lowest_in(t, m));
        assert(!(exists|c: Seq<char>| lowest_in(s, c)));
        assert(anchor_in(s, wanted) is None);
        if !(wanted is Some && t.contains(wanted.unwrap())) {
            lemma_anchor_lowest(t, m);
        }
    } else {
        let c0 = choose|c: Seq<char>| lowest_in(s, c);
        lemma_anchor_lowest(s, c0);
        let n = if text_lt(m, c0) { m } else { c0 };
        lemma_lowest_insert(s, c0, m);
        lemma_anchor_lowest(t, n);
        if wanted is Some && s.contains(wanted.unwrap()) {
        } else if wanted == Some(m) {
            assert(wanted != Some(c0));
        } else {
            assert(wanted != Some(c0));
            assert(!(wanted is Some && t.contains(wanted.unwrap())));
        }
    }
}

/// Which placed models a project has, one model more.
proof fn lemma_declared_step(ms: Seq<PlacedModelV>, p: Seq<char>)
    requires
        ms.len() > 0,
    ensures
        declared(ms, p) == (if ms.last().placed && ms.last().project_id == p {
            declared(ms.drop_last(), p).insert(ms.last().model_id)
        } else {
            declared(ms.drop_last(), p)
        }),
{
    let init = ms.drop_last();
    let x = ms.last();
    let d = declared(ms, p);
    let e = declared(init, p);
    assert forall|m: Seq<char>| d.contains(m) implies (if x.placed && x.project_id == p {
        e.insert(x.model_id)
    } else {
        e
    }).contains(m) by {
        let i = choose|i: int| 0 <= i < ms.len() && (#[trigger] ms[i]).placed && ms[i].project_id == p && ms[i].model_id == m;
        if i < init.len() {
            assert(init[i] == ms[i]);
        }
    }
    assert forall|m: Seq<char>| e.contains(m) implies d.contains(m) by {
        let i = choose|i: int| 0 <= i < init.len() && (#[trigger] init[i]).placed && init[i].project_id == p && init[i].model_id == m;
        assert(init[i] == ms[i]);
    }
    if x.placed && x.project_id == p {
        assert(d.contains(x.model_id)) by {
            assert(ms[ms.len() - 1] == x);
        }
        assert(d =~= e.insert(x.model_id));
    } else {
        assert(d =~= e);
    }
}

/// A project with placed models has a lowest one.
proof fn lemma_declared_lowest(ms: Seq<PlacedModelV>, p: Seq<char>)
    ensures
        declared(ms, p).is_empty() || exists|c: Seq<char>| lowest_in(declared(ms, p), c),
    decreases ms.len(),
{
    if ms.len() == 0 {
        assert(declared(ms, p) =~= Set::empty());
    } else {
        lemma_declared_lowest(ms.drop_last(), p);
        lemma_declared_step(ms, p);
        let x = ms.last();
        if x.placed && x.project_id == p {
            lemma_anchor_step(declared(ms.drop_last(), p), None, x.model_id);
        }
    }
}

/// Project `p`'s anchor, one model more.
proof fn lemma_anchor_of_step(ms: Seq<PlacedModelV>, preferred: Seq<FieldV>, p: Seq<char>)
    requires
        ms.len() > 0,
    ensures
        anchor_of(ms, preferred, p) == (if ms.last().placed && ms.last().project_id == p {
            next_anchor(anchor_of(ms.drop_last(), preferred, p), preferred_of(preferred, p), ms.last().model_id)
        } else {
            anchor_of(ms.drop_last(), preferred, p)
        }),
{
    lemma_declared_step(ms, p);
    if ms.last().placed && ms.last().project_id == p {
        lemma_declared_lowest(ms.drop_last(), p);
        lemma_anchor_step(declared(ms.drop_last(), p), preferred_of(preferred, p), ms.last().model_id);
    }
}

/// A project's anchor is none only when no model of it is placed.
pub proof fn lemma_anchor_exists(ms: Seq<PlacedModelV>, preferred: Seq<FieldV>, p: Seq<char>)
    ensures
        anchor_of(ms, preferred, p) is None <==> declared(ms, p).is_empty(),
        anchor_of(ms, preferred, p) matches Some(a) ==> declared(ms, p).contains(a),
{
    lemma_declared_lowest(ms, p);
    let s = declared(ms, p);
    if !s.is_empty() {
        let w = preferred_of(preferred, p);
        if !(w is Some && s.contains(w.unwrap())) {
            let c = choose|c: Seq<char>| lowest_in(s, c);
            lemma_anchor_lowest(s, c);
        }
    } else {
        if exists|c: Seq<char>| lowest_in(s, c) {
            let c = choose|c: Seq<char>| lowest_in(s, c);
            assert(s.contains(c));
        }
    }
}

/// Adding an entry under a key not yet present: that key now finds it,
/// every other key finds what it found before.
proof fn lemma_entry_push(s: Seq<FieldV>, f: FieldV, k: Seq<char>)
    requires
        index_of::<Field>(s, f.name) == -1,
    ensures
        entry::<Field>(s.push(f), k) == (if k == f.name {
            Some(f)
        } else {
            entry::<Field>(s, k)
        }),
{
    let t = s.push(f);
    lemma_index_of::<Field>(s, k);
    lemma_index_of::<Field>(s, f.name);
    let i = index_of::<Field>(s, k);
    if i >= 0 {
        assert forall|j: int| 0 <= j < i implies (#[trigger] t[j]).name != k by {
            assert(t[j] == s[j]);
        }
        assert(t[i] == s[i]);
        lemma_index_of_at::<Field>(t, k, i);
    } else if k == f.name {
        assert forall|j: int| 0 <= j < s.len() implies (#[trigger] t[j]).name != k by {
            assert(t[j] == s[j]);
        }
        lemma_index_of_at::<Field>(t, k, s.len() as int);
    } else {
        assert forall|j: int| 0 <= j < t.len() implies (#[trigger] t[j]).name != k by {
            if j < s.len() {
                assert(t[j] == s[j]);
            }
        }
        lemma_index_of_at::<Field>(t, k, t.len() as int);
    }
}

/// Replacing the first entry under a key with another under the same key:
/// that key now finds the new entry, every other key what it found before.
proof fn lemma_entry_update(s: Seq<FieldV>, j: int, f: FieldV, k: Seq<char>)
    requires
        index_of::<Field>(s, f.name) == j,
        0 <= j < s.len(),
    ensures
        entry::<Field>(s.update(j, f), k) == (if k == f.name {
            Some(f)
        } else {
            entry::<Field>(s, k)
        }),
{
    let t = s.update(j, f);
    lemma_index_of::<Field>(s, k);
    lemma_index_of::<Field>(s, f.name);
    let i = index_of::<Field>(s, k);
    if k == f.name {
        assert forall|q: int| 0 <= q < j implies (#[trigger] t[q]).name != k by {
            assert(t[q] == s[q]);
        }
        lemma_index_of_at::<Field>(t, k, j);
    } else if i >= 0 {
        assert(i != j);
        assert forall|q: int| 0 <= q < i implies (#[trigger] t[q]).name != k by {
            if q != j {
                assert(t[q] == s[q]);
            }
        }
        assert(t[i] == s[i]);
        lemma_index_of_at::<Field>(t, k, i);
    } else {
        assert forall|q: int| 0 <= q < t.len() implies (#[trigger] t[q]).name != k by {
            if q != j {
                assert(t[q] == s[q]);
            }
        }
        lemma_index_of_at::<Field>(t, k, t.len() as int);
    }
}

/// Each project's anchor, one entry per project with a placed model, first
/// seen first.
fn project_anchors(models: &[PlacedModel], preferred: &[Field]) -> (r: Vec<Field>)
    ensures
        forall|p: Seq<char>| #[trigger] preferred_of(r.deep_view(), p) == anchor_of(models.deep_view(), preferred.deep_view(), p),
{
    let ghost ms = models.deep_view();
    let ghost pd = preferred.deep_view();
    let mut out: Vec<Field> = Vec::new();
    let mut i: usize = 0;
    proof {
        assert forall|p: Seq<char>| #[trigger] preferred_of(out.deep_view(), p) == anchor_of(ms.take(0), pd, p) by {
            assert(declared(ms.take(0), p) =~= Set::empty());
            lemma_anchor_exists(ms.take(0), pd, p);
        }
    }
    while i < models.len()
        invariant
            i <= ms.len(),
            ms == models.deep_view(),
            pd == preferred.deep_view(),
            forall|p: Seq<char>| #[trigger] preferred_of(out.deep_view(), p) == anchor_of(ms.take(i as int), pd, p),
        decreases ms.len() - i,
    {
        let x = &models[i];
        let ghost xv = x.deep_view();
        let ghost before = out.deep_view();
        proof {
            assert(ms[i as int] == xv);
            assert(ms.take(i + 1).drop_last() =~= ms.take(i as int));
            assert(ms.take(i + 1).last() == xv);
        }
        if x.placed {
            let wanted = lookup(preferred, x.project_id.as_str());
            let ghost w = preferred_of(pd, xv.project_id);
            assert(w == match wanted {
                Some(f) => Some(f.value@),
                None => None,
            });
            let fresh = Field { name: x.project_id.dup(), value: x.model_id.dup() };
            let ghost fv = fresh.deep_view();
            let os = out.as_slice();
            assert(os.deep_view() =~= before);
            let found = crate::keyed::find(os, x.project_id.as_str());
            match found {
                None => {
                    proof {
                        lemma_index_of::<Field>(before, xv.project_id);
                    }
                    out.push(fresh);
                    proof {
                        assert(out.deep_view() =~= before.push(fv));
                        assert forall|p: Seq<char>| #[trigger] preferred_of(out.deep_view(), p) == anchor_of(
                            ms.take(i + 1),
                            pd,
                            p,
                        ) by {
                            lemma_entry_push(before, fv, p);
                            lemma_anchor_of_step(ms.take(i + 1), pd, p);
                            assert(preferred_of(before, p) == anchor_of(ms.take(i as int), pd, p));
                        }
                    }
                },
                Some(j) => {
                    proof {
                        lemma_index_of::<Field>(before, xv.project_id);
                        assert(before[j as int] == out@[j as int].deep_view());
                        assert(preferred_of(before, xv.project_id) == Some(before[j as int].value));
                    }
                    let keep = match wanted {
                        Some(f) => text_eq(f.value.as_str(), out[j].value.as_str()),
                        None => false,
                    };
                    let mut takes = false;
                    if !keep {
                        let named = match wanted {
                            Some(f) => text_eq(f.value.as_str(), x.model_id.as_str()),
                            None => false,
                        };
                        let a = chars_of(x.model_id.as_str());
                        let b = chars_of(out[j].value.as_str());
                        takes = named || text_lt_exec(a.as_slice(), b.as_slice());
                    }
                    if takes {
                        out.set(j, fresh);
                        proof {
                            assert(out.deep_view() =~= before.update(j as int, fv));
                        }
                    }
                    proof {
                        assert forall|p: Seq<char>| #[trigger] preferred_of(out.deep_view(), p) == anchor_of(
                            ms.take(i + 1),
                            pd,
                            p,
                        ) by {
                            lemma_anchor_of_step(ms.take(i + 1), pd, p);
                            assert(preferred_of(before, p) == anchor_of(ms.take(i as int), pd, p));
                            if takes {
                                lemma_entry_update(before, j as int, fv, p);
                            }
                        }
                    }
                },
            }
        } else {
            proof {
                assert forall|p: Seq<char>| #[trigger] preferred_of(out.deep_view(), p) == anchor_of(ms.take(i + 1), pd, p) by {
                    lemma_anchor_of_step(ms.take(i + 1), pd, p);
                    assert(preferred_of(before, p) == anchor_of(ms.take(i as int), pd, p));
                }
            }
        }
        i += 1;
    }
    proof {
        assert(ms.take(i as int) =~= ms);
    }
    out
}

/// The models to move into their projects' frames, in the order given: every
/// model that declares a placement and is not its project's anchor, with that
/// anchor. The anchor is the model the project's preference names where that
/// model is placed, and otherwise the placed model whose id sorts first.
pub fn resolve(models: &[PlacedModel], preferred: &[Field]) -> (r: Vec<Reframe>)
    ensures
        r.deep_view() == reframes_of(models.deep_view(), preferred.deep_view()),
{
    let ghost ms = models.deep_view();
    let ghost pd = preferred.deep_view();
    let anchors = project_anchors(models, preferred);
    let mut out: Vec<Reframe> = Vec::new();
    let mut i: usize = 0;
    while i < models.len()
        invariant
            i <= ms.len(),
            ms == models.deep_view(),
            pd == preferred.deep_view(),
            forall|p: Seq<char>| #[trigger] preferred_of(anchors.deep_view(), p) == anchor_of(ms, pd, p),
            out.deep_view() == reframes_over(ms, pd, ms.take(i as int)),
        decreases ms.len() - i,
    {
        let x = &models[i];
        let ghost xv = x.deep_view();
        let ghost before = out.deep_view();
        proof {
            assert(ms[i as int] == xv);
            assert(ms.take(i + 1).drop_last() =~= ms.take(i as int));
            assert(ms.take(i + 1).last() == xv);
        }
        if x.placed {
            let a = anchors.as_slice();
            assert(a.deep_view() =~= anchors.deep_view());
            let found = lookup(a, x.project_id.as_str());
            assert(preferred_of(anchors.deep_view(), xv.project_id) == anchor_of(ms, pd, xv.project_id));
            match found {
                Some(f) => {
                    assert(anchor_of(ms, pd, xv.project_id) == Some(f.value@));
                    if !text_eq(f.value.as_str(), x.model_id.as_str()) {
                        out.push(Reframe { project_id: x.project_id.dup(), model_id: x.model_id.dup(), anchor_id: f.value.dup() });
                        assert(out.deep_view() =~= before.push(
                            ReframeV { project_id: xv.project_id, model_id: xv.model_id, anchor_id: f.value@ },
                        ));
                    }
                },
                None => {
                    assert(anchor_of(ms, pd, xv.project_id) is None);
                },
            }
        }
        i += 1;
    }
    proof {
        assert(ms.take(i as int) =~= ms);
    }
    out
}

/// The anchors projects' settings name, in registry order.
pub fn preferred_anchors(registry: &SettingsRegistry) -> (r: Vec<Field>)
    ensures
        r.deep_view() == configured_anchors(registry.projects.deep_view()),
{
    let ghost d = registry.projects.deep_view();
    let mut out: Vec<Field> = Vec::new();
    let mut i: usize = 0;
    while i < registry.projects.len()
        invariant
            i <= d.len(),
            d == registry.projects.deep_view(),
            out.deep_view() == configured_anchors(d.take(i as int)),
        decreases d.len() - i,
    {
        let e = &registry.projects[i];
        proof {
            assert(d[i as int] == e.deep_view());
            assert(d.take(i + 1).drop_last() =~= d.take(i as int));
            assert(d.take(i + 1).last() == e.deep_view());
        }
        if let Some(a) = &e.settings.anchor_model {
            let ghost before = out.deep_view();
            out.push(Field { name: e.id.dup(), value: a.dup() });
            assert(out.deep_view() =~= before.push(FieldV { name: e.id@, value: a@ }));
        }
        i += 1;
    }
    proof {
        assert(d.take(i as int) =~= d);
    }
    out
}

/// The model a reframe moves, from among the models listed.
pub open spec fn moves(ms: Seq<PlacedModelV>, preferred: Seq<FieldV>, xs: Seq<PlacedModelV>, r: ReframeV) -> bool {
    exists|i: int|
        0 <= i < xs.len() && (#[trigger] xs[i]).placed && xs[i].project_id == r.project_id && xs[i].model_id == r.model_id
            && anchor_of(ms, preferred, r.project_id) == Some(r.anchor_id) && r.anchor_id != r.model_id
}

/// What the list of reframes holds: one for each placed model that is not
/// its project's anchor, with that anchor.
pub proof fn lemma_reframes_member(ms: Seq<PlacedModelV>, preferred: Seq<FieldV>, xs: Seq<PlacedModelV>, r: ReframeV)
    ensures
        reframes_over(ms, preferred, xs).contains(r) <==> moves(ms, preferred, xs, r),
    decreases xs.len(),
{
    if xs.len() > 0 {
        let init = xs.drop_last();
        let x = xs.last();
        lemma_reframes_member(ms, preferred, init, r);
        let rest = reframes_over(ms, preferred, init);
        let out = reframes_over(ms, preferred, xs);
        if moves(ms, preferred, init, r) {
            let i = choose|i: int|
                0 <= i < init.len() && (#[trigger] init[i]).placed && init[i].project_id == r.project_id && init[i].model_id
                    == r.model_id && anchor_of(ms, preferred, r.project_id) == Some(r.anchor_id) && r.anchor_id != r.model_id;
            assert(xs[i] == init[i]);
            assert(rest.contains(r));
            let k = choose|k: int| 0 <= k < rest.len() && rest[k] == r;
            assert(out[k] == r);
        }
        if out.contains(r) {
            if !rest.contains(r) {
                let k = choose|k: int| 0 <= k < out.len() && out[k] == r;
                if k < rest.len() {
                    assert(out[k] == rest[k]);
                }
                assert(xs[xs.len() - 1] == x);
            }
        }
        if moves(ms, preferred, xs, r) && !moves(ms, preferred, init, r) {
            let i = choose|i: int|
                0 <= i < xs.len() && (#[trigger] xs[i]).placed && xs[i].project_id == r.project_id && xs[i].model_id
                    == r.model_id && anchor_of(ms, preferred, r.project_id) == Some(r.anchor_id) && r.anchor_id != r.model_id;
            if i < init.len() {
                assert(init[i] == xs[i]);
            }
            assert(i == xs.len() - 1);
            assert(out == rest.push(r));
            assert(out[rest.len() as int] == r);
        }
        if rest.contains(r) {
            let k = choose|k: int| 0 <= k < rest.len() && rest[k] == r;
            assert(out[k] == r);
        }
        if moves(ms, preferred, init, r) {
            let i = choose|i: int|
                0 <= i < init.len() && (#[trigger] init[i]).placed && init[i].project_id == r.project_id && init[i].model_id
                    == r.model_id && anchor_of(ms, preferred, r.project_id) == Some(r.anchor_id) && r.anchor_id != r.model_id;
            assert(xs[i] == init[i]);
        }
    }
}

/// The models of the index, each marked placed exactly when it is among
/// the models that declare a placement, in index order.
pub open spec fn index_models(index: Seq<ModelIndexRowV>, placed: Seq<ModelKeyV>) -> Seq<PlacedModelV> {
    index.map_values(
        |r: ModelIndexRowV| PlacedModelV { project_id: r.key.project_id, model_id: r.key.model_id, placed: placed.contains(r.key) },
    )
}

fn listed_key(keys: &[ModelKey], key: &ModelKey) -> (r: bool)
    ensures
        r == keys.deep_view().contains(key.deep_view()),
{
    let ghost d = keys.deep_view();
    let mut i: usize = 0;
    while i < keys.len()
        invariant
            i <= keys@.len(),
            d == keys.deep_view(),
            forall|j: int| 0 <= j < i ==> d[j] != key.deep_view(),
        decreases keys@.len() - i,
    {
        assert(d[i as int] == keys@[i as int].deep_view());
        if text_eq(keys[i].project_id.as_str(), key.project_id.as_str()) && text_eq(
            keys[i].model_id.as_str(),
            key.model_id.as_str(),
        ) {
            return true;
        }
        i += 1;
    }
    false
}

/// Every model of the index to move into its project's frame, given which
/// models declare a placement: each project's anchor is the one its settings
/// name, where that model is placed, else its placed model whose id sorts
/// first.
pub fn from_index(state: &AppState, placed: &[ModelKey]) -> (r: Vec<Reframe>)
    ensures
        r.deep_view() == reframes_of(
            index_models(state.index.deep_view(), placed.deep_view()),
            configured_anchors(state.registry.projects.deep_view()),
        ),
{
    let ghost d = state.index.deep_view();
    let ghost pd = placed.deep_view();
    let mut models: Vec<PlacedModel> = Vec::new();
    let mut i: usize = 0;
    while i < state.index.len()
        invariant
            i <= d.len(),
            d == state.index.deep_view(),
            pd == placed.deep_view(),
            models.deep_view() == index_models(d.take(i as int), pd),
        decreases d.len() - i,
    {
        let row = &state.index[i];
        assert(row.deep_view() == d[i as int]);
        let ghost before = models.deep_view();
        let on = listed_key(placed, &row.key);
        models.push(PlacedModel { project_id: row.key.project_id.dup(), model_id: row.key.model_id.dup(), placed: on });
        let ghost e = PlacedModelV { project_id: d[i as int].key.project_id, model_id: d[i as int].key.model_id, placed: pd.contains(d[i as int].key) };
        assert(d[i as int].key == row.key.deep_view());
        assert(models.deep_view() =~= before.push(e));
        assert(index_models(d.take(i + 1), pd) =~= index_models(d.take(i as int), pd).push(e)) by {
            assert(d.take(i + 1) =~= d.take(i as int).push(d[i as int]));
        }
        i += 1;
    }
    assert(d.take(i as int) =~= d);
    let preferred = preferred_anchors(&state.registry);
    let ms = models.as_slice();
    let ps = preferred.as_slice();
    assert(ms.deep_view() =~= models.deep_view());
    assert(ps.deep_view() =~= preferred.deep_view());
    resolve(ms, ps)
}

} // verus!
