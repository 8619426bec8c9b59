//! Milestone listings: which named, dated pins a project defines, newest
//! date first, then by name. Read from the settings, so an unregistered
//! project lists none.
use vstd::prelude::*;
use crate::contract::{Field, FieldV};
use crate::keyed::Dup;
use crate::order::{sort, sorted_of, TotalOrder};
use crate::settings::{settings_of, Milestone, MilestoneV};
use crate::state::AppState;
use crate::text::{chars_of, chars_eq, lemma_text_lt_asymmetric, lemma_text_lt_irreflexive, lemma_text_lt_total, lemma_text_lt_transitive, text_lt, text_lt_exec};
use crate::ServiceError;

verus! {

/// One milestone as a picker sees it: its pin count, and its reference pins.
pub struct MilestoneSummary {
    pub name: String,
    pub date: String,
    /// How many models the milestone pins rooms for.
    pub attached_models: usize,
    pub reference_snapshots: Vec<Field>,
}

pub struct MilestoneSummaryV {
    pub name: Seq<char>,
    pub date: Seq<char>,
    pub attached_models: usize,
    pub reference_snapshots: Seq<FieldV>,
}

impl DeepView for MilestoneSummary {
    type V = MilestoneSummaryV;

    open spec fn deep_view(&self) -> MilestoneSummaryV {
        MilestoneSummaryV {
            name: self.name@,
            date: self.date@,
            attached_models: self.attached_models,
            reference_snapshots: self.reference_snapshots.deep_view(),
        }
    }
}

pub struct MilestonesResponse {
    pub milestones: Vec<MilestoneSummary>,
}

/// A milestone's place in the listing: by date, newest first, then by name,
/// then as configured.
pub struct Ranked {
    pub date: String,
    pub name: String,
    pub position: usize,
}

pub struct RankedV {
    pub date: Seq<char>,
    pub name: Seq<char>,
    pub position: usize,
}

impl DeepView for Ranked {
    type V = RankedV;

    open spec fn deep_view(&self) -> RankedV {
        RankedV { date: self.date@, name: self.name@, position: self.position }
    }
}

impl Dup for Ranked {
    fn dup(&self) -> (r: Self) {
        Ranked { date: self.date.dup(), name: self.name.dup(), position: self.position }
    }
}

pub open spec fn ranked_lt(a: RankedV, b: RankedV) -> bool {
    ||| text_lt(b.date, a.date)
    ||| (a.date == b.date && text_lt(a.name, b.name))
    ||| (a.date == b.date && a.name == b.name && a.position < b.position)
}

impl TotalOrder for Ranked {
    open spec fn lt(a: RankedV, b: RankedV) -> bool {
        ranked_lt(a, b)
    }

    proof fn lemma_irreflexive(a: RankedV) {
        lemma_text_lt_irreflexive(a.date);
        lemma_text_lt_irreflexive(a.name);
    }

    proof fn lemma_transitive(a: RankedV, b: RankedV, c: RankedV) {
        if text_lt(b.date, a.date) && text_lt(c.date, b.date) {
            lemma_text_lt_transitive(c.date, b.date, a.date);
        }
        if text_lt(a.name, b.name) && text_lt(b.name, c.name) {
            lemma_text_lt_transitive(a.name, b.name, c.name);
        }
        if text_lt(c.date, a.date) {
            lemma_text_lt_asymmetric(c.date, a.date);
        }
        if text_lt(a.date, c.date) {
            lemma_text_lt_asymmetric(a.date, c.date);
        }
    }

    proof fn lemma_total(a: RankedV, b: RankedV) {
        lemma_text_lt_total(a.date, b.date);
        lemma_text_lt_total(a.name, b.name);
    }

    fn less(&self, other: &Self) -> (r: bool) {
        let ad = chars_of(self.date.as_str());
        let bd = chars_of(other.date.as_str());
        if text_lt_exec(bd.as_slice(), ad.as_slice()) {
            return true;
        }
        if !chars_eq(ad.as_slice(), bd.as_slice()) {
            return false;
        }
        let an = chars_of(self.name.as_str());
        let bn = chars_of(other.name.as_str());
        if text_lt_exec(an.as_slice(), bn.as_slice()) {
            return true;
        }
        if !chars_eq(an.as_slice(), bn.as_slice()) {
            return false;
        }
        self.position < other.position
    }
}

/// Each milestone's rank, in configured order.
pub open spec fn ranks_of(ms: Seq<MilestoneV>) -> Seq<RankedV> {
    Seq::new(ms.len(), |i: int| RankedV { date: ms[i].date, name: ms[i].name, position: i as usize })
}

/// What the picker shows of one milestone.
pub open spec fn summary_of(m: MilestoneV) -> MilestoneSummaryV {
    MilestoneSummaryV {
        name: m.name,
        date: m.date,
        attached_models: m.attachments.len() as usize,
        reference_snapshots: m.reference_snapshots,
    }
}

/// The listing: the milestones in rank order, summarised.
pub open spec fn listing_of(ms: Seq<MilestoneV>) -> Seq<MilestoneSummaryV> {
    let order = sorted_of::<Ranked>(ranks_of(ms));
    Seq::new(order.len(), |i: int| summary_of(ms[order[i].position as int]))
}

/// The listing a project answers: its milestones' listing, or nothing for an
/// unregistered project.
pub open spec fn milestones_of(state: AppState, project: Seq<char>) -> Seq<MilestoneSummaryV> {
    match settings_of(state.registry.view_projects(), project) {
        Some(s) => listing_of(s.milestones),
        None => Seq::empty(),
    }
}

fn summarize(m: &Milestone) -> (r: MilestoneSummary)
    ensures
        r.deep_view() == summary_of(m.deep_view()),
{
    MilestoneSummary {
        name: m.name.clone(),
        date: m.date.clone(),
        attached_models: m.attachments.len(),
        reference_snapshots: m.reference_snapshots.dup(),
    }
}

/// Every milestone one project defines, newest date first, then by name.
pub fn list_milestones(state: &AppState, project_id: &str) -> (r: Result<MilestonesResponse, ServiceError>)
    ensures
        r matches Ok(resp) && resp.milestones.deep_view() == milestones_of(*state, project_id@),
{
    let bundle = match state.settings().settings_for(project_id) {
        Some(b) => b,
        None => {
            let milestones: Vec<MilestoneSummary> = Vec::new();
            assert(milestones.deep_view() =~= Seq::<MilestoneSummaryV>::empty());
            return Ok(MilestonesResponse { milestones });
        },
    };
    let ghost md = bundle.milestones.deep_view();
    let total = bundle.milestones.len();
    assert(md.len() == total);
    let mut ranks: Vec<Ranked> = Vec::new();
    let mut i: usize = 0;
    while i < bundle.milestones.len()
        invariant
            i <= bundle.milestones@.len(),
            md == bundle.milestones.deep_view(),
            ranks.deep_view() == ranks_of(md).take(i as int),
        decreases bundle.milestones@.len() - i,
    {
        let m = &bundle.milestones[i];
        assert(m.deep_view() == md[i as int]);
        let ghost before = ranks.deep_view();
        ranks.push(Ranked { date: m.date.clone(), name: m.name.clone(), position: i });
        assert(ranks_of(md)[i as int] == RankedV { date: md[i as int].date, name: md[i as int].name, position: i });
        assert(ranks.deep_view() =~= before.push(ranks_of(md)[i as int]));
        assert(ranks.deep_view() =~= ranks_of(md).take(i + 1));
        i += 1;
    }
    assert(ranks_of(md).take(i as int) =~= ranks_of(md));
    let order = sort(ranks);
    let ghost od = order.deep_view();
    proof {
        assert(od.to_multiset() == ranks_of(md).to_multiset());
    }
    let mut milestones: Vec<MilestoneSummary> = Vec::new();
    let mut k: usize = 0;
    while k < order.len()
        invariant
            k <= order@.len(),
            od == order.deep_view(),
            od == sorted_of::<Ranked>(ranks_of(md)),
            od.to_multiset() == ranks_of(md).to_multiset(),
            md == bundle.milestones.deep_view(),
            md.len() == total,
            milestones.deep_view() == Seq::new(k as nat, |j: int| summary_of(md[od[j].position as int])),
        decreases order@.len() - k,
    {
        assert(od[k as int] == order@[k as int].deep_view());
        let p = order[k].position;
        proof {
            broadcast use vstd::seq_lib::group_to_multiset_ensures;
            assert(od.contains(od[k as int]));
            assert(ranks_of(md).to_multiset().count(od[k as int]) > 0);
            assert(ranks_of(md).contains(od[k as int]));
            let j = choose|j: int| 0 <= j < ranks_of(md).len() && ranks_of(md)[j] == od[k as int];
            assert(j < total);
            assert(ranks_of(md)[j].position == j as usize);
            assert(p == j);
        }
        let m = &bundle.milestones[p];
        assert(m.deep_view() == md[p as int]);
        let ghost before = milestones.deep_view();
        milestones.push(summarize(m));
        assert(milestones.deep_view() =~= before.push(summary_of(md[od[k as int].position as int])));
        assert(milestones.deep_view() =~= Seq::new((k + 1) as nat, |j: int| summary_of(md[od[j].position as int])));
        k += 1;
    }
    assert(milestones.deep_view() =~= listing_of(md));
    Ok(MilestonesResponse { milestones })
}

} // verus!
