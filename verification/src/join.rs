//! The reference join every entity shares: each source configured for the
//! entity reads its link property off the element (instance tier, then type
//! tier) and contributes the record that value selects. A source whose value
//! selects nothing contributes nothing; that is a signal, not an error.
use vstd::prelude::*;
use crate::contract::{tier_value, tier_value_exec, KeyedRecord, Prop, PropV, ReferenceData, ReferenceDataV, SourceRecord, SourceRecordV};
use crate::keyed::{entry, lookup, Dup};
use crate::settings::{ProjectSettings, ReferenceEntity, ReferenceSourceV};

verus! {

/// One source an entity joins, with the data it joins.
pub struct JoinSource {
    pub name: String,
    pub data: ReferenceData,
}

pub struct JoinSourceV {
    pub name: Seq<char>,
    pub data: ReferenceDataV,
}

impl DeepView for JoinSource {
    type V = JoinSourceV;

    open spec fn deep_view(&self) -> JoinSourceV {
        JoinSourceV { name: self.name@, data: self.data.deep_view() }
    }
}

impl Dup for JoinSource {
    fn dup(&self) -> (r: Self) {
        JoinSource { name: self.name.dup(), data: self.data.dup() }
    }
}

/// The sources configured for `entity` that hold data, in settings order.
pub open spec fn sources_of(reference: Seq<ReferenceSourceV>, entity: ReferenceEntity) -> Seq<JoinSourceV>
    decreases reference.len(),
{
    if reference.len() == 0 {
        Seq::empty()
    } else {
        let rest = sources_of(reference.drop_last(), entity);
        let s = reference.last();
        if s.entity == entity && s.data is Some {
            rest.push(JoinSourceV { name: s.name, data: s.data.unwrap() })
        } else {
            rest
        }
    }
}

/// The sources one entity joins in a project.
pub fn entity_sources(settings: &ProjectSettings, entity: ReferenceEntity) -> (r: Vec<JoinSource>)
    ensures
        r.deep_view() == sources_of(settings.reference.deep_view(), entity),
{
    let ghost d = settings.reference.deep_view();
    let mut out: Vec<JoinSource> = Vec::new();
    let mut i: usize = 0;
    while i < settings.reference.len()
        invariant
            i <= settings.reference@.len(),
            d == settings.reference.deep_view(),
            out.deep_view() == sources_of(d.take(i as int), entity),
        decreases settings.reference@.len() - i,
    {
        let s = &settings.reference[i];
        assert(s.deep_view() == d[i as int]);
        proof {
            assert(d.take(i + 1).drop_last() =~= d.take(i as int));
            assert(d.take(i + 1).last() == d[i as int]);
        }
        let ghost before = out.deep_view();
        if s.entity == entity {
            if let Some(data) = &s.data {
                out.push(JoinSource { name: s.name.clone(), data: data.dup() });
                assert(out.deep_view() =~= before.push(JoinSourceV { name: d[i as int].name, data: d[i as int].data.unwrap() }));
            }
        }
        i += 1;
    }
    assert(d.take(i as int) =~= d);
    out
}

/// The record one source contributes for an element, if any.
pub open spec fn joined_record(inst: Seq<PropV>, typ: Seq<PropV>, src: JoinSourceV) -> Option<SourceRecordV> {
    match tier_value(inst, typ, src.data.link_property) {
        None => None,
        Some(k) => match entry::<KeyedRecord>(src.data.by_id, k) {
            None => None,
            Some(rec) => Some(SourceRecordV { source: src.name, fields: rec.fields }),
        },
    }
}

/// The records an element joins, one per source that selects one, in source
/// order.
pub open spec fn joined_of(inst: Seq<PropV>, typ: Seq<PropV>, sources: Seq<JoinSourceV>) -> Seq<SourceRecordV>
    decreases sources.len(),
{
    if sources.len() == 0 {
        Seq::empty()
    } else {
        let rest = joined_of(inst, typ, sources.drop_last());
        match joined_record(inst, typ, sources.last()) {
            Some(r) => rest.push(r),
            None => rest,
        }
    }
}

/// Join an element's properties onto its sources.
pub fn join_reference(inst: &[Prop], typ: &[Prop], sources: &[JoinSource]) -> (r: Vec<SourceRecord>)
    ensures
        r.deep_view() == joined_of(inst.deep_view(), typ.deep_view(), sources.deep_view()),
{
    let ghost d = sources.deep_view();
    let mut out: Vec<SourceRecord> = Vec::new();
    let mut i: usize = 0;
    while i < sources.len()
        invariant
            i <= sources@.len(),
            d == sources.deep_view(),
            out.deep_view() == joined_of(inst.deep_view(), typ.deep_view(), d.take(i as int)),
        decreases sources@.len() - i,
    {
        let src = &sources[i];
        assert(src.deep_view() == d[i as int]);
        proof {
            assert(d.take(i + 1).drop_last() =~= d.take(i as int));
            assert(d.take(i + 1).last() == d[i as int]);
        }
        let ghost before = out.deep_view();
        if let Some(key) = tier_value_exec(inst, typ, src.data.link_property.as_str()) {
            let recs = src.data.by_id.as_slice();
            assert(recs.deep_view() =~= src.data.by_id.deep_view());
            if let Some(rec) = lookup(recs, key.as_str()) {
                out.push(SourceRecord { source: src.name.clone(), record: rec.record.dup() });
                assert(out.deep_view() =~= before.push(
                    SourceRecordV { source: d[i as int].name, fields: rec.deep_view().fields },
                ));
            }
        }
        i += 1;
    }
    assert(d.take(i as int) =~= d);
    out
}

} // verus!
