//! The level elevations a room probe matches storeys by: per model and per
//! level id, since a level id is per document and only the elevation
//! crosses between linked models. A model's rooms payload decides its
//! levels; an element envelope fills in only a level no rooms payload
//! states, so a model that pushes both is answered by its rooms.
use vstd::prelude::*;
use crate::contract::{Level, LevelV};
use crate::text::text_eq;

verus! {

/// A level's key: the model that states it and its id there.
pub type LevelKey = (Seq<char>, Seq<char>);

/// One model's levels by id; a later level of the same id states it again.
pub open spec fn model_levels(model: Seq<char>, levels: Seq<LevelV>) -> Map<LevelKey, i64>
    decreases levels.len(),
{
    if levels.len() == 0 {
        Map::empty()
    } else {
        model_levels(model, levels.drop_last()).insert((model, levels.last().id), levels.last().elevation_um)
    }
}

/// One model's levels by id; the first level of an id stands.
pub open spec fn first_levels(model: Seq<char>, levels: Seq<LevelV>) -> Map<LevelKey, i64>
    decreases levels.len(),
{
    if levels.len() == 0 {
        Map::empty()
    } else {
        let m = first_levels(model, levels.drop_last());
        let k = (model, levels.last().id);
        if m.contains_key(k) {
            m
        } else {
            m.insert(k, levels.last().elevation_um)
        }
    }
}

/// What the rooms payloads state, a later payload restating a level.
pub open spec fn rooms_elevations(rooms: Seq<(Seq<char>, Seq<LevelV>)>) -> Map<LevelKey, i64>
    decreases rooms.len(),
{
    if rooms.len() == 0 {
        Map::empty()
    } else {
        rooms_elevations(rooms.drop_last()).union_prefer_right(model_levels(rooms.last().0, rooms.last().1))
    }
}

/// What the element envelopes state, the first statement of a level
/// standing.
pub open spec fn envelope_elevations(envelopes: Seq<(Seq<char>, Seq<LevelV>)>) -> Map<LevelKey, i64>
    decreases envelopes.len(),
{
    if envelopes.len() == 0 {
        Map::empty()
    } else {
        first_levels(envelopes.last().0, envelopes.last().1).union_prefer_right(envelope_elevations(envelopes.drop_last()))
    }
}

/// Every level's elevation: the rooms payloads decide, the envelopes fill
/// in the levels they leave out.
pub open spec fn elevation_table(rooms: Seq<(Seq<char>, Seq<LevelV>)>, envelopes: Seq<(Seq<char>, Seq<LevelV>)>) -> Map<LevelKey, i64> {
    envelope_elevations(envelopes).union_prefer_right(rooms_elevations(rooms))
}

/// A table's entries as a map.
pub open spec fn table_map(t: Seq<(LevelKey, i64)>) -> Map<LevelKey, i64>
    decreases t.len(),
{
    if t.len() == 0 {
        Map::empty()
    } else {
        table_map(t.drop_last()).insert(t.last().0, t.last().1)
    }
}

/// No key is listed twice.
pub open spec fn keys_unique(t: Seq<(LevelKey, i64)>) -> bool {
    forall|i: int, j: int| 0 <= i < j < t.len() ==> (#[trigger] t[i]).0 != (#[trigger] t[j]).0
}

proof fn lemma_table_keys(t: Seq<(LevelKey, i64)>)
    ensures
        forall|k: LevelKey| #[trigger] table_map(t).contains_key(k) <==> exists|i: int| 0 <= i < t.len() && (#[trigger] t[i]).0 == k,
    decreases t.len(),
{
    if t.len() > 0 {
        let front = t.drop_last();
        lemma_table_keys(front);
        assert forall|k: LevelKey| #[trigger] table_map(t).contains_key(k) <==> exists|i: int| 0 <= i < t.len() && (#[trigger] t[i]).0 == k by {
            if table_map(t).contains_key(k) {
                if k == t.last().0 {
                    assert(t[t.len() - 1].0 == k);
                } else {
                    assert(table_map(front).contains_key(k));
                    let i = choose|i: int| 0 <= i < front.len() && (#[trigger] front[i]).0 == k;
                    assert(t[i] == front[i]);
                }
            }
            if exists|i: int| 0 <= i < t.len() && (#[trigger] t[i]).0 == k {
                let i = choose|i: int| 0 <= i < t.len() && (#[trigger] t[i]).0 == k;
                if i < front.len() {
                    assert(front[i] == t[i]);
                    assert(table_map(front).contains_key(k));
                }
            }
        }
    }
}

/// Replacing the value of a listed key replaces it in the map.
proof fn lemma_table_update(t: Seq<(LevelKey, i64)>, i: int, v: i64)
    requires
        keys_unique(t),
        0 <= i < t.len(),
    ensures
        table_map(t.update(i, (t[i].0, v))) == table_map(t).insert(t[i].0, v),
    decreases t.len(),
{
    let u = t.update(i, (t[i].0, v));
    let front = t.drop_last();
    if i == t.len() - 1 {
        assert(u.drop_last() =~= front);
        assert(table_map(u) =~= table_map(t).insert(t[i].0, v));
    } else {
        assert forall|a: int, b: int| 0 <= a < b < front.len() implies (#[trigger] front[a]).0 != (#[trigger] front[b]).0 by {
            assert(front[a] == t[a] && front[b] == t[b]);
        }
        lemma_table_update(front, i, v);
        assert(u.drop_last() =~= front.update(i, (t[i].0, v)));
        assert(t[i].0 != t.last().0);
        assert(table_map(u) =~= table_map(t).insert(t[i].0, v));
    }
}

/// Where a key is listed.
fn find_level(table: &Vec<((String, String), i64)>, model: &str, level: &str) -> (r: Option<usize>)
    ensures
        match r {
            Some(i) => i < table@.len() && table.deep_view()[i as int].0 == (model@, level@),
            None => forall|i: int| 0 <= i < table@.len() ==> (#[trigger] table.deep_view()[i]).0 != (model@, level@),
        },
{
    let mut i: usize = 0;
    while i < table.len()
        invariant
            i <= table@.len(),
            forall|j: int| 0 <= j < i ==> (#[trigger] table.deep_view()[j]).0 != (model@, level@),
        decreases table@.len() - i,
    {
        assert(table.deep_view()[i as int] == ((table@[i as int].0.0@, table@[i as int].0.1@), table@[i as int].1));
        if text_eq(table[i].0.0.as_str(), model) && text_eq(table[i].0.1.as_str(), level) {
            return Some(i);
        }
        i += 1;
    }
    None
}

/// Every level's elevation, per model: each model's rooms payload decides
/// its levels, a later statement of a level replacing an earlier one; an
/// element envelope fills in only a level no rooms payload states, the first
/// statement standing. Each level is listed once.
pub fn elevations_of(rooms: &[(String, Vec<Level>)], envelopes: &[(String, Vec<Level>)]) -> (r: Vec<((String, String), i64)>)
    ensures
        keys_unique(r.deep_view()),
        table_map(r.deep_view()) == elevation_table(rooms.deep_view(), envelopes.deep_view()),
{
    let ghost rd = rooms.deep_view();
    let ghost ed = envelopes.deep_view();
    let mut table: Vec<((String, String), i64)> = Vec::new();
    let mut i: usize = 0;
    while i < rooms.len()
        invariant
            i <= rooms@.len(),
            rd == rooms.deep_view(),
            keys_unique(table.deep_view()),
            table_map(table.deep_view()) == rooms_elevations(rd.take(i as int)),
        decreases rooms@.len() - i,
    {
        let model = rooms[i].0.as_str();
        let levels = &rooms[i].1;
        let ghost lv = levels.deep_view();
        assert(rd[i as int] == (model@, lv));
        let ghost base = rooms_elevations(rd.take(i as int));
        let mut j: usize = 0;
        while j < levels.len()
            invariant
                j <= levels@.len(),
                lv == levels.deep_view(),
                keys_unique(table.deep_view()),
                table_map(table.deep_view()) == base.union_prefer_right(model_levels(model@, lv.take(j as int))),
            decreases levels@.len() - j,
        {
            let level = &levels[j];
            assert(lv[j as int] == level.deep_view());
            assert(lv.take(j + 1).drop_last() =~= lv.take(j as int));
            let ghost k = (model@, level.id@);
            let ghost before = table.deep_view();
            match find_level(&table, model, level.id.as_str()) {
                Some(at) => {
                    proof {
                        lemma_table_update(before, at as int, level.elevation_um);
                    }
                    table.set(at, ((table[at].0.0.clone(), table[at].0.1.clone()), level.elevation_um));
                    assert(table.deep_view() =~= before.update(at as int, (before[at as int].0, level.elevation_um)));
                },
                None => {
                    table.push(((model.to_string(), level.id.clone()), level.elevation_um));
                    assert(table.deep_view() =~= before.push((k, level.elevation_um)));
                    assert(table.deep_view().drop_last() =~= before);
                },
            }
            assert(table_map(table.deep_view()) =~= base.union_prefer_right(model_levels(model@, lv.take(j + 1))));
            j += 1;
        }
        assert(lv.take(j as int) =~= lv);
        assert(rd.take(i + 1).drop_last() =~= rd.take(i as int));
        i += 1;
    }
    assert(rd.take(i as int) =~= rd);
    let ghost roomed = rooms_elevations(rd);
    let mut e: usize = 0;
    while e < envelopes.len()
        invariant
            e <= envelopes@.len(),
            ed == envelopes.deep_view(),
            roomed == rooms_elevations(rd),
            keys_unique(table.deep_view()),
            table_map(table.deep_view()) == envelope_elevations(ed.take(e as int)).union_prefer_right(roomed),
        decreases envelopes@.len() - e,
    {
        let model = envelopes[e].0.as_str();
        let levels = &envelopes[e].1;
        let ghost lv = levels.deep_view();
        assert(ed[e as int] == (model@, lv));
        let ghost earlier = envelope_elevations(ed.take(e as int));
        let mut j: usize = 0;
        while j < levels.len()
            invariant
                j <= levels@.len(),
                lv == levels.deep_view(),
                keys_unique(table.deep_view()),
                table_map(table.deep_view()) == first_levels(model@, lv.take(j as int)).union_prefer_right(earlier).union_prefer_right(
                    roomed,
                ),
            decreases levels@.len() - j,
        {
            let level = &levels[j];
            assert(lv[j as int] == level.deep_view());
            assert(lv.take(j + 1).drop_last() =~= lv.take(j as int));
            let ghost k = (model@, level.id@);
            let ghost before = table.deep_view();
            proof {
                lemma_table_keys(before);
            }
            match find_level(&table, model, level.id.as_str()) {
                Some(at) => {
                    assert(before[at as int].0 == k);
                    assert(table_map(before).contains_key(k));
                },
                None => {
                    assert(!table_map(before).contains_key(k));
                    table.push(((model.to_string(), level.id.clone()), level.elevation_um));
                    assert(table.deep_view() =~= before.push((k, level.elevation_um)));
                    assert(table.deep_view().drop_last() =~= before);
                },
            }
            assert(table_map(table.deep_view()) =~= first_levels(model@, lv.take(j + 1)).union_prefer_right(earlier).union_prefer_right(
                roomed,
            ));
            j += 1;
        }
        assert(lv.take(j as int) =~= lv);
        assert(ed.take(e + 1).drop_last() =~= ed.take(e as int));
        assert(first_levels(model@, lv).union_prefer_right(earlier).union_prefer_right(roomed) =~= envelope_elevations(
            ed.take(e + 1),
        ).union_prefer_right(roomed));
        e += 1;
    }
    assert(ed.take(e as int) =~= ed);
    table
}

} // verus!
