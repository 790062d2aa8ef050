//! The group-by/reduce engine. While rows arrive, each one is hashed over
//! the key-defining reducers, looked up in the group registry, and folded
//! into its group's reducer states; a fresh group is materialized at the
//! end of the first-seen order on first occurrence. Once the input is
//! exhausted, the groups are finalized to one output row each, in
//! first-seen order, after all the errors met on the way.
#![allow(unused_imports)]
use vstd::prelude::*;

use crate::headers::Headers;
use crate::headers::get_field_v;
use crate::transform::{
    compute_hash, counts_bounded, fold_group_v, group_key_v, key_fields_from, key_fields_v,
    t_fold, t_key_col, t_value_v, Transform, TransformV,
};
use crate::{
    duplicate_item, item_view, items_view, Error, ErrorV, ItemV, PlError, PlErrorV, Row, RowResult,
};
use linked_hash_map::LinkedHashMap;

verus! {

#[verifier::external_type_specification]
#[verifier::external_body]
#[verifier::reject_recursive_types(K)]
#[verifier::reject_recursive_types(V)]
#[verifier::reject_recursive_types(S)]
pub struct ExLinkedHashMap<K, V, S>(LinkedHashMap<K, V, S>);

/// What the group registry holds: each group key maps to the position of
/// its group in the first-seen order.
pub uninterp spec fn registry_map(m: LinkedHashMap<u64, usize>) -> Map<u64, usize>;

/// Relies on linked-hash-map's `LinkedHashMap::new`: an empty map.
#[verifier::external_body]
pub(crate) fn registry_new() -> (r: LinkedHashMap<u64, usize>)
    ensures
        forall|k: u64| !registry_map(r).contains_key(k),
{
    LinkedHashMap::new()
}

/// Relies on linked-hash-map's `LinkedHashMap::get`: the value stored
/// under `k`, if any.
#[verifier::external_body]
pub(crate) fn registry_get(m: &LinkedHashMap<u64, usize>, k: u64) -> (r: Option<usize>)
    ensures
        r == (if registry_map(*m).contains_key(k) {
            Some(registry_map(*m)[k])
        } else {
            None::<usize>
        }),
{
    m.get(&k).copied()
}

/// Relies on linked-hash-map's `LinkedHashMap::insert` on a key not yet
/// present: stores `v` under `k` and keeps all other entries.
#[verifier::external_body]
pub(crate) fn registry_insert(m: &mut LinkedHashMap<u64, usize>, k: u64, v: usize)
    requires
        !registry_map(*old(m)).contains_key(k),
    ensures
        registry_map(*final(m)) == registry_map(*old(m)).insert(k, v),
{
    m.insert(k, v);
}

/// The view of an optional error.
pub open spec fn opt_err_view(e: Option<Error>) -> Option<ErrorV> {
    match e {
        Some(x) => Some(x@),
        None => None,
    }
}

/// The ghost state of the engine: the errors met so far, in order, and
/// the live groups in first-seen order, each its key and reducer states.
pub ghost struct EngineV {
    pub errs: Seq<PlErrorV>,
    pub groups: Seq<(u64, Seq<TransformV>)>,
}

/// The keys of the groups, in first-seen order.
pub open spec fn group_keys(groups: Seq<(u64, Seq<TransformV>)>) -> Seq<u64> {
    groups.map_values(|g: (u64, Seq<TransformV>)| g.0)
}

/// No two live groups share a key.
pub open spec fn unique_keys(groups: Seq<(u64, Seq<TransformV>)>) -> bool {
    forall|i: int, j: int| 0 <= i < j < groups.len() ==> groups[i].0 != groups[j].0
}

/// The first position at or after `i` of the group keyed `key`.
pub open spec fn find_group_from(
    groups: Seq<(u64, Seq<TransformV>)>,
    key: u64,
    i: int,
) -> Option<int>
    decreases groups.len() - i,
{
    if i < 0 || i >= groups.len() {
        None
    } else if groups[i].0 == key {
        Some(i)
    } else {
        find_group_from(groups, key, i + 1)
    }
}

/// The position of the group keyed `key`, if one is live.
pub open spec fn find_group(groups: Seq<(u64, Seq<TransformV>)>, key: u64) -> Option<int> {
    find_group_from(groups, key, 0)
}

/// What `find_group_from` finds is the first group at or after `i` with
/// the key.
pub proof fn lemma_find_group_from(groups: Seq<(u64, Seq<TransformV>)>, key: u64, i: int)
    requires
        0 <= i,
    ensures
        match find_group_from(groups, key, i) {
            Some(j) => i <= j < groups.len() && groups[j].0 == key && (forall|k: int|
                i <= k < j ==> groups[k].0 != key),
            None => forall|k: int| i <= k < groups.len() ==> groups[k].0 != key,
        },
    decreases groups.len() - i,
{
    if i < groups.len() && groups[i].0 != key {
        lemma_find_group_from(groups, key, i + 1);
    }
}

/// One item absorbed into the engine state: an error item is recorded; a
/// row is keyed, folded into its group (materialized first if the key is
/// new), and a keying or folding failure is recorded instead, tagged with
/// the engine's source index.
pub open spec fn engine_step(
    protos: Seq<TransformV>,
    names: Seq<Seq<char>>,
    st: EngineV,
    item: ItemV,
    source: int,
) -> EngineV {
    match item {
        Err(e) => EngineV { errs: st.errs.push(e), groups: st.groups },
        Ok(row) => match key_fields_v(protos, names, row) {
            Err(e) => EngineV {
                errs: st.errs.push(PlErrorV { error: e, source }),
                groups: st.groups,
            },
            Ok(fields) => {
                let key = group_key_v(fields);
                match find_group(st.groups, key) {
                    Some(gi) => {
                        let (ts2, eopt) = fold_group_v(st.groups[gi].1, names, row);
                        let groups2 = st.groups.update(gi, (key, ts2));
                        match eopt {
                            Some(e) => EngineV {
                                errs: st.errs.push(PlErrorV { error: e, source }),
                                groups: groups2,
                            },
                            None => EngineV { errs: st.errs, groups: groups2 },
                        }
                    },
                    None => {
                        let (ts2, eopt) = fold_group_v(protos, names, row);
                        let groups2 = st.groups.push((key, ts2));
                        match eopt {
                            Some(e) => EngineV {
                                errs: st.errs.push(PlErrorV { error: e, source }),
                                groups: groups2,
                            },
                            None => EngineV { errs: st.errs, groups: groups2 },
                        }
                    },
                }
            },
        },
    }
}

/// The engine state before any item.
pub open spec fn engine_init() -> EngineV {
    EngineV { errs: Seq::empty(), groups: Seq::empty() }
}

/// The engine state after absorbing all of `items`, in order.
pub open spec fn engine_run(
    protos: Seq<TransformV>,
    names: Seq<Seq<char>>,
    items: Seq<ItemV>,
    source: int,
) -> EngineV
    decreases items.len(),
{
    if items.len() == 0 {
        engine_init()
    } else {
        engine_step(
            protos,
            names,
            engine_run(protos, names, items.drop_last(), source),
            items.last(),
            source,
        )
    }
}

/// One group's output row: each reducer's finalized value, in order.
pub open spec fn group_row_v(ts: Seq<TransformV>) -> Seq<Seq<char>> {
    ts.map_values(|t: TransformV| t_value_v(t))
}

/// What the engine emits: the errors met on the way, in order, then one
/// row per group, in first-seen order.
pub open spec fn engine_output(st: EngineV) -> Seq<ItemV> {
    st.errs.map_values(|e: PlErrorV| Err::<Seq<Seq<char>>, PlErrorV>(e)) + st.groups.map_values(
        |g: (u64, Seq<TransformV>)| Ok::<Seq<Seq<char>>, PlErrorV>(group_row_v(g.1)),
    )
}

/// A bound on how many more rows the counters can take weakens as rows
/// are spent.
proof fn lemma_counts_mono(ts: Seq<TransformV>, a: nat, b: nat)
    requires
        counts_bounded(ts, a),
        b <= a,
    ensures
        counts_bounded(ts, b),
{
    assert forall|j: int|
        0 <= j < ts.len() implies ((#[trigger] ts[j]) matches TransformV::Count { value, .. }
        ==> value + b <= u128::MAX) by {
        assert(ts[j] matches TransformV::Count { value, .. } ==> value + a <= u128::MAX);
    }
}

/// Folding one row spends at most one unit of every counter's headroom.
proof fn lemma_fold_group_counts(
    ts: Seq<TransformV>,
    names: Seq<Seq<char>>,
    row: Seq<Seq<char>>,
    extra: nat,
)
    requires
        counts_bounded(ts, (extra + 1) as nat),
    ensures
        counts_bounded(fold_group_v(ts, names, row).0, extra),
    decreases ts.len(),
{
    if ts.len() == 0 {
    } else {
        match t_fold(ts[0], names, row) {
            Ok(t2) => {
                assert forall|j: int|
                    0 <= j < ts.drop_first().len() implies ((#[trigger] ts.drop_first()[j])
                    matches TransformV::Count { value, .. } ==> value + (extra + 1)
                    <= u128::MAX) by {
                    assert(ts.drop_first()[j] == ts[j + 1]);
                }
                lemma_fold_group_counts(ts.drop_first(), names, row, extra);
                let (rest, _e) = fold_group_v(ts.drop_first(), names, row);
                let out = fold_group_v(ts, names, row).0;
                assert(out == seq![t2] + rest);
                assert forall|j: int|
                    0 <= j < out.len() implies ((#[trigger] out[j]) matches TransformV::Count {
                        value,
                        ..
                    } ==> value + extra <= u128::MAX) by {
                    if j == 0 {
                        assert(out[0] == t2);
                    } else {
                        assert(out[j] == rest[j - 1]);
                    }
                }
            },
            Err(_) => {
                lemma_counts_mono(ts, (extra + 1) as nat, extra);
            },
        }
    }
}

/// Folding one row into one group's reducers, in order, stopping at the
/// first failure, exactly as `fold_group_v` says.
fn fold_group(ts: Vec<Transform>, headers: &Headers, row: &Row) -> (r: (Vec<Transform>, Option<
    Error,
>))
    requires
        counts_bounded(ts.deep_view(), 1),
    ensures
        r.0.deep_view() == fold_group_v(ts.deep_view(), headers@, row@).0,
        opt_err_view(r.1) == fold_group_v(ts.deep_view(), headers@, row@).1,
    decreases ts@.len(),
{
    let ghost orig = ts.deep_view();
    if ts.len() == 0 {
        return (ts, None);
    }
    let mut ts = ts;
    let mut head = ts.remove(0);
    proof {
        assert(head@ == orig[0]);
        assert(ts.deep_view() =~= orig.drop_first());
    }
    match head.add_row(headers, row) {
        Ok(()) => {
            proof {
                assert forall|j: int|
                    0 <= j < ts.deep_view().len() implies ((#[trigger] ts.deep_view()[j])
                    matches TransformV::Count { value, .. } ==> value + 1 <= u128::MAX) by {
                    assert(ts.deep_view()[j] == orig[j + 1]);
                }
            }
            let (mut rest, e) = fold_group(ts, headers, row);
            let ghost rest_v = rest.deep_view();
            rest.insert(0, head);
            proof {
                assert(rest.deep_view() =~= seq![head@] + rest_v);
            }
            (rest, e)
        },
        Err(e) => {
            ts.insert(0, head);
            proof {
                assert(ts.deep_view() =~= orig);
            }
            (ts, Some(e))
        },
    }
}

/// An independent copy of a group's reducer prototypes.
fn duplicate_transforms(ts: &Vec<Transform>) -> (r: Vec<Transform>)
    ensures
        r.deep_view() == ts.deep_view(),
{
    let mut r: Vec<Transform> = Vec::new();
    let mut i: usize = 0;
    while i < ts.len()
        invariant
            i <= ts@.len(),
            r@.len() == i,
            forall|k: int| 0 <= k < i ==> r.deep_view()[k] == #[trigger] ts.deep_view()[k],
        decreases ts@.len() - i,
    {
        r.push(ts[i].duplicate());
        i += 1;
    }
    proof {
        assert(r.deep_view() =~= ts.deep_view());
    }
    r
}

/// Every live group's counters can still take `m` more rows.
pub open spec fn engine_counts_ok(st: EngineV, m: nat) -> bool {
    forall|j: int| 0 <= j < st.groups.len() ==> counts_bounded((#[trigger] st.groups[j]).1, m)
}

/// One engine step spends at most one unit of every counter's headroom,
/// in every live group.
proof fn lemma_engine_step_counts(
    protos: Seq<TransformV>,
    names: Seq<Seq<char>>,
    st: EngineV,
    item: ItemV,
    source: int,
    m: nat,
)
    requires
        engine_counts_ok(st, (m + 1) as nat),
        counts_bounded(protos, (m + 1) as nat),
    ensures
        engine_counts_ok(engine_step(protos, names, st, item, source), m),
{
    let st2 = engine_step(protos, names, st, item, source);
    match item {
        Err(_) => {
            assert forall|j: int|
                0 <= j < st2.groups.len() implies counts_bounded(
                (#[trigger] st2.groups[j]).1,
                m,
            ) by {
                lemma_counts_mono(st.groups[j].1, (m + 1) as nat, m);
            }
        },
        Ok(row) => match key_fields_v(protos, names, row) {
            Err(_) => {
                assert forall|j: int|
                    0 <= j < st2.groups.len() implies counts_bounded(
                    (#[trigger] st2.groups[j]).1,
                    m,
                ) by {
                    lemma_counts_mono(st.groups[j].1, (m + 1) as nat, m);
                }
            },
            Ok(fields) => {
                let key = group_key_v(fields);
                lemma_find_group_from(st.groups, key, 0);
                assert forall|j: int|
                    0 <= j < st2.groups.len() implies counts_bounded(
                    (#[trigger] st2.groups[j]).1,
                    m,
                ) by {
                    match find_group(st.groups, key) {
                        Some(gi) => {
                            if j == gi {
                                lemma_fold_group_counts(st.groups[gi].1, names, row, m);
                            } else {
                                lemma_counts_mono(st.groups[j].1, (m + 1) as nat, m);
                            }
                        },
                        None => {
                            if j < st.groups.len() {
                                lemma_counts_mono(st.groups[j].1, (m + 1) as nat, m);
                            } else {
                                lemma_fold_group_counts(protos, names, row, m);
                            }
                        },
                    }
                }
            },
        },
    }
}

/// Runs the whole group-by/reduce pass: absorbs every item of `items`
/// (errors recorded, rows keyed over the key-defining reducers and folded
/// into their group, first-seen groups materialized from `transformers`),
/// then emits the errors in the order they were met, followed by one
/// finalized row per group in first-seen key order — exactly the output
/// of the ghost engine `engine_run`.
pub fn run_group_reduce(
    transformers: &Vec<Transform>,
    headers: &Headers,
    items: &Vec<RowResult>,
    source: usize,
) -> (out: Vec<RowResult>)
    requires
        counts_bounded(transformers.deep_view(), items@.len() as nat),
    ensures
        items_view(out@) == engine_output(
            engine_run(transformers.deep_view(), headers@, items_view(items@), source as int),
        ),
{
    let ghost protos = transformers.deep_view();
    let ghost names = headers@;
    let ghost itemsv = items_view(items@);
    let n = items.len();
    let mut errs: Vec<PlError> = Vec::new();
    let mut keys_seen: Vec<u64> = Vec::new();
    let mut groups: Vec<Vec<Transform>> = Vec::new();
    let mut registry: LinkedHashMap<u64, usize> = registry_new();
    let mut i: usize = 0;
    while i < n
        invariant
            n == items@.len(),
            i <= n,
            protos == transformers.deep_view(),
            names == headers@,
            itemsv == items_view(items@),
            itemsv.len() == n,
            counts_bounded(protos, n as nat),
            ({
                let st = engine_run(protos, names, itemsv.take(i as int), source as int);
                &&& errs.deep_view() == st.errs
                &&& keys_seen@.len() == st.groups.len()
                &&& groups@.len() == st.groups.len()
                &&& forall|j: int|
                    0 <= j < st.groups.len() ==> #[trigger] st.groups[j] == (
                    keys_seen@[j],
                    groups.deep_view()[j],
                )
                &&& unique_keys(st.groups)
                &&& engine_counts_ok(st, (n - i) as nat)
                &&& forall|j: int|
                    0 <= j < keys_seen@.len() ==> registry_map(registry).contains_key(
                        #[trigger] keys_seen@[j],
                    ) && registry_map(registry)[keys_seen@[j]] == j
                &&& forall|k: u64|
                    registry_map(registry).contains_key(k) ==> keys_seen@.contains(k)
            }),
        decreases n - i,
    {
        let ghost st = engine_run(protos, names, itemsv.take(i as int), source as int);
        let ghost st2 = engine_run(protos, names, itemsv.take(i + 1), source as int);
        proof {
            assert(itemsv.take(i + 1).drop_last() =~= itemsv.take(i as int));
            assert(itemsv.take(i + 1).last() == itemsv[i as int]);
            assert(st2 == engine_step(protos, names, st, itemsv[i as int], source as int));
            assert(item_view(items@[i as int]) == itemsv[i as int]);
            lemma_counts_mono(protos, n as nat, (n - i) as nat);
            lemma_engine_step_counts(
                protos,
                names,
                st,
                itemsv[i as int],
                source as int,
                (n - (i + 1)) as nat,
            );
        }
        let ghost old_keys = keys_seen@;
        let ghost old_groups_dv = groups.deep_view();
        match &items[i] {
            Err(e) => {
                let ghost errs0 = errs.deep_view();
                errs.push(e.duplicate());
                proof {
                    assert(errs.deep_view() =~= errs0.push(e@));
                    assert(st2.groups == st.groups);
                }
            },
            Ok(row) => {
                match compute_hash(transformers, headers, row) {
                    Err(e) => {
                        let ghost errs0 = errs.deep_view();
                        let ghost ev = e@;
                        errs.push(e.at_source(source));
                        proof {
                            assert(errs.deep_view() =~= errs0.push(
                                PlErrorV { error: ev, source: source as int },
                            ));
                            assert(st2.groups == st.groups);
                        }
                    },
                    Ok(key) => {
                        match registry_get(&registry, key) {
                            Some(idx) => {
                                proof {
                                    assert(keys_seen@.contains(key));
                                    let j = choose|j: int|
                                        0 <= j < keys_seen@.len() && keys_seen@[j] == key;
                                    assert(registry_map(registry)[keys_seen@[j]] == j);
                                    assert(idx == j);
                                    assert(st.groups[j].0 == key);
                                    lemma_find_group_from(st.groups, key, 0);
                                    match find_group(st.groups, key) {
                                        Some(fi) => {
                                            if fi != j {
                                                assert(st.groups[fi].0 == key);
                                                assert(false);
                                            }
                                        },
                                        None => {
                                            assert(st.groups[j].0 != key);
                                        },
                                    }
                                    assert(find_group(st.groups, key) == Some(idx as int));
                                    assert(idx < groups@.len());
                                }
                                let g = groups.remove(idx);
                                let ghost gv = g.deep_view();
                                proof {
                                    assert(gv == old_groups_dv[idx as int]);
                                    assert(gv == st.groups[idx as int].1);
                                    lemma_counts_mono(gv, (n - i) as nat, 1);
                                }
                                let (g2, eopt) = fold_group(g, headers, row);
                                let ghost ts2v = fold_group_v(gv, names, row@).0;
                                groups.insert(idx, g2);
                                proof {
                                    assert(st2.groups == st.groups.update(
                                        idx as int,
                                        (key, ts2v),
                                    ));
                                    assert(groups.deep_view() =~= old_groups_dv.update(
                                        idx as int,
                                        ts2v,
                                    ));
                                    assert forall|j: int|
                                        0 <= j < st2.groups.len() implies #[trigger] st2.groups[j]
                                        == (keys_seen@[j], groups.deep_view()[j]) by {
                                        if j == idx {
                                            assert(st2.groups[j] == (key, ts2v));
                                            assert(keys_seen@[j] == key);
                                        } else {
                                            assert(st2.groups[j] == st.groups[j]);
                                        }
                                    }
                                    assert forall|a: int, b: int|
                                        0 <= a < b < st2.groups.len() implies st2.groups[a].0
                                        != st2.groups[b].0 by {
                                        assert(st2.groups[a].0 == st.groups[a].0);
                                        assert(st2.groups[b].0 == st.groups[b].0);
                                    }
                                }
                                match eopt {
                                    Some(e) => {
                                        let ghost errs0 = errs.deep_view();
                                        let ghost ev = e@;
                                        errs.push(e.at_source(source));
                                        proof {
                                            assert(errs.deep_view() =~= errs0.push(
                                                PlErrorV { error: ev, source: source as int },
                                            ));
                                        }
                                    },
                                    None => {},
                                }
                            },
                            None => {
                                proof {
                                    assert forall|k: int|
                                        0 <= k < st.groups.len() implies (#[trigger] st.groups[k]).0
                                        != key by {
                                        if st.groups[k].0 == key {
                                            assert(keys_seen@[k] == key);
                                            assert(keys_seen@.contains(key));
                                            assert(registry_map(registry).contains_key(key));
                                        }
                                    }
                                    lemma_find_group_from(st.groups, key, 0);
                                    assert(find_group(st.groups, key) is None);
                                    lemma_counts_mono(protos, n as nat, 1);
                                }
                                let g = duplicate_transforms(transformers);
                                let ghost ts2v = fold_group_v(protos, names, row@).0;
                                let (g2, eopt) = fold_group(g, headers, row);
                                let idx = groups.len();
                                registry_insert(&mut registry, key, idx);
                                keys_seen.push(key);
                                groups.push(g2);
                                proof {
                                    assert(st2.groups == st.groups.push((key, ts2v)));
                                    assert(groups.deep_view() =~= old_groups_dv.push(ts2v));
                                    assert(keys_seen@ == old_keys.push(key));
                                    assert forall|j: int|
                                        0 <= j < st2.groups.len() implies #[trigger] st2.groups[j]
                                        == (keys_seen@[j], groups.deep_view()[j]) by {
                                        if j < st.groups.len() {
                                            assert(st2.groups[j] == st.groups[j]);
                                        } else {
                                            assert(st2.groups[j] == (key, ts2v));
                                        }
                                    }
                                    assert forall|a: int, b: int|
                                        0 <= a < b < st2.groups.len() implies st2.groups[a].0
                                        != st2.groups[b].0 by {
                                        if b < st.groups.len() {
                                        } else {
                                            assert(st2.groups[a].0 == st.groups[a].0);
                                            assert(st.groups[a].0 != key);
                                        }
                                    }
                                    assert forall|j: int|
                                        0 <= j < keys_seen@.len() implies registry_map(
                                        registry,
                                    ).contains_key(#[trigger] keys_seen@[j]) && registry_map(
                                        registry,
                                    )[keys_seen@[j]] == j by {
                                        if j < old_keys.len() {
                                            assert(keys_seen@[j] == old_keys[j]);
                                        } else {
                                            assert(keys_seen@[j] == key);
                                        }
                                    }
                                    assert forall|k: u64|
                                        registry_map(registry).contains_key(k) implies keys_seen@
                                        .contains(k) by {
                                        if k == key {
                                            assert(keys_seen@[old_keys.len() as int] == key);
                                        } else {
                                            assert(old_keys.contains(k));
                                            let w = choose|w: int|
                                                0 <= w < old_keys.len() && old_keys[w] == k;
                                            assert(keys_seen@[w] == k);
                                        }
                                    }
                                }
                                match eopt {
                                    Some(e) => {
                                        let ghost errs0 = errs.deep_view();
                                        let ghost ev = e@;
                                        errs.push(e.at_source(source));
                                        proof {
                                            assert(errs.deep_view() =~= errs0.push(
                                                PlErrorV { error: ev, source: source as int },
                                            ));
                                        }
                                    },
                                    None => {},
                                }
                            },
                        }
                    },
                }
            },
        }
        i += 1;
    }
    let ghost st = engine_run(protos, names, itemsv, source as int);
    proof {
        assert(itemsv.take(n as int) =~= itemsv);
    }
    let mut out: Vec<RowResult> = Vec::new();
    let ne = errs.len();
    let mut j: usize = 0;
    while j < ne
        invariant
            ne == errs@.len(),
            j <= ne,
            errs.deep_view() == st.errs,
            out@.len() == j,
            forall|k: int| 0 <= k < j ==> item_view(#[trigger] out@[k]) == Err::<
                Seq<Seq<char>>,
                PlErrorV,
            >(st.errs[k]),
        decreases ne - j,
    {
        out.push(Err(errs[j].duplicate()));
        j += 1;
    }
    let ng = groups.len();
    let mut j: usize = 0;
    while j < ng
        invariant
            ng == groups@.len(),
            ng == st.groups.len(),
            j <= ng,
            forall|k: int|
                0 <= k < st.groups.len() ==> (#[trigger] st.groups[k]).1 == groups.deep_view()[k],
            out@.len() == st.errs.len() + j,
            forall|k: int| 0 <= k < st.errs.len() ==> item_view(#[trigger] out@[k]) == Err::<
                Seq<Seq<char>>,
                PlErrorV,
            >(st.errs[k]),
            forall|k: int|
                0 <= k < j ==> item_view(#[trigger] out@[st.errs.len() + k]) == Ok::<
                    Seq<Seq<char>>,
                    PlErrorV,
                >(group_row_v(st.groups[k].1)),
        decreases ng - j,
    {
        let g = &groups[j];
        let m = g.len();
        let mut fields: Vec<String> = Vec::new();
        let mut k: usize = 0;
        while k < m
            invariant
                m == g@.len(),
                k <= m,
                fields@.len() == k,
                forall|l: int|
                    0 <= l < k ==> fields.deep_view()[l] == t_value_v(#[trigger] g.deep_view()[l]),
            decreases m - k,
        {
            fields.push(g[k].value());
            k += 1;
        }
        proof {
            assert(fields.deep_view() =~= group_row_v(g.deep_view()));
            assert(g.deep_view() == st.groups[j as int].1);
        }
        out.push(Ok(Row::from_fields(fields)));
        j += 1;
    }
    proof {
        let outv = items_view(out@);
        let eo = engine_output(st);
        assert(eo.len() == st.errs.len() + st.groups.len());
        assert forall|k: int| 0 <= k < out@.len() implies outv[k] == eo[k] by {
            assert(outv[k] == item_view(out@[k]));
            if k < st.errs.len() {
                assert(eo[k] == st.errs.map_values(
                    |e: PlErrorV| Err::<Seq<Seq<char>>, PlErrorV>(e),
                )[k]);
            } else {
                let k2 = k - st.errs.len();
                assert(item_view(out@[st.errs.len() + k2]) == Ok::<Seq<Seq<char>>, PlErrorV>(
                    group_row_v(st.groups[k2].1),
                ));
                assert(eo[k] == st.groups.map_values(
                    |g: (u64, Seq<TransformV>)| Ok::<Seq<Seq<char>>, PlErrorV>(group_row_v(g.1)),
                )[k2]);
            }
        }
        assert(items_view(out@) =~= engine_output(st));
    }
    out
}

/// The keys in first-seen order: each key of `ks`, kept the first time it
/// occurs.
pub open spec fn first_seen(ks: Seq<u64>) -> Seq<u64>
    decreases ks.len(),
{
    if ks.len() == 0 {
        Seq::empty()
    } else {
        let p = first_seen(ks.drop_last());
        if p.contains(ks.last()) {
            p
        } else {
            p.push(ks.last())
        }
    }
}

/// The group key of every row of `items` that reaches its group: error
/// items and rows whose keying fails contribute nothing.
pub open spec fn row_keys(
    protos: Seq<TransformV>,
    names: Seq<Seq<char>>,
    items: Seq<ItemV>,
) -> Seq<u64>
    decreases items.len(),
{
    if items.len() == 0 {
        Seq::empty()
    } else {
        let p = row_keys(protos, names, items.drop_last());
        match items.last() {
            Ok(row) => match key_fields_v(protos, names, row) {
                Ok(fields) => p.push(group_key_v(fields)),
                Err(_) => p,
            },
            Err(_) => p,
        }
    }
}

/// Law: the engine's output rows come in the order in which distinct
/// group keys were first observed in the input, however many rows later
/// reinforce each group.
pub proof fn lemma_first_seen_order(
    protos: Seq<TransformV>,
    names: Seq<Seq<char>>,
    items: Seq<ItemV>,
    source: int,
)
    ensures
        group_keys(engine_run(protos, names, items, source).groups) == first_seen(
            row_keys(protos, names, items),
        ),
    decreases items.len(),
{
    if items.len() == 0 {
        assert(group_keys(engine_init().groups) =~= first_seen(
            row_keys(protos, names, items),
        ));
    } else {
        lemma_first_seen_order(protos, names, items.drop_last(), source);
        let st = engine_run(protos, names, items.drop_last(), source);
        let st2 = engine_run(protos, names, items, source);
        let rk = row_keys(protos, names, items.drop_last());
        match items.last() {
            Err(_) => {
                assert(group_keys(st2.groups) == group_keys(st.groups));
            },
            Ok(row) => match key_fields_v(protos, names, row) {
                Err(_) => {
                    assert(group_keys(st2.groups) == group_keys(st.groups));
                },
                Ok(fields) => {
                    let k = group_key_v(fields);
                    lemma_find_group_from(st.groups, k, 0);
                    assert(rk.push(k).drop_last() =~= rk);
                    match find_group(st.groups, k) {
                        Some(gi) => {
                            assert(group_keys(st2.groups) =~= group_keys(st.groups));
                            assert(group_keys(st.groups)[gi] == k);
                            assert(group_keys(st.groups).contains(k));
                            assert(first_seen(rk).contains(k));
                            assert(first_seen(rk.push(k)) == first_seen(rk));
                        },
                        None => {
                            assert(group_keys(st2.groups) =~= group_keys(st.groups).push(k));
                            if first_seen(rk).contains(k) {
                                let w = choose|w: int|
                                    0 <= w < group_keys(st.groups).len() && group_keys(
                                        st.groups,
                                    )[w] == k;
                                assert(st.groups[w].0 == k);
                                assert(false);
                            }
                            assert(first_seen(rk.push(k)) == first_seen(rk).push(k));
                        },
                    }
                },
            },
        }
    }
}

/// Two reducers are of the same kind: same variant, reading the same
/// column.
pub open spec fn same_kind(a: TransformV, b: TransformV) -> bool {
    match (a, b) {
        (
            TransformV::KeepUnique { from_col: c1, .. },
            TransformV::KeepUnique { from_col: c2, .. },
        ) => c1 == c2,
        (TransformV::Sum { from_col: c1, .. }, TransformV::Sum { from_col: c2, .. }) => c1 == c2,
        (TransformV::Count { .. }, TransformV::Count { .. }) => true,
        _ => false,
    }
}

/// The reducers of a group are, position by position, of the same kind as
/// the prototypes.
pub open spec fn kinds_match(ts: Seq<TransformV>, ps: Seq<TransformV>) -> bool {
    ts.len() == ps.len() && (forall|j: int| 0 <= j < ts.len() ==> same_kind(#[trigger] ts[j], ps[j]))
}

/// Every reducer is a counter or a key-keeper.
pub open spec fn ck_only(ts: Seq<TransformV>) -> bool {
    forall|j: int| 0 <= j < ts.len() ==> ((#[trigger] ts[j]) is Count || ts[j] is KeepUnique)
}

/// Folding a row changes no reducer's kind.
proof fn lemma_fold_group_kinds(ts: Seq<TransformV>, names: Seq<Seq<char>>, row: Seq<Seq<char>>)
    ensures
        kinds_match(fold_group_v(ts, names, row).0, ts),
    decreases ts.len(),
{
    if ts.len() == 0 {
    } else {
        match t_fold(ts[0], names, row) {
            Ok(t2) => {
                lemma_fold_group_kinds(ts.drop_first(), names, row);
                let (rest, _e) = fold_group_v(ts.drop_first(), names, row);
                let out = fold_group_v(ts, names, row).0;
                assert(out == seq![t2] + rest);
                assert forall|j: int| 0 <= j < out.len() implies same_kind(
                    #[trigger] out[j],
                    ts[j],
                ) by {
                    if j == 0 {
                        assert(out[0] == t2);
                    } else {
                        assert(out[j] == rest[j - 1]);
                        assert(ts.drop_first()[j - 1] == ts[j]);
                    }
                }
            },
            Err(_) => {
                assert forall|j: int| 0 <= j < ts.len() implies same_kind(
                    #[trigger] ts[j],
                    ts[j],
                ) by {}
            },
        }
    }
}

/// Matching kinds composes.
proof fn lemma_kinds_trans(a: Seq<TransformV>, b: Seq<TransformV>, c: Seq<TransformV>)
    requires
        kinds_match(a, b),
        kinds_match(b, c),
    ensures
        kinds_match(a, c),
{
    assert forall|j: int| 0 <= j < a.len() implies same_kind(#[trigger] a[j], c[j]) by {
        assert(same_kind(a[j], b[j]));
        assert(same_kind(b[j], c[j]));
    }
}

/// Every live group's reducers stay of the prototypes' kinds.
proof fn lemma_engine_kinds(
    protos: Seq<TransformV>,
    names: Seq<Seq<char>>,
    items: Seq<ItemV>,
    source: int,
)
    ensures
        forall|g: int|
            0 <= g < engine_run(protos, names, items, source).groups.len() ==> kinds_match(
                (#[trigger] engine_run(protos, names, items, source).groups[g]).1,
                protos,
            ),
    decreases items.len(),
{
    if items.len() == 0 {
    } else {
        lemma_engine_kinds(protos, names, items.drop_last(), source);
        let st = engine_run(protos, names, items.drop_last(), source);
        let st2 = engine_run(protos, names, items, source);
        match items.last() {
            Err(_) => {},
            Ok(row) => match key_fields_v(protos, names, row) {
                Err(_) => {},
                Ok(fields) => {
                    let key = group_key_v(fields);
                    lemma_find_group_from(st.groups, key, 0);
                    assert forall|g: int| 0 <= g < st2.groups.len() implies kinds_match(
                        (#[trigger] st2.groups[g]).1,
                        protos,
                    ) by {
                        match find_group(st.groups, key) {
                            Some(gi) => {
                                if g == gi {
                                    lemma_fold_group_kinds(st.groups[gi].1, names, row);
                                    lemma_kinds_trans(
                                        fold_group_v(st.groups[gi].1, names, row).0,
                                        st.groups[gi].1,
                                        protos,
                                    );
                                }
                            },
                            None => {
                                if g == st.groups.len() {
                                    lemma_fold_group_kinds(protos, names, row);
                                    assert forall|j: int| 0 <= j < protos.len() implies same_kind(
                                        #[trigger] protos[j],
                                        protos[j],
                                    ) by {}
                                    lemma_kinds_trans(
                                        fold_group_v(protos, names, row).0,
                                        protos,
                                        protos,
                                    );
                                }
                            },
                        }
                    }
                },
            },
        }
    }
}

/// The key-defining reducers at or after `i` read the same present field
/// from both rows.
pub open spec fn keyed_fields_agree(
    ts: Seq<TransformV>,
    names: Seq<Seq<char>>,
    ra: Seq<Seq<char>>,
    rb: Seq<Seq<char>>,
    i: int,
) -> bool {
    forall|j: int|
        i <= j < ts.len() ==> (t_key_col(#[trigger] ts[j]) matches Some(c) ==> get_field_v(
            names,
            ra,
            c,
        ) == get_field_v(names, rb, c) && get_field_v(names, ra, c) is Some)
}

/// Two rows with the same successful key fields agree, column by column,
/// on what every key-defining reducer reads.
proof fn lemma_key_fields_agree(
    ts: Seq<TransformV>,
    names: Seq<Seq<char>>,
    ra: Seq<Seq<char>>,
    rb: Seq<Seq<char>>,
    i: int,
)
    requires
        0 <= i,
        key_fields_from(ts, names, ra, i) is Ok,
        key_fields_from(ts, names, rb, i) == key_fields_from(ts, names, ra, i),
    ensures
        keyed_fields_agree(ts, names, ra, rb, i),
    decreases ts.len() - i,
{
    if i >= ts.len() {
    } else {
        match t_key_col(ts[i]) {
            Some(c) => {
                let fa = get_field_v(names, ra, c)->Some_0;
                let fb = get_field_v(names, rb, c)->Some_0;
                let resta = key_fields_from(ts, names, ra, i + 1);
                let restb = key_fields_from(ts, names, rb, i + 1);
                assert(resta is Ok && restb is Ok);
                let pa = seq![fa] + resta->Ok_0;
                let pb = seq![fb] + restb->Ok_0;
                assert(pa == pb);
                assert(fa == pa[0] && fb == pb[0]);
                assert forall|l: int| 0 <= l < resta->Ok_0.len() implies resta->Ok_0[l]
                    == restb->Ok_0[l] by {
                    assert(resta->Ok_0[l] == pa[l + 1]);
                    assert(restb->Ok_0[l] == pb[l + 1]);
                }
                assert(resta->Ok_0 =~= restb->Ok_0);
                lemma_key_fields_agree(ts, names, ra, rb, i + 1);
            },
            None => {
                lemma_key_fields_agree(ts, names, ra, rb, i + 1);
            },
        }
    }
}

/// Folding either of the two rows never fails for these reducers: every
/// one is a counter, or a key-keeper whose field both rows hold equally.
pub open spec fn fold_safe_pair(
    ts: Seq<TransformV>,
    names: Seq<Seq<char>>,
    ra: Seq<Seq<char>>,
    rb: Seq<Seq<char>>,
) -> bool {
    forall|j: int|
        0 <= j < ts.len() ==> ((#[trigger] ts[j]) is Count || (ts[j]
            matches TransformV::KeepUnique { from_col, .. } && get_field_v(names, ra, from_col)
            == get_field_v(names, rb, from_col) && get_field_v(names, ra, from_col) is Some))
}

/// Folding the two rows into one group in either order ends in the same
/// reducer states, with no failure on the way.
proof fn lemma_fold_group_commute(
    ts: Seq<TransformV>,
    names: Seq<Seq<char>>,
    ra: Seq<Seq<char>>,
    rb: Seq<Seq<char>>,
)
    requires
        fold_safe_pair(ts, names, ra, rb),
    ensures
        fold_group_v(ts, names, ra).1 is None,
        fold_group_v(ts, names, rb).1 is None,
        fold_group_v(fold_group_v(ts, names, ra).0, names, rb).1 is None,
        fold_group_v(fold_group_v(ts, names, rb).0, names, ra).1 is None,
        fold_group_v(fold_group_v(ts, names, ra).0, names, rb).0 == fold_group_v(
            fold_group_v(ts, names, rb).0,
            names,
            ra,
        ).0,
    decreases ts.len(),
{
    if ts.len() == 0 {
        assert(fold_group_v(ts, names, ra).0 =~= ts);
        assert(fold_group_v(ts, names, rb).0 =~= ts);
    } else {
        let t = ts[0];
        let tail = ts.drop_first();
        assert(ts[0] is Count || ts[0] matches TransformV::KeepUnique { .. });
        let ta = t_fold(t, names, ra)->Ok_0;
        let tb = t_fold(t, names, rb)->Ok_0;
        let tab = t_fold(ta, names, rb)->Ok_0;
        let tba = t_fold(tb, names, ra)->Ok_0;
        assert(t_fold(t, names, ra) is Ok && t_fold(t, names, rb) is Ok);
        assert(t_fold(ta, names, rb) is Ok && t_fold(tb, names, ra) is Ok);
        assert(tab == tba);
        assert forall|j: int|
            0 <= j < tail.len() implies ((#[trigger] tail[j]) is Count || (tail[j]
            matches TransformV::KeepUnique { from_col, .. } && get_field_v(names, ra, from_col)
            == get_field_v(names, rb, from_col) && get_field_v(names, ra, from_col)
            is Some)) by {
            assert(tail[j] == ts[j + 1]);
        }
        lemma_fold_group_commute(tail, names, ra, rb);
        let taila = fold_group_v(tail, names, ra).0;
        let tailb = fold_group_v(tail, names, rb).0;
        let tailab = fold_group_v(taila, names, rb).0;
        let tailba = fold_group_v(tailb, names, ra).0;
        assert(fold_group_v(ts, names, ra).0 == seq![ta] + taila);
        assert(fold_group_v(ts, names, rb).0 == seq![tb] + tailb);
        let sa = seq![ta] + taila;
        let sb = seq![tb] + tailb;
        assert(sa[0] == ta && sb[0] == tb);
        assert(sa.drop_first() =~= taila);
        assert(sb.drop_first() =~= tailb);
        assert(fold_group_v(sa, names, rb).0 == seq![tab] + tailab);
        assert(fold_group_v(sa, names, rb).1 == fold_group_v(taila, names, rb).1);
        assert(fold_group_v(sb, names, ra).0 == seq![tba] + tailba);
        assert(fold_group_v(sb, names, ra).1 == fold_group_v(tailb, names, ra).1);
        assert(seq![tab] + tailab == seq![tba] + tailba);
    }
}

/// Two sequences of groups with equal keys are searched alike.
proof fn lemma_find_group_same_keys(
    g1: Seq<(u64, Seq<TransformV>)>,
    g2: Seq<(u64, Seq<TransformV>)>,
    key: u64,
    i: int,
)
    requires
        g1.len() == g2.len(),
        forall|j: int| 0 <= j < g1.len() ==> (#[trigger] g1[j]).0 == g2[j].0,
    ensures
        find_group_from(g1, key, i) == find_group_from(g2, key, i),
    decreases g1.len() - i,
{
    if 0 <= i < g1.len() {
        lemma_find_group_same_keys(g1, g2, key, i + 1);
    }
}

/// Absorbing the two rows in either order leaves the engine in the same
/// state: they join the same group, their folds commute, and neither
/// fold can fail.
proof fn lemma_step_commute(
    protos: Seq<TransformV>,
    names: Seq<Seq<char>>,
    st: EngineV,
    ra: Seq<Seq<char>>,
    rb: Seq<Seq<char>>,
    source: int,
)
    requires
        ck_only(protos),
        key_fields_v(protos, names, ra) is Ok,
        key_fields_v(protos, names, rb) == key_fields_v(protos, names, ra),
        forall|g: int|
            0 <= g < st.groups.len() ==> kinds_match((#[trigger] st.groups[g]).1, protos),
    ensures
        engine_step(protos, names, engine_step(protos, names, st, Ok(ra), source), Ok(rb), source)
            == engine_step(
            protos,
            names,
            engine_step(protos, names, st, Ok(rb), source),
            Ok(ra),
            source,
        ),
{
    let key = group_key_v(key_fields_v(protos, names, ra)->Ok_0);
    lemma_key_fields_agree(protos, names, ra, rb, 0);
    assert forall|j: int|
        0 <= j < protos.len() implies ((#[trigger] protos[j]) is Count || (protos[j]
        matches TransformV::KeepUnique { from_col, .. } && get_field_v(names, ra, from_col)
        == get_field_v(names, rb, from_col) && get_field_v(names, ra, from_col) is Some)) by {
        match protos[j] {
            TransformV::KeepUnique { from_col, .. } => {
                assert(t_key_col(protos[j]) == Some(from_col));
            },
            _ => {},
        }
    }
    lemma_find_group_from(st.groups, key, 0);
    match find_group(st.groups, key) {
        Some(gi) => {
            let g = st.groups[gi].1;
            assert(kinds_match(g, protos));
            assert forall|j: int|
                0 <= j < g.len() implies ((#[trigger] g[j]) is Count || (g[j]
                matches TransformV::KeepUnique { from_col, .. } && get_field_v(names, ra, from_col)
                == get_field_v(names, rb, from_col) && get_field_v(names, ra, from_col)
                is Some)) by {
                assert(same_kind(g[j], protos[j]));
            }
            lemma_fold_group_commute(g, names, ra, rb);
            let ga = fold_group_v(g, names, ra).0;
            let gb = fold_group_v(g, names, rb).0;
            let st_a = engine_step(protos, names, st, Ok(ra), source);
            assert(st_a.errs == st.errs);
            assert(st_a.groups == st.groups.update(gi, (key, ga)));
            assert forall|j: int| 0 <= j < st_a.groups.len() implies (#[trigger] st_a.groups[j]).0
                == st.groups[j].0 by {}
            lemma_find_group_same_keys(st_a.groups, st.groups, key, 0);
            assert(find_group(st_a.groups, key) == Some(gi));
            assert(st_a.groups[gi].1 == ga);
            let st_ab = engine_step(protos, names, st_a, Ok(rb), source);
            assert(st_ab.errs == st.errs);
            assert(st_ab.groups == st_a.groups.update(gi, (key, fold_group_v(ga, names, rb).0)));
            let st_b = engine_step(protos, names, st, Ok(rb), source);
            assert(st_b.errs == st.errs);
            assert(st_b.groups == st.groups.update(gi, (key, gb)));
            assert forall|j: int| 0 <= j < st_b.groups.len() implies (#[trigger] st_b.groups[j]).0
                == st.groups[j].0 by {}
            lemma_find_group_same_keys(st_b.groups, st.groups, key, 0);
            assert(find_group(st_b.groups, key) == Some(gi));
            let st_ba = engine_step(protos, names, st_b, Ok(ra), source);
            assert(st_ba.errs == st.errs);
            assert(st_ba.groups == st_b.groups.update(gi, (key, fold_group_v(gb, names, ra).0)));
            assert(st_ab.groups =~= st_ba.groups);
        },
        None => {
            lemma_fold_group_commute(protos, names, ra, rb);
            let ga = fold_group_v(protos, names, ra).0;
            let gb = fold_group_v(protos, names, rb).0;
            let m = st.groups.len();
            let st_a = engine_step(protos, names, st, Ok(ra), source);
            assert(st_a.errs == st.errs);
            assert(st_a.groups == st.groups.push((key, ga)));
            lemma_find_group_from(st_a.groups, key, 0);
            assert(st_a.groups[m as int].0 == key);
            match find_group(st_a.groups, key) {
                Some(fi) => {
                    if fi < m {
                        assert(st.groups[fi].0 == key);
                    }
                    assert(fi == m);
                },
                None => {
                    assert(st_a.groups[m as int].0 != key);
                },
            }
            assert(find_group(st_a.groups, key) == Some(m as int));
            let st_ab = engine_step(protos, names, st_a, Ok(rb), source);
            assert(st_ab.errs == st.errs);
            assert(st_ab.groups == st_a.groups.update(
                m as int,
                (key, fold_group_v(ga, names, rb).0),
            ));
            let st_b = engine_step(protos, names, st, Ok(rb), source);
            assert(st_b.errs == st.errs);
            assert(st_b.groups == st.groups.push((key, gb)));
            lemma_find_group_from(st_b.groups, key, 0);
            assert(st_b.groups[m as int].0 == key);
            match find_group(st_b.groups, key) {
                Some(fi) => {
                    if fi < m {
                        assert(st.groups[fi].0 == key);
                    }
                    assert(fi == m);
                },
                None => {
                    assert(st_b.groups[m as int].0 != key);
                },
            }
            assert(find_group(st_b.groups, key) == Some(m as int));
            let st_ba = engine_step(protos, names, st_b, Ok(ra), source);
            assert(st_ba.errs == st.errs);
            assert(st_ba.groups == st_b.groups.update(
                m as int,
                (key, fold_group_v(gb, names, ra).0),
            ));
            assert(st_ab.groups =~= st_ba.groups);
        },
    }
}

/// Law: the group-by/reduce pass is order-insensitive within a group when
/// every reducer is a counter or a key-keeper: swapping two adjacent rows
/// that belong to one group (their key fields are equal) leaves the whole
/// engine state — every finalized value and every error — unchanged. (A
/// sum's final text may depend on the order its addends were folded in,
/// so sums are left out here and exercised by tests instead.)
pub proof fn lemma_group_reduce_order_insensitive(
    protos: Seq<TransformV>,
    names: Seq<Seq<char>>,
    items: Seq<ItemV>,
    source: int,
    i: int,
)
    requires
        ck_only(protos),
        0 <= i,
        i + 1 < items.len(),
        items[i] is Ok,
        items[i + 1] is Ok,
        items[i] matches Ok(ra) ==> key_fields_v(protos, names, ra) is Ok,
        items[i] matches Ok(ra) ==> (items[i + 1] matches Ok(rb) ==> key_fields_v(
            protos,
            names,
            rb,
        ) == key_fields_v(protos, names, ra)),
    ensures
        engine_run(protos, names, items.update(i, items[i + 1]).update(i + 1, items[i]), source)
            == engine_run(protos, names, items, source),
    decreases items.len(),
{
    let swapped = items.update(i, items[i + 1]).update(i + 1, items[i]);
    if i + 1 == items.len() - 1 {
        let prefix = items.drop_last().drop_last();
        assert(swapped.drop_last().drop_last() =~= prefix);
        assert(swapped.drop_last() =~= prefix.push(items[i + 1]));
        assert(items.drop_last() =~= prefix.push(items[i]));
        assert(swapped.last() == items[i]);
        assert(items.last() == items[i + 1]);
        let st0 = engine_run(protos, names, prefix, source);
        lemma_engine_kinds(protos, names, prefix, source);
        let ra = items[i]->Ok_0;
        let rb = items[i + 1]->Ok_0;
        assert(engine_run(protos, names, prefix.push(items[i]), source) == engine_step(
            protos,
            names,
            st0,
            items[i],
            source,
        )) by {
            assert(prefix.push(items[i]).drop_last() =~= prefix);
            assert(prefix.push(items[i]).last() == items[i]);
        }
        assert(engine_run(protos, names, prefix.push(items[i + 1]), source) == engine_step(
            protos,
            names,
            st0,
            items[i + 1],
            source,
        )) by {
            assert(prefix.push(items[i + 1]).drop_last() =~= prefix);
            assert(prefix.push(items[i + 1]).last() == items[i + 1]);
        }
        lemma_step_commute(protos, names, st0, ra, rb, source);
    } else {
        assert(swapped.last() == items.last());
        assert(swapped.drop_last() =~= items.drop_last().update(i, items[i + 1]).update(
            i + 1,
            items[i],
        ));
        assert(items.drop_last()[i] == items[i]);
        assert(items.drop_last()[i + 1] == items[i + 1]);
        lemma_group_reduce_order_insensitive(protos, names, items.drop_last(), source, i);
    }
}

} // verus!
