//! The custom group-reduce stage: a reducer set in which, besides the
//! closed variants, a column may be reduced by a caller-supplied fold
//! over its fields. The fold is one function per stage, shared by every
//! custom column of that stage, applied to the accumulator text and the
//! row's field; like the other closure-driven stages, what it computes is
//! stated relationally through its own contract, so the engine here is
//! specified as a relation between the input stream and the final state
//! rather than as a function of the input alone.
#![allow(unused_imports)]
use vstd::prelude::*;

use crate::group::{opt_err_view, registry_get, registry_insert, registry_map, registry_new};
use crate::headers::{get_field_v, Headers};
use crate::transform::{
    group_key_v, hash_key_fields, t_fold, t_key_col, t_name, t_value_v, Transform, Transformer,
    TransformV,
};
use crate::{
    item_view, items_view, Error, ErrorV, ItemV, PlError, PlErrorV, Row, RowResult,
};
use linked_hash_map::LinkedHashMap;

verus! {

/// The ghost shape of a reducer in a custom set: one of the closed
/// variants, or a custom-folded column with its accumulator text.
pub ghost enum CustomV {
    Fixed(TransformV),
    Reduce { name: Seq<char>, from_col: Seq<char>, value: Seq<char> },
}

/// The output column name a reducer was declared with.
pub open spec fn c_name(t: CustomV) -> Seq<char> {
    match t {
        CustomV::Fixed(tv) => t_name(tv),
        CustomV::Reduce { name, .. } => name,
    }
}

/// The output column names that a custom reducer set declares, in order.
pub open spec fn custom_names(ts: Seq<CustomV>) -> Seq<Seq<char>> {
    ts.map_values(|t: CustomV| c_name(t))
}

/// The column whose field the reducer contributes to the grouping key,
/// if it contributes one; a custom-folded column never does.
pub open spec fn c_key_col(t: CustomV) -> Option<Seq<char>> {
    match t {
        CustomV::Fixed(tv) => t_key_col(tv),
        CustomV::Reduce { .. } => None,
    }
}

/// The finalized value of a reducer, as emitted into the output row.
pub open spec fn c_value(t: CustomV) -> Seq<char> {
    match t {
        CustomV::Fixed(tv) => t_value_v(tv),
        CustomV::Reduce { value, .. } => value,
    }
}

/// Every counter in `ts` can still take `extra` more rows without
/// overflowing its machine integer.
pub open spec fn c_counts_bounded(ts: Seq<CustomV>, extra: nat) -> bool {
    forall|j: int|
        0 <= j < ts.len() ==> ((#[trigger] ts[j]) matches CustomV::Fixed(t) ==> (t
            matches TransformV::Count { value, .. } ==> value + extra <= u128::MAX))
}

/// The fields, in reducer order, that the key-defining reducers at or
/// after position `i` contribute to the grouping key; or the first
/// reducer's error.
pub open spec fn c_key_fields_from(
    ts: Seq<CustomV>,
    names: Seq<Seq<char>>,
    row: Seq<Seq<char>>,
    i: int,
) -> Result<Seq<Seq<char>>, ErrorV>
    decreases ts.len() - i,
{
    if i < 0 || i >= ts.len() {
        Ok(Seq::empty())
    } else {
        match c_key_col(ts[i]) {
            Some(col) => match get_field_v(names, row, col) {
                Some(f) => match c_key_fields_from(ts, names, row, i + 1) {
                    Ok(rest) => Ok(seq![f] + rest),
                    Err(e) => Err(e),
                },
                None => Err(ErrorV::MissingColumn(col)),
            },
            None => c_key_fields_from(ts, names, row, i + 1),
        }
    }
}

/// A fold outcome is possible for `f` on accumulator and field texts
/// with these views.
pub open spec fn reduce_out<F: Fn(&str, &str) -> Result<String, Error>>(
    f: F,
    acc: Seq<char>,
    field: Seq<char>,
    out: Result<Seq<char>, ErrorV>,
) -> bool {
    exists|a: &str, s: &str, o: Result<String, Error>|
        a@ == acc && s@ == field && #[trigger] call_ensures(f, (a, s), o) && (match (o, out) {
            (Ok(v), Ok(vv)) => v@ == vv,
            (Err(x), Err(e)) => x@ == e,
            _ => false,
        })
}

/// One row folded into one reducer: for a closed variant exactly as
/// `t_fold` says; for a custom column, its field is folded into the
/// accumulator by a possible outcome of `f`, a missing column or the
/// fold's error leaving the state unchanged.
pub open spec fn c_fold_rel<F: Fn(&str, &str) -> Result<String, Error>>(
    f: F,
    t: CustomV,
    names: Seq<Seq<char>>,
    row: Seq<Seq<char>>,
    out: Result<CustomV, ErrorV>,
) -> bool {
    match t {
        CustomV::Fixed(tv) => (match t_fold(tv, names, row) {
            Ok(tv2) => out == Ok::<CustomV, ErrorV>(CustomV::Fixed(tv2)),
            Err(e) => out == Err::<CustomV, ErrorV>(e),
        }),
        CustomV::Reduce { name, from_col, value } => match get_field_v(names, row, from_col) {
            None => out == Err::<CustomV, ErrorV>(ErrorV::MissingColumn(from_col)),
            Some(field) => match out {
                Ok(t2) => (t2 matches CustomV::Reduce { name: n2, from_col: c2, value: v2 } && n2
                    == name && c2 == from_col && reduce_out(f, value, field, Ok(v2))),
                Err(e) => reduce_out(f, value, field, Err(e)),
            },
        },
    }
}

/// One group's reducers folded over one row, in order, stopping at the
/// first failure: reducers before the failure updated, the failing one
/// and all later ones unchanged.
pub open spec fn c_fold_group_rel<F: Fn(&str, &str) -> Result<String, Error>>(
    f: F,
    ts: Seq<CustomV>,
    names: Seq<Seq<char>>,
    row: Seq<Seq<char>>,
    out: Seq<CustomV>,
    err: Option<ErrorV>,
) -> bool
    decreases ts.len(),
{
    if ts.len() == 0 {
        out == ts && err is None
    } else {
        (exists|t2: CustomV|
            #[trigger] c_fold_rel(f, ts[0], names, row, Ok(t2)) && out.len() == ts.len() && out[0]
                == t2 && c_fold_group_rel(f, ts.drop_first(), names, row, out.drop_first(), err))
            || ((err matches Some(e) && c_fold_rel(f, ts[0], names, row, Err(e))) && out == ts)
    }
}

/// A custom reducer set under a fold: one of the closed reducers, lifted,
/// or a custom-folded column; build the latter with
/// [`Transformer::reduce`] and lift the former with
/// [`Transform::into_custom`].
pub struct CustomTransform {
    inner: Ct,
}

enum Ct {
    Fixed(Transform),
    Reduce { name: String, from_col: String, value: String },
}

impl View for CustomTransform {
    type V = CustomV;

    closed spec fn view(&self) -> CustomV {
        match self.inner {
            Ct::Fixed(t) => CustomV::Fixed(t@),
            Ct::Reduce { name, from_col, value } => CustomV::Reduce {
                name: name@,
                from_col: from_col@,
                value: value@,
            },
        }
    }
}

impl DeepView for CustomTransform {
    type V = CustomV;

    open spec fn deep_view(&self) -> CustomV {
        self.view()
    }
}

impl Transformer {
    /// Reduces the values of the input column with the fold handed to the
    /// custom group-reduce stage, starting from the accumulator `init`.
    pub fn reduce(self, init: &str) -> (r: CustomTransform)
        ensures
            r@ == (CustomV::Reduce {
                name: self.name@,
                from_col: self.from_col@,
                value: init@,
            }),
    {
        CustomTransform {
            inner: Ct::Reduce { name: self.name, from_col: self.from_col, value: init.to_owned() },
        }
    }
}

impl Transform {
    /// Lifts a closed reducer into a custom reducer set.
    pub fn into_custom(self) -> (r: CustomTransform)
        ensures
            r@ == CustomV::Fixed(self@),
    {
        CustomTransform { inner: Ct::Fixed(self) }
    }
}

impl CustomTransform {
    /// The resulting output column name.
    pub fn name(&self) -> (r: String)
        ensures
            r@ == c_name(self@),
    {
        match &self.inner {
            Ct::Fixed(t) => t.name(),
            Ct::Reduce { name, .. } => name.clone(),
        }
    }

    /// The column whose field this reducer contributes to the grouping
    /// key, if it contributes one.
    pub fn key_col(&self) -> (r: Option<&String>)
        ensures
            match r {
                Some(s) => c_key_col(self@) == Some(s@),
                None => c_key_col(self@) is None,
            },
    {
        match &self.inner {
            Ct::Fixed(t) => t.key_col(),
            Ct::Reduce { .. } => None,
        }
    }

    /// The current accumulator, finalized to a string.
    pub fn value(&self) -> (r: String)
        ensures
            r@ == c_value(self@),
    {
        match &self.inner {
            Ct::Fixed(t) => t.value(),
            Ct::Reduce { value, .. } => value.clone(),
        }
    }

    /// An independent copy of this reducer, state included.
    pub fn duplicate(&self) -> (r: CustomTransform)
        ensures
            r@ == self@,
    {
        match &self.inner {
            Ct::Fixed(t) => CustomTransform { inner: Ct::Fixed(t.duplicate()) },
            Ct::Reduce { name, from_col, value } => CustomTransform {
                inner: Ct::Reduce {
                    name: name.clone(),
                    from_col: from_col.clone(),
                    value: value.clone(),
                },
            },
        }
    }

    /// Folds one row into the accumulator, exactly as `c_fold_rel` says:
    /// a failure leaves the state unchanged.
    pub fn add_row<F: Fn(&str, &str) -> Result<String, Error>>(
        &mut self,
        headers: &Headers,
        row: &Row,
        fold: &F,
    ) -> (r: Result<(), Error>)
        requires
            old(self)@ matches CustomV::Fixed(t) ==> (t matches TransformV::Count { value, .. }
                ==> value + 1 <= u128::MAX),
            forall|args: (&str, &str)| #[trigger] call_requires(*fold, args),
        ensures
            match r {
                Ok(()) => c_fold_rel(*fold, old(self)@, headers@, row@, Ok(final(self)@)),
                Err(e) => c_fold_rel(*fold, old(self)@, headers@, row@, Err(e@)) && final(self)@
                    == old(self)@,
            },
    {
        match &mut self.inner {
            Ct::Fixed(t) => t.add_row(headers, row),
            Ct::Reduce { name, from_col, value } => {
                let field = match headers.get_field(row, from_col.as_str()) {
                    Some(field) => field,
                    None => {
                        return Err(Error::MissingColumn(from_col.clone()));
                    },
                };
                let acc = value.as_str();
                let res = fold(acc, field);
                let ghost resg = res;
                proof {
                    assert(call_ensures(*fold, (acc, field), resg));
                }
                match res {
                    Ok(v2) => {
                        proof {
                            assert(reduce_out(*fold, value@, field@, Ok(v2@)));
                        }
                        *value = v2;
                        Ok(())
                    },
                    Err(e) => {
                        proof {
                            assert(reduce_out(*fold, value@, field@, Err(e@)));
                        }
                        Err(e)
                    },
                }
            },
        }
    }
}

/// Folding one row into one group's reducers, in order, stopping at the
/// first failure, exactly as `c_fold_group_rel` says.
fn c_fold_group<F: Fn(&str, &str) -> Result<String, Error>>(
    ts: Vec<CustomTransform>,
    headers: &Headers,
    row: &Row,
    fold: &F,
) -> (r: (Vec<CustomTransform>, Option<Error>))
    requires
        c_counts_bounded(ts.deep_view(), 1),
        forall|args: (&str, &str)| #[trigger] call_requires(*fold, args),
    ensures
        c_fold_group_rel(
            *fold,
            ts.deep_view(),
            headers@,
            row@,
            r.0.deep_view(),
            opt_err_view(r.1),
        ),
    decreases ts@.len(),
{
    let ghost orig = ts.deep_view();
    if ts.len() == 0 {
        return (ts, None);
    }
    let mut ts = ts;
    let mut head = ts.remove(0);
    proof {
        assert(head@ == orig[0]);
        assert(ts.deep_view() =~= orig.drop_first());
    }
    match head.add_row(headers, row, fold) {
        Ok(()) => {
            proof {
                assert forall|j: int|
                    0 <= j < ts.deep_view().len() implies ((#[trigger] ts.deep_view()[j])
                    matches CustomV::Fixed(t) ==> (t matches TransformV::Count { value, .. }
                    ==> value + 1 <= u128::MAX)) by {
                    assert(ts.deep_view()[j] == orig[j + 1]);
                }
            }
            let (mut rest, e) = c_fold_group(ts, headers, row, fold);
            let ghost rest_v = rest.deep_view();
            rest.insert(0, head);
            proof {
                assert(rest.deep_view() =~= seq![head@] + rest_v);
                assert(rest.deep_view()[0] == head@);
                assert(rest.deep_view().drop_first() =~= rest_v);
            }
            (rest, e)
        },
        Err(e) => {
            ts.insert(0, head);
            proof {
                assert(ts.deep_view() =~= orig);
            }
            (ts, Some(e))
        },
    }
}

/// The ghost state of the custom engine: the errors met so far, in
/// order, and the live groups in first-seen order.
pub ghost struct CEngineV {
    pub errs: Seq<PlErrorV>,
    pub groups: Seq<(u64, Seq<CustomV>)>,
}

/// The first position at or after `i` of the group keyed `key`.
pub open spec fn c_find_group_from(
    groups: Seq<(u64, Seq<CustomV>)>,
    key: u64,
    i: int,
) -> Option<int>
    decreases groups.len() - i,
{
    if i < 0 || i >= groups.len() {
        None
    } else if groups[i].0 == key {
        Some(i)
    } else {
        c_find_group_from(groups, key, i + 1)
    }
}

/// The position of the group keyed `key`, if one is live.
pub open spec fn c_find_group(groups: Seq<(u64, Seq<CustomV>)>, key: u64) -> Option<int> {
    c_find_group_from(groups, key, 0)
}

/// What `c_find_group_from` finds is the first group at or after `i`
/// with the key.
pub proof fn lemma_c_find_group_from(groups: Seq<(u64, Seq<CustomV>)>, key: u64, i: int)
    requires
        0 <= i,
    ensures
        match c_find_group_from(groups, key, i) {
            Some(j) => i <= j < groups.len() && groups[j].0 == key && (forall|k: int|
                i <= k < j ==> groups[k].0 != key),
            None => forall|k: int| i <= k < groups.len() ==> groups[k].0 != key,
        },
    decreases groups.len() - i,
{
    if i < groups.len() && groups[i].0 != key {
        lemma_c_find_group_from(groups, key, i + 1);
    }
}

/// The engine state before any item.
pub open spec fn c_engine_init() -> CEngineV {
    CEngineV { errs: Seq::empty(), groups: Seq::empty() }
}

/// One item absorbed into the engine state, as a relation: an error item
/// is recorded; a row is keyed, folded into its group (materialized
/// first if the key is new) by some possible outcomes of the fold, and a
/// keying or folding failure is recorded instead, tagged with the
/// engine's source index.
pub open spec fn c_engine_step_rel<F: Fn(&str, &str) -> Result<String, Error>>(
    f: F,
    protos: Seq<CustomV>,
    names: Seq<Seq<char>>,
    st: CEngineV,
    item: ItemV,
    source: int,
    st2: CEngineV,
) -> bool {
    match item {
        Err(e) => st2 == (CEngineV { errs: st.errs.push(e), groups: st.groups }),
        Ok(row) => match c_key_fields_from(protos, names, row, 0) {
            Err(e) => st2 == (CEngineV {
                errs: st.errs.push(PlErrorV { error: e, source }),
                groups: st.groups,
            }),
            Ok(fields) => {
                let key = group_key_v(fields);
                match c_find_group(st.groups, key) {
                    Some(gi) => exists|ts2: Seq<CustomV>, eopt: Option<ErrorV>|
                        #[trigger] c_fold_group_rel(f, st.groups[gi].1, names, row, ts2, eopt)
                            && st2 == (match eopt {
                            Some(e) => CEngineV {
                                errs: st.errs.push(PlErrorV { error: e, source }),
                                groups: st.groups.update(gi, (key, ts2)),
                            },
                            None => CEngineV {
                                errs: st.errs,
                                groups: st.groups.update(gi, (key, ts2)),
                            },
                        }),
                    None => exists|ts2: Seq<CustomV>, eopt: Option<ErrorV>|
                        #[trigger] c_fold_group_rel(f, protos, names, row, ts2, eopt) && st2 == (
                        match eopt {
                            Some(e) => CEngineV {
                                errs: st.errs.push(PlErrorV { error: e, source }),
                                groups: st.groups.push((key, ts2)),
                            },
                            None => CEngineV {
                                errs: st.errs,
                                groups: st.groups.push((key, ts2)),
                            },
                        }),
                }
            },
        },
    }
}

/// A run of the engine over `items`: a sequence of states, the first
/// before any item, each later one one absorbed item after the one
/// before it.
pub open spec fn c_engine_trace_ok<F: Fn(&str, &str) -> Result<String, Error>>(
    f: F,
    protos: Seq<CustomV>,
    names: Seq<Seq<char>>,
    items: Seq<ItemV>,
    source: int,
    trace: Seq<CEngineV>,
) -> bool {
    &&& trace.len() == items.len() + 1
    &&& trace[0] == c_engine_init()
    &&& forall|k: int|
        0 <= k < items.len() ==> c_engine_step_rel(
            f,
            protos,
            names,
            trace[k],
            #[trigger] items[k],
            source,
            trace[k + 1],
        )
}

/// One group's output row: each reducer's finalized value, in order.
pub open spec fn c_group_row(ts: Seq<CustomV>) -> Seq<Seq<char>> {
    ts.map_values(|t: CustomV| c_value(t))
}

/// What the engine emits: the errors met on the way, in order, then one
/// row per group, in first-seen order.
pub open spec fn c_engine_output(st: CEngineV) -> Seq<ItemV> {
    st.errs.map_values(|e: PlErrorV| Err::<Seq<Seq<char>>, PlErrorV>(e)) + st.groups.map_values(
        |g: (u64, Seq<CustomV>)| Ok::<Seq<Seq<char>>, PlErrorV>(c_group_row(g.1)),
    )
}

/// A bound on how many more rows the counters can take weakens as rows
/// are spent.
proof fn lemma_c_counts_mono(ts: Seq<CustomV>, a: nat, b: nat)
    requires
        c_counts_bounded(ts, a),
        b <= a,
    ensures
        c_counts_bounded(ts, b),
{
    assert forall|j: int|
        0 <= j < ts.len() implies ((#[trigger] ts[j]) matches CustomV::Fixed(t) ==> (t
        matches TransformV::Count { value, .. } ==> value + b <= u128::MAX)) by {
        assert(ts[j] matches CustomV::Fixed(t) ==> (t matches TransformV::Count { value, .. }
            ==> value + a <= u128::MAX));
    }
}

/// Folding one row spends at most one unit of every counter's headroom.
proof fn lemma_c_fold_group_counts<F: Fn(&str, &str) -> Result<String, Error>>(
    f: F,
    ts: Seq<CustomV>,
    names: Seq<Seq<char>>,
    row: Seq<Seq<char>>,
    out: Seq<CustomV>,
    e: Option<ErrorV>,
    extra: nat,
)
    requires
        c_fold_group_rel(f, ts, names, row, out, e),
        c_counts_bounded(ts, (extra + 1) as nat),
    ensures
        c_counts_bounded(out, extra),
    decreases ts.len(),
{
    if ts.len() == 0 {
    } else {
        if exists|t2: CustomV|
            #[trigger] c_fold_rel(f, ts[0], names, row, Ok(t2)) && out.len() == ts.len() && out[0]
                == t2 && c_fold_group_rel(f, ts.drop_first(), names, row, out.drop_first(), e) {
            let t2 = choose|t2: CustomV|
                #[trigger] c_fold_rel(f, ts[0], names, row, Ok(t2)) && out.len() == ts.len()
                    && out[0] == t2 && c_fold_group_rel(
                    f,
                    ts.drop_first(),
                    names,
                    row,
                    out.drop_first(),
                    e,
                );
            assert forall|j: int|
                0 <= j < ts.drop_first().len() implies ((#[trigger] ts.drop_first()[j])
                matches CustomV::Fixed(t) ==> (t matches TransformV::Count { value, .. } ==> value
                + (extra + 1) <= u128::MAX)) by {
                assert(ts.drop_first()[j] == ts[j + 1]);
            }
            lemma_c_fold_group_counts(f, ts.drop_first(), names, row, out.drop_first(), e, extra);
            assert forall|j: int|
                0 <= j < out.len() implies ((#[trigger] out[j]) matches CustomV::Fixed(t) ==> (t
                matches TransformV::Count { value, .. } ==> value + extra <= u128::MAX)) by {
                if j == 0 {
                    assert(out[0] == t2);
                    assert(c_fold_rel(f, ts[0], names, row, Ok(t2)));
                } else {
                    assert(out[j] == out.drop_first()[j - 1]);
                }
            }
        } else {
            lemma_c_counts_mono(ts, (extra + 1) as nat, extra);
        }
    }
}

/// The grouping key of `row` over a custom reducer set: the key-defining
/// reducers' fields are fed to one hasher in reducer order; the first
/// reducer whose column is missing yields its error instead.
fn c_compute_hash(transformers: &Vec<CustomTransform>, headers: &Headers, row: &Row) -> (r: Result<
    u64,
    Error,
>)
    ensures
        match c_key_fields_from(transformers.deep_view(), headers@, row@, 0) {
            Ok(fields) => (r matches Ok(h) && h == group_key_v(fields)),
            Err(e) => (r matches Err(e2) && e2@ == e),
        },
{
    let ghost tsv = transformers.deep_view();
    let mut keys: Vec<String> = Vec::new();
    let n = transformers.len();
    let mut i: usize = 0;
    while i < n
        invariant
            n == tsv.len(),
            n == transformers@.len(),
            tsv == transformers.deep_view(),
            i <= n,
            c_key_fields_from(tsv, headers@, row@, 0) == (match c_key_fields_from(
                tsv,
                headers@,
                row@,
                i as int,
            ) {
                Ok(rest) => Ok::<Seq<Seq<char>>, ErrorV>(keys.deep_view() + rest),
                Err(e) => Err::<Seq<Seq<char>>, ErrorV>(e),
            }),
        decreases n - i,
    {
        let t = &transformers[i];
        proof {
            assert(t@ == tsv[i as int]);
        }
        match t.key_col() {
            Some(col) => match headers.get_field(row, col.as_str()) {
                Some(f) => {
                    let ghost old_keys = keys.deep_view();
                    keys.push(f.to_owned());
                    proof {
                        assert(keys.deep_view() =~= old_keys.push(f@));
                        assert(keys.deep_view() + (match c_key_fields_from(
                            tsv,
                            headers@,
                            row@,
                            i + 1,
                        ) {
                            Ok(rest) => rest,
                            Err(_) => Seq::empty(),
                        }) =~= old_keys + (seq![f@] + (match c_key_fields_from(
                            tsv,
                            headers@,
                            row@,
                            i + 1,
                        ) {
                            Ok(rest) => rest,
                            Err(_) => Seq::empty(),
                        })));
                    }
                },
                None => {
                    return Err(Error::MissingColumn(col.clone()));
                },
            },
            None => {},
        }
        i += 1;
    }
    proof {
        assert(keys.deep_view() + Seq::<Seq<char>>::empty() =~= keys.deep_view());
    }
    Ok(hash_key_fields(&keys))
}

/// An independent copy of a group's reducer prototypes.
fn duplicate_customs(ts: &Vec<CustomTransform>) -> (r: Vec<CustomTransform>)
    ensures
        r.deep_view() == ts.deep_view(),
{
    let mut r: Vec<CustomTransform> = Vec::new();
    let mut i: usize = 0;
    while i < ts.len()
        invariant
            i <= ts@.len(),
            r@.len() == i,
            forall|k: int| 0 <= k < i ==> r.deep_view()[k] == #[trigger] ts.deep_view()[k],
        decreases ts@.len() - i,
    {
        r.push(ts[i].duplicate());
        i += 1;
    }
    proof {
        assert(r.deep_view() =~= ts.deep_view());
    }
    r
}

/// Runs the whole custom group-by/reduce pass: absorbs every item of
/// `items` (errors recorded, rows keyed over the key-defining reducers
/// and folded into their group by `fold` where a column is custom,
/// first-seen groups materialized from `transformers`), then emits the
/// errors in the order they were met, followed by one finalized row per
/// group in first-seen key order — the final state of a run that the
/// relational engine `c_engine_trace_ok` admits.
pub fn run_group_reduce_custom<F: Fn(&str, &str) -> Result<String, Error>>(
    transformers: &Vec<CustomTransform>,
    headers: &Headers,
    items: &Vec<RowResult>,
    source: usize,
    fold: &F,
) -> (out: Vec<RowResult>)
    requires
        c_counts_bounded(transformers.deep_view(), items@.len() as nat),
        forall|args: (&str, &str)| #[trigger] call_requires(*fold, args),
    ensures
        exists|trace: Seq<CEngineV>|
            #[trigger] c_engine_trace_ok(
                *fold,
                transformers.deep_view(),
                headers@,
                items_view(items@),
                source as int,
                trace,
            ) && items_view(out@) == c_engine_output(trace.last()),
{
    let ghost protos = transformers.deep_view();
    let ghost names = headers@;
    let ghost itemsv = items_view(items@);
    let n = items.len();
    let mut errs: Vec<PlError> = Vec::new();
    let mut keys_seen: Vec<u64> = Vec::new();
    let mut groups: Vec<Vec<CustomTransform>> = Vec::new();
    let mut registry: LinkedHashMap<u64, usize> = registry_new();
    let ghost mut st: CEngineV = c_engine_init();
    let ghost mut trace: Seq<CEngineV> = seq![c_engine_init()];
    let mut i: usize = 0;
    while i < n
        invariant
            n == items@.len(),
            i <= n,
            protos == transformers.deep_view(),
            names == headers@,
            itemsv == items_view(items@),
            itemsv.len() == n,
            c_counts_bounded(protos, n as nat),
            forall|args: (&str, &str)| #[trigger] call_requires(*fold, args),
            trace.len() == i + 1,
            trace[0] == c_engine_init(),
            st == trace.last(),
            forall|k: int|
                0 <= k < i ==> c_engine_step_rel(
                    *fold,
                    protos,
                    names,
                    trace[k],
                    #[trigger] itemsv[k],
                    source as int,
                    trace[k + 1],
                ),
            errs.deep_view() == st.errs,
            keys_seen@.len() == st.groups.len(),
            groups@.len() == st.groups.len(),
            forall|j: int|
                0 <= j < st.groups.len() ==> #[trigger] st.groups[j] == (
                keys_seen@[j],
                groups.deep_view()[j],
            ),
            forall|a: int, b: int|
                0 <= a < b < st.groups.len() ==> st.groups[a].0 != st.groups[b].0,
            forall|j: int|
                0 <= j < st.groups.len() ==> c_counts_bounded(
                    (#[trigger] st.groups[j]).1,
                    (n - i) as nat,
                ),
            forall|j: int|
                0 <= j < keys_seen@.len() ==> registry_map(registry).contains_key(
                    #[trigger] keys_seen@[j],
                ) && registry_map(registry)[keys_seen@[j]] == j,
            forall|k: u64| registry_map(registry).contains_key(k) ==> keys_seen@.contains(k),
        decreases n - i,
    {
        let ghost st0 = st;
        proof {
            assert(itemsv[i as int] == item_view(items@[i as int]));
        }
        let ghost old_keys = keys_seen@;
        let ghost old_groups_dv = groups.deep_view();
        match &items[i] {
            Err(e) => {
                let ghost errs0 = errs.deep_view();
                errs.push(e.duplicate());
                proof {
                    st = CEngineV { errs: st0.errs.push(e@), groups: st0.groups };
                    assert(errs.deep_view() =~= st.errs);
                    assert(c_engine_step_rel(
                        *fold,
                        protos,
                        names,
                        st0,
                        itemsv[i as int],
                        source as int,
                        st,
                    ));
                    assert forall|j: int|
                        0 <= j < st.groups.len() implies c_counts_bounded(
                        (#[trigger] st.groups[j]).1,
                        (n - (i + 1)) as nat,
                    ) by {
                        lemma_c_counts_mono(st0.groups[j].1, (n - i) as nat, (n - (i + 1)) as nat);
                    }
                }
            },
            Ok(row) => {
                match c_compute_hash(transformers, headers, row) {
                    Err(e) => {
                        let ghost errs0 = errs.deep_view();
                        let ghost ev = e@;
                        errs.push(e.at_source(source));
                        proof {
                            st = CEngineV {
                                errs: st0.errs.push(PlErrorV { error: ev, source: source as int }),
                                groups: st0.groups,
                            };
                            assert(errs.deep_view() =~= st.errs);
                            assert(c_engine_step_rel(
                                *fold,
                                protos,
                                names,
                                st0,
                                itemsv[i as int],
                                source as int,
                                st,
                            ));
                            assert forall|j: int|
                                0 <= j < st.groups.len() implies c_counts_bounded(
                                (#[trigger] st.groups[j]).1,
                                (n - (i + 1)) as nat,
                            ) by {
                                lemma_c_counts_mono(
                                    st0.groups[j].1,
                                    (n - i) as nat,
                                    (n - (i + 1)) as nat,
                                );
                            }
                        }
                    },
                    Ok(key) => {
                        proof {
                            lemma_c_find_group_from(st0.groups, key, 0);
                        }
                        match registry_get(&registry, key) {
                            Some(idx) => {
                                proof {
                                    assert(keys_seen@.contains(key));
                                    let j = choose|j: int|
                                        0 <= j < keys_seen@.len() && keys_seen@[j] == key;
                                    assert(registry_map(registry)[keys_seen@[j]] == j);
                                    assert(idx == j);
                                    assert(st0.groups[j].0 == key);
                                    match c_find_group(st0.groups, key) {
                                        Some(fi) => {
                                            if fi != j {
                                                assert(st0.groups[fi].0 == key);
                                                assert(false);
                                            }
                                        },
                                        None => {
                                            assert(st0.groups[j].0 != key);
                                        },
                                    }
                                    assert(c_find_group(st0.groups, key) == Some(idx as int));
                                    assert(idx < groups@.len());
                                }
                                let g = groups.remove(idx);
                                let ghost gv = g.deep_view();
                                proof {
                                    assert(gv == old_groups_dv[idx as int]);
                                    assert(gv == st0.groups[idx as int].1);
                                    lemma_c_counts_mono(gv, (n - i) as nat, 1);
                                }
                                let (g2, eopt) = c_fold_group(g, headers, row, fold);
                                let ghost ts2 = g2.deep_view();
                                let ghost eoptv = opt_err_view(eopt);
                                groups.insert(idx, g2);
                                proof {
                                    st = (match eoptv {
                                        Some(e) => CEngineV {
                                            errs: st0.errs.push(
                                                PlErrorV { error: e, source: source as int },
                                            ),
                                            groups: st0.groups.update(idx as int, (key, ts2)),
                                        },
                                        None => CEngineV {
                                            errs: st0.errs,
                                            groups: st0.groups.update(idx as int, (key, ts2)),
                                        },
                                    });
                                    assert(c_fold_group_rel(*fold, gv, names, row@, ts2, eoptv));
                                    assert(c_engine_step_rel(
                                        *fold,
                                        protos,
                                        names,
                                        st0,
                                        itemsv[i as int],
                                        source as int,
                                        st,
                                    ));
                                    assert(groups.deep_view() =~= old_groups_dv.update(
                                        idx as int,
                                        ts2,
                                    ));
                                    assert forall|j: int|
                                        0 <= j < st.groups.len() implies #[trigger] st.groups[j]
                                        == (keys_seen@[j], groups.deep_view()[j]) by {
                                        if j == idx {
                                            assert(st.groups[j] == (key, ts2));
                                            assert(keys_seen@[j] == key);
                                        } else {
                                            assert(st.groups[j] == st0.groups[j]);
                                        }
                                    }
                                    assert forall|a: int, b: int|
                                        0 <= a < b < st.groups.len() implies st.groups[a].0
                                        != st.groups[b].0 by {
                                        assert(st.groups[a].0 == st0.groups[a].0);
                                        assert(st.groups[b].0 == st0.groups[b].0);
                                    }
                                    lemma_c_fold_group_counts(
                                        *fold,
                                        gv,
                                        names,
                                        row@,
                                        ts2,
                                        eoptv,
                                        (n - (i + 1)) as nat,
                                    );
                                    assert forall|j: int|
                                        0 <= j < st.groups.len() implies c_counts_bounded(
                                        (#[trigger] st.groups[j]).1,
                                        (n - (i + 1)) as nat,
                                    ) by {
                                        if j != idx {
                                            lemma_c_counts_mono(
                                                st0.groups[j].1,
                                                (n - i) as nat,
                                                (n - (i + 1)) as nat,
                                            );
                                        }
                                    }
                                }
                                match eopt {
                                    Some(e) => {
                                        let ghost errs0 = errs.deep_view();
                                        let ghost ev = e@;
                                        errs.push(e.at_source(source));
                                        proof {
                                            assert(errs.deep_view() =~= errs0.push(
                                                PlErrorV { error: ev, source: source as int },
                                            ));
                                        }
                                    },
                                    None => {},
                                }
                            },
                            None => {
                                proof {
                                    assert forall|k: int|
                                        0 <= k < st0.groups.len() implies (#[trigger] st0.groups[k]).0
                                        != key by {
                                        if st0.groups[k].0 == key {
                                            assert(keys_seen@[k] == key);
                                            assert(keys_seen@.contains(key));
                                            assert(registry_map(registry).contains_key(key));
                                        }
                                    }
                                    assert(c_find_group(st0.groups, key) is None);
                                    lemma_c_counts_mono(protos, n as nat, 1);
                                }
                                let g = duplicate_customs(transformers);
                                let (g2, eopt) = c_fold_group(g, headers, row, fold);
                                let ghost ts2 = g2.deep_view();
                                let ghost eoptv = opt_err_view(eopt);
                                let idx = groups.len();
                                registry_insert(&mut registry, key, idx);
                                keys_seen.push(key);
                                groups.push(g2);
                                proof {
                                    st = (match eoptv {
                                        Some(e) => CEngineV {
                                            errs: st0.errs.push(
                                                PlErrorV { error: e, source: source as int },
                                            ),
                                            groups: st0.groups.push((key, ts2)),
                                        },
                                        None => CEngineV {
                                            errs: st0.errs,
                                            groups: st0.groups.push((key, ts2)),
                                        },
                                    });
                                    assert(c_fold_group_rel(*fold, protos, names, row@, ts2, eoptv));
                                    assert(c_engine_step_rel(
                                        *fold,
                                        protos,
                                        names,
                                        st0,
                                        itemsv[i as int],
                                        source as int,
                                        st,
                                    ));
                                    assert(groups.deep_view() =~= old_groups_dv.push(ts2));
                                    assert(keys_seen@ == old_keys.push(key));
                                    assert forall|j: int|
                                        0 <= j < st.groups.len() implies #[trigger] st.groups[j]
                                        == (keys_seen@[j], groups.deep_view()[j]) by {
                                        if j < st0.groups.len() {
                                            assert(st.groups[j] == st0.groups[j]);
                                        } else {
                                            assert(st.groups[j] == (key, ts2));
                                        }
                                    }
                                    assert forall|a: int, b: int|
                                        0 <= a < b < st.groups.len() implies st.groups[a].0
                                        != st.groups[b].0 by {
                                        if b < st0.groups.len() {
                                        } else {
                                            assert(st.groups[a].0 == st0.groups[a].0);
                                            assert(st0.groups[a].0 != key);
                                        }
                                    }
                                    lemma_c_fold_group_counts(
                                        *fold,
                                        protos,
                                        names,
                                        row@,
                                        ts2,
                                        eoptv,
                                        (n - (i + 1)) as nat,
                                    );
                                    assert forall|j: int|
                                        0 <= j < st.groups.len() implies c_counts_bounded(
                                        (#[trigger] st.groups[j]).1,
                                        (n - (i + 1)) as nat,
                                    ) by {
                                        if j < st0.groups.len() {
                                            lemma_c_counts_mono(
                                                st0.groups[j].1,
                                                (n - i) as nat,
                                                (n - (i + 1)) as nat,
                                            );
                                        }
                                    }
                                    assert forall|j: int|
                                        0 <= j < keys_seen@.len() implies registry_map(
                                        registry,
                                    ).contains_key(#[trigger] keys_seen@[j]) && registry_map(
                                        registry,
                                    )[keys_seen@[j]] == j by {
                                        if j < old_keys.len() {
                                            assert(keys_seen@[j] == old_keys[j]);
                                        } else {
                                            assert(keys_seen@[j] == key);
                                        }
                                    }
                                    assert forall|k: u64|
                                        registry_map(registry).contains_key(k) implies keys_seen@
                                        .contains(k) by {
                                        if k == key {
                                            assert(keys_seen@[old_keys.len() as int] == key);
                                        } else {
                                            assert(old_keys.contains(k));
                                            let w = choose|w: int|
                                                0 <= w < old_keys.len() && old_keys[w] == k;
                                            assert(keys_seen@[w] == k);
                                        }
                                    }
                                }
                                match eopt {
                                    Some(e) => {
                                        let ghost errs0 = errs.deep_view();
                                        let ghost ev = e@;
                                        errs.push(e.at_source(source));
                                        proof {
                                            assert(errs.deep_view() =~= errs0.push(
                                                PlErrorV { error: ev, source: source as int },
                                            ));
                                        }
                                    },
                                    None => {},
                                }
                            },
                        }
                    },
                }
            },
        }
        i += 1;
        proof {
            trace = trace.push(st);
            assert(trace.last() == st);
            assert(trace[i - 1] == st0);
        }
    }
    let mut out: Vec<RowResult> = Vec::new();
    let ne = errs.len();
    let mut j: usize = 0;
    while j < ne
        invariant
            ne == errs@.len(),
            errs.deep_view() == st.errs,
            j <= ne,
            out@.len() == j,
            forall|k: int| 0 <= k < j ==> item_view(#[trigger] out@[k]) == Err::<
                Seq<Seq<char>>,
                PlErrorV,
            >(st.errs[k]),
        decreases ne - j,
    {
        out.push(Err(errs[j].duplicate()));
        j += 1;
    }
    let ng = groups.len();
    let mut j: usize = 0;
    while j < ng
        invariant
            ng == groups@.len(),
            ng == st.groups.len(),
            j <= ng,
            forall|k: int|
                0 <= k < st.groups.len() ==> (#[trigger] st.groups[k]).1 == groups.deep_view()[k],
            out@.len() == st.errs.len() + j,
            forall|k: int| 0 <= k < st.errs.len() ==> item_view(#[trigger] out@[k]) == Err::<
                Seq<Seq<char>>,
                PlErrorV,
            >(st.errs[k]),
            forall|k: int|
                0 <= k < j ==> item_view(#[trigger] out@[st.errs.len() + k]) == Ok::<
                    Seq<Seq<char>>,
                    PlErrorV,
                >(c_group_row(st.groups[k].1)),
        decreases ng - j,
    {
        let g = &groups[j];
        let m = g.len();
        let mut fields: Vec<String> = Vec::new();
        let mut k: usize = 0;
        while k < m
            invariant
                m == g@.len(),
                k <= m,
                fields@.len() == k,
                forall|l: int|
                    0 <= l < k ==> fields.deep_view()[l] == c_value(#[trigger] g.deep_view()[l]),
            decreases m - k,
        {
            fields.push(g[k].value());
            k += 1;
        }
        proof {
            assert(fields.deep_view() =~= c_group_row(g.deep_view()));
            assert(g.deep_view() == st.groups[j as int].1);
        }
        out.push(Ok(Row::from_fields(fields)));
        j += 1;
    }
    proof {
        let outv = items_view(out@);
        let eo = c_engine_output(st);
        assert(eo.len() == st.errs.len() + st.groups.len());
        assert forall|k: int| 0 <= k < out@.len() implies outv[k] == eo[k] by {
            assert(outv[k] == item_view(out@[k]));
            if k < st.errs.len() {
                assert(eo[k] == st.errs.map_values(
                    |e: PlErrorV| Err::<Seq<Seq<char>>, PlErrorV>(e),
                )[k]);
            } else {
                let k2 = k - st.errs.len();
                assert(item_view(out@[st.errs.len() + k2]) == Ok::<Seq<Seq<char>>, PlErrorV>(
                    c_group_row(st.groups[k2].1),
                ));
                assert(eo[k] == st.groups.map_values(
                    |g: (u64, Seq<CustomV>)| Ok::<Seq<Seq<char>>, PlErrorV>(c_group_row(g.1)),
                )[k2]);
            }
        }
        assert(items_view(out@) =~= c_engine_output(st));
        assert(c_engine_trace_ok(*fold, protos, names, itemsv, source as int, trace));
    }
    out
}

} // verus!
