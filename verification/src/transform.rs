//! Per-column reducers for the group-by/reduce stage. A reducer is a small
//! state machine with three capabilities: it may contribute its column's
//! field to the grouping key, it folds one row into its accumulator, and it
//! finalizes the accumulator to a string. The variants form a closed set:
//! keep a column's unique value (the one key-defining variant), sum a
//! column exactly, or count rows.
#![allow(unused_imports)]
use vstd::prelude::*;

use crate::decimal::{dec_add, dec_add_str, dec_from_i64, dec_of_int, is_decimal};
use crate::headers::{get_field_v, Headers};
use crate::strings::{u128_str, u128_to_string};
use crate::{Error, ErrorV, Row};
use std::collections::hash_map::DefaultHasher;
use std::hash::Hasher;
use vstd::std_specs::hash::DefaultHasherAdditionalSpecFns;
use vstd::utf8::encode_utf8;

verus! {

/// The ghost shape of a reducer: its state over character sequences.
pub ghost enum TransformV {
    /// Keeps the latest value seen in `from_col`; defines the group key.
    KeepUnique { name: Seq<char>, from_col: Seq<char>, value: Seq<char> },
    /// Sums the decimal values of `from_col` exactly.
    Sum { name: Seq<char>, from_col: Seq<char>, value: Seq<char> },
    /// Counts the rows folded in.
    Count { name: Seq<char>, value: nat },
}

/// The output column name a reducer was declared with.
pub open spec fn t_name(t: TransformV) -> Seq<char> {
    match t {
        TransformV::KeepUnique { name, .. } => name,
        TransformV::Sum { name, .. } => name,
        TransformV::Count { name, .. } => name,
    }
}

/// The column whose field the reducer contributes to the grouping key,
/// if it contributes one.
pub open spec fn t_key_col(t: TransformV) -> Option<Seq<char>> {
    match t {
        TransformV::KeepUnique { from_col, .. } => Some(from_col),
        _ => None,
    }
}

/// A reducer state is well formed when a sum's accumulator is the text of
/// a decimal number.
pub open spec fn t_wf(t: TransformV) -> bool {
    match t {
        TransformV::Sum { value, .. } => is_decimal(value),
        _ => true,
    }
}

/// One row folded into one reducer: the new state, or the error that left
/// the state unchanged.
pub open spec fn t_fold(t: TransformV, names: Seq<Seq<char>>, row: Seq<Seq<char>>) -> Result<
    TransformV,
    ErrorV,
> {
    match t {
        TransformV::KeepUnique { name, from_col, value } => match get_field_v(
            names,
            row,
            from_col,
        ) {
            Some(f) => Ok(TransformV::KeepUnique { name, from_col, value: f }),
            None => Err(ErrorV::MissingColumn(from_col)),
        },
        TransformV::Sum { name, from_col, value } => match get_field_v(names, row, from_col) {
            Some(f) => if is_decimal(f) {
                Ok(TransformV::Sum { name, from_col, value: dec_add(value, f) })
            } else {
                Err(ErrorV::InvalidField(f))
            },
            None => Err(ErrorV::MissingColumn(from_col)),
        },
        TransformV::Count { name, value } => Ok(TransformV::Count { name, value: value + 1 }),
    }
}

/// The finalized value of a reducer, as emitted into the output row.
pub open spec fn t_value_v(t: TransformV) -> Seq<char> {
    match t {
        TransformV::KeepUnique { value, .. } => value,
        TransformV::Sum { value, .. } => value,
        TransformV::Count { value, .. } => u128_str(value),
    }
}

/// All reducer states of a group are well formed.
pub open spec fn ts_wf(ts: Seq<TransformV>) -> bool {
    forall|j: int| 0 <= j < ts.len() ==> t_wf(#[trigger] ts[j])
}

/// Every counter in `ts` can still take `extra` more rows without
/// overflowing its machine integer.
pub open spec fn counts_bounded(ts: Seq<TransformV>, extra: nat) -> bool {
    forall|j: int|
        0 <= j < ts.len() ==> ((#[trigger] ts[j]) matches TransformV::Count { value, .. }
            ==> value + extra <= u128::MAX)
}

/// The fields, in reducer order, that the key-defining reducers at or
/// after position `i` contribute to the grouping key; or the first
/// reducer's error.
pub open spec fn key_fields_from(
    ts: Seq<TransformV>,
    names: Seq<Seq<char>>,
    row: Seq<Seq<char>>,
    i: int,
) -> Result<Seq<Seq<char>>, ErrorV>
    decreases ts.len() - i,
{
    if i < 0 || i >= ts.len() {
        Ok(Seq::empty())
    } else {
        match t_key_col(ts[i]) {
            Some(col) => match get_field_v(names, row, col) {
                Some(f) => match key_fields_from(ts, names, row, i + 1) {
                    Ok(rest) => Ok(seq![f] + rest),
                    Err(e) => Err(e),
                },
                None => Err(ErrorV::MissingColumn(col)),
            },
            None => key_fields_from(ts, names, row, i + 1),
        }
    }
}

/// The fields that a row's key-defining reducers contribute to the
/// grouping key, or the first error among them.
pub open spec fn key_fields_v(
    ts: Seq<TransformV>,
    names: Seq<Seq<char>>,
    row: Seq<Seq<char>>,
) -> Result<Seq<Seq<char>>, ErrorV> {
    key_fields_from(ts, names, row, 0)
}

/// The output column names that a list of reducers declares, in order.
pub open spec fn transform_names(ts: Seq<TransformV>) -> Seq<Seq<char>> {
    ts.map_values(|t: TransformV| t_name(t))
}

/// The chunks fed to the hasher for the given key fields: each field's
/// UTF-8 bytes, then a separator chunk, as `str`'s `Hash` does.
pub open spec fn hash_chunks(fields: Seq<Seq<char>>) -> Seq<Seq<u8>>
    decreases fields.len(),
{
    if fields.len() == 0 {
        Seq::empty()
    } else {
        hash_chunks(fields.drop_last()).push(encode_utf8(fields.last())).push(seq![255u8])
    }
}

/// The 64-bit group key for the given key fields.
pub open spec fn group_key_v(fields: Seq<Seq<char>>) -> u64 {
    DefaultHasher::spec_finish(hash_chunks(fields))
}

/// One group's reducers folded over one row, in order, stopping at the
/// first failure: the new states (reducers before the failure updated, the
/// failing one and all later ones unchanged) and the failure, if any.
pub open spec fn fold_group_v(
    ts: Seq<TransformV>,
    names: Seq<Seq<char>>,
    row: Seq<Seq<char>>,
) -> (Seq<TransformV>, Option<ErrorV>)
    decreases ts.len(),
{
    if ts.len() == 0 {
        (ts, None)
    } else {
        match t_fold(ts[0], names, row) {
            Ok(t2) => {
                let (rest, e) = fold_group_v(ts.drop_first(), names, row);
                (seq![t2] + rest, e)
            },
            Err(e) => (ts, Some(e)),
        }
    }
}

/// A reducer under construction: the output column name and the input
/// column it reads from.
pub struct Transformer {
    pub name: String,
    pub from_col: String,
}

impl Transformer {
    /// Starts a reducer whose output column and input column are both
    /// `col_name`.
    pub fn new(col_name: &str) -> (r: Transformer)
        ensures
            r.name@ == col_name@,
            r.from_col@ == col_name@,
    {
        Transformer { name: col_name.to_owned(), from_col: col_name.to_owned() }
    }

    /// Specifies which column the reducer reads from.
    pub fn from_col(self, col_name: &str) -> (r: Transformer)
        ensures
            r.name == self.name,
            r.from_col@ == col_name@,
    {
        Transformer { name: self.name, from_col: col_name.to_owned() }
    }

    /// Keeps the unique value of the input column; rows are grouped by it.
    pub fn keep_unique(self) -> (r: Transform)
        ensures
            r@ == (TransformV::KeepUnique {
                name: self.name@,
                from_col: self.from_col@,
                value: Seq::<char>::empty(),
            }),
            t_wf(r@),
    {
        Transform {
            inner: Tf::KeepUnique { name: self.name, from_col: self.from_col, value: String::new() },
        }
    }

    /// Sums the decimal values of the input column exactly, starting from
    /// the integer `init`.
    pub fn sum(self, init: i64) -> (r: Transform)
        ensures
            r@ == (TransformV::Sum {
                name: self.name@,
                from_col: self.from_col@,
                value: dec_of_int(init as int),
            }),
            t_wf(r@),
    {
        let value = dec_from_i64(init);
        Transform { inner: Tf::Sum { name: self.name, from_col: self.from_col, value } }
    }

    /// Counts the rows folded into the group.
    pub fn count(self) -> (r: Transform)
        ensures
            r@ == (TransformV::Count { name: self.name@, value: 0 }),
            t_wf(r@),
    {
        Transform { inner: Tf::Count { name: self.name, value: 0 } }
    }
}

enum Tf {
    KeepUnique { name: String, from_col: String, value: String },
    Sum { name: String, from_col: String, value: String },
    Count { name: String, value: u128 },
}

/// A per-column reducer of the group-by/reduce stage; build one with
/// [`Transformer`].
pub struct Transform {
    inner: Tf,
}

impl Transform {
    /// Every reducer in existence is well formed: a sum's accumulator is
    /// always the text of a decimal number.
    #[verifier::type_invariant]
    spec fn inv(&self) -> bool {
        t_wf(self@)
    }
}

impl View for Transform {
    type V = TransformV;

    closed spec fn view(&self) -> TransformV {
        match self.inner {
            Tf::KeepUnique { name, from_col, value } => TransformV::KeepUnique {
                name: name@,
                from_col: from_col@,
                value: value@,
            },
            Tf::Sum { name, from_col, value } => TransformV::Sum {
                name: name@,
                from_col: from_col@,
                value: value@,
            },
            Tf::Count { name, value } => TransformV::Count { name: name@, value: value as nat },
        }
    }
}

impl DeepView for Transform {
    type V = TransformV;

    open spec fn deep_view(&self) -> TransformV {
        self.view()
    }
}

impl Transform {
    /// The resulting output column name.
    pub fn name(&self) -> (r: String)
        ensures
            r@ == t_name(self@),
    {
        match &self.inner {
            Tf::KeepUnique { name, .. } => name.clone(),
            Tf::Sum { name, .. } => name.clone(),
            Tf::Count { name, .. } => name.clone(),
        }
    }

    /// The column whose field this reducer contributes to the grouping
    /// key, if it contributes one.
    pub fn key_col(&self) -> (r: Option<&String>)
        ensures
            match r {
                Some(s) => t_key_col(self@) == Some(s@),
                None => t_key_col(self@) is None,
            },
    {
        match &self.inner {
            Tf::KeepUnique { from_col, .. } => Some(from_col),
            _ => None,
        }
    }

    /// The current accumulator, finalized to a string.
    pub fn value(&self) -> (r: String)
        ensures
            r@ == t_value_v(self@),
    {
        match &self.inner {
            Tf::KeepUnique { value, .. } => value.clone(),
            Tf::Sum { value, .. } => value.clone(),
            Tf::Count { value, .. } => u128_to_string(*value),
        }
    }

    /// An independent copy of this reducer, state included.
    pub fn duplicate(&self) -> (r: Transform)
        ensures
            r@ == self@,
    {
        proof {
            use_type_invariant(&*self);
        }
        match &self.inner {
            Tf::KeepUnique { name, from_col, value } => Transform {
                inner: Tf::KeepUnique {
                    name: name.clone(),
                    from_col: from_col.clone(),
                    value: value.clone(),
                },
            },
            Tf::Sum { name, from_col, value } => Transform {
                inner: Tf::Sum {
                    name: name.clone(),
                    from_col: from_col.clone(),
                    value: value.clone(),
                },
            },
            Tf::Count { name, value } => Transform {
                inner: Tf::Count { name: name.clone(), value: *value },
            },
        }
    }

    /// Folds one row into the accumulator, exactly as `t_fold` says: a
    /// failure (missing column, non-decimal field for a sum) leaves the
    /// state unchanged.
    pub fn add_row(&mut self, headers: &Headers, row: &Row) -> (r: Result<(), Error>)
        requires
            old(self)@ matches TransformV::Count { value, .. } ==> value + 1 <= u128::MAX,
        ensures
            match r {
                Ok(()) => t_fold(old(self)@, headers@, row@) == Ok::<TransformV, ErrorV>(
                    final(self)@,
                ),
                Err(e) => t_fold(old(self)@, headers@, row@) == Err::<TransformV, ErrorV>(e@)
                    && final(self)@ == old(self)@,
            },
    {
        proof {
            use_type_invariant(&*self);
        }
        let step: Result<Tf, Error> = match &self.inner {
            Tf::KeepUnique { name, from_col, value } => match headers.get_field(
                row,
                from_col.as_str(),
            ) {
                Some(f) => Ok(
                    Tf::KeepUnique {
                        name: name.clone(),
                        from_col: from_col.clone(),
                        value: f.to_owned(),
                    },
                ),
                None => Err(Error::MissingColumn(from_col.clone())),
            },
            Tf::Sum { name, from_col, value } => match headers.get_field(row, from_col.as_str()) {
                Some(f) => match dec_add_str(value.as_str(), f) {
                    Some(s) => Ok(
                        Tf::Sum { name: name.clone(), from_col: from_col.clone(), value: s },
                    ),
                    None => Err(Error::InvalidField(f.to_owned())),
                },
                None => Err(Error::MissingColumn(from_col.clone())),
            },
            Tf::Count { name, value } => Ok(Tf::Count { name: name.clone(), value: *value + 1 }),
        };
        match step {
            Ok(t2) => {
                self.inner = t2;
                Ok(())
            },
            Err(e) => Err(e),
        }
    }
}

/// The grouping key of `row`: the key-defining reducers' fields are fed to
/// one hasher in reducer order, as the spec-side `group_key_v` says; the
/// first reducer whose column is missing yields its error instead.
pub(crate) fn compute_hash(transformers: &Vec<Transform>, headers: &Headers, row: &Row) -> (r: Result<
    u64,
    Error,
>)
    ensures
        match key_fields_v(transformers.deep_view(), headers@, row@) {
            Ok(fields) => (r matches Ok(h) && h == group_key_v(fields)),
            Err(e) => (r matches Err(e2) && e2@ == e),
        },
{
    let ghost tsv = transformers.deep_view();
    let mut keys: Vec<String> = Vec::new();
    let n = transformers.len();
    let mut i: usize = 0;
    while i < n
        invariant
            n == tsv.len(),
            n == transformers@.len(),
            tsv == transformers.deep_view(),
            i <= n,
            key_fields_v(tsv, headers@, row@) == (match key_fields_from(
                tsv,
                headers@,
                row@,
                i as int,
            ) {
                Ok(rest) => Ok::<Seq<Seq<char>>, ErrorV>(keys.deep_view() + rest),
                Err(e) => Err::<Seq<Seq<char>>, ErrorV>(e),
            }),
        decreases n - i,
    {
        let t = &transformers[i];
        proof {
            assert(t@ == tsv[i as int]);
        }
        match t.key_col() {
            Some(col) => match headers.get_field(row, col.as_str()) {
                Some(f) => {
                    let ghost old_keys = keys.deep_view();
                    keys.push(f.to_owned());
                    proof {
                        assert(keys.deep_view() =~= old_keys.push(f@));
                        assert(keys.deep_view() + (match key_fields_from(
                            tsv,
                            headers@,
                            row@,
                            i + 1,
                        ) {
                            Ok(rest) => rest,
                            Err(_) => Seq::empty(),
                        }) =~= old_keys + (seq![f@] + (match key_fields_from(
                            tsv,
                            headers@,
                            row@,
                            i + 1,
                        ) {
                            Ok(rest) => rest,
                            Err(_) => Seq::empty(),
                        })));
                    }
                },
                None => {
                    return Err(Error::MissingColumn(col.clone()));
                },
            },
            None => {},
        }
        i += 1;
    }
    proof {
        assert(keys.deep_view() + Seq::<Seq<char>>::empty() =~= keys.deep_view());
    }
    Ok(hash_key_fields(&keys))
}

/// Feeds each key field's UTF-8 bytes and a separator to one fresh
/// hasher, and finishes it: the 64-bit group key.
pub(crate) fn hash_key_fields(keys: &Vec<String>) -> (r: u64)
    ensures
        r == group_key_v(keys.deep_view()),
{
    let mut hasher = DefaultHasher::new();
    let n = keys.len();
    let mut i: usize = 0;
    while i < n
        invariant
            n == keys@.len(),
            i <= n,
            hasher@ == hash_chunks(keys.deep_view().take(i as int)),
        decreases n - i,
    {
        hasher.write(keys[i].as_str().as_bytes());
        let sep: [u8; 1] = [255u8];
        hasher.write(sep.as_slice());
        proof {
            assert(keys.deep_view().take(i + 1).drop_last() =~= keys.deep_view().take(i as int));
            assert(seq![255u8] =~= sep@);
        }
        i += 1;
    }
    proof {
        assert(keys.deep_view().take(n as int) =~= keys.deep_view());
    }
    hasher.finish()
}

} // verus!
