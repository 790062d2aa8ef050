//! A streaming-style tabular-data transformation pipeline: rows of text
//! fields flow through a chain of operator stages (add column, map, filter,
//! select, rename, validate) and optionally into a group-by/reduce stage.
//!
//! The central types are [`Row`] (one record), [`headers::Headers`] (the
//! named-column layout), [`pipeline::Pipeline`] (a chain of stages over a
//! row stream) and [`transform::Transform`] (a per-column reducer used by
//! the group-by/reduce stage); [`reduce::CustomTransform`] extends the
//! reducer set with a column folded by a caller-supplied function.
#![allow(unused_imports)]
use vstd::prelude::*;

pub mod csv_text;
pub mod decimal;
pub mod group;
pub mod headers;
pub mod pipeline;
pub mod reduce;
pub mod stages;
pub mod strings;
pub mod target;
pub mod transform;

use crate::strings::str_eq;
use vstd::pervasive::VecAdditionalExecFns;

verus! {

/// One record: an ordered sequence of UTF-8 text fields. The arity is fixed
/// once constructed except through [`Row::push_field`]; fields are accessed
/// by position; equality is field-wise.
#[derive(Debug, Clone, PartialEq, Eq)]
pub struct Row {
    fields: Vec<String>,
}

impl View for Row {
    type V = Seq<Seq<char>>;

    closed spec fn view(&self) -> Seq<Seq<char>> {
        self.fields.deep_view()
    }
}

impl DeepView for Row {
    type V = Seq<Seq<char>>;

    open spec fn deep_view(&self) -> Seq<Seq<char>> {
        self.view()
    }
}

impl Row {
    /// An empty row with no fields.
    pub fn new() -> (r: Row)
        ensures
            r@ == Seq::<Seq<char>>::empty(),
    {
        let fields: Vec<String> = Vec::new();
        Row { fields }
    }

    /// A row made of the given fields, in order.
    pub fn from_fields(fields: Vec<String>) -> (r: Row)
        ensures
            r@ == fields.deep_view(),
    {
        Row { fields }
    }

    pub fn len(&self) -> (n: usize)
        ensures
            n == self@.len(),
    {
        self.fields.len()
    }

    /// The field at `index`, or `None` if the row is shorter.
    pub fn get(&self, index: usize) -> (r: Option<&String>)
        ensures
            index < self@.len() ==> (r matches Some(s) && s@ == self@[index as int]),
            index >= self@.len() ==> r is None,
    {
        if index < self.fields.len() {
            Some(&self.fields[index])
        } else {
            None
        }
    }

    /// The field at `index`; the row must be long enough.
    pub fn field(&self, index: usize) -> (r: &String)
        requires
            index < self@.len(),
        ensures
            r@ == self@[index as int],
    {
        &self.fields[index]
    }

    /// Replaces the field at `index`; the row must be long enough.
    pub fn set_field(&mut self, index: usize, value: &str)
        requires
            index < old(self)@.len(),
        ensures
            final(self)@ == old(self)@.update(index as int, value@),
    {
        self.fields.set(index, value.to_owned());
        proof {
            assert(self@ =~= old(self)@.update(index as int, value@));
        }
    }

    /// Appends one field at the end of the row.
    pub fn push_field(&mut self, field: &str)
        ensures
            final(self)@ == old(self)@.push(field@),
    {
        self.fields.push(field.to_owned());
        proof {
            assert(self@ =~= old(self)@.push(field@));
        }
    }

    /// An independent copy of this row.
    pub fn duplicate(&self) -> (r: Row)
        ensures
            r@ == self@,
    {
        let fields = clone_string_vec(&self.fields);
        Row { fields }
    }

    /// The fields of this row, as an owned vector.
    pub fn to_fields(&self) -> (r: Vec<String>)
        ensures
            r.deep_view() == self@,
    {
        clone_string_vec(&self.fields)
    }

    /// Field-wise equality.
    pub fn eq_row(&self, other: &Row) -> (r: bool)
        ensures
            r == (self@ == other@),
    {
        if self.fields.len() != other.fields.len() {
            proof {
                assert(self@.len() != other@.len());
            }
            return false;
        }
        let n = self.fields.len();
        let mut i: usize = 0;
        while i < n
            invariant
                n == self@.len(),
                n == other@.len(),
                i <= n,
                forall|j: int| 0 <= j < i ==> self@[j] == other@[j],
            decreases n - i,
        {
            if !str_eq(self.fields[i].as_str(), other.fields[i].as_str()) {
                proof {
                    assert(self@[i as int] != other@[i as int]);
                }
                return false;
            }
            i += 1;
        }
        proof {
            assert(self@ =~= other@);
        }
        true
    }
}

/// An independent copy of a vector of strings, field for field.
fn clone_string_vec(v: &Vec<String>) -> (r: Vec<String>)
    ensures
        r.deep_view() == v.deep_view(),
{
    let mut r: Vec<String> = Vec::new();
    let mut i: usize = 0;
    while i < v.len()
        invariant
            i <= v@.len(),
            r@.len() == i,
            forall|k: int| 0 <= k < i ==> r.deep_view()[k] == #[trigger] v.deep_view()[k],
        decreases v@.len() - i,
    {
        let s = v[i].clone();
        r.push(s);
        i += 1;
    }
    proof {
        assert(r.deep_view() =~= v.deep_view());
    }
    r
}

/// The ghost shape of an [`Error`]: each variant carries the views of the
/// corresponding executable payload.
pub ghost enum ErrorV {
    Csv(Seq<char>),
    MissingColumn(Seq<char>),
    DuplicateColumn(Seq<char>),
    InvalidField(Seq<char>),
    MismatchedHeaders(Seq<Seq<char>>, Seq<Seq<char>>),
}

/// What can go wrong while rows flow through a pipeline.
#[derive(Debug, Clone, PartialEq, Eq)]
pub enum Error {
    /// A row could not be read from or written to its textual form.
    Csv(String),
    /// The column of this name is missing.
    MissingColumn(String),
    /// This column name appears twice.
    DuplicateColumn(String),
    /// This field has an invalid format.
    InvalidField(String),
    /// Two pipeline sources don't have the same headers.
    MismatchedHeaders(Row, Row),
}

impl View for Error {
    type V = ErrorV;

    open spec fn view(&self) -> ErrorV {
        match self {
            Error::Csv(s) => ErrorV::Csv(s@),
            Error::MissingColumn(s) => ErrorV::MissingColumn(s@),
            Error::DuplicateColumn(s) => ErrorV::DuplicateColumn(s@),
            Error::InvalidField(s) => ErrorV::InvalidField(s@),
            Error::MismatchedHeaders(a, b) => ErrorV::MismatchedHeaders(a@, b@),
        }
    }
}

impl DeepView for Error {
    type V = ErrorV;

    open spec fn deep_view(&self) -> ErrorV {
        self.view()
    }
}

impl Error {
    /// An independent copy of this error.
    pub fn duplicate(&self) -> (r: Error)
        ensures
            r@ == self@,
    {
        match self {
            Error::Csv(s) => Error::Csv(s.clone()),
            Error::MissingColumn(s) => Error::MissingColumn(s.clone()),
            Error::DuplicateColumn(s) => Error::DuplicateColumn(s.clone()),
            Error::InvalidField(s) => Error::InvalidField(s.clone()),
            Error::MismatchedHeaders(a, b) => Error::MismatchedHeaders(a.duplicate(), b.duplicate()),
        }
    }

    /// Tags this error with the index of the pipeline source it came from.
    pub fn at_source(self, source: usize) -> (r: PlError)
        ensures
            r@ == (PlErrorV { error: self@, source: source as int }),
    {
        PlError { error: self, source }
    }
}

/// The ghost shape of a [`PlError`].
pub ghost struct PlErrorV {
    pub error: ErrorV,
    pub source: int,
}

/// An [`Error`] tagged with the index of the pipeline source it originated
/// from (0 for a single-source pipeline).
#[derive(Debug, Clone, PartialEq, Eq)]
pub struct PlError {
    pub error: Error,
    pub source: usize,
}

impl View for PlError {
    type V = PlErrorV;

    open spec fn view(&self) -> PlErrorV {
        PlErrorV { error: self.error@, source: self.source as int }
    }
}

impl DeepView for PlError {
    type V = PlErrorV;

    open spec fn deep_view(&self) -> PlErrorV {
        self.view()
    }
}

impl PlError {
    /// An independent copy of this error.
    pub fn duplicate(&self) -> (r: PlError)
        ensures
            r@ == self@,
    {
        PlError { error: self.error.duplicate(), source: self.source }
    }
}

/// One item of a row stream: a valid row, or an error tagged with its source.
pub type RowResult = Result<Row, PlError>;

/// The ghost shape of one row-stream item.
pub type ItemV = Result<Seq<Seq<char>>, PlErrorV>;

/// The view of one row-stream item.
pub open spec fn item_view(r: RowResult) -> ItemV {
    match r {
        Ok(row) => Ok(row@),
        Err(e) => Err(e@),
    }
}

/// An independent copy of one row-stream item.
pub fn duplicate_item(r: &RowResult) -> (d: RowResult)
    ensures
        item_view(d) == item_view(*r),
{
    match r {
        Ok(row) => Ok(row.duplicate()),
        Err(e) => Err(e.duplicate()),
    }
}

/// The views of a whole row stream, item by item.
pub open spec fn items_view(rs: Seq<RowResult>) -> Seq<ItemV> {
    rs.map_values(|r: RowResult| item_view(r))
}

} // verus!
