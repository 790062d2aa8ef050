//! Where finished rows go. A row sink takes the header row once, before
//! any data row, and then one row at a time; a sink that cannot take a
//! record answers with an error, which the pipeline forwards as a stream
//! error. What a sink has taken is its ghost model `written`: each call
//! appends exactly its record on success and nothing on failure, so a
//! caller's contract can say which records reached the sink. The one sink
//! the library provides itself collects the rows as delimited text in
//! memory; sinks that reach files or standard streams live outside the
//! library.
#![allow(unused_imports)]
use vstd::prelude::*;

use crate::csv_text::{csv_line_of, write_line};
use crate::headers::Headers;
use crate::{Error, Row};
use vstd::string::StringExecFns;

verus! {

/// The row sink contract: `write_headers` is called exactly once before
/// any data row, then `write_row` once per emitted row. The sink decides
/// whether a record is taken; what it promises is only that on `Ok`
/// exactly that record was appended to what it holds, and on `Err`
/// nothing was.
pub trait Target {
    /// The records this sink has taken so far, in order. The default
    /// model never grows, so a sink that keeps it can only ever refuse;
    /// a sink meant to take records gives its own.
    open spec fn written(&self) -> Seq<Seq<Seq<char>>> {
        Seq::empty()
    }

    /// Takes the header row; called exactly once, before any data row.
    fn write_headers(&mut self, headers: &Headers) -> (r: Result<(), Error>)
        ensures
            r is Ok ==> final(self).written() == old(self).written().push(headers@),
            r is Err ==> final(self).written() == old(self).written(),
    ;

    /// Takes one data row.
    fn write_row(&mut self, row: &Row) -> (r: Result<(), Error>)
        ensures
            r is Ok ==> final(self).written() == old(self).written().push(row@),
            r is Err ==> final(self).written() == old(self).written(),
    ;
}

/// A sink that collects the rows as delimited text in memory. Like a
/// delimited-text writer, it fixes the expected arity at the first record
/// written and refuses records of any other length.
pub struct StringTarget {
    text: String,
    expected: Option<usize>,
    records: Ghost<Seq<Seq<Seq<char>>>>,
}

impl StringTarget {
    /// The text collected so far.
    pub closed spec fn text_v(&self) -> Seq<char> {
        self.text@
    }

    /// The arity fixed by the first record written, if one was.
    pub closed spec fn expected_v(&self) -> Option<int> {
        match self.expected {
            Some(m) => Some(m as int),
            None => None,
        }
    }

    /// The records taken so far, in order.
    pub closed spec fn records_v(&self) -> Seq<Seq<Seq<char>>> {
        self.records@
    }

    /// An empty sink.
    pub fn new() -> (t: StringTarget)
        ensures
            t.text_v() == Seq::<char>::empty(),
            t.expected_v() is None,
            t.records_v() == Seq::<Seq<Seq<char>>>::empty(),
    {
        StringTarget { text: String::new(), expected: None, records: Ghost(Seq::empty()) }
    }

    /// Appends one record's line to the text; the first record fixes the
    /// expected arity, and a record of another length is refused,
    /// changing nothing.
    pub fn push_record(&mut self, row: &Row) -> (r: Result<(), Error>)
        ensures
            match old(self).expected_v() {
                None => r is Ok && final(self).text_v() == old(self).text_v() + csv_line_of(row@)
                    && final(self).expected_v() == Some(row@.len() as int)
                    && final(self).records_v() == old(self).records_v().push(row@),
                Some(m) => if row@.len() == m {
                    r is Ok && final(self).text_v() == old(self).text_v() + csv_line_of(row@)
                        && final(self).expected_v() == Some(m)
                        && final(self).records_v() == old(self).records_v().push(row@)
                } else {
                    (r matches Err(e) && e@ == unequal_lengths_error())
                        && *final(self) == *old(self)
                },
            },
    {
        match self.expected {
            None => {
                self.expected = Some(row.len());
            },
            Some(m) => {
                if row.len() != m {
                    return Err(Error::Csv("unequal record lengths".to_owned()));
                }
            },
        }
        let line = write_line(row);
        self.text.append(line.as_str());
        self.records = Ghost(self.records@.push(row@));
        Ok(())
    }

    /// The text collected.
    pub fn into_string(self) -> (r: String)
        ensures
            r@ == self.text_v(),
    {
        self.text
    }
}

/// The error a `StringTarget` answers a record of the wrong arity with.
pub open spec fn unequal_lengths_error() -> crate::ErrorV {
    crate::ErrorV::Csv("unequal record lengths"@)
}

impl Target for StringTarget {
    open spec fn written(&self) -> Seq<Seq<Seq<char>>> {
        self.records_v()
    }

    fn write_headers(&mut self, headers: &Headers) -> (r: Result<(), Error>) {
        self.push_record(headers.get_row())
    }

    fn write_row(&mut self, row: &Row) -> (r: Result<(), Error>) {
        self.push_record(row)
    }
}

} // verus!
