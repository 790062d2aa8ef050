//! The named-column layout shared by all rows of a pipeline stage: an
//! ordered list of column names together with the name-to-position mapping
//! that the list induces. The names are kept unique; every name maps to
//! exactly one valid position.
#![allow(unused_imports)]
use vstd::prelude::*;

use crate::strings::{str_eq, u128_str, u128_to_string};
use crate::Row;
use vstd::string::StringExecFns;

verus! {

/// No name occurs twice.
pub open spec fn unique_names(names: Seq<Seq<char>>) -> bool {
    forall|i: int, j: int| 0 <= i < j < names.len() ==> names[i] != names[j]
}

/// Some position holds `name`.
pub open spec fn has_col(names: Seq<Seq<char>>, name: Seq<char>) -> bool {
    exists|i: int| 0 <= i < names.len() && names[i] == name
}

/// The first position at or after `i` that holds `name`.
pub open spec fn find_col_from(names: Seq<Seq<char>>, name: Seq<char>, i: int) -> Option<int>
    decreases names.len() - i,
{
    if i < 0 || i >= names.len() {
        None
    } else if names[i] == name {
        Some(i)
    } else {
        find_col_from(names, name, i + 1)
    }
}

/// The first position that holds `name`, if any.
pub open spec fn find_col(names: Seq<Seq<char>>, name: Seq<char>) -> Option<int> {
    find_col_from(names, name, 0)
}

/// The field of `row` under the column named `name`: position lookup in the
/// names, then row indexing; `None` if the name is absent or the row is
/// shorter than the recorded position.
pub open spec fn get_field_v(
    names: Seq<Seq<char>>,
    row: Seq<Seq<char>>,
    name: Seq<char>,
) -> Option<Seq<char>> {
    match find_col(names, name) {
        Some(i) => if i < row.len() {
            Some(row[i])
        } else {
            None
        },
        None => None,
    }
}

/// The first position whose name already occurred earlier, if any.
pub open spec fn first_dup(names: Seq<Seq<char>>) -> Option<int>
    decreases names.len(),
{
    if names.len() == 0 {
        None
    } else {
        match first_dup(names.drop_last()) {
            Some(i) => Some(i),
            None => if has_col(names.drop_last(), names.last()) {
                Some(names.len() - 1)
            } else {
                None
            },
        }
    }
}

/// What `find_col_from` finds is the first occurrence at or after `i`.
pub proof fn lemma_find_col_from(names: Seq<Seq<char>>, name: Seq<char>, i: int)
    requires
        0 <= i,
    ensures
        match find_col_from(names, name, i) {
            Some(j) => i <= j < names.len() && names[j] == name && (forall|k: int|
                i <= k < j ==> names[k] != name),
            None => forall|k: int| i <= k < names.len() ==> names[k] != name,
        },
    decreases names.len() - i,
{
    if i < names.len() && names[i] != name {
        lemma_find_col_from(names, name, i + 1);
    }
}

/// `find_col` succeeds exactly on present names, and finds the first
/// occurrence.
pub proof fn lemma_find_col(names: Seq<Seq<char>>, name: Seq<char>)
    ensures
        (find_col(names, name) is Some) <==> has_col(names, name),
        match find_col(names, name) {
            Some(j) => 0 <= j < names.len() && names[j] == name && (forall|k: int|
                0 <= k < j ==> names[k] != name),
            None => !has_col(names, name),
        },
{
    lemma_find_col_from(names, name, 0);
}

/// Under unique names, the name at position `i` is found exactly at `i`.
pub proof fn lemma_find_col_unique(names: Seq<Seq<char>>, i: int)
    requires
        unique_names(names),
        0 <= i < names.len(),
    ensures
        find_col(names, names[i]) == Some(i),
{
    lemma_find_col(names, names[i]);
    match find_col(names, names[i]) {
        Some(j) => {
            if j != i {
                assert(names[j] == names[i]);
            }
        },
        None => {
            assert(has_col(names, names[i]));
        },
    }
}

/// Law: under unique column names, looking a row's field up by the name at
/// position `i` yields exactly the row's field at position `i`, for every
/// row of matching arity. Together with the contracts of `push_field` and
/// `rename` (which say how the name list evolves), this pins down
/// `get_field` after any successful sequence of pushes and renames.
pub proof fn lemma_field_of_expected(names: Seq<Seq<char>>, row: Seq<Seq<char>>, i: int)
    requires
        unique_names(names),
        row.len() == names.len(),
        0 <= i < names.len(),
    ensures
        get_field_v(names, row, names[i]) == Some(row[i]),
{
    lemma_find_col_unique(names, i);
}

/// Each law below carries `first_dup` across one appended name.
proof fn lemma_first_dup_push(s: Seq<Seq<char>>, x: Seq<char>)
    ensures
        first_dup(s) is None && !has_col(s, x) ==> first_dup(s.push(x)) is None,
        first_dup(s) is None && has_col(s, x) ==> first_dup(s.push(x)) == Some(s.len() as int),
        first_dup(s) is Some ==> first_dup(s.push(x)) == first_dup(s),
{
    assert(s.push(x).drop_last() =~= s);
    assert(s.push(x).last() == x);
}

/// A duplicate found in a prefix stays the first duplicate of the whole.
proof fn lemma_first_dup_of_take(s: Seq<Seq<char>>, k: int, i: int)
    requires
        0 <= k <= s.len(),
        first_dup(s.take(k)) == Some(i),
    ensures
        first_dup(s) == Some(i),
    decreases s.len() - k,
{
    if k == s.len() {
        assert(s.take(k) =~= s);
    } else {
        lemma_first_dup_push(s.take(k), s[k]);
        assert(s.take(k).push(s[k]) =~= s.take(k + 1));
        lemma_first_dup_of_take(s, k + 1, i);
    }
}

/// Having no first duplicate is the same as having unique names.
pub proof fn lemma_first_dup_none_unique(s: Seq<Seq<char>>)
    ensures
        (first_dup(s) is None) <==> unique_names(s),
    decreases s.len(),
{
    if s.len() == 0 {
    } else {
        let p = s.drop_last();
        lemma_first_dup_none_unique(p);
        if first_dup(s) is None {
            assert forall|i: int, j: int| 0 <= i < j < s.len() implies s[i] != s[j] by {
                if j < s.len() - 1 {
                    assert(p[i] != p[j]);
                } else {
                    assert(!has_col(p, s.last()));
                    assert(p[i] == s[i]);
                }
            }
        } else {
            if first_dup(p) is Some {
                let (a, b) = choose|a: int, b: int| 0 <= a < b < p.len() && p[a] == p[b];
                assert(s[a] == s[b]);
            } else {
                assert(has_col(p, s.last()));
                let w = choose|w: int| 0 <= w < p.len() && p[w] == s.last();
                assert(s[w] == s[s.len() - 1]);
            }
        }
    }
}

/// The reason a rename of a column failed.
#[derive(Debug, Clone, Copy, PartialEq, Eq)]
pub enum RenameError {
    /// The new name already exists, at this position.
    DuplicateColumn(usize),
    /// The old name does not exist.
    MissingColumn,
}

impl RenameError {
    /// A human-readable description of the failure.
    pub fn to_message(&self) -> (r: String)
        ensures
            match self {
                RenameError::DuplicateColumn(i) => r@ == "Duplicate column at index "@ + u128_str(
                    *i as nat,
                ),
                RenameError::MissingColumn => r@ == "Missing column"@,
            },
    {
        match self {
            RenameError::DuplicateColumn(i) => {
                let mut s = "Duplicate column at index ".to_owned();
                s.append(u128_to_string(*i as u128).as_str());
                s
            },
            RenameError::MissingColumn => "Missing column".to_owned(),
        }
    }
}

/// The headers of a row stream: the ordered list of unique column names.
#[derive(Debug, Clone, PartialEq, Eq)]
pub struct Headers {
    row: Row,
}

impl View for Headers {
    type V = Seq<Seq<char>>;

    closed spec fn view(&self) -> Seq<Seq<char>> {
        self.row@
    }
}

impl Headers {
    /// The headers' invariant: column names are unique, so every name maps
    /// to exactly one position.
    pub open spec fn wf(&self) -> bool {
        unique_names(self@)
    }

    /// Headers with no columns.
    pub fn new() -> (h: Headers)
        ensures
            h@ == Seq::<Seq<char>>::empty(),
            h.wf(),
    {
        Headers { row: Row::new() }
    }

    /// The first position of the column named `name`, if present.
    pub fn get_index(&self, name: &str) -> (r: Option<usize>)
        ensures
            match r {
                Some(u) => find_col(self@, name@) == Some(u as int),
                None => find_col(self@, name@) is None,
            },
    {
        let n = self.row.len();
        let mut i: usize = 0;
        while i < n
            invariant
                n == self@.len(),
                i <= n,
                find_col(self@, name@) == find_col_from(self@, name@, i as int),
            decreases n - i,
        {
            if str_eq(self.row.field(i).as_str(), name) {
                return Some(i);
            }
            i += 1;
        }
        None
    }

    /// Whether a column of this name exists.
    pub fn contains(&self, name: &str) -> (r: bool)
        ensures
            r == has_col(self@, name@),
    {
        proof {
            lemma_find_col(self@, name@);
        }
        match self.get_index(name) {
            Some(_) => true,
            None => false,
        }
    }

    /// The field of `row` under the column named `name`: position lookup,
    /// then row indexing; `None` if the name is absent or the row is
    /// shorter than the recorded position.
    pub fn get_field<'a>(&self, row: &'a Row, name: &str) -> (r: Option<&'a str>)
        ensures
            match r {
                Some(s) => get_field_v(self@, row@, name@) == Some(s@),
                None => get_field_v(self@, row@, name@) is None,
            },
    {
        match self.get_index(name) {
            Some(i) => if i < row.len() {
                Some(row.field(i).as_str())
            } else {
                None
            },
            None => None,
        }
    }

    /// An independent copy of these headers.
    pub fn duplicate(&self) -> (h: Headers)
        ensures
            h@ == self@,
    {
        Headers { row: self.row.duplicate() }
    }

    /// The canonical header row.
    pub fn get_row(&self) -> (r: &Row)
        ensures
            r@ == self@,
    {
        &self.row
    }

    /// The canonical header row, as an owned value.
    pub fn into_row(self) -> (r: Row)
        ensures
            r@ == self@,
    {
        self.row
    }

    /// Appends a new column named `name`; returns `false`, changing
    /// nothing, if the name already exists.
    pub fn push_field(&mut self, name: &str) -> (added: bool)
        requires
            old(self).wf(),
        ensures
            final(self).wf(),
            added == !has_col(old(self)@, name@),
            added ==> final(self)@ == old(self)@.push(name@),
            !added ==> final(self)@ == old(self)@,
    {
        if self.contains(name) {
            return false;
        }
        self.row.push_field(name);
        proof {
            let names = old(self)@;
            assert forall|i: int, j: int| 0 <= i < j < self@.len() implies self@[i] != self@[j] by {
                if j < names.len() {
                    assert(names[i] != names[j]);
                } else {
                    assert(!(exists|k: int| 0 <= k < names.len() && names[k] == name@));
                }
            }
        }
        true
    }

    /// Renames the column `from` to `to`, keeping its position; fails with
    /// `DuplicateColumn` if `to` already exists (even when `to == from`),
    /// and with `MissingColumn` if `from` is absent. A failed rename
    /// changes nothing.
    pub fn rename(&mut self, from: &str, to: &str) -> (r: Result<(), RenameError>)
        requires
            old(self).wf(),
        ensures
            final(self).wf(),
            match r {
                Ok(()) => !has_col(old(self)@, to@) && (find_col(old(self)@, from@) matches Some(i)
                    && final(self)@ == old(self)@.update(i, to@)),
                Err(RenameError::DuplicateColumn(i)) => find_col(old(self)@, to@) == Some(i as int)
                    && final(self)@ == old(self)@,
                Err(RenameError::MissingColumn) => !has_col(old(self)@, to@) && !has_col(
                    old(self)@,
                    from@,
                ) && final(self)@ == old(self)@,
            },
    {
        proof {
            lemma_find_col(old(self)@, to@);
            lemma_find_col(old(self)@, from@);
        }
        if let Some(i) = self.get_index(to) {
            return Err(RenameError::DuplicateColumn(i));
        }
        let index = match self.get_index(from) {
            Some(index) => index,
            None => {
                return Err(RenameError::MissingColumn);
            },
        };
        self.row.set_field(index, to);
        proof {
            let names = old(self)@;
            assert forall|i: int, j: int| 0 <= i < j < self@.len() implies self@[i] != self@[j] by {
                assert(names[i] != names[j]);
                if i == index {
                    assert(!(exists|k: int| 0 <= k < names.len() && names[k] == to@));
                }
                if j == index {
                    assert(!(exists|k: int| 0 <= k < names.len() && names[k] == to@));
                }
            }
        }
        Ok(())
    }

    /// Builds headers from a header row, validating uniqueness while
    /// building; if a column is duplicated, fails with that column's name.
    pub fn from_row(row: Row) -> (r: Result<Headers, String>)
        ensures
            match r {
                Ok(h) => h.wf() && h@ == row@ && first_dup(row@) is None,
                Err(name) => (first_dup(row@) matches Some(i) && name@ == row@[i]),
            },
    {
        let mut header = Headers::new();
        let n = row.len();
        let mut i: usize = 0;
        while i < n
            invariant
                n == row@.len(),
                i <= n,
                header.wf(),
                header@ =~= row@.take(i as int),
                first_dup(row@.take(i as int)) is None,
            decreases n - i,
        {
            let field = row.field(i);
            let added = header.push_field(field.as_str());
            proof {
                lemma_first_dup_push(row@.take(i as int), row@[i as int]);
                assert(row@.take(i as int).push(row@[i as int]) =~= row@.take(i + 1));
            }
            if !added {
                proof {
                    lemma_first_dup_of_take(row@, i + 1, i as int);
                }
                return Err(field.clone());
            }
            i += 1;
        }
        proof {
            assert(row@.take(n as int) =~= row@);
        }
        Ok(header)
    }
}

} // verus!
