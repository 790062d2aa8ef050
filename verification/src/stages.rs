//! What each operator stage does to a row stream, said as relations over
//! item views: one item in, one item (or none, for a filter) out, and a
//! failed upstream item passes through unchanged. The executable stage
//! loops live on [`crate::pipeline::Pipeline`] and promise exactly these
//! relations.
#![allow(unused_imports)]
use vstd::prelude::*;

use crate::headers::{get_field_v, Headers};
use crate::{Error, ErrorV, ItemV, PlErrorV, Row};

verus! {

/// A closure outcome `Ok(v)` is possible for `f` on headers and row
/// values with these views.
pub open spec fn add_col_ok<F: Fn(&Headers, &Row) -> Result<String, Error>>(
    f: F,
    names: Seq<Seq<char>>,
    row: Seq<Seq<char>>,
    v: Seq<char>,
) -> bool {
    exists|hs: Headers, rr: Row, s: String|
        hs@ == names && rr@ == row && s@ == v && #[trigger] call_ensures(
            f,
            (&hs, &rr),
            Ok::<String, Error>(s),
        )
}

/// A closure outcome `Err(e)` is possible for `f` on headers and row
/// values with these views.
pub open spec fn add_col_err<F: Fn(&Headers, &Row) -> Result<String, Error>>(
    f: F,
    names: Seq<Seq<char>>,
    row: Seq<Seq<char>>,
    e: ErrorV,
) -> bool {
    exists|hs: Headers, rr: Row, x: Error|
        hs@ == names && rr@ == row && x@ == e && #[trigger] call_ensures(
            f,
            (&hs, &rr),
            Err::<String, Error>(x),
        )
}

/// The add-column stage, item by item: an error passes through; a row
/// gains one field computed by the closure from the stage's headers
/// snapshot, or becomes the closure's error tagged with the source.
pub open spec fn add_col_rel<F: Fn(&Headers, &Row) -> Result<String, Error>>(
    f: F,
    names: Seq<Seq<char>>,
    source: int,
    a: ItemV,
    b: ItemV,
) -> bool {
    match a {
        Err(_) => b == a,
        Ok(row) => match b {
            Ok(row2) => exists|v: Seq<char>|
                #[trigger] add_col_ok(f, names, row, v) && row2 == row.push(v),
            Err(pe) => pe.source == source && add_col_err(f, names, row, pe.error),
        },
    }
}

/// A closure outcome `Ok(row2)` is possible for `f` on headers and row
/// values with these views.
pub open spec fn map_ok<F: Fn(&Headers, Row) -> Result<Row, Error>>(
    f: F,
    names: Seq<Seq<char>>,
    row: Seq<Seq<char>>,
    row2: Seq<Seq<char>>,
) -> bool {
    exists|hs: Headers, rr: Row, out: Row|
        hs@ == names && rr@ == row && out@ == row2 && #[trigger] call_ensures(
            f,
            (&hs, rr),
            Ok::<Row, Error>(out),
        )
}

/// A closure outcome `Err(e)` is possible for `f` on headers and row
/// values with these views.
pub open spec fn map_err<F: Fn(&Headers, Row) -> Result<Row, Error>>(
    f: F,
    names: Seq<Seq<char>>,
    row: Seq<Seq<char>>,
    e: ErrorV,
) -> bool {
    exists|hs: Headers, rr: Row, x: Error|
        hs@ == names && rr@ == row && x@ == e && #[trigger] call_ensures(
            f,
            (&hs, rr),
            Err::<Row, Error>(x),
        )
}

/// The map-row stage, item by item: an error passes through; a row is
/// replaced wholesale by the closure's row, or becomes the closure's
/// error tagged with the source.
pub open spec fn map_rel<F: Fn(&Headers, Row) -> Result<Row, Error>>(
    f: F,
    names: Seq<Seq<char>>,
    source: int,
    a: ItemV,
    b: ItemV,
) -> bool {
    match a {
        Err(_) => b == a,
        Ok(row) => match b {
            Ok(row2) => map_ok(f, names, row, row2),
            Err(pe) => pe.source == source && map_err(f, names, row, pe.error),
        },
    }
}

/// A closure outcome is possible for `f` on a field value with this view.
pub open spec fn map_col_out<F: Fn(&str) -> Result<String, Error>>(
    f: F,
    field: Seq<char>,
    out: Result<Seq<char>, ErrorV>,
) -> bool {
    exists|fs: &str, o: Result<String, Error>|
        fs@ == field && #[trigger] call_ensures(f, (fs,), o) && (match (o, out) {
            (Ok(s), Ok(v)) => s@ == v,
            (Err(x), Err(e)) => x@ == e,
            _ => false,
        })
}

/// The map-column stage, item by item, for the column position recorded
/// when the stage was attached (`None` if the name was not registered
/// then): an error passes through; the field at the position is replaced
/// by the closure's value; a missing position or a row too short becomes
/// a `MissingColumn` error, and a closure failure the closure's error,
/// each tagged with the source.
pub open spec fn map_col_rel<F: Fn(&str) -> Result<String, Error>>(
    f: F,
    name: Seq<char>,
    index: Option<int>,
    source: int,
    a: ItemV,
    b: ItemV,
) -> bool {
    match a {
        Err(_) => b == a,
        Ok(row) => match index {
            None => b == Err::<Seq<Seq<char>>, PlErrorV>(
                PlErrorV { error: ErrorV::MissingColumn(name), source },
            ),
            Some(i) => if !(0 <= i < row.len()) {
                b == Err::<Seq<Seq<char>>, PlErrorV>(
                    PlErrorV { error: ErrorV::MissingColumn(name), source },
                )
            } else {
                match b {
                    Ok(row2) => exists|v: Seq<char>|
                        #[trigger] map_col_out(f, row[i], Ok(v)) && row2 == row.update(i, v),
                    Err(pe) => pe.source == source && map_col_out(f, row[i], Err(pe.error)),
                }
            },
        },
    }
}

/// A truth value is a possible verdict of the predicate `f` on headers
/// and row values with these views.
pub open spec fn filter_verdict<F: Fn(&Headers, &Row) -> bool>(
    f: F,
    names: Seq<Seq<char>>,
    row: Seq<Seq<char>>,
    keep: bool,
) -> bool {
    exists|hs: Headers, rr: Row|
        hs@ == names && rr@ == row && #[trigger] call_ensures(f, (&hs, &rr), keep)
}

/// The filter stage over whole streams: errors pass through; each row is
/// kept or silently dropped according to a possible verdict of the
/// predicate on it.
pub open spec fn filter_rel<F: Fn(&Headers, &Row) -> bool>(
    f: F,
    names: Seq<Seq<char>>,
    a: Seq<ItemV>,
    b: Seq<ItemV>,
) -> bool
    decreases a.len(),
{
    if a.len() == 0 {
        b.len() == 0
    } else {
        match a.last() {
            Err(_) => b.len() > 0 && b.last() == a.last() && filter_rel(
                f,
                names,
                a.drop_last(),
                b.drop_last(),
            ),
            Ok(row) => (b.len() > 0 && b.last() == a.last() && filter_verdict(f, names, row, true)
                && filter_rel(f, names, a.drop_last(), b.drop_last())) || (filter_verdict(
                f,
                names,
                row,
                false,
            ) && filter_rel(f, names, a.drop_last(), b)),
        }
    }
}


/// A closure outcome is possible for the fallible predicate `f` on
/// headers and row values with these views.
pub open spec fn try_filter_verdict<F: Fn(&Headers, &Row) -> Result<bool, Error>>(
    f: F,
    names: Seq<Seq<char>>,
    row: Seq<Seq<char>>,
    out: Result<bool, ErrorV>,
) -> bool {
    exists|hs: Headers, rr: Row, o: Result<bool, Error>|
        hs@ == names && rr@ == row && #[trigger] call_ensures(f, (&hs, &rr), o) && (match (o, out) {
            (Ok(b1), Ok(b2)) => b1 == b2,
            (Err(x), Err(e)) => x@ == e,
            _ => false,
        })
}

/// The fallible filter stage over whole streams: errors pass through;
/// each row is kept or silently dropped according to a possible verdict
/// of the predicate on it, and a predicate failure puts the predicate's
/// error, tagged with the source, in the row's place.
pub open spec fn try_filter_rel<F: Fn(&Headers, &Row) -> Result<bool, Error>>(
    f: F,
    names: Seq<Seq<char>>,
    source: int,
    a: Seq<ItemV>,
    b: Seq<ItemV>,
) -> bool
    decreases a.len(),
{
    if a.len() == 0 {
        b.len() == 0
    } else {
        match a.last() {
            Err(_) => b.len() > 0 && b.last() == a.last() && try_filter_rel(
                f,
                names,
                source,
                a.drop_last(),
                b.drop_last(),
            ),
            Ok(row) => (b.len() > 0 && b.last() == a.last() && try_filter_verdict(
                f,
                names,
                row,
                Ok(true),
            ) && try_filter_rel(f, names, source, a.drop_last(), b.drop_last())) || (
            try_filter_verdict(f, names, row, Ok(false)) && try_filter_rel(
                f,
                names,
                source,
                a.drop_last(),
                b,
            )) || (b.len() > 0 && (b.last() matches Err(pe) && pe.source == source
                && try_filter_verdict(f, names, row, Err(pe.error))) && try_filter_rel(
                f,
                names,
                source,
                a.drop_last(),
                b.drop_last(),
            )),
        }
    }
}

/// A truth value is a possible verdict of the predicate `f` on a field
/// value with this view.
pub open spec fn field_verdict<F: Fn(&str) -> bool>(f: F, field: Seq<char>, keep: bool) -> bool {
    exists|fs: &str| fs@ == field && #[trigger] call_ensures(f, (fs,), keep)
}

/// The filter-column stage over whole streams: errors pass through; a row
/// whose named field is present is kept or dropped by a possible verdict
/// on that field; a row without the field becomes a `MissingColumn` error
/// tagged with the source.
pub open spec fn filter_col_rel<F: Fn(&str) -> bool>(
    f: F,
    names: Seq<Seq<char>>,
    name: Seq<char>,
    source: int,
    a: Seq<ItemV>,
    b: Seq<ItemV>,
) -> bool
    decreases a.len(),
{
    if a.len() == 0 {
        b.len() == 0
    } else {
        match a.last() {
            Err(_) => b.len() > 0 && b.last() == a.last() && filter_col_rel(
                f,
                names,
                name,
                source,
                a.drop_last(),
                b.drop_last(),
            ),
            Ok(row) => match get_field_v(names, row, name) {
                None => b.len() > 0 && b.last() == Err::<Seq<Seq<char>>, PlErrorV>(
                    PlErrorV { error: ErrorV::MissingColumn(name), source },
                ) && filter_col_rel(f, names, name, source, a.drop_last(), b.drop_last()),
                Some(field) => (b.len() > 0 && b.last() == a.last() && field_verdict(
                    f,
                    field,
                    true,
                ) && filter_col_rel(f, names, name, source, a.drop_last(), b.drop_last())) || (
                field_verdict(f, field, false) && filter_col_rel(
                    f,
                    names,
                    name,
                    source,
                    a.drop_last(),
                    b,
                )),
            },
        }
    }
}

/// The row that the select stage narrows `row` to, reading the columns at
/// or after `i` from the stage's headers snapshot; or the first missing
/// column's error.
pub open spec fn select_row_from(
    names: Seq<Seq<char>>,
    row: Seq<Seq<char>>,
    cols: Seq<Seq<char>>,
    i: int,
) -> Result<Seq<Seq<char>>, ErrorV>
    decreases cols.len() - i,
{
    if i < 0 || i >= cols.len() {
        Ok(Seq::empty())
    } else {
        match get_field_v(names, row, cols[i]) {
            None => Err(ErrorV::MissingColumn(cols[i])),
            Some(field) => match select_row_from(names, row, cols, i + 1) {
                Ok(rest) => Ok(seq![field] + rest),
                Err(e) => Err(e),
            },
        }
    }
}

/// The select stage, item by item: an error passes through; a row is
/// narrowed and reordered to the selected columns, or becomes the first
/// missing column's error tagged with the source.
pub open spec fn select_rel(
    names: Seq<Seq<char>>,
    cols: Seq<Seq<char>>,
    source: int,
    a: ItemV,
    b: ItemV,
) -> bool {
    match a {
        Err(_) => b == a,
        Ok(row) => match select_row_from(names, row, cols, 0) {
            Ok(row2) => b == Ok::<Seq<Seq<char>>, PlErrorV>(row2),
            Err(e) => b == Err::<Seq<Seq<char>>, PlErrorV>(PlErrorV { error: e, source }),
        },
    }
}

/// A closure outcome is possible for the validation `f` on headers and
/// row values with these views.
pub open spec fn validate_out<F: Fn(&Headers, &Row) -> Result<(), Error>>(
    f: F,
    names: Seq<Seq<char>>,
    row: Seq<Seq<char>>,
    out: Result<(), ErrorV>,
) -> bool {
    exists|hs: Headers, rr: Row, o: Result<(), Error>|
        hs@ == names && rr@ == row && #[trigger] call_ensures(f, (&hs, &rr), o) && (match (o, out) {
            (Ok(()), Ok(())) => true,
            (Err(x), Err(e)) => x@ == e,
            _ => false,
        })
}

/// The validate stage, item by item: an error passes through; a row
/// passes unchanged when the check accepts it, and becomes the check's
/// error tagged with the source when it does not.
pub open spec fn validate_rel<F: Fn(&Headers, &Row) -> Result<(), Error>>(
    f: F,
    names: Seq<Seq<char>>,
    source: int,
    a: ItemV,
    b: ItemV,
) -> bool {
    match a {
        Err(_) => b == a,
        Ok(row) => match b {
            Ok(row2) => row2 == row && validate_out(f, names, row, Ok(())),
            Err(pe) => pe.source == source && validate_out(f, names, row, Err(pe.error)),
        },
    }
}

/// A closure outcome is possible for the validation `f` on a field value
/// with this view.
pub open spec fn validate_col_out<F: Fn(&str) -> Result<(), Error>>(
    f: F,
    field: Seq<char>,
    out: Result<(), ErrorV>,
) -> bool {
    exists|fs: &str, o: Result<(), Error>|
        fs@ == field && #[trigger] call_ensures(f, (fs,), o) && (match (o, out) {
            (Ok(()), Ok(())) => true,
            (Err(x), Err(e)) => x@ == e,
            _ => false,
        })
}

/// The validate-column stage, item by item: an error passes through; a
/// row passes unchanged when the check accepts its named field; a missing
/// field becomes a `MissingColumn` error and a rejected field the check's
/// error, each tagged with the source.
pub open spec fn validate_col_rel<F: Fn(&str) -> Result<(), Error>>(
    f: F,
    names: Seq<Seq<char>>,
    name: Seq<char>,
    source: int,
    a: ItemV,
    b: ItemV,
) -> bool {
    match a {
        Err(_) => b == a,
        Ok(row) => match get_field_v(names, row, name) {
            None => b == Err::<Seq<Seq<char>>, PlErrorV>(
                PlErrorV { error: ErrorV::MissingColumn(name), source },
            ),
            Some(field) => match b {
                Ok(row2) => row2 == row && validate_col_out(f, field, Ok(())),
                Err(pe) => pe.source == source && validate_col_out(f, field, Err(pe.error)),
            },
        },
    }
}

/// The items of one source, re-tagged with the index of that source in a
/// multi-source chain.
pub open spec fn retag(items: Seq<ItemV>, source: int) -> Seq<ItemV> {
    items.map_values(
        |it: ItemV|
            match it {
                Ok(row) => Ok::<Seq<Seq<char>>, PlErrorV>(row),
                Err(e) => Err::<Seq<Seq<char>>, PlErrorV>(PlErrorV { error: e.error, source }),
            },
    )
}

/// The rows of a stream, in order, error items contributing nothing.
pub open spec fn ok_rows(items: Seq<ItemV>) -> Seq<Seq<Seq<char>>>
    decreases items.len(),
{
    if items.len() == 0 {
        Seq::empty()
    } else {
        match items.last() {
            Ok(row) => ok_rows(items.drop_last()).push(row),
            Err(_) => ok_rows(items.drop_last()),
        }
    }
}

/// The first error of a stream, if any.
pub open spec fn first_err(items: Seq<ItemV>) -> Option<PlErrorV>
    decreases items.len(),
{
    if items.len() == 0 {
        None
    } else {
        match items[0] {
            Err(e) => Some(e),
            Ok(_) => first_err(items.drop_first()),
        }
    }
}

/// A stream with no error up to `i` and an error at `i` has that error
/// first.
pub proof fn lemma_first_err_at(items: Seq<ItemV>, i: int)
    requires
        0 <= i < items.len(),
        items[i] is Err,
        forall|j: int| 0 <= j < i ==> items[j] is Ok,
    ensures
        first_err(items) == Some(items[i]->Err_0),
    decreases i,
{
    if i == 0 {
    } else {
        assert(items[0] is Ok);
        assert forall|j: int| 0 <= j < i - 1 implies items.drop_first()[j] is Ok by {
            assert(items.drop_first()[j] == items[j + 1]);
        }
        assert(items.drop_first()[i - 1] == items[i]);
        lemma_first_err_at(items.drop_first(), i - 1);
    }
}

/// A stream of rows only has no first error.
pub proof fn lemma_first_err_none(items: Seq<ItemV>)
    requires
        forall|j: int| 0 <= j < items.len() ==> items[j] is Ok,
    ensures
        first_err(items) is None,
    decreases items.len(),
{
    if items.len() > 0 {
        assert forall|j: int| 0 <= j < items.len() - 1 implies items.drop_first()[j] is Ok by {
            assert(items.drop_first()[j] == items[j + 1]);
        }
        lemma_first_err_none(items.drop_first());
    }
}

} // verus!
