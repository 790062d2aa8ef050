//! The pipeline: an ordered composition of operator stages over one row
//! stream. The stream is held as a sequence of items and each attached
//! stage maps it whole, item by item, in input order; a stage closes over
//! its own snapshot of the evolving headers, so later stages may evolve
//! theirs without affecting it. Errors are values in the stream, not
//! exceptions, and one bad row does not poison the stream. The
//! group-by/reduce stage is the one barrier even in this eager setting:
//! nothing of it is emitted before everything went in.
#![allow(unused_imports)]
use vstd::prelude::*;

use crate::csv_text::{
    csv_header_of, csv_line_of, csv_rows_of, read_header, read_rows, record_matches,
};
use crate::group::{engine_output, engine_run, run_group_reduce};
use crate::reduce::{
    c_counts_bounded, c_engine_output, c_engine_trace_ok, custom_names, run_group_reduce_custom,
    CEngineV, CustomTransform,
};
use crate::headers::{
    find_col, first_dup, get_field_v, has_col, lemma_find_col, lemma_first_dup_none_unique,
    unique_names, Headers,
};
use crate::stages::{
    add_col_err, add_col_ok, add_col_rel, field_verdict, filter_col_rel, filter_rel,
    filter_verdict, first_err, map_col_out, map_col_rel, map_err, map_ok, map_rel, ok_rows,
    retag, select_rel, select_row_from, try_filter_rel, try_filter_verdict, validate_col_out,
    validate_col_rel, validate_out, validate_rel,
};
use crate::target::{StringTarget, Target};
use crate::transform::{counts_bounded, transform_names, Transform};
use crate::{
    duplicate_item, item_view, items_view, Error, ErrorV, ItemV, PlError, PlErrorV, Row, RowResult,
};
use vstd::string::StringExecFns;

verus! {

/// One parsed record turned into a stream item: a read error becomes a
/// stream error tagged with source 0.
pub open spec fn csv_item_v(m: Result<Seq<Seq<char>>, Seq<char>>) -> ItemV {
    match m {
        Ok(row) => Ok(row),
        Err(msg) => Err(PlErrorV { error: ErrorV::Csv(msg), source: 0 }),
    }
}

/// The delimited lines of the rows of a stream, error items contributing
/// nothing.
pub open spec fn lines_of(items: Seq<ItemV>) -> Seq<char>
    decreases items.len(),
{
    if items.len() == 0 {
        Seq::empty()
    } else {
        lines_of(items.drop_last()) + (match items.last() {
            Ok(row) => csv_line_of(row),
            Err(_) => Seq::empty(),
        })
    }
}

/// The possible outcomes of a column-renaming closure on one position and
/// name.
pub open spec fn rename_out<R: Fn(usize, &str) -> String>(
    f: R,
    i: int,
    name: Seq<char>,
    out: Seq<char>,
) -> bool {
    exists|u: usize, s: &str, o: String|
        u == i && s@ == name && o@ == out && #[trigger] call_ensures(f, (u, s), o)
}

/// A chain of operator stages over one row stream: the current headers,
/// the index of the source the stream came from, and the stream itself.
#[derive(Debug)]
pub struct Pipeline {
    headers: Headers,
    source: usize,
    items: Vec<RowResult>,
}

impl Pipeline {
    /// A pipeline's headers always keep their names unique.
    #[verifier::type_invariant]
    spec fn inv(&self) -> bool {
        self.headers.wf()
    }

    /// The column names of the rows this pipeline yields.
    pub closed spec fn headers_v(&self) -> Seq<Seq<char>> {
        self.headers@
    }

    /// The index of the source this pipeline reads from.
    pub closed spec fn source_v(&self) -> int {
        self.source as int
    }

    /// The stream this pipeline yields, item by item.
    pub closed spec fn items_v(&self) -> Seq<ItemV> {
        items_view(self.items@)
    }

    /// The current headers.
    pub fn headers(&self) -> (h: &Headers)
        ensures
            h@ == self.headers_v(),
            h.wf(),
    {
        proof {
            use_type_invariant(&*self);
        }
        &self.headers
    }

    /// Builds a pipeline over the given rows; the first row is the header
    /// row and fails with `DuplicateColumn` if a name repeats, the rest
    /// are the stream.
    pub fn from_rows(records: Vec<Row>) -> (r: Result<Pipeline, PlError>)
        requires
            records@.len() > 0,
        ensures
            ({
                let rv = records.deep_view();
                match r {
                    Ok(p) => first_dup(rv[0]) is None && p.headers_v() == rv[0] && p.source_v()
                        == 0 && p.items_v() == rv.drop_first().map_values(
                        |x: Seq<Seq<char>>| Ok::<Seq<Seq<char>>, PlErrorV>(x),
                    ),
                    Err(e) => (first_dup(rv[0]) matches Some(i) && e@ == (PlErrorV {
                        error: ErrorV::DuplicateColumn(rv[0][i]),
                        source: 0,
                    })),
                }
            }),
    {
        let ghost rv = records.deep_view();
        let headers = match Headers::from_row(records[0].duplicate()) {
            Ok(h) => h,
            Err(name) => {
                return Err(Error::DuplicateColumn(name).at_source(0));
            },
        };
        let mut items: Vec<RowResult> = Vec::new();
        let n = records.len();
        let mut i: usize = 1;
        while i < n
            invariant
                n == rv.len(),
                rv == records.deep_view(),
                1 <= i <= n,
                items@.len() == i - 1,
                forall|k: int|
                    0 <= k < i - 1 ==> item_view(#[trigger] items@[k]) == Ok::<
                        Seq<Seq<char>>,
                        PlErrorV,
                    >(rv[k + 1]),
            decreases n - i,
        {
            items.push(Ok(records[i].duplicate()));
            i += 1;
        }
        proof {
            assert(items_view(items@) =~= rv.drop_first().map_values(
                |x: Seq<Seq<char>>| Ok::<Seq<Seq<char>>, PlErrorV>(x),
            ));
        }
        Ok(Pipeline { headers, source: 0, items })
    }

    /// Builds a pipeline over ready-made stream items under the given
    /// header row, which fails with `DuplicateColumn` if a name repeats.
    /// This is the seam for outer code that reads records itself: a
    /// record it could not read comes in as an error item and stays a
    /// value in the stream.
    pub fn from_row_results(header: Row, records: Vec<RowResult>) -> (r: Result<Pipeline, PlError>)
        ensures
            match r {
                Ok(p) => first_dup(header@) is None && p.headers_v() == header@ && p.source_v()
                    == 0 && p.items_v() == items_view(records@),
                Err(e) => (first_dup(header@) matches Some(i) && e@ == (PlErrorV {
                    error: ErrorV::DuplicateColumn(header@[i]),
                    source: 0,
                })),
            },
    {
        let headers = match Headers::from_row(header) {
            Ok(h) => h,
            Err(name) => {
                return Err(Error::DuplicateColumn(name).at_source(0));
            },
        };
        Ok(Pipeline { headers, source: 0, items: records })
    }

    /// Builds a pipeline over comma-delimited text; the first record is
    /// the header row and fails with `DuplicateColumn` if a name repeats,
    /// the data records are the stream, read errors becoming stream
    /// errors.
    pub fn from_csv_string(text: &str) -> (r: Result<Pipeline, PlError>)
        ensures
            ({
                let hv = csv_header_of(text@);
                match r {
                    Ok(p) => first_dup(hv) is None && p.headers_v() == hv && p.source_v() == 0
                        && p.items_v() == csv_rows_of(text@).map_values(
                        |m: Result<Seq<Seq<char>>, Seq<char>>| csv_item_v(m),
                    ),
                    Err(e) => (first_dup(hv) matches Some(i) && e@ == (PlErrorV {
                        error: ErrorV::DuplicateColumn(hv[i]),
                        source: 0,
                    })),
                }
            }),
    {
        let header_row = read_header(text);
        let headers = match Headers::from_row(header_row) {
            Ok(h) => h,
            Err(name) => {
                return Err(Error::DuplicateColumn(name).at_source(0));
            },
        };
        let records = read_rows(text);
        let ghost mv = csv_rows_of(text@);
        let mut items: Vec<RowResult> = Vec::new();
        let n = records.len();
        let mut i: usize = 0;
        while i < n
            invariant
                n == records@.len(),
                n == mv.len(),
                forall|k: int| 0 <= k < n ==> record_matches(#[trigger] records@[k], mv[k]),
                i <= n,
                items@.len() == i,
                forall|k: int| 0 <= k < i ==> item_view(#[trigger] items@[k]) == csv_item_v(mv[k]),
            decreases n - i,
        {
            match &records[i] {
                Ok(row) => {
                    items.push(Ok(row.duplicate()));
                },
                Err(msg) => {
                    items.push(Err(Error::Csv(msg.clone()).at_source(0)));
                },
            }
            i += 1;
        }
        proof {
            assert(items_view(items@) =~= mv.map_values(
                |m: Result<Seq<Seq<char>>, Seq<char>>| csv_item_v(m),
            ));
        }
        Ok(Pipeline { headers, source: 0, items })
    }

    /// Merges multiple source pipelines into one: all rows of source `i`
    /// come before all rows of source `i + 1`, each error re-tagged with
    /// its source's index. A source whose headers differ from the first
    /// source's yields one `MismatchedHeaders` error tagged with its
    /// index, and the chain stops there: no later source contributes
    /// anything.
    pub fn from_pipelines(pipelines: Vec<Pipeline>) -> (r: Pipeline)
        ensures
            r.source_v() == 0,
            pipelines@.len() == 0 ==> r.headers_v() == Seq::<Seq<char>>::empty() && r.items_v()
                == Seq::<ItemV>::empty(),
            pipelines@.len() > 0 ==> r.headers_v() == pipelines@[0].headers_v() && r.items_v()
                == retag(pipelines@[0].items_v(), 0) + chain_from(pipelines@, 1),
    {
        if pipelines.len() == 0 {
            return Pipeline { headers: Headers::new(), source: 0, items: Vec::new() };
        }
        let first = &pipelines[0];
        proof {
            use_type_invariant(first);
        }
        let base = first.headers.duplicate();
        let mut items: Vec<RowResult> = Vec::new();
        let n = pipelines.len();
        retag_into(&mut items, &pipelines[0].items, 0);
        let ghost base_v = base@;
        let mut idx: usize = 1;
        while idx < n
            invariant
                n == pipelines@.len(),
                1 <= idx <= n,
                base_v == pipelines@[0].headers_v(),
                base@ == base_v,
                base.wf(),
                items_view(items@) == retag(pipelines@[0].items_v(), 0) + chain_prefix(
                    pipelines@,
                    1,
                    idx as int,
                ),
                forall|j: int| 1 <= j < idx ==> pipelines@[j].headers_v() == base_v,
            decreases n - idx,
        {
            let p = &pipelines[idx];
            let ghost iv0 = items_view(items@);
            if !p.headers.get_row().eq_row(base.get_row()) {
                let ghost mev = Err::<Seq<Seq<char>>, PlErrorV>(
                    PlErrorV {
                        error: ErrorV::MismatchedHeaders(
                            base_v,
                            pipelines@[idx as int].headers_v(),
                        ),
                        source: idx as int,
                    },
                );
                items.push(
                    Err(
                        Error::MismatchedHeaders(
                            base.get_row().duplicate(),
                            p.headers.get_row().duplicate(),
                        ).at_source(idx),
                    ),
                );
                proof {
                    assert(item_view(items@.last()) == mev);
                    assert(items_view(items@) =~= iv0.push(mev));
                    lemma_chain_from_mismatch(pipelines@, base_v, 1, idx as int);
                    assert(chain_from(pipelines@, 1) == chain_prefix(pipelines@, 1, idx as int)
                        + seq![mev]);
                    assert(items_view(items@) =~= retag(pipelines@[0].items_v(), 0) + chain_from(
                        pipelines@,
                        1,
                    ));
                }
                return Pipeline { headers: base, source: 0, items };
            }
            retag_into(&mut items, &p.items, idx);
            proof {
                assert(items_view(items@) =~= retag(pipelines@[0].items_v(), 0) + (chain_prefix(
                    pipelines@,
                    1,
                    idx as int,
                ) + retag(pipelines@[idx as int].items_v(), idx as int)));
                lemma_chain_prefix_extend(pipelines@, base_v, 1, idx as int);
            }
            idx += 1;
        }
        proof {
            lemma_chain_from_done(pipelines@, base_v, 1, n as int);
        }
        Pipeline { headers: base, source: 0, items }
    }

    /// Adds a column named `name`, which must not exist yet, so that the
    /// new name is pushed onto the headers before the stage runs; the
    /// closure computes one value per row from the stage's headers
    /// snapshot (which already shows the new name) and the row, and the
    /// closure's error replaces the row in the stream.
    pub fn add_col<F: Fn(&Headers, &Row) -> Result<String, Error>>(
        self,
        name: &str,
        get_value: F,
    ) -> (r: Pipeline)
        requires
            !has_col(self.headers_v(), name@),
            forall|args: (&Headers, &Row)| #[trigger] call_requires(get_value, args),
        ensures
            r.source_v() == self.source_v(),
            r.headers_v() == self.headers_v().push(name@),
            r.items_v().len() == self.items_v().len(),
            forall|k: int|
                0 <= k < self.items_v().len() ==> add_col_rel(
                    get_value,
                    r.headers_v(),
                    self.source_v(),
                    self.items_v()[k],
                    #[trigger] r.items_v()[k],
                ),
    {
        proof {
            use_type_invariant(&self);
        }
        let Pipeline { mut headers, source, items } = self;
        headers.push_field(name);
        let ghost names = headers@;
        let ghost itemsv = items_view(items@);
        let mut out: Vec<RowResult> = Vec::new();
        let n = items.len();
        let mut i: usize = 0;
        while i < n
            invariant
                n == items@.len(),
                itemsv == items_view(items@),
                names == headers@,
                i <= n,
                out@.len() == i,
                forall|args: (&Headers, &Row)| #[trigger] call_requires(get_value, args),
                forall|k: int|
                    0 <= k < i ==> add_col_rel(
                        get_value,
                        names,
                        source as int,
                        itemsv[k],
                        item_view(#[trigger] out@[k]),
                    ),
            decreases n - i,
        {
            proof {
                assert(itemsv[i as int] == item_view(items@[i as int]));
            }
            match &items[i] {
                Err(e) => {
                    out.push(Err(e.duplicate()));
                },
                Ok(row) => {
                    match get_value(&headers, row) {
                        Ok(v) => {
                            proof {
                                assert(call_ensures(
                                    get_value,
                                    (&headers, row),
                                    Ok::<String, Error>(v),
                                ));
                                assert(add_col_ok(get_value, names, row@, v@));
                            }
                            let mut row2 = row.duplicate();
                            row2.push_field(v.as_str());
                            out.push(Ok(row2));
                            proof {
                                assert(exists|vv: Seq<char>|
                                    #[trigger] add_col_ok(get_value, names, row@, vv) && row@.push(
                                        v@,
                                    ) == row@.push(vv));
                                assert(itemsv[i as int] matches Ok(rp) && rp == row@);
                                assert(add_col_rel(
                                    get_value,
                                    names,
                                    source as int,
                                    itemsv[i as int],
                                    item_view(out@[i as int]),
                                ));
                            }
                        },
                        Err(e) => {
                            proof {
                                assert(call_ensures(
                                    get_value,
                                    (&headers, row),
                                    Err::<String, Error>(e),
                                ));
                                assert(add_col_err(get_value, names, row@, e@));
                            }
                            out.push(Err(e.at_source(source)));
                        },
                    }
                },
            }
            i += 1;
        }
        Pipeline { headers, source, items: out }
    }

    /// Replaces each row wholesale by the closure's row; the closure's
    /// error replaces the row in the stream.
    pub fn map<F: Fn(&Headers, Row) -> Result<Row, Error>>(self, get_row: F) -> (r: Pipeline)
        requires
            forall|args: (&Headers, Row)| #[trigger] call_requires(get_row, args),
        ensures
            r.source_v() == self.source_v(),
            r.headers_v() == self.headers_v(),
            r.items_v().len() == self.items_v().len(),
            forall|k: int|
                0 <= k < self.items_v().len() ==> map_rel(
                    get_row,
                    self.headers_v(),
                    self.source_v(),
                    self.items_v()[k],
                    #[trigger] r.items_v()[k],
                ),
    {
        proof {
            use_type_invariant(&self);
        }
        let Pipeline { headers, source, items } = self;
        let ghost names = headers@;
        let ghost itemsv = items_view(items@);
        let mut out: Vec<RowResult> = Vec::new();
        let n = items.len();
        let mut i: usize = 0;
        while i < n
            invariant
                n == items@.len(),
                itemsv == items_view(items@),
                names == headers@,
                i <= n,
                out@.len() == i,
                forall|args: (&Headers, Row)| #[trigger] call_requires(get_row, args),
                forall|k: int|
                    0 <= k < i ==> map_rel(
                        get_row,
                        names,
                        source as int,
                        itemsv[k],
                        item_view(#[trigger] out@[k]),
                    ),
            decreases n - i,
        {
            proof {
                assert(itemsv[i as int] == item_view(items@[i as int]));
            }
            match &items[i] {
                Err(e) => {
                    out.push(Err(e.duplicate()));
                },
                Ok(row) => {
                    let dup = row.duplicate();
                    let ghost dupg = dup;
                    match get_row(&headers, dup) {
                        Ok(row2) => {
                            proof {
                                assert(call_ensures(
                                    get_row,
                                    (&headers, dupg),
                                    Ok::<Row, Error>(row2),
                                ));
                                assert(map_ok(get_row, names, row@, row2@));
                            }
                            out.push(Ok(row2));
                        },
                        Err(e) => {
                            proof {
                                assert(call_ensures(
                                    get_row,
                                    (&headers, dupg),
                                    Err::<Row, Error>(e),
                                ));
                                assert(map_err(get_row, names, row@, e@));
                            }
                            out.push(Err(e.at_source(source)));
                        },
                    }
                },
            }
            i += 1;
        }
        Pipeline { headers, source, items: out }
    }

    /// Maps each field of the column named `col` through the closure,
    /// using the column position recorded when the stage is attached; a
    /// row without that position becomes a `MissingColumn` error, and the
    /// closure's error replaces the row in the stream.
    pub fn map_col<F: Fn(&str) -> Result<String, Error>>(self, col: &str, get_value: F) -> (r:
        Pipeline)
        requires
            forall|args: (&str,)| #[trigger] call_requires(get_value, args),
        ensures
            r.source_v() == self.source_v(),
            r.headers_v() == self.headers_v(),
            r.items_v().len() == self.items_v().len(),
            forall|k: int|
                0 <= k < self.items_v().len() ==> map_col_rel(
                    get_value,
                    col@,
                    find_col(self.headers_v(), col@),
                    self.source_v(),
                    self.items_v()[k],
                    #[trigger] r.items_v()[k],
                ),
    {
        proof {
            use_type_invariant(&self);
        }
        let Pipeline { headers, source, items } = self;
        let index = headers.get_index(col);
        let ghost names = headers@;
        let ghost idxv = find_col(names, col@);
        let ghost itemsv = items_view(items@);
        let mut out: Vec<RowResult> = Vec::new();
        let n = items.len();
        let mut i: usize = 0;
        while i < n
            invariant
                n == items@.len(),
                itemsv == items_view(items@),
                i <= n,
                out@.len() == i,
                match index {
                    Some(u) => idxv == Some(u as int),
                    None => idxv is None,
                },
                forall|args: (&str,)| #[trigger] call_requires(get_value, args),
                forall|k: int|
                    0 <= k < i ==> map_col_rel(
                        get_value,
                        col@,
                        idxv,
                        source as int,
                        itemsv[k],
                        item_view(#[trigger] out@[k]),
                    ),
            decreases n - i,
        {
            proof {
                assert(itemsv[i as int] == item_view(items@[i as int]));
            }
            match &items[i] {
                Err(e) => {
                    out.push(Err(e.duplicate()));
                },
                Ok(row) => {
                    match index {
                        None => {
                            out.push(Err(Error::MissingColumn(col.to_owned()).at_source(source)));
                        },
                        Some(u) => {
                            if u >= row.len() {
                                out.push(
                                    Err(Error::MissingColumn(col.to_owned()).at_source(source)),
                                );
                            } else {
                                let field = row.field(u).as_str();
                                match get_value(field) {
                                    Ok(v) => {
                                        proof {
                                            assert(call_ensures(
                                                get_value,
                                                (field,),
                                                Ok::<String, Error>(v),
                                            ));
                                            assert(map_col_out(
                                                get_value,
                                                row@[u as int],
                                                Ok(v@),
                                            ));
                                        }
                                        let mut row2 = row.duplicate();
                                        row2.set_field(u, v.as_str());
                                        out.push(Ok(row2));
                                        proof {
                                            assert(exists|vv: Seq<char>|
                                                #[trigger] map_col_out(
                                                    get_value,
                                                    row@[u as int],
                                                    Ok(vv),
                                                ) && row@.update(u as int, v@) == row@.update(
                                                    u as int,
                                                    vv,
                                                ));
                                            assert(itemsv[i as int] matches Ok(rp) && rp == row@);
                                            assert(map_col_rel(
                                                get_value,
                                                col@,
                                                idxv,
                                                source as int,
                                                itemsv[i as int],
                                                item_view(out@[i as int]),
                                            ));
                                        }
                                    },
                                    Err(e) => {
                                        proof {
                                            assert(call_ensures(
                                                get_value,
                                                (field,),
                                                Err::<String, Error>(e),
                                            ));
                                            assert(map_col_out(
                                                get_value,
                                                row@[u as int],
                                                Err(e@),
                                            ));
                                        }
                                        out.push(Err(e.at_source(source)));
                                    },
                                }
                            }
                        },
                    }
                },
            }
            i += 1;
        }
        Pipeline { headers, source, items: out }
    }

    /// Keeps the rows for which the predicate holds and silently drops
    /// the rest; errors pass through.
    pub fn filter<F: Fn(&Headers, &Row) -> bool>(self, get_row: F) -> (r: Pipeline)
        requires
            forall|args: (&Headers, &Row)| #[trigger] call_requires(get_row, args),
        ensures
            r.source_v() == self.source_v(),
            r.headers_v() == self.headers_v(),
            filter_rel(get_row, self.headers_v(), self.items_v(), r.items_v()),
    {
        proof {
            use_type_invariant(&self);
        }
        let Pipeline { headers, source, items } = self;
        let ghost names = headers@;
        let ghost itemsv = items_view(items@);
        let mut out: Vec<RowResult> = Vec::new();
        let n = items.len();
        let mut i: usize = 0;
        while i < n
            invariant
                n == items@.len(),
                itemsv == items_view(items@),
                names == headers@,
                i <= n,
                forall|args: (&Headers, &Row)| #[trigger] call_requires(get_row, args),
                filter_rel(get_row, names, itemsv.take(i as int), items_view(out@)),
            decreases n - i,
        {
            let ghost outv = items_view(out@);
            proof {
                assert(itemsv.take(i + 1).drop_last() =~= itemsv.take(i as int));
                assert(itemsv.take(i + 1).last() == itemsv[i as int]);
            }
            proof {
                assert(itemsv[i as int] == item_view(items@[i as int]));
            }
            match &items[i] {
                Err(e) => {
                    out.push(Err(e.duplicate()));
                    proof {
                        assert(items_view(out@).drop_last() =~= outv);
                    }
                },
                Ok(row) => {
                    if get_row(&headers, row) {
                        proof {
                            assert(call_ensures(get_row, (&headers, row), true));
                            assert(filter_verdict(get_row, names, row@, true));
                        }
                        out.push(Ok(row.duplicate()));
                        proof {
                            assert(items_view(out@).drop_last() =~= outv);
                        }
                    } else {
                        proof {
                            assert(call_ensures(get_row, (&headers, row), false));
                            assert(filter_verdict(get_row, names, row@, false));
                        }
                    }
                },
            }
            i += 1;
        }
        proof {
            assert(itemsv.take(n as int) =~= itemsv);
        }
        Pipeline { headers, source, items: out }
    }

    /// Keeps the rows for which the fallible predicate answers true and
    /// silently drops those it answers false; a predicate failure puts
    /// the predicate's error, tagged with the source, in the row's place;
    /// errors pass through, and the stream stays pollable after one.
    pub fn try_filter<F: Fn(&Headers, &Row) -> Result<bool, Error>>(self, get_row: F) -> (r:
        Pipeline)
        requires
            forall|args: (&Headers, &Row)| #[trigger] call_requires(get_row, args),
        ensures
            r.source_v() == self.source_v(),
            r.headers_v() == self.headers_v(),
            try_filter_rel(
                get_row,
                self.headers_v(),
                self.source_v(),
                self.items_v(),
                r.items_v(),
            ),
    {
        proof {
            use_type_invariant(&self);
        }
        let Pipeline { headers, source, items } = self;
        let ghost names = headers@;
        let ghost itemsv = items_view(items@);
        let mut out: Vec<RowResult> = Vec::new();
        let n = items.len();
        let mut i: usize = 0;
        while i < n
            invariant
                n == items@.len(),
                itemsv == items_view(items@),
                names == headers@,
                i <= n,
                forall|args: (&Headers, &Row)| #[trigger] call_requires(get_row, args),
                try_filter_rel(
                    get_row,
                    names,
                    source as int,
                    itemsv.take(i as int),
                    items_view(out@),
                ),
            decreases n - i,
        {
            let ghost outv = items_view(out@);
            proof {
                assert(itemsv.take(i + 1).drop_last() =~= itemsv.take(i as int));
                assert(itemsv.take(i + 1).last() == itemsv[i as int]);
                assert(itemsv[i as int] == item_view(items@[i as int]));
            }
            match &items[i] {
                Err(e) => {
                    out.push(Err(e.duplicate()));
                    proof {
                        assert(items_view(out@).drop_last() =~= outv);
                    }
                },
                Ok(row) => {
                    let res = get_row(&headers, row);
                    let ghost resg = res;
                    proof {
                        assert(call_ensures(get_row, (&headers, row), resg));
                    }
                    match res {
                        Ok(keep) => {
                            if keep {
                                proof {
                                    assert(try_filter_verdict(get_row, names, row@, Ok(true)));
                                }
                                out.push(Ok(row.duplicate()));
                                proof {
                                    assert(items_view(out@).drop_last() =~= outv);
                                }
                            } else {
                                proof {
                                    assert(try_filter_verdict(get_row, names, row@, Ok(false)));
                                }
                            }
                        },
                        Err(e) => {
                            proof {
                                assert(try_filter_verdict(get_row, names, row@, Err(e@)));
                            }
                            out.push(Err(e.at_source(source)));
                            proof {
                                assert(items_view(out@).drop_last() =~= outv);
                            }
                        },
                    }
                },
            }
            i += 1;
        }
        proof {
            assert(itemsv.take(n as int) =~= itemsv);
        }
        Pipeline { headers, source, items: out }
    }

    /// Keeps the rows whose field in the column named `name` satisfies
    /// the predicate and silently drops the rest; a row without the field
    /// becomes a `MissingColumn` error; errors pass through.
    pub fn filter_col<F: Fn(&str) -> bool>(self, name: &str, get_row: F) -> (r: Pipeline)
        requires
            forall|args: (&str,)| #[trigger] call_requires(get_row, args),
        ensures
            r.source_v() == self.source_v(),
            r.headers_v() == self.headers_v(),
            filter_col_rel(
                get_row,
                self.headers_v(),
                name@,
                self.source_v(),
                self.items_v(),
                r.items_v(),
            ),
    {
        proof {
            use_type_invariant(&self);
        }
        let Pipeline { headers, source, items } = self;
        let ghost names = headers@;
        let ghost itemsv = items_view(items@);
        let mut out: Vec<RowResult> = Vec::new();
        let n = items.len();
        let mut i: usize = 0;
        while i < n
            invariant
                n == items@.len(),
                itemsv == items_view(items@),
                names == headers@,
                i <= n,
                forall|args: (&str,)| #[trigger] call_requires(get_row, args),
                filter_col_rel(
                    get_row,
                    names,
                    name@,
                    source as int,
                    itemsv.take(i as int),
                    items_view(out@),
                ),
            decreases n - i,
        {
            let ghost outv = items_view(out@);
            proof {
                assert(itemsv.take(i + 1).drop_last() =~= itemsv.take(i as int));
                assert(itemsv.take(i + 1).last() == itemsv[i as int]);
            }
            proof {
                assert(itemsv[i as int] == item_view(items@[i as int]));
            }
            match &items[i] {
                Err(e) => {
                    out.push(Err(e.duplicate()));
                    proof {
                        assert(items_view(out@).drop_last() =~= outv);
                    }
                },
                Ok(row) => {
                    match headers.get_field(row, name) {
                        None => {
                            out.push(Err(Error::MissingColumn(name.to_owned()).at_source(source)));
                            proof {
                                assert(items_view(out@).drop_last() =~= outv);
                            }
                        },
                        Some(field) => {
                            if get_row(field) {
                                proof {
                                    assert(call_ensures(get_row, (field,), true));
                                    assert(field_verdict(get_row, field@, true));
                                }
                                out.push(Ok(row.duplicate()));
                                proof {
                                    assert(items_view(out@).drop_last() =~= outv);
                                }
                            } else {
                                proof {
                                    assert(call_ensures(get_row, (field,), false));
                                    assert(field_verdict(get_row, field@, false));
                                }
                            }
                        },
                    }
                },
            }
            i += 1;
        }
        proof {
            assert(itemsv.take(n as int) =~= itemsv);
        }
        Pipeline { headers, source, items: out }
    }

    /// Picks which columns to output, in the given order, which must not
    /// repeat a name; a row missing one of them becomes the first missing
    /// column's error.
    pub fn select(self, columns: Vec<&str>) -> (r: Pipeline)
        requires
            unique_names(columns.deep_view()),
        ensures
            r.source_v() == self.source_v(),
            r.headers_v() == columns.deep_view(),
            r.items_v().len() == self.items_v().len(),
            forall|k: int|
                0 <= k < self.items_v().len() ==> select_rel(
                    self.headers_v(),
                    columns.deep_view(),
                    self.source_v(),
                    self.items_v()[k],
                    #[trigger] r.items_v()[k],
                ),
    {
        proof {
            use_type_invariant(&self);
        }
        let Pipeline { headers, source, items } = self;
        let ghost names = headers@;
        let ghost cols = columns.deep_view();
        let ghost itemsv = items_view(items@);
        let mut out: Vec<RowResult> = Vec::new();
        let n = items.len();
        let mut i: usize = 0;
        while i < n
            invariant
                n == items@.len(),
                itemsv == items_view(items@),
                names == headers@,
                cols == columns.deep_view(),
                i <= n,
                out@.len() == i,
                forall|k: int|
                    0 <= k < i ==> select_rel(
                        names,
                        cols,
                        source as int,
                        itemsv[k],
                        item_view(#[trigger] out@[k]),
                    ),
            decreases n - i,
        {
            proof {
                assert(itemsv[i as int] == item_view(items@[i as int]));
            }
            match &items[i] {
                Err(e) => {
                    out.push(Err(e.duplicate()));
                },
                Ok(row) => {
                    match select_fields(&headers, row, &columns, source) {
                        Ok(row2) => {
                            out.push(Ok(row2));
                        },
                        Err(e) => {
                            out.push(Err(e));
                        },
                    }
                },
            }
            i += 1;
        }
        let mut name_row = Row::new();
        let m = columns.len();
        let mut j: usize = 0;
        while j < m
            invariant
                m == columns@.len(),
                cols == columns.deep_view(),
                j <= m,
                name_row@ =~= cols.take(j as int),
            decreases m - j,
        {
            name_row.push_field(columns[j]);
            proof {
                assert(name_row@ =~= cols.take(j + 1));
            }
            j += 1;
        }
        proof {
            assert(name_row@ =~= cols);
        }
        let new_headers = match Headers::from_row(name_row) {
            Ok(h) => h,
            Err(_) => {
                proof {
                    lemma_first_dup_none_unique(cols);
                    assert(false);
                }
                Headers::new()
            },
        };
        proof {
            lemma_first_dup_none_unique(cols);
        }
        Pipeline { headers: new_headers, source, items: out }
    }

    /// Renames the column `from` to `to`, which must exist and not exist
    /// respectively; the rows are untouched, only the headers change, at
    /// the column's position.
    pub fn rename_col(self, from: &str, to: &str) -> (r: Pipeline)
        requires
            has_col(self.headers_v(), from@),
            !has_col(self.headers_v(), to@),
        ensures
            r.source_v() == self.source_v(),
            (find_col(self.headers_v(), from@) matches Some(i) && r.headers_v()
                == self.headers_v().update(i, to@)),
            r.items_v() == self.items_v(),
    {
        proof {
            use_type_invariant(&self);
        }
        let Pipeline { mut headers, source, items } = self;
        proof {
            lemma_find_col(headers@, from@);
            lemma_find_col(headers@, to@);
        }
        match headers.rename(from, to) {
            Ok(()) => {},
            Err(_) => {
                proof {
                    assert(false);
                }
            },
        }
        Pipeline { headers, source, items }
    }

    /// Renames every column through the closure, which is given each
    /// position and name in order; fails with `DuplicateColumn` if two
    /// new names collide. The rows are untouched.
    pub fn rename_cols<R: Fn(usize, &str) -> String>(self, get_name: R) -> (r: Result<
        Pipeline,
        Error,
    >)
        requires
            forall|args: (usize, &str)| #[trigger] call_requires(get_name, args),
        ensures
            match r {
                Ok(p) => p.source_v() == self.source_v() && p.items_v() == self.items_v()
                    && p.headers_v().len() == self.headers_v().len() && unique_names(p.headers_v())
                    && (forall|i: int|
                    0 <= i < p.headers_v().len() ==> rename_out(
                        get_name,
                        i,
                        self.headers_v()[i],
                        #[trigger] p.headers_v()[i],
                    )),
                Err(e) => (e@ matches ErrorV::DuplicateColumn(nm) && exists|i: int|
                    0 <= i < self.headers_v().len() && rename_out(
                        get_name,
                        i,
                        self.headers_v()[i],
                        nm,
                    )),
            },
    {
        proof {
            use_type_invariant(&self);
        }
        let Pipeline { headers, source, items } = self;
        let ghost names = headers@;
        let mut new_headers = Headers::new();
        let n = headers.get_row().len();
        let mut i: usize = 0;
        while i < n
            invariant
                n == names.len(),
                names == headers@,
                names == self.headers_v(),
                i <= n,
                new_headers.wf(),
                new_headers@.len() == i,
                forall|k: int|
                    0 <= k < i ==> rename_out(
                        get_name,
                        k,
                        names[k],
                        #[trigger] new_headers@[k],
                    ),
                forall|args: (usize, &str)| #[trigger] call_requires(get_name, args),
            decreases n - i,
        {
            let old_name = headers.get_row().field(i).as_str();
            let new_name = get_name(i, old_name);
            proof {
                assert(call_ensures(get_name, (i, old_name), new_name));
                assert(rename_out(get_name, i as int, names[i as int], new_name@));
            }
            let added = new_headers.push_field(new_name.as_str());
            if !added {
                proof {
                    assert(0 <= (i as int) < self.headers_v().len() && rename_out(
                        get_name,
                        i as int,
                        self.headers_v()[i as int],
                        new_name@,
                    ));
                }
                return Err(Error::DuplicateColumn(new_name));
            }
            i += 1;
        }
        Ok(Pipeline { headers: new_headers, source, items })
    }

    /// Checks each row and passes it through unchanged; a row the check
    /// rejects becomes the check's error.
    pub fn validate<F: Fn(&Headers, &Row) -> Result<(), Error>>(self, f: F) -> (r: Pipeline)
        requires
            forall|args: (&Headers, &Row)| #[trigger] call_requires(f, args),
        ensures
            r.source_v() == self.source_v(),
            r.headers_v() == self.headers_v(),
            r.items_v().len() == self.items_v().len(),
            forall|k: int|
                0 <= k < self.items_v().len() ==> validate_rel(
                    f,
                    self.headers_v(),
                    self.source_v(),
                    self.items_v()[k],
                    #[trigger] r.items_v()[k],
                ),
    {
        proof {
            use_type_invariant(&self);
        }
        let Pipeline { headers, source, items } = self;
        let ghost names = headers@;
        let ghost itemsv = items_view(items@);
        let mut out: Vec<RowResult> = Vec::new();
        let n = items.len();
        let mut i: usize = 0;
        while i < n
            invariant
                n == items@.len(),
                itemsv == items_view(items@),
                names == headers@,
                i <= n,
                out@.len() == i,
                forall|args: (&Headers, &Row)| #[trigger] call_requires(f, args),
                forall|k: int|
                    0 <= k < i ==> validate_rel(
                        f,
                        names,
                        source as int,
                        itemsv[k],
                        item_view(#[trigger] out@[k]),
                    ),
            decreases n - i,
        {
            proof {
                assert(itemsv[i as int] == item_view(items@[i as int]));
            }
            match &items[i] {
                Err(e) => {
                    out.push(Err(e.duplicate()));
                },
                Ok(row) => {
                    let res = f(&headers, row);
                    let ghost resg = res;
                    proof {
                        assert(call_ensures(f, (&headers, row), resg));
                    }
                    match res {
                        Ok(()) => {
                            proof {
                                assert(validate_out(f, names, row@, Ok(())));
                            }
                            out.push(Ok(row.duplicate()));
                        },
                        Err(e) => {
                            proof {
                                assert(validate_out(f, names, row@, Err(e@)));
                            }
                            out.push(Err(e.at_source(source)));
                        },
                    }
                },
            }
            i += 1;
        }
        Pipeline { headers, source, items: out }
    }

    /// Checks the field of the column named `name` in each row and passes
    /// the row through unchanged; a row without the field becomes a
    /// `MissingColumn` error, and a rejected field the check's error.
    pub fn validate_col<F: Fn(&str) -> Result<(), Error>>(self, name: &str, f: F) -> (r: Pipeline)
        requires
            forall|args: (&str,)| #[trigger] call_requires(f, args),
        ensures
            r.source_v() == self.source_v(),
            r.headers_v() == self.headers_v(),
            r.items_v().len() == self.items_v().len(),
            forall|k: int|
                0 <= k < self.items_v().len() ==> validate_col_rel(
                    f,
                    self.headers_v(),
                    name@,
                    self.source_v(),
                    self.items_v()[k],
                    #[trigger] r.items_v()[k],
                ),
    {
        proof {
            use_type_invariant(&self);
        }
        let Pipeline { headers, source, items } = self;
        let ghost names = headers@;
        let ghost itemsv = items_view(items@);
        let mut out: Vec<RowResult> = Vec::new();
        let n = items.len();
        let mut i: usize = 0;
        while i < n
            invariant
                n == items@.len(),
                itemsv == items_view(items@),
                names == headers@,
                i <= n,
                out@.len() == i,
                forall|args: (&str,)| #[trigger] call_requires(f, args),
                forall|k: int|
                    0 <= k < i ==> validate_col_rel(
                        f,
                        names,
                        name@,
                        source as int,
                        itemsv[k],
                        item_view(#[trigger] out@[k]),
                    ),
            decreases n - i,
        {
            proof {
                assert(itemsv[i as int] == item_view(items@[i as int]));
            }
            match &items[i] {
                Err(e) => {
                    out.push(Err(e.duplicate()));
                },
                Ok(row) => {
                    match headers.get_field(row, name) {
                        None => {
                            out.push(Err(Error::MissingColumn(name.to_owned()).at_source(source)));
                        },
                        Some(field) => {
                            let res = f(field);
                            let ghost resg = res;
                            proof {
                                assert(call_ensures(f, (field,), resg));
                            }
                            match res {
                                Ok(()) => {
                                    proof {
                                        assert(validate_col_out(f, field@, Ok(())));
                                    }
                                    out.push(Ok(row.duplicate()));
                                },
                                Err(e) => {
                                    proof {
                                        assert(validate_col_out(f, field@, Err(e@)));
                                    }
                                    out.push(Err(e.at_source(source)));
                                },
                            }
                        },
                    }
                },
            }
            i += 1;
        }
        Pipeline { headers, source, items: out }
    }

    /// Groups and reduces the rows into a new stream: one output column
    /// per reducer, whose names must not collide; rows are bucketed by
    /// the key-defining reducers, groups emitted in first-seen order once
    /// the input is exhausted, exactly as the ghost engine says.
    pub fn transform_into(self, transformers: Vec<Transform>) -> (r: Pipeline)
        requires
            unique_names(transform_names(transformers.deep_view())),
            counts_bounded(transformers.deep_view(), self.items_v().len() as nat),
        ensures
            r.source_v() == self.source_v(),
            r.headers_v() == transform_names(transformers.deep_view()),
            r.items_v() == engine_output(
                engine_run(
                    transformers.deep_view(),
                    self.headers_v(),
                    self.items_v(),
                    self.source_v(),
                ),
            ),
    {
        proof {
            use_type_invariant(&self);
        }
        let Pipeline { headers, source, items } = self;
        let ghost tsv = transformers.deep_view();
        let out = run_group_reduce(&transformers, &headers, &items, source);
        let mut name_row = Row::new();
        let m = transformers.len();
        let mut j: usize = 0;
        while j < m
            invariant
                m == transformers@.len(),
                tsv == transformers.deep_view(),
                j <= m,
                name_row@ =~= transform_names(tsv).take(j as int),
            decreases m - j,
        {
            name_row.push_field(transformers[j].name().as_str());
            proof {
                assert(name_row@ =~= transform_names(tsv).take(j + 1));
            }
            j += 1;
        }
        proof {
            assert(name_row@ =~= transform_names(tsv));
        }
        let new_headers = match Headers::from_row(name_row) {
            Ok(h) => h,
            Err(_) => {
                proof {
                    lemma_first_dup_none_unique(transform_names(tsv));
                    assert(false);
                }
                Headers::new()
            },
        };
        proof {
            lemma_first_dup_none_unique(transform_names(tsv));
        }
        Pipeline { headers: new_headers, source, items: out }
    }

    /// Groups and reduces the rows into a new stream with a custom
    /// reducer set: one output column per reducer, whose names must not
    /// collide; a custom column is folded by `fold`, shared by every
    /// custom column of this stage; rows are bucketed by the key-defining
    /// reducers and groups emitted in first-seen order once the input is
    /// exhausted, as a run of the relational custom engine.
    pub fn transform_into_custom<F: Fn(&str, &str) -> Result<String, Error>>(
        self,
        transformers: Vec<CustomTransform>,
        fold: F,
    ) -> (r: Pipeline)
        requires
            unique_names(custom_names(transformers.deep_view())),
            c_counts_bounded(transformers.deep_view(), self.items_v().len() as nat),
            forall|args: (&str, &str)| #[trigger] call_requires(fold, args),
        ensures
            r.source_v() == self.source_v(),
            r.headers_v() == custom_names(transformers.deep_view()),
            exists|trace: Seq<CEngineV>|
                #[trigger] c_engine_trace_ok(
                    fold,
                    transformers.deep_view(),
                    self.headers_v(),
                    self.items_v(),
                    self.source_v(),
                    trace,
                ) && r.items_v() == c_engine_output(trace.last()),
    {
        proof {
            use_type_invariant(&self);
        }
        let Pipeline { headers, source, items } = self;
        let ghost tsv = transformers.deep_view();
        let out = run_group_reduce_custom(&transformers, &headers, &items, source, &fold);
        proof {
            let trace = choose|trace: Seq<CEngineV>|
                c_engine_trace_ok(fold, tsv, headers@, items_view(items@), source as int, trace)
                    && items_view(out@) == c_engine_output(trace.last());
            assert(c_engine_trace_ok(
                fold,
                transformers.deep_view(),
                self.headers_v(),
                self.items_v(),
                self.source_v(),
                trace,
            ));
            assert(items_view(out@) == c_engine_output(trace.last()));
        }
        let mut name_row = Row::new();
        let m = transformers.len();
        let mut j: usize = 0;
        while j < m
            invariant
                m == transformers@.len(),
                tsv == transformers.deep_view(),
                j <= m,
                name_row@ =~= custom_names(tsv).take(j as int),
            decreases m - j,
        {
            name_row.push_field(transformers[j].name().as_str());
            proof {
                assert(name_row@ =~= custom_names(tsv).take(j + 1));
            }
            j += 1;
        }
        proof {
            assert(name_row@ =~= custom_names(tsv));
        }
        let new_headers = match Headers::from_row(name_row) {
            Ok(h) => h,
            Err(_) => {
                proof {
                    lemma_first_dup_none_unique(custom_names(tsv));
                    assert(false);
                }
                Headers::new()
            },
        };
        proof {
            lemma_first_dup_none_unique(custom_names(tsv));
        }
        Pipeline { headers: new_headers, source, items: out }
    }

    /// Writes the stream to the given sink: the headers once, then each
    /// row in order. When the sink takes the header row, it receives
    /// after it exactly the rows that stay rows in the returned stream,
    /// in order; a row the sink refused is replaced in the stream by a
    /// source-tagged error and reaches the sink no further. When the sink
    /// refuses the header row, one source-tagged error stands at the
    /// front of the stream and the sink receives nothing.
    pub fn flush<T: Target>(self, target: &mut T) -> (r: Pipeline)
        ensures
            r.source_v() == self.source_v(),
            r.headers_v() == self.headers_v(),
            (r.items_v().len() == self.items_v().len() + 1 && (r.items_v()[0] matches Err(pe)
                && pe.source == self.source_v()) && r.items_v().skip(1) == self.items_v()
                && final(target).written() == old(target).written()) || (r.items_v().len() == self.items_v().len()
                && (forall|j: int|
                0 <= j < self.items_v().len() ==> (#[trigger] r.items_v()[j] == self.items_v()[j]
                    || (self.items_v()[j] is Ok && (r.items_v()[j] matches Err(pe) && pe.source
                    == self.source_v())))) && final(target).written()
                == old(target).written().push(self.headers_v()) + ok_rows(r.items_v())),
    {
        proof {
            use_type_invariant(&self);
        }
        let Pipeline { headers, source, items } = self;
        let ghost itemsv = items_view(items@);
        let ghost hv = headers@;
        let mut out: Vec<RowResult> = Vec::new();
        match target.write_headers(&headers) {
            Err(e) => {
                out.push(Err(e.at_source(source)));
                let n = items.len();
                let mut i: usize = 0;
                while i < n
                    invariant
                        n == items@.len(),
                        itemsv == items_view(items@),
                        out@.len() == i + 1,
                        i <= n,
                        item_view(out@[0]) matches Err(pe) && pe.source == source as int,
                        forall|k: int|
                            0 <= k < i ==> item_view(#[trigger] out@[k + 1]) == itemsv[k],
                    decreases n - i,
                {
                    out.push(duplicate_item(&items[i]));
                    i += 1;
                }
                proof {
                    assert(items_view(out@).skip(1) =~= itemsv);
                }
                return Pipeline { headers, source, items: out };
            },
            Ok(()) => {},
        }
        let n = items.len();
        let mut i: usize = 0;
        proof {
            assert(old(target).written().push(hv) + ok_rows(items_view(out@)) =~= target.written());
        }
        while i < n
            invariant
                n == items@.len(),
                itemsv == items_view(items@),
                hv == headers@,
                out@.len() == i,
                i <= n,
                target.written() == old(target).written().push(hv) + ok_rows(items_view(out@)),
                forall|k: int|
                    0 <= k < i ==> (item_view(#[trigger] out@[k]) == itemsv[k] || (itemsv[k] is Ok
                        && (item_view(out@[k]) matches Err(pe) && pe.source == source as int))),
            decreases n - i,
        {
            let ghost outv0 = items_view(out@);
            proof {
                assert(itemsv[i as int] == item_view(items@[i as int]));
            }
            match &items[i] {
                Err(e) => {
                    out.push(Err(e.duplicate()));
                    proof {
                        assert(items_view(out@).drop_last() =~= outv0);
                        assert(ok_rows(items_view(out@)) == ok_rows(outv0));
                    }
                },
                Ok(row) => {
                    match target.write_row(row) {
                        Ok(()) => {
                            out.push(Ok(row.duplicate()));
                            proof {
                                assert(items_view(out@).drop_last() =~= outv0);
                                assert(ok_rows(items_view(out@)) == ok_rows(outv0).push(row@));
                                assert(old(target).written().push(hv) + ok_rows(outv0).push(row@)
                                    =~= (old(target).written().push(hv) + ok_rows(outv0)).push(
                                    row@,
                                ));
                            }
                        },
                        Err(e) => {
                            out.push(Err(e.at_source(source)));
                            proof {
                                assert(items_view(out@).drop_last() =~= outv0);
                                assert(ok_rows(items_view(out@)) == ok_rows(outv0));
                            }
                        },
                    }
                },
            }
            i += 1;
        }
        Pipeline { headers, source, items: out }
    }

    /// Turns the pipeline into an iterator over its stream.
    pub fn build(self) -> (r: PipelineIter)
        ensures
            r.headers_v() == self.headers_v(),
            r.items_v() == self.items_v(),
            r.pos_v() == 0,
    {
        proof {
            use_type_invariant(&self);
        }
        let Pipeline { headers, source: _, items } = self;
        PipelineIter { headers, items, pos: 0 }
    }

    /// Runs through the whole stream; returns the first error found, if
    /// any.
    pub fn run(self) -> (r: Result<(), PlError>)
        ensures
            match r {
                Ok(()) => first_err(self.items_v()) is None,
                Err(e) => first_err(self.items_v()) == Some(e@),
            },
    {
        let mut iter = self.build();
        let ghost itemsv = iter.items_v();
        let r = iter.run();
        proof {
            assert(itemsv.skip(0) =~= itemsv);
        }
        r
    }

    /// Runs the stream into in-memory delimited text: the header line,
    /// then one line per row. Stops at the first error of the stream, or
    /// at the first row whose arity differs from the headers', and
    /// returns that error instead.
    pub fn collect_into_string(self) -> (r: Result<String, PlError>)
        ensures
            match r {
                Ok(s) => (forall|j: int|
                    0 <= j < self.items_v().len() ==> (#[trigger] self.items_v()[j] matches Ok(row)
                        && row.len() == self.headers_v().len())) && s@ == csv_line_of(
                    self.headers_v(),
                ) + lines_of(self.items_v()),
                Err(e) => exists|i: int|
                    0 <= i < self.items_v().len() && (forall|j: int|
                        0 <= j < i ==> (#[trigger] self.items_v()[j] matches Ok(row) && row.len()
                            == self.headers_v().len())) && ((self.items_v()[i] matches Err(pe)
                        && e@ == pe) || (#[trigger] self.items_v()[i] matches Ok(row) && row.len()
                        != self.headers_v().len() && e@ == (PlErrorV {
                        error: crate::target::unequal_lengths_error(),
                        source: self.source_v(),
                    }))),
            },
    {
        proof {
            use_type_invariant(&self);
        }
        let Pipeline { headers, source, items } = self;
        let ghost names = headers@;
        let ghost itemsv = items_view(items@);
        let mut sink = StringTarget::new();
        match sink.push_record(headers.get_row()) {
            Ok(()) => {},
            Err(_) => {
                proof {
                    assert(false);
                }
            },
        }
        let n = items.len();
        let mut i: usize = 0;
        while i < n
            invariant
                n == items@.len(),
                itemsv == items_view(items@),
                names == headers@,
                names == self.headers_v(),
                itemsv == self.items_v(),
                source as int == self.source_v(),
                i <= n,
                sink.expected_v() == Some(names.len() as int),
                sink.text_v() == csv_line_of(names) + lines_of(itemsv.take(i as int)),
                forall|j: int|
                    0 <= j < i ==> (#[trigger] itemsv[j] matches Ok(row) && row.len()
                        == names.len()),
            decreases n - i,
        {
            proof {
                assert(itemsv.take(i + 1).drop_last() =~= itemsv.take(i as int));
                assert(itemsv.take(i + 1).last() == itemsv[i as int]);
            }
            proof {
                assert(itemsv[i as int] == item_view(items@[i as int]));
            }
            match &items[i] {
                Err(e) => {
                    return Err(e.duplicate());
                },
                Ok(row) => {
                    match sink.push_record(row) {
                        Ok(()) => {},
                        Err(e) => {
                            return Err(e.at_source(source));
                        },
                    }
                },
            }
            i += 1;
        }
        proof {
            assert(itemsv.take(n as int) =~= itemsv);
        }
        Ok(sink.into_string())
    }
}

/// The fields of `row` under the selected columns, in order; or the first
/// missing column's error, tagged with the source.
fn select_fields(headers: &Headers, row: &Row, columns: &Vec<&str>, source: usize) -> (r: Result<
    Row,
    PlError,
>)
    ensures
        match r {
            Ok(row2) => select_row_from(headers@, row@, columns.deep_view(), 0) == Ok::<
                Seq<Seq<char>>,
                ErrorV,
            >(row2@),
            Err(pe) => pe@.source == source as int && select_row_from(
                headers@,
                row@,
                columns.deep_view(),
                0,
            ) == Err::<Seq<Seq<char>>, ErrorV>(pe@.error),
        },
{
    let ghost names = headers@;
    let ghost cols = columns.deep_view();
    let mut fields = Row::new();
    let m = columns.len();
    let mut j: usize = 0;
    while j < m
        invariant
            m == columns@.len(),
            cols == columns.deep_view(),
            names == headers@,
            j <= m,
            select_row_from(names, row@, cols, 0) == (match select_row_from(
                names,
                row@,
                cols,
                j as int,
            ) {
                Ok(rest) => Ok::<Seq<Seq<char>>, ErrorV>(fields@ + rest),
                Err(e) => Err::<Seq<Seq<char>>, ErrorV>(e),
            }),
        decreases m - j,
    {
        match headers.get_field(row, columns[j]) {
            None => {
                return Err(Error::MissingColumn(columns[j].to_owned()).at_source(source));
            },
            Some(field) => {
                let ghost fields0 = fields@;
                fields.push_field(field);
                proof {
                    assert(fields@ + (match select_row_from(names, row@, cols, j + 1) {
                        Ok(rest) => rest,
                        Err(_) => Seq::empty(),
                    }) =~= fields0 + (seq![field@] + (match select_row_from(
                        names,
                        row@,
                        cols,
                        j + 1,
                    ) {
                        Ok(rest) => rest,
                        Err(_) => Seq::empty(),
                    })));
                }
            },
        }
        j += 1;
    }
    proof {
        assert(fields@ + Seq::<Seq<char>>::empty() =~= fields@);
    }
    Ok(fields)
}

/// Appends one source's items, re-tagged with that source's index.
fn retag_into(out: &mut Vec<RowResult>, items: &Vec<RowResult>, source: usize)
    ensures
        items_view(final(out)@) == items_view(old(out)@) + retag(
            items_view(items@),
            source as int,
        ),
{
    let ghost out0 = items_view(old(out)@);
    let ghost itemsv = items_view(items@);
    let n = items.len();
    let mut i: usize = 0;
    while i < n
        invariant
            n == items@.len(),
            itemsv == items_view(items@),
            out0 == items_view(old(out)@),
            out@.len() == old(out)@.len() + i,
            i <= n,
            forall|k: int| 0 <= k < out0.len() ==> item_view(#[trigger] out@[k]) == out0[k],
            forall|k: int|
                0 <= k < i ==> item_view(#[trigger] out@[out0.len() + k]) == retag(
                    itemsv,
                    source as int,
                )[k],
        decreases n - i,
    {
        proof {
            assert(itemsv[i as int] == item_view(items@[i as int]));
        }
        match &items[i] {
            Ok(row) => {
                out.push(Ok(row.duplicate()));
            },
            Err(e) => {
                out.push(Err(e.error.duplicate().at_source(source)));
            },
        }
        proof {
            assert(item_view(out@[out0.len() + i as int]) == retag(itemsv, source as int)[i as int]);
        }
        i += 1;
    }
    proof {
        let rt = retag(itemsv, source as int);
        assert forall|k: int|
            0 <= k < items_view(out@).len() implies items_view(out@)[k] == (out0 + rt)[k] by {
            assert(items_view(out@)[k] == item_view(out@[k]));
            if k >= out0.len() {
                assert(item_view(out@[out0.len() + (k - out0.len())]) == rt[k - out0.len()]);
            }
        }
        assert(items_view(out@) =~= out0 + rt);
    }
}

/// The items that the sources at or after `i` contribute to a chain whose
/// first source has headers `base`: each matching source's items
/// re-tagged, up to and including one mismatch error.
pub open spec fn chain_suffix(
    ps: Seq<Pipeline>,
    base: Seq<Seq<char>>,
    i: int,
) -> Seq<ItemV>
    decreases ps.len() - i,
{
    if i < 0 || i >= ps.len() {
        Seq::empty()
    } else if ps[i].headers_v() != base {
        seq![
            Err::<Seq<Seq<char>>, PlErrorV>(
                PlErrorV { error: ErrorV::MismatchedHeaders(base, ps[i].headers_v()), source: i },
            ),
        ]
    } else {
        retag(ps[i].items_v(), i) + chain_suffix(ps, base, i + 1)
    }
}

/// What the sources after the first contribute to the chain.
pub open spec fn chain_from(ps: Seq<Pipeline>, i: int) -> Seq<ItemV> {
    if ps.len() == 0 {
        Seq::empty()
    } else {
        chain_suffix(ps, ps[0].headers_v(), i)
    }
}

/// The items contributed by the matching sources `lo <= j < hi`.
pub open spec fn chain_prefix(ps: Seq<Pipeline>, lo: int, hi: int) -> Seq<ItemV>
    decreases hi - lo,
{
    if lo >= hi {
        Seq::empty()
    } else {
        chain_prefix(ps, lo, hi - 1) + retag(ps[hi - 1].items_v(), hi - 1)
    }
}

/// A run of matching sources followed by the suffix makes the whole
/// suffix from `lo`.
proof fn lemma_chain_split(ps: Seq<Pipeline>, base: Seq<Seq<char>>, lo: int, hi: int)
    requires
        0 <= lo <= hi <= ps.len(),
        forall|j: int| lo <= j < hi ==> #[trigger] ps[j].headers_v() == base,
    ensures
        chain_suffix(ps, base, lo) == chain_prefix(ps, lo, hi) + chain_suffix(ps, base, hi),
    decreases hi - lo,
{
    if lo == hi {
        assert(chain_prefix(ps, lo, hi) + chain_suffix(ps, base, hi) =~= chain_suffix(
            ps,
            base,
            lo,
        ));
    } else {
        lemma_chain_split(ps, base, lo, hi - 1);
        assert(ps[hi - 1].headers_v() == base);
        assert(chain_suffix(ps, base, hi - 1) == retag(ps[hi - 1].items_v(), hi - 1)
            + chain_suffix(ps, base, hi));
        assert(chain_prefix(ps, lo, hi) + chain_suffix(ps, base, hi) =~= chain_prefix(
            ps,
            lo,
            hi - 1,
        ) + (retag(ps[hi - 1].items_v(), hi - 1) + chain_suffix(ps, base, hi)));
    }
}

/// When the chain stops at a mismatching source, the matched run plus the
/// one error is everything.
proof fn lemma_chain_from_mismatch(ps: Seq<Pipeline>, base: Seq<Seq<char>>, lo: int, hi: int)
    requires
        ps.len() > 0,
        base == ps[0].headers_v(),
        0 <= lo <= hi < ps.len(),
        forall|j: int| lo <= j < hi ==> #[trigger] ps[j].headers_v() == base,
        ps[hi].headers_v() != base,
    ensures
        chain_from(ps, lo) == chain_prefix(ps, lo, hi) + seq![
            Err::<Seq<Seq<char>>, PlErrorV>(
                PlErrorV {
                    error: ErrorV::MismatchedHeaders(base, ps[hi].headers_v()),
                    source: hi,
                },
            ),
        ],
{
    lemma_chain_split(ps, base, lo, hi);
}

/// When every source matched, the matched run is everything.
proof fn lemma_chain_from_done(ps: Seq<Pipeline>, base: Seq<Seq<char>>, lo: int, hi: int)
    requires
        ps.len() > 0,
        base == ps[0].headers_v(),
        0 <= lo <= hi == ps.len(),
        forall|j: int| lo <= j < hi ==> #[trigger] ps[j].headers_v() == base,
    ensures
        chain_from(ps, lo) == chain_prefix(ps, lo, hi),
{
    lemma_chain_split(ps, base, lo, hi);
    assert(chain_prefix(ps, lo, hi) + Seq::<ItemV>::empty() =~= chain_prefix(ps, lo, hi));
}

/// One more matching source extends the matched run.
proof fn lemma_chain_prefix_extend(ps: Seq<Pipeline>, base: Seq<Seq<char>>, lo: int, hi: int)
    requires
        0 <= lo <= hi < ps.len(),
    ensures
        chain_prefix(ps, lo, hi) + retag(ps[hi].items_v(), hi) == chain_prefix(ps, lo, hi + 1),
{
}

/// A pipeline turned into an iterator: the headers, the stream, and how
/// far the consumer has pulled.
pub struct PipelineIter {
    headers: Headers,
    items: Vec<RowResult>,
    pos: usize,
}

impl PipelineIter {
    /// The consumer never stands past the end of the stream.
    #[verifier::type_invariant]
    spec fn inv(&self) -> bool {
        self.pos as int <= self.items@.len()
    }

    /// The column names of the rows this iterator yields.
    pub closed spec fn headers_v(&self) -> Seq<Seq<char>> {
        self.headers@
    }

    /// The whole stream, pulled or not.
    pub closed spec fn items_v(&self) -> Seq<ItemV> {
        items_view(self.items@)
    }

    /// How many items were pulled already.
    pub closed spec fn pos_v(&self) -> int {
        self.pos as int
    }

    /// What remains to be pulled.
    pub open spec fn remaining_v(&self) -> Seq<ItemV> {
        self.items_v().skip(self.pos_v())
    }

    /// The current headers.
    pub fn headers(&self) -> (h: &Headers)
        ensures
            h@ == self.headers_v(),
    {
        &self.headers
    }

    /// Pulls the next item, if one remains.
    pub fn next(&mut self) -> (r: Option<RowResult>)
        ensures
            final(self).headers_v() == old(self).headers_v(),
            final(self).items_v() == old(self).items_v(),
            old(self).pos_v() < old(self).items_v().len() ==> (r matches Some(it) && item_view(it)
                == old(self).items_v()[old(self).pos_v()] && final(self).pos_v() == old(
                self,
            ).pos_v() + 1),
            old(self).pos_v() >= old(self).items_v().len() ==> r is None && final(self).pos_v()
                == old(self).pos_v(),
    {
        proof {
            use_type_invariant(&*self);
        }
        if self.pos < self.items.len() {
            let it = duplicate_item(&self.items[self.pos]);
            self.pos = self.pos + 1;
            Some(it)
        } else {
            None
        }
    }

    /// Advances until an error is found and returns it; `None` when the
    /// stream finishes without one. The pull position stops right after
    /// the error found, so the caller can pull further.
    pub fn next_error(&mut self) -> (r: Option<PlError>)
        ensures
            final(self).headers_v() == old(self).headers_v(),
            final(self).items_v() == old(self).items_v(),
            match r {
                Some(e) => first_err(old(self).remaining_v()) == Some(e@) && (exists|i: int|
                    old(self).pos_v() <= i < old(self).items_v().len() && old(self).items_v()[i]
                        == Err::<Seq<Seq<char>>, PlErrorV>(e@) && final(self).pos_v() == i + 1 && (
                    forall|j: int| old(self).pos_v() <= j < i ==> old(self).items_v()[j] is Ok)),
                None => first_err(old(self).remaining_v()) is None && final(self).pos_v() == old(
                    self,
                ).items_v().len(),
            },
    {
        proof {
            use_type_invariant(&*self);
        }
        let ghost itemsv = self.items_v();
        let ghost pos0 = self.pos_v();
        loop
            invariant
                itemsv == self.items_v(),
                itemsv == old(self).items_v(),
                pos0 == old(self).pos_v(),
                0 <= pos0,
                self.headers_v() == old(self).headers_v(),
                pos0 <= self.pos_v() <= itemsv.len(),
                forall|j: int| pos0 <= j < self.pos_v() ==> itemsv[j] is Ok,
            decreases itemsv.len() - self.pos_v(),
        {
            let ghost posb = self.pos_v();
            match self.next() {
                None => {
                    proof {
                        lemma_remaining_all_ok(itemsv, pos0, itemsv.len() as int);
                    }
                    return None;
                },
                Some(item) => {
                    match item {
                        Err(e) => {
                            proof {
                                lemma_remaining_err_at(itemsv, pos0, posb);
                            }
                            return Some(e);
                        },
                        Ok(_) => {},
                    }
                },
            }
        }
    }

    /// Runs through the whole stream; returns the first error found, if
    /// any, with the pull position right after it, so the caller can pull
    /// further.
    pub fn run(&mut self) -> (r: Result<(), PlError>)
        ensures
            final(self).headers_v() == old(self).headers_v(),
            final(self).items_v() == old(self).items_v(),
            match r {
                Ok(()) => first_err(old(self).remaining_v()) is None && final(self).pos_v() == old(
                    self,
                ).items_v().len(),
                Err(e) => first_err(old(self).remaining_v()) == Some(e@) && (exists|i: int|
                    old(self).pos_v() <= i < old(self).items_v().len() && old(self).items_v()[i]
                        == Err::<Seq<Seq<char>>, PlErrorV>(e@) && final(self).pos_v() == i + 1 && (
                    forall|j: int| old(self).pos_v() <= j < i ==> old(self).items_v()[j] is Ok)),
            },
    {
        match self.next_error() {
            Some(e) => Err(e),
            None => Ok(()),
        }
    }
}

/// A stretch of rows with an error right after it puts that error first
/// in the remainder.
proof fn lemma_remaining_err_at(items: Seq<ItemV>, pos: int, i: int)
    requires
        0 <= pos <= i < items.len(),
        forall|j: int| pos <= j < i ==> items[j] is Ok,
        items[i] is Err,
    ensures
        first_err(items.skip(pos)) == Some(items[i]->Err_0),
{
    let rem = items.skip(pos);
    assert forall|j: int| 0 <= j < i - pos implies rem[j] is Ok by {
        assert(rem[j] == items[j + pos]);
    }
    assert(rem[i - pos] == items[i]);
    crate::stages::lemma_first_err_at(rem, i - pos);
}

/// A remainder of rows only has no first error.
proof fn lemma_remaining_all_ok(items: Seq<ItemV>, pos: int, end: int)
    requires
        0 <= pos <= end == items.len(),
        forall|j: int| pos <= j < end ==> items[j] is Ok,
    ensures
        first_err(items.skip(pos)) is None,
{
    let rem = items.skip(pos);
    assert forall|j: int| 0 <= j < rem.len() implies rem[j] is Ok by {
        assert(rem[j] == items[j + pos]);
    }
    crate::stages::lemma_first_err_none(rem);
}

} // verus!
