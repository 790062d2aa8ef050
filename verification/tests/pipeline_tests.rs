use csv_pipeline::headers::Headers;
use csv_pipeline::pipeline::Pipeline;
use csv_pipeline::target::StringTarget;
use csv_pipeline::{Error, Row};

const AB_CSV: &str = "A,B\n1,2\n";
const COUNTRIES_CSV: &str = "ID,Country\n1,Norway\n2,Tuvalu\n";

fn row(fields: &[&str]) -> Row {
    Row::from_fields(fields.iter().map(|f| f.to_string()).collect())
}

#[test]
fn from_pipelines_mismatch() {
    let err = Pipeline::from_pipelines(vec![
        Pipeline::from_csv_string(AB_CSV).unwrap(),
        Pipeline::from_csv_string(AB_CSV).unwrap(),
        Pipeline::from_csv_string(COUNTRIES_CSV).unwrap(),
    ])
    .collect_into_string()
    .unwrap_err();

    assert_eq!(err.source, 2);
    match err.error {
        Error::MismatchedHeaders(h1, h2) => {
            assert_eq!(h1, row(&["A", "B"]));
            assert_eq!(h2, row(&["ID", "Country"]));
        }
        _ => panic!("Expected MismatchedHeaders"),
    }
}

#[test]
fn concat_keeps_source_order() {
    // Every row of source 0 comes before every row of source 1, with no
    // reordering.
    let csv = Pipeline::from_pipelines(vec![
        Pipeline::from_csv_string("A,B\n1,2\n3,4\n").unwrap(),
        Pipeline::from_csv_string("A,B\n5,6\n").unwrap(),
    ])
    .collect_into_string()
    .unwrap();
    assert_eq!(csv, "A,B\n1,2\n3,4\n5,6\n");
}

#[test]
fn filter_tuvalu() {
    let csv = Pipeline::from_csv_string(COUNTRIES_CSV)
        .unwrap()
        .filter(|headers: &Headers, r: &Row| headers.get_field(r, "Country") == Some("Tuvalu"))
        .collect_into_string()
        .unwrap();
    assert_eq!(csv, "ID,Country\n2,Tuvalu\n");
}

#[test]
fn filter_col_tuvalu() {
    let csv = Pipeline::from_csv_string(COUNTRIES_CSV)
        .unwrap()
        .filter_col("Country", |country| country == "Tuvalu")
        .collect_into_string()
        .unwrap();
    assert_eq!(csv, "ID,Country\n2,Tuvalu\n");
}

#[test]
fn add_rename_map_col() {
    let csv = Pipeline::from_csv_string(COUNTRIES_CSV)
        .unwrap()
        .add_col("Language", |headers: &Headers, r: &Row| {
            match headers.get_field(r, "Country") {
                Some("Norway") => Ok("Norwegian".into()),
                _ => Ok("Unknown".into()),
            }
        })
        .rename_col("Country", "COUNTRY")
        .map_col("COUNTRY", |field| Ok(field.to_uppercase()))
        .collect_into_string()
        .unwrap();
    assert_eq!(
        csv,
        "ID,COUNTRY,Language\n\
            1,NORWAY,Norwegian\n\
            2,TUVALU,Unknown\n"
    );
}

#[test]
fn map_whole_rows() {
    let csv = Pipeline::from_csv_string(AB_CSV)
        .unwrap()
        .map(|_headers: &Headers, r: Row| {
            Ok(Row::from_fields(
                r.to_fields().iter().map(|field| field.to_string() + "0").collect(),
            ))
        })
        .collect_into_string()
        .unwrap();
    assert_eq!(csv, "A,B\n10,20\n");
}

#[test]
fn select_narrows_and_reorders() {
    let csv = Pipeline::from_csv_string(AB_CSV)
        .unwrap()
        .select(vec!["B"])
        .collect_into_string()
        .unwrap();
    assert_eq!(csv, "B\n2\n");

    let csv = Pipeline::from_csv_string(AB_CSV)
        .unwrap()
        .select(vec!["B", "A"])
        .collect_into_string()
        .unwrap();
    assert_eq!(csv, "B,A\n2,1\n");
}

#[test]
fn select_missing_column_errors() {
    let err = Pipeline::from_csv_string(AB_CSV)
        .unwrap()
        .select(vec!["C"])
        .collect_into_string()
        .unwrap_err();
    assert_eq!(err.source, 0);
    assert_eq!(err.error, Error::MissingColumn("C".to_string()));
}

#[test]
fn rename_cols_via_closure() {
    let csv = Pipeline::from_csv_string(AB_CSV)
        .unwrap()
        .rename_cols(|_i, name| if name == "A" { "X".to_string() } else { name.to_string() })
        .unwrap()
        .collect_into_string()
        .unwrap();
    assert_eq!(csv, "X,B\n1,2\n");

    let err = Pipeline::from_csv_string(AB_CSV)
        .unwrap()
        .rename_cols(|_i, _name| "same".to_string())
        .unwrap_err();
    assert_eq!(err, Error::DuplicateColumn("same".to_string()));
}

#[test]
fn map_col_missing_column_errors() {
    let err = Pipeline::from_csv_string(AB_CSV)
        .unwrap()
        .map_col("Nope", |field| Ok(field.to_string()))
        .collect_into_string()
        .unwrap_err();
    assert_eq!(err.source, 0);
    assert_eq!(err.error, Error::MissingColumn("Nope".to_string()));
}

#[test]
fn validate_rejects_rows() {
    let err = Pipeline::from_csv_string(COUNTRIES_CSV)
        .unwrap()
        .validate(|headers: &Headers, r: &Row| {
            if headers.get_field(r, "Country") == Some("Norway") {
                Err(Error::InvalidField("Norway".to_string()))
            } else {
                Ok(())
            }
        })
        .collect_into_string()
        .unwrap_err();
    assert_eq!(err.source, 0);
    assert_eq!(err.error, Error::InvalidField("Norway".to_string()));
}

#[test]
fn validate_col_passes_good_rows() {
    let csv = Pipeline::from_csv_string(AB_CSV)
        .unwrap()
        .validate_col("A", |field| {
            if field.parse::<i64>().is_ok() {
                Ok(())
            } else {
                Err(Error::InvalidField(field.to_string()))
            }
        })
        .collect_into_string()
        .unwrap();
    assert_eq!(csv, AB_CSV);
}

#[test]
fn duplicate_header_fails_construction() {
    let err = Pipeline::from_csv_string("A,A\n1,2\n").unwrap_err();
    assert_eq!(err.source, 0);
    assert_eq!(err.error, Error::DuplicateColumn("A".to_string()));
}

#[test]
fn ragged_source_yields_read_error() {
    // The second record has one field where the header has two: the
    // reader reports it as an error item in the stream.
    let err = Pipeline::from_csv_string("A,B\n1\n").unwrap().run().unwrap_err();
    assert_eq!(err.source, 0);
    match err.error {
        Error::Csv(_) => {}
        other => panic!("expected a read error, got {:?}", other),
    }
}

#[test]
fn from_rows_round_trip() {
    let csv = Pipeline::from_rows(vec![
        row(&["A", "B"]),
        row(&["1", "2"]),
        row(&["3", "4"]),
    ])
    .unwrap()
    .collect_into_string()
    .unwrap();
    assert_eq!(csv, "A,B\n1,2\n3,4\n");
}

#[test]
fn quoted_fields_survive_round_trip() {
    // A field holding the delimiter is quoted on the way out and read
    // back as one field.
    let csv = Pipeline::from_rows(vec![row(&["A"]), row(&["x,y"])])
        .unwrap()
        .collect_into_string()
        .unwrap();
    assert_eq!(csv, "A\n\"x,y\"\n");
    let back = Pipeline::from_csv_string(&csv)
        .unwrap()
        .filter_col("A", |field| field == "x,y")
        .collect_into_string()
        .unwrap();
    assert_eq!(back, "A\n\"x,y\"\n");
}

#[test]
fn flush_into_string_target() {
    let mut target = StringTarget::new();
    Pipeline::from_csv_string(AB_CSV)
        .unwrap()
        .flush(&mut target)
        .run()
        .unwrap();
    assert_eq!(target.into_string(), "A,B\n1,2\n");
}

#[test]
fn iterator_pulls_and_reports_errors() {
    let mut iter = Pipeline::from_csv_string("A,B\n1\n2,3\n").unwrap().build();
    let first = iter.next().unwrap();
    assert!(first.is_err());
    let second = iter.next().unwrap().unwrap();
    assert_eq!(second, row(&["2", "3"]));
    assert!(iter.next().is_none());

    let mut iter = Pipeline::from_csv_string("A,B\n1\n2,3\n").unwrap().build();
    let err = iter.next_error().unwrap();
    assert_eq!(err.source, 0);
    // The stream stays pollable after the error.
    let rest = iter.next().unwrap().unwrap();
    assert_eq!(rest, row(&["2", "3"]));
    assert!(iter.next_error().is_none());
}

#[test]
fn run_reports_first_error() {
    assert!(Pipeline::from_csv_string(AB_CSV).unwrap().run().is_ok());
    let err = Pipeline::from_csv_string(COUNTRIES_CSV)
        .unwrap()
        .map_col("Nope", |field| Ok(field.to_string()))
        .run()
        .unwrap_err();
    assert_eq!(err.error, Error::MissingColumn("Nope".to_string()));
}

#[test]
fn errors_do_not_poison_the_stream() {
    // A row-level error is a value in the stream; rows after it still
    // flow.
    let mut iter = Pipeline::from_csv_string(COUNTRIES_CSV)
        .unwrap()
        .validate_col("Country", |field| {
            if field == "Norway" {
                Err(Error::InvalidField(field.to_string()))
            } else {
                Ok(())
            }
        })
        .build();
    assert!(iter.next().unwrap().is_err());
    assert_eq!(iter.next().unwrap().unwrap(), row(&["2", "Tuvalu"]));
    assert!(iter.next().is_none());
}

#[test]
fn try_filter_keeps_and_drops() {
    let csv = Pipeline::from_csv_string(COUNTRIES_CSV)
        .unwrap()
        .try_filter(|headers: &Headers, r: &Row| {
            Ok(headers.get_field(r, "Country") == Some("Tuvalu"))
        })
        .collect_into_string()
        .unwrap();
    assert_eq!(csv, "ID,Country\n2,Tuvalu\n");
}

#[test]
fn try_filter_forwards_predicate_errors() {
    // The erring row becomes a stream error; the stream stays pollable.
    let mut iter = Pipeline::from_csv_string(COUNTRIES_CSV)
        .unwrap()
        .try_filter(|headers: &Headers, r: &Row| match headers.get_field(r, "Country") {
            Some("Norway") => Err(Error::InvalidField("Norway".to_string())),
            Some("Tuvalu") => Ok(true),
            _ => Ok(false),
        })
        .build();
    let first = iter.next().unwrap().unwrap_err();
    assert_eq!(first.source, 0);
    assert_eq!(first.error, Error::InvalidField("Norway".to_string()));
    assert_eq!(iter.next().unwrap().unwrap(), row(&["2", "Tuvalu"]));
    assert!(iter.next().is_none());
}

#[test]
fn from_row_results_keeps_error_items() {
    let items = vec![
        Ok(row(&["1", "2"])),
        Err(Error::Csv("bad record".to_string()).at_source(0)),
        Ok(row(&["3", "4"])),
    ];
    let mut iter = Pipeline::from_row_results(row(&["A", "B"]), items).unwrap().build();
    assert_eq!(iter.next().unwrap().unwrap(), row(&["1", "2"]));
    let err = iter.next().unwrap().unwrap_err();
    assert_eq!(err.error, Error::Csv("bad record".to_string()));
    assert_eq!(iter.next().unwrap().unwrap(), row(&["3", "4"]));
    assert!(iter.next().is_none());

    let err = Pipeline::from_row_results(row(&["A", "A"]), vec![]).unwrap_err();
    assert_eq!(err.error, Error::DuplicateColumn("A".to_string()));
}

#[test]
fn append_utf8_checks_encoding() {
    let mut s = String::from("abc");
    assert_eq!(csv_pipeline::strings::append_utf8(&mut s, "d\u{e9}f".as_bytes()), Some(4));
    assert_eq!(s, "abcd\u{e9}f");
    assert_eq!(csv_pipeline::strings::append_utf8(&mut s, &[0xff, 0xfe]), None);
    assert_eq!(s, "abcd\u{e9}f");
}
