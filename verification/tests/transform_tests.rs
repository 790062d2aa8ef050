use csv_pipeline::pipeline::Pipeline;
use csv_pipeline::transform::Transformer;
use csv_pipeline::{Error, Row};

fn row(fields: &[&str]) -> Row {
    Row::from_fields(fields.iter().map(|f| f.to_string()).collect())
}

#[test]
fn test_sum() {
    let source_a = "\
		Name,Score\n\
		X,0.0002717\n\
		X,0.0012421\n\
		X,0.0002717\n\
		\n";
    let csv_a = Pipeline::from_csv_string(source_a).unwrap();

    let source_b = "\
		Name,Score\n\
		X,0.1554265496221735094502632659\n\
		X,0.9015300654231201127102294398\n\
		X,1.3000732732666677958677548331\n\
		X,0.0260421967374136391163477056\n\
		X,0.4298765712842231366676277260\n\
		X,2.0992253398385276395528943275\n\
		\n";
    let csv_b = Pipeline::from_csv_string(source_b).unwrap();

    let csv = Pipeline::from_pipelines(vec![csv_a, csv_b])
        .transform_into(vec![
            Transformer::new("Name").keep_unique(),
            Transformer::new("Score").sum(0),
        ])
        .collect_into_string()
        .unwrap();
    assert_eq!(
        csv,
        "Name,Score\n\
			X,4.9139594961721258333651172979\n"
    );
}

#[test]
fn sum_is_exact_decimal() {
    // Exact decimal accumulation: no float rounding drift.
    let csv = Pipeline::from_csv_string("Name,Score\nX,0.0002717\nX,0.0012421\nX,0.0002717\n")
        .unwrap()
        .transform_into(vec![
            Transformer::new("Name").keep_unique(),
            Transformer::new("Score").sum(0),
        ])
        .collect_into_string()
        .unwrap();
    assert_eq!(csv, "Name,Score\nX,0.0017855\n");
}

#[test]
fn keep_unique_and_count() {
    // Rows {A,1},{A,1},{B,1} reduce to exactly {A,2},{B,1}, in that
    // order.
    let csv = Pipeline::from_csv_string("Person,Score\nA,1\nA,1\nB,1\n")
        .unwrap()
        .transform_into(vec![
            Transformer::new("Person").keep_unique(),
            Transformer::new("Count").count(),
        ])
        .collect_into_string()
        .unwrap();
    assert_eq!(csv, "Person,Count\nA,2\nB,1\n");
}

#[test]
fn groups_emit_in_first_seen_order() {
    let csv = Pipeline::from_csv_string("K,V\nB,1\nA,1\nB,1\nC,1\nA,1\n")
        .unwrap()
        .transform_into(vec![
            Transformer::new("K").keep_unique(),
            Transformer::new("N").count(),
        ])
        .collect_into_string()
        .unwrap();
    assert_eq!(csv, "K,N\nB,2\nA,2\nC,1\n");
}

#[test]
fn permuting_rows_within_a_group_keeps_values() {
    let transformers = || {
        vec![
            Transformer::new("Name").keep_unique(),
            Transformer::new("Total").from_col("Score").sum(0),
            Transformer::new("N").count(),
        ]
    };
    let a = Pipeline::from_csv_string("Name,Score\nX,1.5\nX,2.25\nY,7\nX,3\n")
        .unwrap()
        .transform_into(transformers())
        .collect_into_string()
        .unwrap();
    let b = Pipeline::from_csv_string("Name,Score\nX,2.25\nX,1.5\nY,7\nX,3\n")
        .unwrap()
        .transform_into(transformers())
        .collect_into_string()
        .unwrap();
    assert_eq!(a, "Name,Total,N\nX,6.75,3\nY,7,1\n");
    assert_eq!(a, b);
}

#[test]
fn sum_from_another_column() {
    let csv = Pipeline::from_csv_string("Person,Score\nA,1\nA,8\nB,3\nB,4\n")
        .unwrap()
        .transform_into(vec![
            Transformer::new("Person").keep_unique(),
            Transformer::new("Total score").from_col("Score").sum(0),
        ])
        .collect_into_string()
        .unwrap();
    assert_eq!(
        csv,
        "Person,Total score\n\
            A,9\n\
            B,7\n"
    );
}

#[test]
fn sum_rejects_non_numeric_fields() {
    let err = Pipeline::from_csv_string("Name,Score\nX,abc\n")
        .unwrap()
        .transform_into(vec![
            Transformer::new("Name").keep_unique(),
            Transformer::new("Score").sum(0),
        ])
        .run()
        .unwrap_err();
    assert_eq!(err.source, 0);
    assert_eq!(err.error, Error::InvalidField("abc".to_string()));
}

#[test]
fn keying_missing_column_errors() {
    let err = Pipeline::from_csv_string("A,B\n1,2\n")
        .unwrap()
        .transform_into(vec![Transformer::new("Nope").keep_unique()])
        .run()
        .unwrap_err();
    assert_eq!(err.source, 0);
    assert_eq!(err.error, Error::MissingColumn("Nope".to_string()));
}

#[test]
fn fold_error_does_not_abort_the_group() {
    // The bad row's contribution is dropped, the group itself survives.
    let mut iter = Pipeline::from_csv_string("Name,Score\nX,1\nX,abc\nX,2\n")
        .unwrap()
        .transform_into(vec![
            Transformer::new("Name").keep_unique(),
            Transformer::new("Score").sum(0),
        ])
        .build();
    let first = iter.next().unwrap();
    assert!(first.is_err());
    let group = iter.next().unwrap().unwrap();
    assert_eq!(group, row(&["X", "3"]));
    assert!(iter.next().is_none());
}

#[test]
fn count_alone_buckets_everything_together() {
    let csv = Pipeline::from_csv_string("A,B\n1,2\n3,4\n5,6\n")
        .unwrap()
        .transform_into(vec![Transformer::new("N").count()])
        .collect_into_string()
        .unwrap();
    assert_eq!(csv, "N\n3\n");
}

#[test]
fn transformer_builder_tracks_columns() {
    let t = Transformer::new("Out");
    assert_eq!(t.name, "Out");
    assert_eq!(t.from_col, "Out");
    let t = t.from_col("In");
    assert_eq!(t.name, "Out");
    assert_eq!(t.from_col, "In");
}

#[test]
fn transform_value_finalizes() {
    let mut counter = Transformer::new("N").count();
    assert_eq!(counter.name(), "N");
    assert_eq!(counter.value(), "0");
    let headers = csv_pipeline::headers::Headers::from_row(row(&["A"])).unwrap();
    counter.add_row(&headers, &row(&["x"])).unwrap();
    counter.add_row(&headers, &row(&["y"])).unwrap();
    assert_eq!(counter.value(), "2");

    let mut keeper = Transformer::new("A").keep_unique();
    keeper.add_row(&headers, &row(&["hello"])).unwrap();
    assert_eq!(keeper.value(), "hello");

    let summer = Transformer::new("A").sum(5);
    assert_eq!(summer.value(), "5");
}

#[test]
fn custom_reduce_folds_fields() {
    let csv = Pipeline::from_csv_string("K,V\nA,x\nB,z\nA,y\n")
        .unwrap()
        .transform_into_custom(
            vec![
                Transformer::new("K").keep_unique().into_custom(),
                Transformer::new("Joined").from_col("V").reduce(""),
            ],
            |acc: &str, field: &str| Ok(acc.to_string() + field),
        )
        .collect_into_string()
        .unwrap();
    assert_eq!(csv, "K,Joined\nA,xy\nB,z\n");
}

#[test]
fn custom_reduce_beside_fixed_reducers() {
    let csv = Pipeline::from_csv_string("Person,Score\nA,1\nA,8\nB,3\nB,4\n")
        .unwrap()
        .transform_into_custom(
            vec![
                Transformer::new("Person").keep_unique().into_custom(),
                Transformer::new("Total").from_col("Score").reduce("0"),
                Transformer::new("N").count().into_custom(),
            ],
            |acc: &str, field: &str| match (acc.parse::<i64>(), field.parse::<i64>()) {
                (Ok(a), Ok(b)) => Ok((a + b).to_string()),
                _ => Err(Error::InvalidField(field.to_string())),
            },
        )
        .collect_into_string()
        .unwrap();
    assert_eq!(csv, "Person,Total,N\nA,9,2\nB,7,2\n");
}

#[test]
fn custom_reduce_errors_surface_in_stream() {
    // The failing fold becomes a stream error; the group itself survives.
    let mut iter = Pipeline::from_csv_string("K,V\nA,1\nA,bad\nA,2\n")
        .unwrap()
        .transform_into_custom(
            vec![
                Transformer::new("K").keep_unique().into_custom(),
                Transformer::new("Sum").from_col("V").reduce("0"),
            ],
            |acc: &str, field: &str| match (acc.parse::<i64>(), field.parse::<i64>()) {
                (Ok(a), Ok(b)) => Ok((a + b).to_string()),
                _ => Err(Error::InvalidField(field.to_string())),
            },
        )
        .build();
    let first = iter.next().unwrap().unwrap_err();
    assert_eq!(first.source, 0);
    assert_eq!(first.error, Error::InvalidField("bad".to_string()));
    assert_eq!(iter.next().unwrap().unwrap(), row(&["A", "3"]));
    assert!(iter.next().is_none());
}

#[test]
fn custom_reduce_missing_column_errors() {
    let err = Pipeline::from_csv_string("A,B\n1,2\n")
        .unwrap()
        .transform_into_custom(
            vec![Transformer::new("Out").from_col("Nope").reduce("")],
            |acc: &str, field: &str| Ok(acc.to_string() + field),
        )
        .run()
        .unwrap_err();
    assert_eq!(err.source, 0);
    assert_eq!(err.error, Error::MissingColumn("Nope".to_string()));
}
