use csv_pipeline::headers::{Headers, RenameError};
use csv_pipeline::Row;

fn row(fields: &[&str]) -> Row {
    Row::from_fields(fields.iter().map(|f| f.to_string()).collect())
}

#[test]
fn push_and_lookup() {
    let mut headers = Headers::new();
    assert!(headers.push_field("ID"));
    assert!(headers.push_field("Country"));
    assert!(!headers.push_field("ID"));
    assert!(headers.contains("ID"));
    assert!(headers.contains("Country"));
    assert!(!headers.contains("Language"));
    assert_eq!(headers.get_index("ID"), Some(0));
    assert_eq!(headers.get_index("Country"), Some(1));
    assert_eq!(headers.get_index("Language"), None);
    assert_eq!(headers.get_row(), &row(&["ID", "Country"]));
}

#[test]
fn field_of_expected_positions() {
    // Looking a row's fields up by each header name gives exactly the
    // field at that name's position, for rows of matching arity.
    let headers = Headers::from_row(row(&["A", "B", "C"])).unwrap();
    let r = row(&["1", "2", "3"]);
    assert_eq!(headers.get_field(&r, "A"), Some("1"));
    assert_eq!(headers.get_field(&r, "B"), Some("2"));
    assert_eq!(headers.get_field(&r, "C"), Some("3"));
    assert_eq!(headers.get_field(&r, "D"), None);
    // A row shorter than the recorded position reads as absent.
    let short = row(&["1"]);
    assert_eq!(headers.get_field(&short, "A"), Some("1"));
    assert_eq!(headers.get_field(&short, "B"), None);
}

#[test]
fn field_of_after_push_and_rename() {
    let mut headers = Headers::new();
    assert!(headers.push_field("A"));
    assert!(headers.push_field("B"));
    headers.rename("A", "X").unwrap();
    let r = row(&["1", "2"]);
    assert_eq!(headers.get_field(&r, "X"), Some("1"));
    assert_eq!(headers.get_field(&r, "B"), Some("2"));
    assert_eq!(headers.get_field(&r, "A"), None);
}

#[test]
fn rename_keeps_position() {
    let mut headers = Headers::from_row(row(&["A", "B", "C"])).unwrap();
    headers.rename("B", "Y").unwrap();
    assert_eq!(headers.get_row(), &row(&["A", "Y", "C"]));
    assert_eq!(headers.get_index("Y"), Some(1));
}

#[test]
fn failed_rename_changes_nothing() {
    // A failed rename is a no-op: the headers before and after compare
    // equal.
    let mut headers = Headers::from_row(row(&["A", "B"])).unwrap();
    let before = headers.clone();
    assert_eq!(headers.rename("A", "B"), Err(RenameError::DuplicateColumn(1)));
    assert_eq!(headers, before);
    assert_eq!(headers.rename("Z", "C"), Err(RenameError::MissingColumn));
    assert_eq!(headers, before);
    // Renaming a column onto its own name is a duplicate, too.
    assert_eq!(headers.rename("A", "A"), Err(RenameError::DuplicateColumn(0)));
    assert_eq!(headers, before);
}

#[test]
fn rename_error_messages() {
    assert_eq!(
        RenameError::DuplicateColumn(3).to_message(),
        "Duplicate column at index 3"
    );
    assert_eq!(RenameError::MissingColumn.to_message(), "Missing column");
}

#[test]
fn from_row_rejects_duplicates() {
    assert_eq!(Headers::from_row(row(&["A", "B", "A"])), Err("A".to_string()));
    assert_eq!(Headers::from_row(row(&["A", "B", "B", "A"])), Err("B".to_string()));
    let headers = Headers::from_row(row(&["A", "B"])).unwrap();
    assert_eq!(headers.get_row(), &row(&["A", "B"]));
}
