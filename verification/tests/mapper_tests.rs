use chartdata::mapper::find_index;
use chartdata::mapper::numeric_column;
use chartdata::mapper::resolve_column;
use chartdata::mapper::ColumnLocator;
use chartdata::table::PipelineError;
use chartdata::table::Table;

fn strings(xs: &[&str]) -> Vec<String> {
    xs.iter().map(|s| s.to_string()).collect()
}

fn table(headers: &[&str], rows: &[&[&str]]) -> Table {
    Table {
        headers: strings(headers),
        rows: rows.iter().map(|r| strings(r)).collect(),
    }
}

#[test]
fn find_index_returns_first_match() {
    let labels = strings(&["Jan", "Feb", "Jan"]);
    assert_eq!(find_index(&labels, &"Jan".to_string()), Some(0));
    assert_eq!(find_index(&labels, &"Feb".to_string()), Some(1));
    assert_eq!(find_index(&labels, &"Mar".to_string()), None);
}

#[test]
fn resolve_by_index_checks_bounds() {
    let t = table(&["city", "pop"], &[]);
    assert_eq!(resolve_column(&t, &ColumnLocator::ByIndex(1)), Ok(1));
    assert_eq!(
        resolve_column(&t, &ColumnLocator::ByIndex(2)),
        Err(PipelineError::ColumnOutOfRange)
    );
}

#[test]
fn resolve_by_name_finds_header_or_fails() {
    let t = table(&["city", "pop"], &[]);
    assert_eq!(
        resolve_column(&t, &ColumnLocator::ByName("pop".to_string())),
        Ok(1)
    );
    assert_eq!(
        resolve_column(&t, &ColumnLocator::ByName("area".to_string())),
        Err(PipelineError::ColumnNotFound)
    );
}

#[test]
fn numeric_column_skips_and_reports_bad_cells() {
    let t = table(
        &["name", "score"],
        &[
            &["ann", "10"],
            &["bob", "oops"],
            &["cid", "12.5"],
            &["deb"],
        ],
    );
    let (values, errors) = numeric_column(&t, 1);
    assert_eq!(values, vec![10_000, 12_500]);
    assert_eq!(errors.len(), 2);
    assert_eq!(errors[0].row, 1);
    assert_eq!(errors[0].column, 1);
    assert_eq!(errors[0].raw, "oops");
    assert_eq!(errors[1].row, 3);
    assert_eq!(errors[1].column, 1);
    assert_eq!(errors[1].raw, "");
}
