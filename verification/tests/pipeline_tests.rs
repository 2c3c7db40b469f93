use chartdata::mapper::ColumnLocator;
use chartdata::pipeline::grouped_bar_chart;
use chartdata::pipeline::histogram_chart;
use chartdata::pipeline::long_grouped_rows;
use chartdata::pipeline::wide_grouped_rows;
use chartdata::pipeline::GroupedBarConfig;
use chartdata::series::collect_line_series;
use chartdata::series::collect_xy_categorical;
use chartdata::series::collect_xy_labeled;
use chartdata::series::collect_xy_numeric;
use chartdata::series::collect_xyz_numeric;
use chartdata::series::xy_categorical_errors;
use chartdata::series::xy_labeled_errors;
use chartdata::series::xy_numeric_errors;
use chartdata::series::xyz_numeric_errors;
use chartdata::table::PipelineError;
use chartdata::table::Table;

fn strings(xs: &[&str]) -> Vec<String> {
    xs.iter().map(|s| s.to_string()).collect()
}

fn ingest(text: &str) -> Table {
    Table::from_csv_bytes(&text.as_bytes().to_vec()).unwrap()
}

#[test]
fn csv_bytes_become_a_table() {
    let t = ingest("city,country,pop\nBoston,United States,4628910\nOslo,Norway,634293\n");
    assert_eq!(t.headers, strings(&["city", "country", "pop"]));
    assert_eq!(t.rows.len(), 2);
    assert_eq!(t.rows[0], strings(&["Boston", "United States", "4628910"]));
    assert_eq!(t.rows[1], strings(&["Oslo", "Norway", "634293"]));
}

#[test]
fn unreadable_bytes_are_a_fatal_parse_error() {
    let bytes = vec![b'a', b',', 0xff, 0xfe, b'\n', b'1', b',', b'2', b'\n'];
    assert_eq!(
        Table::from_csv_bytes(&bytes).unwrap_err(),
        PipelineError::CsvParse
    );
}

#[test]
fn short_rows_survive_ingestion() {
    let t = ingest("a,b,c\n1,2,3\n4,5\n");
    assert_eq!(t.rows.len(), 2);
    assert_eq!(t.rows[1], strings(&["4", "5"]));
}

#[test]
fn rows_with_the_wrong_width_are_reported_not_dropped() {
    let t = ingest("a,b,c\n1,2,3\n4,5\n6,7,8,9\n");
    assert_eq!(t.mismatched_rows(), vec![1, 2]);
    assert_eq!(t.rows.len(), 3);
    let ok = ingest("a,b\n1,2\n");
    assert!(ok.mismatched_rows().is_empty());
}

#[test]
fn grouped_bar_pipeline_end_to_end() {
    // Long-format rows with a fixed one-region domain: one slot, two
    // sub-bars (first series left and class 0, second right, class 1),
    // heights the two values in milli-units.
    let t = ingest("region,year,val\nNorth,2543,100\nNorth,2553,200\n");
    let cfg = GroupedBarConfig {
        category_column: ColumnLocator::ByName("region".to_string()),
        series_column: ColumnLocator::ByName("year".to_string()),
        value_column: ColumnLocator::ByName("val".to_string()),
        categories: strings(&["North"]),
        series: strings(&["2543", "2553"]),
        slot_width: 2000,
        bar_width: 400,
        gap: 100,
    };
    let (group, bars, errors) = grouped_bar_chart(&t, &cfg).unwrap();
    assert_eq!(group.cells, vec![vec![Some(100_000), Some(200_000)]]);
    assert_eq!(group.overwrites, 0);
    assert_eq!(group.dropped, 0);
    assert!(errors.is_empty());
    assert_eq!(bars.len(), 2);
    assert_eq!((bars[0].left, bars[0].height, bars[0].color_class), (0, 100_000, 0));
    assert_eq!((bars[1].left, bars[1].height, bars[1].color_class), (500, 200_000, 1));
}

#[test]
fn rerunning_the_pipeline_is_byte_identical() {
    let t = ingest("region,year,val\nNorth,2543,100\nSouth,2543,80\nNorth,2553,200\n");
    let cfg = GroupedBarConfig {
        category_column: ColumnLocator::ByIndex(0),
        series_column: ColumnLocator::ByIndex(1),
        value_column: ColumnLocator::ByIndex(2),
        categories: strings(&["North", "South"]),
        series: strings(&["2543", "2553"]),
        slot_width: 2000,
        bar_width: 400,
        gap: 100,
    };
    let (g1, bars1, _) = grouped_bar_chart(&t, &cfg).unwrap();
    let (g2, bars2, _) = grouped_bar_chart(&t, &cfg).unwrap();
    assert_eq!(g1.cells, g2.cells);
    assert_eq!(bars1, bars2);
}

#[test]
fn grouped_bar_pipeline_reports_missing_column() {
    let t = ingest("region,year,val\nNorth,2543,100\n");
    let cfg = GroupedBarConfig {
        category_column: ColumnLocator::ByName("continent".to_string()),
        series_column: ColumnLocator::ByName("year".to_string()),
        value_column: ColumnLocator::ByName("val".to_string()),
        categories: strings(&["North"]),
        series: strings(&["2543"]),
        slot_width: 2000,
        bar_width: 400,
        gap: 100,
    };
    assert_eq!(grouped_bar_chart(&t, &cfg).unwrap_err(), PipelineError::ColumnNotFound);
}

#[test]
fn long_rows_skip_unparseable_values_and_report_them() {
    let t = ingest("region,year,val\nNorth,2543,100\nNorth,2553,n/a\n");
    let (rows, errors) = long_grouped_rows(&t, 0, 1, 2);
    assert_eq!(rows.len(), 1);
    assert_eq!(rows[0].category, "North");
    assert_eq!(rows[0].series, "2543");
    assert_eq!(rows[0].value, 100_000);
    assert_eq!(errors.len(), 1);
    assert_eq!(errors[0].row, 1);
    assert_eq!(errors[0].column, 2);
    assert_eq!(errors[0].raw, "n/a");
}

#[test]
fn wide_rows_take_series_names_from_headers() {
    let t = ingest("no,region,2543,2553\n1,North,120,340\n2,South,80,90\n");
    let rows = wide_grouped_rows(&t, 1, &vec![2, 3]);
    assert_eq!(rows.len(), 4);
    assert_eq!(rows[0].category, "North");
    assert_eq!(rows[0].series, "2543");
    assert_eq!(rows[0].value, 120_000);
    assert_eq!(rows[1].series, "2553");
    assert_eq!(rows[1].value, 340_000);
    assert_eq!(rows[2].category, "South");
}

#[test]
fn histogram_pipeline_end_to_end() {
    let t = ingest("score\n1\n1\n2\n5\n5\n5\n9\n9\n9\n9\n10\n");
    let (hist, errors) =
        histogram_chart(&t, &ColumnLocator::ByName("score".to_string()), 3).unwrap();
    let h = hist.unwrap();
    assert!(errors.is_empty());
    assert_eq!(h.edges, vec![1_000, 4_000, 7_000, 10_000]);
    assert_eq!(h.counts, vec![3, 3, 5]);
}

#[test]
fn histogram_pipeline_on_empty_column_is_not_an_error() {
    let t = ingest("score\n");
    let (hist, errors) = histogram_chart(&t, &ColumnLocator::ByIndex(0), 3).unwrap();
    assert!(hist.is_none());
    assert!(errors.is_empty());
}

#[test]
fn histogram_pipeline_reports_missing_column() {
    let t = ingest("score\n1\n");
    assert_eq!(
        histogram_chart(&t, &ColumnLocator::ByName("grade".to_string()), 3).unwrap_err(),
        PipelineError::ColumnNotFound
    );
}

#[test]
fn numeric_xy_pairs_keep_row_order() {
    let t = ingest("exp,salary\n1.5,40000\noops,50000\n10,150000\n");
    let points = collect_xy_numeric(&t, 0, 1);
    assert_eq!(points, vec![(1_500, 40_000_000), (10_000, 150_000_000)]);
}

#[test]
fn xyz_triples_need_all_three_cells() {
    let t = ingest("a,b,c\n1,2,3\n4,x,6\n7,8,9\n");
    let points = collect_xyz_numeric(&t, 0, 1, 2);
    assert_eq!(points, vec![(1_000, 2_000, 3_000), (7_000, 8_000, 9_000)]);
}

#[test]
fn categorical_x_resolves_through_the_lookup() {
    let months = strings(&["Jan", "Feb", "Mar"]);
    let t = ingest("no,month,pax\n1,Jan,11\n2,Mar,33\n3,Nov,99\n4,Feb,x\n");
    let points = collect_xy_categorical(&t, 1, 2, &months);
    assert_eq!(points, vec![(0, 11_000), (2, 33_000)]);
}

#[test]
fn one_line_per_value_column() {
    let months = strings(&["Jan", "Feb"]);
    let t = ingest("no,month,2018,2019\n1,Jan,10,20\n2,Feb,30,40\n3,Dec,50,60\n");
    let lines = collect_line_series(&t, 1, &vec![2, 3], &months);
    assert_eq!(lines.len(), 2);
    assert_eq!(lines[0], vec![(0, 10_000), (1, 30_000)]);
    assert_eq!(lines[1], vec![(0, 20_000), (1, 40_000)]);
}

#[test]
fn skipped_xy_rows_are_reported_with_their_cell() {
    let t = ingest("exp,salary\n1.5,40000\noops,50000\n10,x\n7\n");
    let errors = xy_numeric_errors(&t, 0, 1);
    // Kept rows and reports partition the scan: 1 kept, 3 reported.
    assert_eq!(collect_xy_numeric(&t, 0, 1).len() + errors.len(), t.rows.len());
    assert_eq!(errors.len(), 3);
    assert_eq!((errors[0].row, errors[0].column, errors[0].raw.as_str()), (1, 0, "oops"));
    assert_eq!((errors[1].row, errors[1].column, errors[1].raw.as_str()), (2, 1, "x"));
    assert_eq!((errors[2].row, errors[2].column, errors[2].raw.as_str()), (3, 1, ""));
}

#[test]
fn skipped_xyz_rows_are_reported_with_their_cell() {
    let t = ingest("a,b,c\n1,2,3\n4,x,6\n7,8\n");
    let errors = xyz_numeric_errors(&t, 0, 1, 2);
    assert_eq!(errors.len(), 2);
    assert_eq!((errors[0].row, errors[0].column, errors[0].raw.as_str()), (1, 1, "x"));
    assert_eq!((errors[1].row, errors[1].column, errors[1].raw.as_str()), (2, 2, ""));
}

#[test]
fn out_of_domain_x_labels_are_reported() {
    let months = strings(&["Jan", "Feb", "Mar"]);
    let t = ingest("no,month,pax\n1,Jan,11\n2,Nov,99\n3,Feb,x\n");
    let errors = xy_categorical_errors(&t, 1, 2, &months);
    assert_eq!(errors.len(), 2);
    assert_eq!((errors[0].row, errors[0].column, errors[0].raw.as_str()), (1, 1, "Nov"));
    assert_eq!((errors[1].row, errors[1].column, errors[1].raw.as_str()), (2, 2, "x"));
}

#[test]
fn skipped_labeled_rows_are_reported() {
    let t = ingest("exp,salary,gender\n1,2,male\nx,3,female\n4,5\n");
    let errors = xy_labeled_errors(&t, 0, 1, 2);
    assert_eq!(errors.len(), 2);
    assert_eq!((errors[0].row, errors[0].column, errors[0].raw.as_str()), (1, 0, "x"));
    assert_eq!((errors[1].row, errors[1].column, errors[1].raw.as_str()), (2, 2, ""));
}

#[test]
fn labeled_points_pair_each_point_with_its_label() {
    let t = ingest("exp,salary,gender\n1,2,male\nx,3,female\n4,5,other\n");
    let (points, labels) = collect_xy_labeled(&t, 0, 1, 2);
    assert_eq!(points, vec![(1_000, 2_000), (4_000, 5_000)]);
    assert_eq!(labels, strings(&["male", "other"]));
}
