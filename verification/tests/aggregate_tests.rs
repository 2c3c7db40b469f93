use chartdata::aggregate::aggregate_grouped;
use chartdata::aggregate::GroupedRow;

fn strings(xs: &[&str]) -> Vec<String> {
    xs.iter().map(|s| s.to_string()).collect()
}

fn row(category: &str, series: &str, value: i64) -> GroupedRow {
    GroupedRow {
        category: category.to_string(),
        series: series.to_string(),
        value,
    }
}

#[test]
fn two_series_one_region() {
    // Two observations for one region, one per year, fixed domain.
    let rows = vec![row("North", "2543", 100_000), row("North", "2553", 200_000)];
    let g = aggregate_grouped(&rows, &strings(&["North"]), &strings(&["2543", "2553"]));
    assert_eq!(g.cells, vec![vec![Some(100_000), Some(200_000)]]);
    assert_eq!(g.overwrites, 0);
    assert_eq!(g.dropped, 0);
}

#[test]
fn last_write_wins_on_duplicate_keys() {
    let rows = vec![row("North", "2543", 1_000), row("North", "2543", 7_000)];
    let g = aggregate_grouped(&rows, &strings(&["North"]), &strings(&["2543"]));
    assert_eq!(g.cells, vec![vec![Some(7_000)]]);
    assert_eq!(g.overwrites, 1);
}

#[test]
fn out_of_domain_category_contributes_nothing() {
    let rows = vec![
        row("North", "2543", 1_000),
        row("Atlantis", "2543", 9_000),
        row("South", "2599", 5_000),
    ];
    let g = aggregate_grouped(&rows, &strings(&["North", "South"]), &strings(&["2543"]));
    assert_eq!(g.cells, vec![vec![Some(1_000)], vec![None]]);
    assert_eq!(g.dropped, 2);
    assert_eq!(g.overwrites, 0);
}

#[test]
fn empty_input_yields_empty_group_not_error() {
    let rows: Vec<GroupedRow> = Vec::new();
    let g = aggregate_grouped(&rows, &strings(&["North"]), &strings(&["2543"]));
    assert_eq!(g.cells, vec![vec![None]]);
    assert_eq!(g.overwrites, 0);
    assert_eq!(g.dropped, 0);
}

#[test]
fn reaggregating_gives_identical_groups() {
    let rows = vec![
        row("North", "2543", 100_000),
        row("South", "2543", 50_000),
        row("North", "2553", 200_000),
    ];
    let cats = strings(&["North", "South"]);
    let sers = strings(&["2543", "2553"]);
    let g1 = aggregate_grouped(&rows, &cats, &sers);
    let g2 = aggregate_grouped(&rows, &cats, &sers);
    assert_eq!(g1.cells, g2.cells);
    assert_eq!(g1.overwrites, g2.overwrites);
    assert_eq!(g1.dropped, g2.dropped);
}
