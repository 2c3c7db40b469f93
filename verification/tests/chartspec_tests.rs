use chartdata::aggregate::aggregate_grouped;
use chartdata::aggregate::GroupedRow;
use chartdata::chartspec::build_grouped_bars;
use chartdata::chartspec::build_keyed_scatter;
use chartdata::chartspec::build_plain_bars;
use chartdata::chartspec::color_for_label;
use chartdata::chartspec::count_outside_window;
use chartdata::chartspec::line_segments;

fn strings(xs: &[&str]) -> Vec<String> {
    xs.iter().map(|s| s.to_string()).collect()
}

#[test]
fn plain_bars_alternate_color_by_emission_index() {
    let bars = build_plain_bars(&vec![10, 20, 30, 40], 1000, 700);
    assert_eq!(bars.len(), 4);
    let colors: Vec<usize> = bars.iter().map(|b| b.color_class).collect();
    assert_eq!(colors, vec![0, 1, 0, 1]);
    for w in bars.windows(2) {
        assert_ne!(w[0].color_class, w[1].color_class);
    }
}

#[test]
fn plain_bars_stand_at_their_slot() {
    let bars = build_plain_bars(&vec![5, 6], 1000, 600);
    assert_eq!(bars[0].left, 0);
    assert_eq!(bars[1].left, 1000);
    assert_eq!(bars[0].width, 600);
    assert_eq!(bars[0].height, 5);
    assert_eq!(bars[1].height, 6);
}

#[test]
fn color_ignores_category_content() {
    // Same values in a different order keep the same color sequence.
    let a = build_plain_bars(&vec![1, 2, 3], 10, 7);
    let b = build_plain_bars(&vec![3, 1, 2], 10, 7);
    let ca: Vec<usize> = a.iter().map(|r| r.color_class).collect();
    let cb: Vec<usize> = b.iter().map(|r| r.color_class).collect();
    assert_eq!(ca, cb);
}

#[test]
fn two_rectangles_at_one_slot() {
    // One region, two year series: left sub-bar is series 0 (first
    // color class), right sub-bar series 1, heights the two values.
    let rows = vec![
        GroupedRow {
            category: "North".to_string(),
            series: "2543".to_string(),
            value: 100_000,
        },
        GroupedRow {
            category: "North".to_string(),
            series: "2553".to_string(),
            value: 200_000,
        },
    ];
    let g = aggregate_grouped(&rows, &strings(&["North"]), &strings(&["2543", "2553"]));
    let bars = build_grouped_bars(&g.cells, 2000, 400, 100);
    assert_eq!(bars.len(), 2);
    assert_eq!(bars[0].category_slot, 0);
    assert_eq!(bars[0].series_index, 0);
    assert_eq!(bars[0].left, 0);
    assert_eq!(bars[0].height, 100_000);
    assert_eq!(bars[0].color_class, 0);
    assert_eq!(bars[1].series_index, 1);
    assert_eq!(bars[1].left, 500);
    assert_eq!(bars[1].height, 200_000);
    assert_eq!(bars[1].color_class, 1);
    assert!(bars[0].left < bars[1].left);
}

#[test]
fn missing_cells_yield_no_bar() {
    let rows = vec![GroupedRow {
        category: "South".to_string(),
        series: "2553".to_string(),
        value: 50_000,
    }];
    let g = aggregate_grouped(
        &rows,
        &strings(&["North", "South"]),
        &strings(&["2543", "2553"]),
    );
    let bars = build_grouped_bars(&g.cells, 2000, 400, 100);
    assert_eq!(bars.len(), 1);
    assert_eq!(bars[0].category_slot, 1);
    assert_eq!(bars[0].series_index, 1);
    assert_eq!(bars[0].left, 2000 + 500);
}

#[test]
fn keyed_color_matches_or_falls_back() {
    let keys = strings(&["male", "female"]);
    assert_eq!(color_for_label(&keys, &"male".to_string()), 0);
    assert_eq!(color_for_label(&keys, &"female".to_string()), 1);
    assert_eq!(color_for_label(&keys, &"other".to_string()), 2);
    assert_eq!(color_for_label(&keys, &"".to_string()), 2);
}

#[test]
fn keyed_scatter_points_carry_their_class() {
    let points = vec![(1_000, 2_000), (3_000, 4_000), (5_000, 6_000)];
    let labels = strings(&["male", "unknown", "female"]);
    let keys = strings(&["male", "female"]);
    let out = build_keyed_scatter(&points, &labels, &keys);
    assert_eq!(out.len(), 3);
    assert_eq!((out[0].x, out[0].y, out[0].color_class), (1_000, 2_000, 0));
    assert_eq!((out[1].x, out[1].y, out[1].color_class), (3_000, 4_000, 2));
    assert_eq!((out[2].x, out[2].y, out[2].color_class), (5_000, 6_000, 1));
}

#[test]
fn segments_join_consecutive_points() {
    let points = vec![(0, 0), (1, 10), (2, 5)];
    let segs = line_segments(&points);
    assert_eq!(segs, vec![((0, 0), (1, 10)), ((1, 10), (2, 5))]);
    assert!(line_segments(&Vec::new()).is_empty());
    assert!(line_segments(&vec![(7, 7)]).is_empty());
}

#[test]
fn out_of_window_points_are_counted_not_fatal() {
    let points = vec![(0, 0), (5, 5), (11, 5), (5, -1)];
    assert_eq!(count_outside_window(&points, 0, 10, 0, 10), 2);
    assert_eq!(count_outside_window(&points, -100, 100, -100, 100), 0);
}
