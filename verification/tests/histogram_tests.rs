use chartdata::histogram::bin_edges;
use chartdata::histogram::bin_index;
use chartdata::histogram::build_histogram;
use chartdata::histogram::histogram_counts;
use chartdata::histogram::min_max;

#[test]
fn min_max_scans_in_one_pass() {
    assert_eq!(min_max(&vec![3, -1, 7, 7, 0]), Some((-1, 7)));
    assert_eq!(min_max(&vec![5]), Some((5, 5)));
    assert_eq!(min_max(&Vec::new()), None);
}

#[test]
fn eleven_values_three_bins() {
    // Binning 1,1,2,5,5,5,9,9,9,9,10 over [1,10] with 3 bins.
    let values = vec![1, 1, 2, 5, 5, 5, 9, 9, 9, 9, 10];
    let h = build_histogram(&values, 3).unwrap();
    assert_eq!(h.edges, vec![1, 4, 7, 10]);
    assert_eq!(h.counts, vec![3, 3, 5]);
    let total: usize = h.counts.iter().sum();
    assert_eq!(total, values.len());
}

#[test]
fn maximum_falls_in_last_bin() {
    assert_eq!(bin_index(10, 1, 10, 3), 2);
    assert_eq!(bin_index(1, 1, 10, 3), 0);
    assert_eq!(bin_index(4, 1, 10, 3), 1);
}

#[test]
fn zero_count_bins_are_kept() {
    let h = build_histogram(&vec![1, 10], 3).unwrap();
    assert_eq!(h.edges, vec![1, 4, 7, 10]);
    assert_eq!(h.counts, vec![1, 0, 1]);
}

#[test]
fn empty_input_yields_no_histogram() {
    assert!(build_histogram(&Vec::new(), 3).is_none());
}

#[test]
fn all_equal_values_land_in_last_bin() {
    // A degenerate range: every value equals the maximum, so every
    // value belongs to the last bin.
    let h = build_histogram(&vec![5, 5, 5], 2).unwrap();
    assert_eq!(h.edges, vec![5, 5, 5]);
    assert_eq!(h.counts, vec![0, 3]);
    let one_bin = build_histogram(&vec![7], 1).unwrap();
    assert_eq!(one_bin.counts, vec![1]);
}

#[test]
fn counts_sum_to_parsed_value_count() {
    let values = vec![-10, 0, 3, 3, 8, 20, 20, 20];
    let counts = histogram_counts(&values, -10, 20, 4);
    let total: usize = counts.iter().sum();
    assert_eq!(total, values.len());
}

#[test]
fn edges_follow_the_stated_formula() {
    // min + i * (max - min) / nbins, integer division.
    let edges = bin_edges(0, 10, 3);
    assert_eq!(edges, vec![0, 3, 6, 10]);
    let edges = bin_edges(-6, 6, 4);
    assert_eq!(edges, vec![-6, -3, 0, 3, 6]);
}
