use mvitop::chart::chart_columns;

#[test]
fn right_aligns_short_histories() {
    assert_eq!(chart_columns(&vec![10, 20], 4), vec![None, None, Some(10), Some(20)]);
}

#[test]
fn downsampling_keeps_peaks() {
    assert_eq!(chart_columns(&vec![10, 90, 20, 30], 2), vec![Some(90), Some(30)]);
}

#[test]
fn zero_width_chart_is_empty() {
    assert!(chart_columns(&vec![1, 2, 3], 0).is_empty());
}

#[test]
fn the_global_peak_survives_downsampling() {
    let values: Vec<u64> = (0..97u64).map(|i| (i * 37) % 101).collect();
    let peak = *values.iter().max().unwrap();
    for width in [1usize, 2, 5, 13, 50, 96] {
        let columns = chart_columns(&values, width);
        assert_eq!(columns.len(), width);
        assert!(columns.iter().all(|c| c.unwrap() <= peak));
        assert!(columns.contains(&Some(peak)), "width {width}");
    }
}

#[test]
fn uneven_runs_cover_every_sample() {
    assert_eq!(chart_columns(&vec![5, 1, 1, 7, 1], 3), vec![Some(5), Some(1), Some(7)]);
}
