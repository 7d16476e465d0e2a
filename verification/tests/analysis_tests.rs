use dataset_report::analysis_core::regime_labels;

#[test]
fn regime_labels_count_later_wipes() {
    let w = [true, false, true, true, false, true];
    assert_eq!(regime_labels(&w), vec![0, 0, 1, 2, 2, 3]);
    assert!(regime_labels(&[]).is_empty());
}

#[test]
fn regime_labels_step_by_at_most_one() {
    let w = [false, true, false, false, true, true, false];
    let ids = regime_labels(&w);
    for i in 1..ids.len() {
        assert_eq!(ids[i], ids[i - 1] + usize::from(w[i]));
    }
}
