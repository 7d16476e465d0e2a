use dataset_report::dwt::{
    exceeds_threshold, folding_stack, local_extrema, push_into_stack, skeleton, DwtState, Extreme,
    Kind, OnlineExtrema, RelThreshold,
};

fn mx(t: usize, x: i64) -> Extreme {
    Extreme::new(t, x, Kind::Max)
}

fn mn(t: usize, x: i64) -> Extreme {
    Extreme::new(t, x, Kind::Min)
}

const ZERO: RelThreshold = RelThreshold { num: 0, den: 1 };

#[test]
fn dominates_same_kind_only() {
    assert!(mx(0, 10).dominates(&mx(1, 9)));
    assert!(!mx(0, 9).dominates(&mx(1, 9)));
    assert!(!mx(0, 10).dominates(&mn(1, 9)));
    assert!(mn(0, 3).dominates(&mn(1, 4)));
    assert!(!mn(0, 5).dominates(&mn(1, 4)));
    assert!(mx(0, 9).reaches(&mx(1, 9)));
    assert!(!mx(0, 8).reaches(&mx(1, 9)));
    assert!(mn(0, 4).reaches(&mn(1, 4)));
    assert!(!mn(0, 4).reaches(&mx(1, 4)));
}

#[test]
fn threshold_is_relative_and_strict() {
    // 10% of 100 is 10: a move of 10 does not clear it, 11 does.
    let d = RelThreshold { num: 1, den: 10 };
    assert!(!exceeds_threshold(&mx(0, 100), &mn(1, 90), d));
    assert!(exceeds_threshold(&mx(0, 100), &mn(1, 89), d));
    assert!(exceeds_threshold(&mn(0, 100), &mx(1, 111), d));
    // From a zero price any move clears a finite threshold.
    assert!(exceeds_threshold(&mn(0, 0), &mx(1, 1), RelThreshold { num: 1000, den: 1 }));
    assert!(!exceeds_threshold(&mn(0, 0), &mx(1, 0), ZERO));
    // Extreme values do not overflow.
    assert!(exceeds_threshold(
        &mn(0, i64::MIN),
        &mx(1, i64::MAX),
        RelThreshold { num: 1, den: u64::MAX }
    ));
}

#[test]
fn local_extrema_short_input_is_empty() {
    assert!(local_extrema(&[], ZERO).is_empty());
    assert!(local_extrema(&[1, 2], ZERO).is_empty());
}

#[test]
fn local_extrema_finds_strict_turning_points() {
    let p = [1, 3, 2, 5, 4, 4, 6];
    let e = local_extrema(&p, ZERO);
    assert_eq!(e, vec![mx(1, 3), mn(2, 2), mx(3, 5)]);
}

#[test]
fn local_extrema_plateau_merges_maxima() {
    // The minimum on the plateau 2,2 is not a strict turning point; the higher
    // maximum after it clears the threshold and takes the place of the first.
    let p = [1, 3, 2, 2, 4, 1];
    let e = local_extrema(&p, ZERO);
    assert_eq!(e, vec![mx(4, 4)]);
    // A maximum at the same price does not clear the threshold and is dropped.
    let q = [1, 3, 2, 2, 3, 1];
    assert_eq!(local_extrema(&q, ZERO), vec![mx(1, 3)]);
}

#[test]
fn local_extrema_dropped_turn_merges_neighbours() {
    // 1, 10, 9.99, 11, 1 in ticks of 1e-4 with a 1% threshold: the small dip to
    // 9.99 is dropped and the maxima 10 and 11 merge into 11.
    let p = [10_000, 100_000, 99_900, 110_000, 10_000];
    let d = RelThreshold { num: 1, den: 100 };
    assert_eq!(local_extrema(&p, d), vec![mx(3, 110_000)]);
}

#[test]
fn local_extrema_merge_keeps_threshold() {
    // Plateaus hide the turns at 150 and 80/70: the turning points are Min 100,
    // Max 90 and Max 99. Max 99 would take the place of Max 90, but it is only
    // 1% away from Min 100 before it, so it is dropped; every kept extremum
    // moves more than 5% from the one before it.
    let p = [120, 100, 150, 150, 80, 80, 90, 70, 70, 99, 60];
    let d = RelThreshold { num: 5, den: 100 };
    let e = local_extrema(&p, d);
    for w in e.windows(2) {
        assert_ne!(w[0].kind, w[1].kind);
        assert!(exceeds_threshold(&w[0], &w[1], d));
    }
    assert_eq!(e, vec![mn(1, 100), mx(6, 90)]);
}

#[test]
fn local_extrema_small_same_kind_move_is_dropped() {
    // A maximum 0.05% above the kept one (after a hidden minimum) does not
    // clear a 1% threshold and is dropped, as the threshold rule alone does.
    let p = [1_000_000, 2_000_000, 1_500_000, 1_500_000, 2_001_000, 1_000_000];
    let d = RelThreshold { num: 1, den: 100 };
    assert_eq!(local_extrema(&p, d), vec![mx(1, 2_000_000)]);
}

#[test]
fn local_extrema_always_alternate() {
    let d = RelThreshold { num: 3, den: 100 };
    let p = [50, 52, 51, 55, 55, 49, 50, 49, 53, 53, 60, 58, 59, 40, 41, 41, 45];
    for thr in [ZERO, d] {
        let e = local_extrema(&p, thr);
        for w in e.windows(2) {
            assert_ne!(w[0].kind, w[1].kind);
            assert!(w[0].t < w[1].t);
        }
    }
}

#[test]
fn local_extrema_amplitude_threshold() {
    // 100 -> 99 is a 1% move and is dropped at a 5% threshold; 100 -> 80 is kept.
    let p = [90, 100, 99, 100, 80, 120];
    let d = RelThreshold { num: 5, den: 100 };
    let e = local_extrema(&p, d);
    assert_eq!(e, vec![mx(1, 100), mn(4, 80)]);
}

#[test]
fn push_into_stack_pushes_without_wipe() {
    let mut s = vec![mx(0, 10), mn(1, 2)];
    assert!(!push_into_stack(&mut s, mx(2, 8)));
    assert_eq!(s, vec![mx(0, 10), mn(1, 2), mx(2, 8)]);
}

#[test]
fn push_into_stack_same_kind_not_dominating_is_absorbed() {
    let mut s = vec![mx(0, 10), mn(1, 2), mx(2, 8)];
    assert!(!push_into_stack(&mut s, mx(3, 7)));
    assert_eq!(s, vec![mx(0, 10), mn(1, 2), mx(2, 8)]);
}

#[test]
fn push_into_stack_wipes_dominated_top() {
    let mut s = vec![mx(0, 10), mn(1, 2), mx(2, 8)];
    assert!(push_into_stack(&mut s, mx(3, 9)));
    assert_eq!(s, vec![mx(0, 10), mn(1, 2), mx(3, 9)]);
}

#[test]
fn push_into_stack_wipes_pairs() {
    // Min 1 dominates Min 3 below the Max 8 top: the pair goes, then Min 2
    // below Max 10 is dominated too, leaving the Max 10 and then Min 1.
    let mut s = vec![mx(0, 10), mn(1, 2), mx(2, 8), mn(3, 3), mx(4, 6)];
    assert!(push_into_stack(&mut s, mn(5, 1)));
    assert_eq!(s, vec![mx(0, 10), mn(5, 1)]);
}

#[test]
fn push_into_stack_on_empty_stack() {
    let mut s: Vec<Extreme> = Vec::new();
    assert!(!push_into_stack(&mut s, mn(0, 5)));
    assert_eq!(s, vec![mn(0, 5)]);
}

#[test]
fn wipe_flag_iff_old_stack_not_prefix() {
    let cases: Vec<(Vec<Extreme>, Extreme)> = vec![
        (vec![mx(0, 10), mn(1, 2)], mx(2, 8)),
        (vec![mx(0, 10), mn(1, 2), mx(2, 8)], mx(3, 7)),
        (vec![mx(0, 10), mn(1, 2), mx(2, 8)], mx(3, 9)),
        (vec![mx(0, 10), mn(1, 2), mx(2, 8), mn(3, 3)], mx(4, 9)),
        (vec![mn(0, 4)], mn(1, 1)),
    ];
    for (old, e) in cases {
        let mut s = old.clone();
        let wiped = push_into_stack(&mut s, e);
        let prefix = s.len() >= old.len() && s[..old.len()] == old[..];
        assert_eq!(wiped, !prefix);
        assert!(s.len() <= old.len() + 1);
    }
}

fn is_folded(s: &[Extreme]) -> bool {
    for i in 0..s.len() {
        if i + 1 < s.len() && s[i].kind == s[i + 1].kind {
            return false;
        }
        for j in i + 1..s.len() {
            if s[i].kind == s[j].kind && !s[i].dominates(&s[j]) {
                return false;
            }
        }
    }
    true
}

#[test]
fn folding_stack_example() {
    let es = vec![mx(1, 10), mn(2, 2), mx(3, 8), mn(4, 3), mx(5, 9), mn(6, 1)];
    let s = folding_stack(&es);
    // Max 9 wipes the pair (Max 8, Min 3); Min 1 then wipes (Max 9, Min 2).
    assert_eq!(s, vec![mx(1, 10), mn(6, 1)]);
    assert!(is_folded(&s));
}

#[test]
fn folding_stack_keeps_folded_shape() {
    let es = vec![
        mx(0, 50), mn(1, 10), mx(2, 40), mn(3, 20), mx(4, 30), mn(5, 25), mx(6, 45), mn(7, 5),
        mx(8, 60), mn(9, 30), mx(10, 30), mn(11, 30),
    ];
    for k in 0..=es.len() {
        assert!(is_folded(&folding_stack(&es[..k])));
    }
}

#[test]
fn folding_stack_tie_wipes_earlier() {
    // A maximum at the price of an earlier one wipes it out with the minimum
    // between them, so the stack stays strictly ordered.
    let s = folding_stack(&[mx(0, 10), mn(1, 5), mx(2, 10)]);
    assert_eq!(s, vec![mx(2, 10)]);
    let s = folding_stack(&[mx(0, 5), mn(1, 1), mx(2, 5)]);
    assert_eq!(s, vec![mx(2, 5)]);
    assert!(is_folded(&s));
}

#[test]
fn push_into_stack_tie_on_top_is_absorbed() {
    // A maximum at the price of the top maximum does not dominate it: the
    // stack stays and no wiping-out is reported.
    let mut s = vec![mx(0, 10), mn(1, 2), mx(2, 8)];
    assert!(!push_into_stack(&mut s, mx(3, 8)));
    assert_eq!(s, vec![mx(0, 10), mn(1, 2), mx(2, 8)]);
    let mut one = vec![mx(0, 10)];
    assert!(!push_into_stack(&mut one, mx(1, 10)));
    assert_eq!(one, vec![mx(0, 10)]);
}

#[test]
fn online_tracker_ties_stay_strict() {
    let mut tr = OnlineExtrema::new(ZERO);
    for &p in &[1, 5, 1, 5, 1] {
        let (stack, _) = tr.push(p);
        assert!(is_folded(stack));
    }
    assert_eq!(tr.stack(), vec![mx(3, 5)]);
}

#[test]
fn folding_stack_strict_with_distinct_prices() {
    let s = folding_stack(&[mx(0, 10), mn(1, 5), mx(2, 9), mn(3, 6), mx(4, 8)]);
    assert_eq!(s, vec![mx(0, 10), mn(1, 5), mx(2, 9), mn(3, 6), mx(4, 8)]);
}

#[test]
fn skeleton_pipeline() {
    let p = [100, 110, 105, 120, 90, 95, 94, 130];
    let s = skeleton(&p, ZERO);
    assert_eq!(s, folding_stack(&local_extrema(&p, ZERO)));
    assert!(is_folded(&s));
    for w in s.windows(2) {
        assert!(w[0].t < w[1].t);
    }
    assert_eq!(s, vec![mx(3, 120), mn(4, 90), mx(5, 95), mn(6, 94)]);
}

#[test]
fn dwt_state_of_empty_stack() {
    let st = DwtState::from_stack(&[], 7);
    assert_eq!(st.depth, 0);
    assert_eq!(st.top_kind, None);
    assert_eq!(st.top_price, None);
    assert_eq!(st.top2_price, None);
    assert_eq!(st.dist_to_top, None);
    assert_eq!(st.gap_bars_sum, 0);
    assert_eq!(st.n_gaps, 0);
}

#[test]
fn dwt_state_of_stack() {
    let s = [mx(2, 100), mn(5, 80), mx(5, 95), mn(12, 85)];
    let st = DwtState::from_stack(&s, 90);
    assert_eq!(st.depth, 4);
    assert_eq!(st.top_kind, Some(Kind::Min));
    assert_eq!(st.top_price, Some(85));
    assert_eq!(st.top2_price, Some(95));
    assert_eq!(st.dist_to_top, Some(5));
    // gaps 3, max(0, 1) = 1, 7
    assert_eq!(st.gap_bars_sum, 11);
    assert_eq!(st.n_gaps, 3);
    let one = DwtState::from_stack(&s[..1], i64::MIN);
    assert_eq!(one.dist_to_top, Some(100u64 + (1u64 << 63)));
    assert_eq!(one.n_gaps, 0);
}

#[test]
fn online_tracker_sequence() {
    let mut tr = OnlineExtrema::new(ZERO);
    let prices = [100, 110, 105, 120, 90, 95, 94, 130];
    let mut flags = Vec::new();
    for &p in &prices {
        let (_, wiped) = tr.push(p);
        flags.push(wiped);
    }
    // Turns are revealed one bar late: Max 110 at bar 1 (seen at bar 2),
    // Min 105 at bar 2, Max 120 at bar 3 (wipes Max 110 with Min 105),
    // Min 90 at bar 4, Max 95 at bar 5, Min 94 at bar 6.
    assert_eq!(flags, vec![false, false, false, false, true, false, false, false]);
    assert_eq!(tr.stack(), vec![mx(3, 120), mn(4, 90), mx(5, 95), mn(6, 94)]);
    let st = tr.state(130);
    assert_eq!(st.depth, 4);
    assert_eq!(st.dist_to_top, Some(36));
    assert!(is_folded(&tr.stack()));
}

#[test]
fn online_tracker_threshold_same_kind_always_accepted() {
    let mut tr = OnlineExtrema::new(RelThreshold { num: 1, den: 2 });
    for &p in &[10, 20, 15, 30, 25] {
        tr.push(p);
    }
    // Max 20 (bar 1) accepted on the empty stack; Min 15 moves 25% < 50% and is
    // refused; Max 30 has the kind of the top and wipes Max 20.
    assert_eq!(tr.stack(), vec![mx(3, 30)]);
}

#[test]
fn online_tracker_first_price_only_starts() {
    let mut tr = OnlineExtrema::new(ZERO);
    let (s, w) = tr.push(5);
    assert!(s.is_empty());
    assert!(!w);
    let (s, w) = tr.push(5);
    assert!(s.is_empty());
    assert!(!w);
}

#[test]
fn local_extrema_alternate_without_flat_steps() {
    let p = [5, 7, 6, 9, 3, 4, 2, 8, 1, 10, 11, 0];
    let e = local_extrema(&p, ZERO);
    assert!(!e.is_empty());
    for w in e.windows(2) {
        assert_ne!(w[0].kind, w[1].kind);
    }
}

#[test]
fn local_extrema_are_strict_turning_points() {
    let p = [4, 4, 6, 5, 5, 7, 3, 8, 8, 2, 9];
    let e = local_extrema(&p, ZERO);
    for x in &e {
        let i = x.t;
        assert!(i >= 1 && i + 1 < p.len());
        assert_eq!(x.x, p[i]);
        match x.kind {
            Kind::Max => assert!(p[i - 1] < p[i] && p[i] > p[i + 1]),
            Kind::Min => assert!(p[i - 1] > p[i] && p[i] < p[i + 1]),
        }
    }
    for w in e.windows(2) {
        assert!(w[0].t < w[1].t);
    }
}

#[test]
fn wipe_erases_only_dominated_entries() {
    let old = vec![mx(0, 10), mn(1, 2), mx(2, 8), mn(3, 3), mx(4, 6)];
    let mut s = old.clone();
    let e = mn(5, 1);
    push_into_stack(&mut s, e);
    for (i, o) in old.iter().enumerate() {
        let kept = i < s.len() && s[i] == *o;
        if !kept && o.kind == e.kind {
            assert!(e.reaches(o));
        }
    }
}

#[test]
fn gap_sum_spans_chronological_stack() {
    let s = [mx(3, 100), mn(7, 80), mx(8, 95), mn(20, 85)];
    let st = DwtState::from_stack(&s, 90);
    assert_eq!(st.gap_bars_sum, (20 - 3) as u128);
}

#[test]
fn online_tracker_survivors_precede_current_bar() {
    let prices = [50, 52, 51, 55, 49, 49, 53, 47, 60, 58, 58, 61, 40];
    let mut tr = OnlineExtrema::new(RelThreshold { num: 1, den: 100 });
    for (bar, &p) in prices.iter().enumerate() {
        let (stack, _) = tr.push(p);
        assert!(is_folded(stack));
        for w in stack.windows(2) {
            assert!(w[0].t < w[1].t);
        }
        assert!(stack.iter().all(|x| x.t < bar));
    }
}

#[test]
fn online_tracker_matches_batch_without_flats() {
    let prices = [100, 110, 105, 120, 90, 95, 94, 130, 125, 140, 60, 70, 65, 66, 64, 200];
    let mut tr = OnlineExtrema::new(ZERO);
    for &p in &prices {
        tr.push(p);
    }
    assert_eq!(tr.stack(), skeleton(&prices, ZERO));
}

#[test]
fn online_tracker_differs_from_batch_on_plateau() {
    // The tracker reads through the flat step 3,3 and sees the maximum; the
    // batch extraction needs a strict turn on both sides and sees none.
    let prices = [1, 3, 3, 2];
    let mut tr = OnlineExtrema::new(ZERO);
    for &p in &prices {
        tr.push(p);
    }
    assert_eq!(tr.stack(), vec![mx(2, 3)]);
    assert!(skeleton(&prices, ZERO).is_empty());
}
