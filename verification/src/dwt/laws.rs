//! Laws of the wiping-out rule and of the extrema extraction.

use vstd::prelude::*;

use crate::dwt::{
    amplitude_filter, fold_all, fold_in, first_step_wipes, is_chronological,
    is_strictly_folded, kinds_alternate, moves_enough, plain_threshold_filter,
    spec_local_extrema, tracker_step, tracker_wf, turning_point, turning_points, Extreme, Kind,
    RelThreshold, TrackerView, turn_at, gaps_total, abs_int, fresh_tracker, tracker_run, step_sign,
    accepts,
};

verus! {

/// Folding `e` into `s` keeps a prefix `s[..k]` of the old stack and then either
/// pushes `e` or drops it; `k` is short of the whole stack exactly when the
/// first step wipes something out, every erased entry of the kind of `e` is
/// reached by `e`, and when only the top is erased `e` strictly dominates it.
pub proof fn lemma_fold_in_shape(s: Seq<Extreme>, e: Extreme) -> (k: int)
    ensures
        0 <= k <= s.len(),
        fold_in(s, e) == s.take(k) || fold_in(s, e) == s.take(k).push(e),
        first_step_wipes(s, e) <==> k < s.len(),
        forall|i: int| k <= i < s.len() && #[trigger] s[i].kind == e.kind ==> e.spec_reaches(s[i]),
        k == s.len() - 1 ==> e.spec_dominates(s[k]),
    decreases s.len(),
{
    if s.len() == 0 {
        assert(s.take(0) =~= s);
        0
    } else if s.last().kind == e.kind {
        if e.spec_dominates(s.last()) {
            let k = lemma_fold_in_shape(s.drop_last(), e);
            assert(s.drop_last().take(k) =~= s.take(k));
            assert forall|i: int| k <= i < s.len() && #[trigger] s[i].kind == e.kind implies e.spec_reaches(
                s[i],
            ) by {
                if i < s.len() - 1 {
                    assert(s.drop_last()[i] == s[i]);
                }
            }
            k
        } else {
            assert(s.take(s.len() as int) =~= s);
            s.len() as int
        }
    } else if s.len() >= 2 && e.spec_reaches(s[s.len() - 2]) {
        let t = s.take(s.len() - 2);
        let k = lemma_fold_in_shape(t, e);
        assert(t.take(k) =~= s.take(k));
        assert forall|i: int| k <= i < s.len() && #[trigger] s[i].kind == e.kind implies e.spec_reaches(
            s[i],
        ) by {
            if i < s.len() - 2 {
                assert(t[i] == s[i]);
            }
        }
        k
    } else {
        assert(s.take(s.len() as int) =~= s);
        s.len() as int
    }
}

/// The stack grows by at most one entry per folded extremum.
pub proof fn lemma_fold_in_grows_by_at_most_one(s: Seq<Extreme>, e: Extreme)
    ensures
        fold_in(s, e).len() <= s.len() + 1,
{
    let _ = lemma_fold_in_shape(s, e);
}

/// Every entry of `fold_in(s, e)` is `e` or an entry of `s`.
pub proof fn lemma_fold_in_members(s: Seq<Extreme>, e: Extreme)
    ensures
        forall|m: Extreme| #[trigger] fold_in(s, e).contains(m) ==> m == e || s.contains(m),
{
    let k = lemma_fold_in_shape(s, e);
    let r = fold_in(s, e);
    assert forall|m: Extreme| #[trigger] r.contains(m) implies m == e || s.contains(m) by {
        let j = choose|j: int| 0 <= j < r.len() && r[j] == m;
        if j < k {
            assert(s[j] == m);
        }
    }
}


/// Every entry of `fold_all(es)` is an entry of `es`.
pub proof fn lemma_fold_all_members(es: Seq<Extreme>)
    ensures
        forall|m: Extreme| #[trigger] fold_all(es).contains(m) ==> es.contains(m),
    decreases es.len(),
{
    if es.len() > 0 {
        let p = es.drop_last();
        lemma_fold_all_members(p);
        lemma_fold_in_members(fold_all(p), es.last());
        assert forall|m: Extreme| #[trigger] fold_all(es).contains(m) implies es.contains(m) by {
            if m == es.last() {
                assert(es[es.len() - 1] == m);
            } else {
                assert(fold_all(p).contains(m));
                assert(p.contains(m));
                let j = choose|j: int| 0 <= j < p.len() && p[j] == m;
                assert(es[j] == m);
            }
        }
    }
}

/// Folding an extremum later than every entry keeps the stack in bar order.
pub proof fn lemma_fold_in_keeps_chronological(s: Seq<Extreme>, e: Extreme)
    requires
        is_chronological(s),
        forall|i: int| 0 <= i < s.len() ==> (#[trigger] s[i]).t < e.t,
    ensures
        is_chronological(fold_in(s, e)),
{
    let k = lemma_fold_in_shape(s, e);
    let r = fold_in(s, e);
    assert forall|i: int, j: int| 0 <= i < j < r.len() implies (#[trigger] r[i]).t < (#[trigger] r[j]).t by {
        assert(r[i] == s[i]);
        if j < k {
            assert(r[j] == s[j]);
        }
    }
}

/// Folding extrema given in bar order gives a stack in bar order.
pub proof fn lemma_fold_all_chronological(es: Seq<Extreme>)
    requires
        is_chronological(es),
    ensures
        is_chronological(fold_all(es)),
    decreases es.len(),
{
    if es.len() > 0 {
        let p = es.drop_last();
        let e = es.last();
        assert(is_chronological(p)) by {
            assert forall|i: int, j: int| 0 <= i < j < p.len() implies (#[trigger] p[i]).t < (#[trigger] p[j]).t by {
                assert(es[i] == p[i] && es[j] == p[j]);
            }
        }
        lemma_fold_all_chronological(p);
        lemma_fold_all_members(p);
        let f = fold_all(p);
        assert forall|i: int| 0 <= i < f.len() implies (#[trigger] f[i]).t < e.t by {
            assert(f.contains(f[i]));
            let j = choose|j: int| 0 <= j < p.len() && p[j] == f[i];
            assert(es[j] == p[j]);
            assert(es[es.len() - 1] == e);
        }
        lemma_fold_in_keeps_chronological(f, e);
    }
}


/// Turning points among the first `upto` bars come in bar order, each is the
/// turning point of the path at its own bar, and each lies before `upto`.
pub proof fn lemma_turning_points_sound(p: Seq<i64>, upto: int)
    requires
        p.len() <= usize::MAX,
    ensures
        is_chronological(turning_points(p, upto)),
        forall|m: Extreme| #[trigger] turning_points(p, upto).contains(m) ==> m.t < upto && turning_point(p, m.t as int) == Some(m),
    decreases upto,
{
    if upto > 0 {
        lemma_turning_points_sound(p, upto - 1);
        let prev = turning_points(p, upto - 1);
        match turning_point(p, upto - 1) {
            Some(e) => {
                let r = prev.push(e);
                assert(e.t == upto - 1);
                assert forall|i: int, j: int| 0 <= i < j < r.len() implies (#[trigger] r[i]).t < (#[trigger] r[j]).t by {
                    assert(r[i] == prev[i]);
                    assert(prev.contains(prev[i]));
                    if j < prev.len() {
                        assert(r[j] == prev[j]);
                    }
                }
                assert forall|m: Extreme| #[trigger] r.contains(m) implies m.t < upto && turning_point(p, m.t as int) == Some(m) by {
                    let j = choose|j: int| 0 <= j < r.len() && r[j] == m;
                    if j < prev.len() {
                        assert(prev[j] == m);
                        assert(prev.contains(m));
                    }
                }
            },
            None => {},
        }
    }
}


/// Every step of the online tracker keeps it consistent: the stack keeps the
/// strict folding shape and bar order, and its survivors stay before the current bar.
pub proof fn lemma_tracker_step_keeps_wf(v: TrackerView, price: i64)
    requires
        tracker_wf(v),
        v.started ==> v.t < usize::MAX,
    ensures
        tracker_wf(tracker_step(v, price).0),
{
    let w = tracker_step(v, price).0;
    if v.started {
        let sign = crate::dwt::step_sign(v.last_price, price);
        match turn_at(v.prev_sign, sign, v.t, v.last_price) {
            Some(e) => {
                if crate::dwt::accepts(v.stack, e, v.delta_rel) {
                    lemma_fold_in_keeps_strictly_folded(v.stack, e);
                    lemma_fold_in_keeps_chronological(v.stack, e);
                    lemma_fold_in_members(v.stack, e);
                    let r = fold_in(v.stack, e);
                    assert(w.stack == r);
                    assert forall|i: int| 0 <= i < r.len() implies (#[trigger] r[i]).t < w.t by {
                        assert(r.contains(r[i]));
                        if r[i] != e {
                            let j = choose|j: int| 0 <= j < v.stack.len() && v.stack[j] == r[i];
                        }
                    }
                }
            },
            None => {},
        }
    }
}


/// For survivors in bar order every gap is the plain difference of bar
/// indices, so the gaps add up to the span from the bottom survivor to the top.
pub proof fn lemma_gaps_total_span(s: Seq<Extreme>)
    requires
        is_chronological(s),
        s.len() >= 2,
    ensures
        gaps_total(s) == s.last().t - s[0].t,
    decreases s.len(),
{
    let p = s.drop_last();
    assert(s[s.len() - 2].t < s[s.len() - 1].t);
    if s.len() > 2 {
        assert(is_chronological(p)) by {
            assert forall|i: int, j: int| 0 <= i < j < p.len() implies (#[trigger] p[i]).t < (#[trigger] p[j]).t by {
                assert(s[i] == p[i] && s[j] == p[j]);
            }
        }
        lemma_gaps_total_span(p);
        assert(p[0] == s[0]);
    } else {
        assert(gaps_total(p) == 0);
    }
}


/// No two consecutive prices are equal.
pub open spec fn no_flat_steps(p: Seq<i64>) -> bool {
    forall|i: int| 0 <= i && i + 1 < p.len() ==> #[trigger] p[i] != p[i + 1]
}

/// Adjacent entries differ in kind and in price.
pub open spec fn alternate_with_moves(s: Seq<Extreme>) -> bool {
    forall|a: int, b: int|
        #![trigger s[a], s[b]]
        0 <= a && b == a + 1 && b < s.len() ==> s[a].kind != s[b].kind && s[a].x != s[b].x
}

proof fn lemma_turning_points_alternate(p: Seq<i64>, u: int)
    requires
        1 <= u <= p.len() - 1,
        p.len() <= usize::MAX,
        no_flat_steps(p),
    ensures
        alternate_with_moves(turning_points(p, u)),
        turning_points(p, u).len() > 0 ==> {
            let tp = turning_points(p, u);
            let i = tp.last().t as int;
            &&& 1 <= i < u
            &&& tp.last().x == p[i]
            &&& tp.last().kind == Kind::Max ==> forall|k: int|
                i < k <= u ==> #[trigger] p[k] < p[k - 1] && p[k] < p[i]
            &&& tp.last().kind == Kind::Min ==> forall|k: int|
                i < k <= u ==> #[trigger] p[k] > p[k - 1] && p[k] > p[i]
        },
    decreases u,
{
    if u == 1 {
        reveal_with_fuel(turning_points, 2);
    } else {
        lemma_turning_points_alternate(p, u - 1);
        let m = u - 1;
        let prev = turning_points(p, m);
        let tp = turning_points(p, u);
        assert(p[m] != p[m + 1]);
        assert(p[m - 1] != p[m]);
        match turning_point(p, m) {
            Some(e) => {
                assert(tp == prev.push(e));
                assert(e.t as int == m);
                if prev.len() > 0 {
                    let l = prev.last();
                    let i = l.t as int;
                    if l.kind == Kind::Max {
                        assert(p[m] < p[m - 1]);
                        assert(e.kind == Kind::Min);
                        assert(p[m] < p[i]);
                    } else {
                        assert(p[m] > p[m - 1]);
                        assert(e.kind == Kind::Max);
                        assert(p[m] > p[i]);
                    }
                }
                assert forall|a: int, b: int|
                    #![trigger tp[a], tp[b]]
                    0 <= a && b == a + 1 && b < tp.len() implies tp[a].kind != tp[b].kind && tp[a].x
                        != tp[b].x by {
                    if b < prev.len() {
                        assert(tp[a] == prev[a] && tp[b] == prev[b]);
                    } else {
                        assert(tp[a] == prev.last());
                    }
                }
            },
            None => {
                assert(tp == prev);
                if prev.len() > 0 {
                    let l = prev.last();
                    let i = l.t as int;
                    if l.kind == Kind::Max {
                        assert(p[m] < p[m - 1]);
                        assert(p[u] < p[m]);
                    } else {
                        assert(p[m] > p[m - 1]);
                        assert(p[u] > p[m]);
                    }
                }
            },
        }
    }
}


/// After folding `e`, the top is `e` itself or an entry of the kind of `e`
/// that `e` does not dominate.
proof fn lemma_fold_in_top(s: Seq<Extreme>, e: Extreme)
    ensures
        fold_in(s, e).len() > 0,
        fold_in(s, e).last() == e || (fold_in(s, e).last().kind == e.kind && !e.spec_dominates(
            fold_in(s, e).last(),
        )),
    decreases s.len(),
{
    if s.len() == 0 {
    } else if s.last().kind == e.kind {
        if e.spec_dominates(s.last()) {
            lemma_fold_in_top(s.drop_last(), e);
        }
    } else if s.len() >= 2 && e.spec_reaches(s[s.len() - 2]) {
        lemma_fold_in_top(s.take(s.len() - 2), e);
    }
}

/// What the tracker holds after the first `n` prices of a path without flat
/// steps and with a zero threshold.
spec fn run_matches(p: Seq<i64>, n: int, v: TrackerView) -> bool {
    let tp = turning_points(p, n - 1);
    &&& v.started
    &&& v.t == n - 1
    &&& v.last_price == p[n - 1]
    &&& n >= 2 ==> v.prev_sign == step_sign(p[n - 2], p[n - 1])
    &&& n == 1 ==> v.prev_sign == 0
    &&& v.stack == fold_all(tp)
    &&& tp.len() > 0 ==> {
        &&& v.stack.len() > 0
        &&& v.stack.last().kind == tp.last().kind
        &&& tp.last().kind == Kind::Max ==> v.stack.last().x >= tp.last().x
        &&& tp.last().kind == Kind::Min ==> v.stack.last().x <= tp.last().x
    }
}

proof fn lemma_run_matches(p: Seq<i64>, d: RelThreshold, n: int)
    requires
        1 <= n <= p.len(),
        p.len() <= usize::MAX,
        no_flat_steps(p),
        d.num == 0,
        d.den > 0,
    ensures
        run_matches(p, n, tracker_run(fresh_tracker(d), p.take(n))),
        tracker_run(fresh_tracker(d), p.take(n)).delta_rel == d,
    decreases n,
{
    let q = p.take(n);
    assert(q.drop_last() =~= p.take(n - 1));
    if n == 1 {
        reveal_with_fuel(tracker_run, 2);
        reveal_with_fuel(turning_points, 1);
        assert(p.take(0) =~= Seq::<i64>::empty());
        assert(fold_all(Seq::<Extreme>::empty()) == Seq::<Extreme>::empty());
    } else {
        lemma_run_matches(p, d, n - 1);
        let v = tracker_run(fresh_tracker(d), p.take(n - 1));
        let w = tracker_run(fresh_tracker(d), q);
        assert(w == tracker_step(v, p[n - 1]).0);
        let m = n - 2;
        let tp = turning_points(p, m);
        let tp2 = turning_points(p, n - 1);
        assert(p[n - 2] != p[n - 1]);
        let sign = step_sign(p[n - 2], p[n - 1]);
        if n == 2 {
            assert(turn_at(v.prev_sign, sign, v.t, v.last_price) is None);
            reveal_with_fuel(turning_points, 2);
            assert(turning_point(p, 0) is None);
        } else {
            assert(p[m - 1] != p[m]);
            assert(turn_at(v.prev_sign, sign, v.t, v.last_price) == turning_point(p, m));
            match turning_point(p, m) {
                Some(e) => {
                    assert(tp2 == tp.push(e));
                    assert(tp2.drop_last() =~= tp);
                    assert(fold_all(tp2) == fold_in(fold_all(tp), e));
                    // the tracker accepts e
                    if v.stack.len() > 0 && v.stack.last().kind != e.kind {
                        assert(tp.len() > 0) by {
                            if tp.len() == 0 {
                                assert(fold_all(tp) == Seq::<Extreme>::empty());
                            }
                        }
                        lemma_turning_points_alternate(p, n - 1);
                        lemma_turning_points_alternate(p, m);
                        let l = tp.last();
                        assert(tp2[tp.len() - 1] == l && tp2[tp.len() as int] == e);
                        assert(l.kind != e.kind);
                        let top = v.stack.last();
                        assert(top.x != e.x) by {
                            let i = l.t as int;
                            if l.kind == Kind::Max {
                                assert(p[m] < p[i]);
                            } else {
                                assert(p[m] > p[i]);
                            }
                        }
                        assert(abs_int(e.x - top.x) > 0);
                        assert(abs_int(e.x - top.x) * d.den > 0) by (nonlinear_arith)
                            requires
                                abs_int(e.x - top.x) > 0,
                                d.den > 0,
                        ;
                        assert(d.num * abs_int(top.x as int) == 0);
                    }
                    assert(accepts(v.stack, e, d));
                    lemma_fold_in_top(v.stack, e);
                    assert(w.stack == fold_in(v.stack, e));
                    assert(tp2.last() == e);
                },
                None => {
                    assert(tp2 == tp);
                },
            }
        }
    }
}

/// With a zero threshold and a price path without flat steps, the online
/// tracker fed the whole path holds the same stack as the batch pipeline
/// (local extrema, then the folding stack).
pub proof fn lemma_online_matches_batch(p: Seq<i64>, d: RelThreshold)
    requires
        p.len() <= usize::MAX,
        no_flat_steps(p),
        d.num == 0,
        d.den > 0,
    ensures
        tracker_run(fresh_tracker(d), p).stack == fold_all(spec_local_extrema(p, d)),
{
    let n = p.len() as int;
    if n == 0 {
        reveal_with_fuel(turning_points, 1);
        assert(fold_all(Seq::<Extreme>::empty()) == Seq::<Extreme>::empty());
        assert(amplitude_filter(Seq::<Extreme>::empty(), d) == Seq::<Extreme>::empty());
    } else {
        lemma_run_matches(p, d, n);
        assert(p.take(n) =~= p);
        assert(turning_points(p, n) == turning_points(p, n - 1));
        if n >= 2 {
            lemma_turning_points_alternate(p, n - 1);
            lemma_zero_threshold_keeps_all(turning_points(p, n), d);
        } else {
            reveal_with_fuel(turning_points, 2);
            assert(amplitude_filter(Seq::<Extreme>::empty(), d) == Seq::<Extreme>::empty());
        }
    }
}


/// Wiping-out happened exactly when some entry of the old stack did not survive:
/// the flag returned by the push is true iff the old stack is no longer a
/// prefix of the new one.
pub proof fn lemma_wipe_iff_survivor_lost(s: Seq<Extreme>, e: Extreme)
    ensures
        first_step_wipes(s, e) <==> !s.is_prefix_of(fold_in(s, e)),
{
    let k = lemma_fold_in_shape(s, e);
    let r = fold_in(s, e);
    if k < s.len() {
        if r.len() >= s.len() {
            assert(r == s.take(k).push(e));
            assert(r[k] == e);
            assert(e.spec_dominates(s[k]));
            assert(r.subrange(0, s.len() as int)[k] != s[k]);
        }
    } else {
        assert(s.take(k) =~= s);
        assert(s =~= r.subrange(0, s.len() as int));
    }
}

/// Wiping-out erases only extrema that the new extremum reaches (is at least
/// as extreme as), among those of its own kind: an entry of the kind of `e`
/// that does not keep its place in the new stack is reached by `e`.
pub proof fn lemma_wipe_erases_only_reached(s: Seq<Extreme>, e: Extreme)
    ensures
        forall|i: int|
            0 <= i < s.len() && #[trigger] s[i].kind == e.kind && !(i < fold_in(s, e).len()
                && fold_in(s, e)[i] == s[i]) ==> e.spec_reaches(s[i]),
{
    let k = lemma_fold_in_shape(s, e);
    let r = fold_in(s, e);
    assert forall|i: int|
        0 <= i < s.len() && #[trigger] s[i].kind == e.kind && !(i < r.len() && r[i] == s[i]) implies e.spec_reaches(s[i]) by {
        if i < k {
            assert(r[i] == s[i]);
        }
    }
}

/// The wiping-out rule keeps the strict folding shape: kinds alternate, maxima
/// strictly fall and minima strictly rise going up the stack.
pub proof fn lemma_fold_in_keeps_strictly_folded(s: Seq<Extreme>, e: Extreme)
    requires
        is_strictly_folded(s),
    ensures
        is_strictly_folded(fold_in(s, e)),
    decreases s.len(),
{
    if s.len() == 0 {
    } else if s.last().kind == e.kind {
        if e.spec_dominates(s.last()) {
            let t = s.drop_last();
            assert(is_strictly_folded(t)) by {
                assert forall|i: int, j: int| 0 <= i && j == i + 1 && j < t.len() implies #[trigger] t[i].kind != #[trigger] t[j].kind by {
                    assert(s[i] == t[i] && s[j] == t[j]);
                }
                assert forall|i: int, j: int| 0 <= i < j < t.len() && (#[trigger] t[i]).kind == (#[trigger] t[j]).kind implies t[i].spec_dominates(t[j]) by {
                    assert(s[i] == t[i] && s[j] == t[j]);
                }
            }
            lemma_fold_in_keeps_strictly_folded(t, e);
        }
    } else if s.len() >= 2 && e.spec_reaches(s[s.len() - 2]) {
        let t = s.take(s.len() - 2);
        assert(is_strictly_folded(t)) by {
            assert forall|i: int, j: int| 0 <= i && j == i + 1 && j < t.len() implies #[trigger] t[i].kind != #[trigger] t[j].kind by {
                assert(s[i] == t[i] && s[j] == t[j]);
            }
            assert forall|i: int, j: int| 0 <= i < j < t.len() && (#[trigger] t[i]).kind == (#[trigger] t[j]).kind implies t[i].spec_dominates(t[j]) by {
                assert(s[i] == t[i] && s[j] == t[j]);
            }
        }
        lemma_fold_in_keeps_strictly_folded(t, e);
    } else {
        let r = s.push(e);
        let n = s.len() as int;
        assert(r == fold_in(s, e));
        assert forall|i: int, j: int| 0 <= i && j == i + 1 && j < r.len() implies #[trigger] r[i].kind != #[trigger] r[j].kind by {
            if j < n {
                assert(r[i] == s[i] && r[j] == s[j]);
            }
        }
        assert forall|i: int, j: int| 0 <= i < j < r.len() && (#[trigger] r[i]).kind == (#[trigger] r[j]).kind implies r[i].spec_dominates(r[j]) by {
            assert(r[i] == s[i]);
            if j < n {
                assert(r[j] == s[j]);
            } else {
                assert(n >= 2) by {
                    if n == 1 {
                        assert(s[i] == s.last());
                    }
                }
                assert(s[n - 2].kind != s[n - 1].kind);
                assert(s[n - 2].kind == e.kind) by {
                    match e.kind {
                        Kind::Max => {},
                        Kind::Min => {},
                    }
                }
                assert(!e.spec_reaches(s[n - 2]));
                if i < n - 2 {
                    assert(s[i].spec_dominates(s[n - 2]));
                }
            }
        }
    }
}

/// Folding any sequence of extrema gives a stack of strict folding shape.
pub proof fn lemma_fold_all_strictly_folded(es: Seq<Extreme>)
    ensures
        is_strictly_folded(fold_all(es)),
    decreases es.len(),
{
    if es.len() > 0 {
        lemma_fold_all_strictly_folded(es.drop_last());
        lemma_fold_in_keeps_strictly_folded(fold_all(es.drop_last()), es.last());
    }
}

/// The amplitude filter keeps entries of its input, keeps bar order, yields
/// extrema whose kinds alternate, and each kept extremum moves beyond the
/// threshold relative to the kept one before it.
pub proof fn lemma_amplitude_filter_sound(raw: Seq<Extreme>, d: RelThreshold)
    ensures
        forall|m: Extreme| #[trigger] amplitude_filter(raw, d).contains(m) ==> raw.contains(m),
        is_chronological(raw) ==> is_chronological(amplitude_filter(raw, d)),
        kinds_alternate(amplitude_filter(raw, d)),
        forall|i: int, j: int|
            #![trigger amplitude_filter(raw, d)[i], amplitude_filter(raw, d)[j]]
            0 <= i && j == i + 1 && j < amplitude_filter(raw, d).len() ==> moves_enough(
                amplitude_filter(raw, d)[i],
                amplitude_filter(raw, d)[j],
                d,
            ),
    decreases raw.len(),
{
    if raw.len() > 0 {
        let q = raw.drop_last();
        let e = raw.last();
        lemma_amplitude_filter_sound(q, d);
        let kept = amplitude_filter(q, d);
        let r = amplitude_filter(raw, d);
        let n = kept.len() as int;
        assert(raw[raw.len() - 1] == e);
        let replaced = n > 0 && moves_enough(kept.last(), e, d) && kept.last().kind == e.kind
            && e.spec_dominates(kept.last()) && (n == 1 || moves_enough(kept[n - 2], e, d));
        let pushed = n == 0 || (moves_enough(kept.last(), e, d) && kept.last().kind != e.kind);
        assert(replaced ==> r == kept.update(n - 1, e));
        assert(pushed ==> r == kept.push(e));
        assert(!replaced && !pushed ==> r == kept);
        assert forall|m: Extreme| #[trigger] r.contains(m) implies raw.contains(m) by {
            let j = choose|j: int| 0 <= j < r.len() && r[j] == m;
            if m != e {
                assert(j < n && kept[j] == m);
                assert(kept.contains(m));
                let jj = choose|jj: int| 0 <= jj < q.len() && q[jj] == m;
                assert(raw[jj] == m);
            }
        }
        if is_chronological(raw) {
            assert(is_chronological(q)) by {
                assert forall|i: int, j: int| 0 <= i < j < q.len() implies (#[trigger] q[i]).t < (#[trigger] q[j]).t by {
                    assert(raw[i] == q[i] && raw[j] == q[j]);
                }
            }
            assert forall|i: int, j: int| 0 <= i < j < r.len() implies (#[trigger] r[i]).t < (#[trigger] r[j]).t by {
                if j < n && r[j] == kept[j] {
                    assert(r[i] == kept[i]);
                } else {
                    assert(r[j] == e);
                    assert(r[i] == kept[i]);
                    assert(kept.contains(kept[i]));
                    let jj = choose|jj: int| 0 <= jj < q.len() && q[jj] == kept[i];
                    assert(raw[jj] == q[jj]);
                }
            }
        }
        assert forall|i: int, j: int| 0 <= i && j == i + 1 && j < r.len() implies #[trigger] r[i].kind
            != #[trigger] r[j].kind by {
            assert(r[i] == kept[i]);
            if j < n {
                assert(r[j].kind == kept[j].kind);
            }
        }
        assert forall|i: int, j: int|
            #![trigger r[i], r[j]]
            0 <= i && j == i + 1 && j < r.len() implies moves_enough(r[i], r[j], d) by {
            assert(r[i] == kept[i]);
            if j < n && r[j] == kept[j] {
            } else {
                assert(r[j] == e);
            }
        }
    }
}

/// Where the threshold rule on its own already yields alternating extrema,
/// the amplitude filter gives exactly the same result.
pub proof fn lemma_amplitude_filter_agrees_when_alternating(raw: Seq<Extreme>, d: RelThreshold)
    requires
        kinds_alternate(plain_threshold_filter(raw, d)),
    ensures
        amplitude_filter(raw, d) == plain_threshold_filter(raw, d),
    decreases raw.len(),
{
    if raw.len() > 0 {
        let q = raw.drop_last();
        let e = raw.last();
        let pk = plain_threshold_filter(q, d);
        let pr = plain_threshold_filter(raw, d);
        assert(kinds_alternate(pk)) by {
            assert forall|i: int, j: int| 0 <= i && j == i + 1 && j < pk.len() implies #[trigger] pk[i].kind
                != #[trigger] pk[j].kind by {
                assert(pr[i] == pk[i] && pr[j] == pk[j]);
            }
        }
        lemma_amplitude_filter_agrees_when_alternating(q, d);
        if pk.len() > 0 && moves_enough(pk.last(), e, d) {
            let n = pk.len() as int;
            assert(pr[n - 1] == pk.last() && pr[n] == e);
            assert(pk.last().kind != e.kind);
        }
    }
}

/// Local extrema are turning points of the price path, listed in bar order;
/// their kinds alternate and each moves beyond the threshold relative to the
/// one before it.
pub proof fn lemma_local_extrema_sound(p: Seq<i64>, d: RelThreshold)
    requires
        p.len() <= usize::MAX,
    ensures
        is_chronological(spec_local_extrema(p, d)),
        forall|m: Extreme| #[trigger] spec_local_extrema(p, d).contains(m) ==> turning_point(p, m.t as int) == Some(m),
        kinds_alternate(spec_local_extrema(p, d)),
        forall|i: int, j: int|
            #![trigger spec_local_extrema(p, d)[i], spec_local_extrema(p, d)[j]]
            0 <= i && j == i + 1 && j < spec_local_extrema(p, d).len() ==> moves_enough(
                spec_local_extrema(p, d)[i],
                spec_local_extrema(p, d)[j],
                d,
            ),
{
    lemma_turning_points_sound(p, p.len() as int);
    lemma_amplitude_filter_sound(turning_points(p, p.len() as int), d);
}

proof fn lemma_zero_threshold_keeps_all(raw: Seq<Extreme>, d: RelThreshold)
    requires
        d.num == 0,
        d.den > 0,
        alternate_with_moves(raw),
    ensures
        amplitude_filter(raw, d) == raw,
    decreases raw.len(),
{
    if raw.len() > 0 {
        let q = raw.drop_last();
        assert(alternate_with_moves(q)) by {
            assert forall|a: int, b: int|
                #![trigger q[a], q[b]]
                0 <= a && b == a + 1 && b < q.len() implies q[a].kind != q[b].kind && q[a].x != q[b].x by {
                assert(raw[a] == q[a] && raw[b] == q[b]);
            }
        }
        lemma_zero_threshold_keeps_all(q, d);
        if q.len() > 0 {
            let a = q.last();
            let b = raw.last();
            assert(raw[raw.len() - 2] == a);
            assert(a.x != b.x && a.kind != b.kind);
            assert(abs_int(b.x - a.x) > 0);
            assert(abs_int(b.x - a.x) * d.den > 0) by (nonlinear_arith)
                requires
                    abs_int(b.x - a.x) > 0,
                    d.den > 0,
            ;
            assert(d.num * abs_int(a.x as int) == 0);
        }
        assert(q.push(raw.last()) =~= raw);
    }
}


/// Folding `e` into a stack whose kinds alternate:
/// - when the top has the kind of `e` and `e` does not strictly dominate it,
///   the stack is left as it is;
/// - otherwise a prefix `s[..k]` survives and `e` becomes the new top: every
///   removed entry of the kind of `e` is reached by `e`; nothing more could be
///   removed (the entry under `e` has the other kind, and the one below it is
///   not reached by `e`); and every entry of the other kind that sits at the
///   bottom or directly on an entry that `e` does not reach survives.
pub proof fn lemma_fold_in_characterized(s: Seq<Extreme>, e: Extreme) -> (k: int)
    requires
        kinds_alternate(s),
    ensures
        s.len() > 0 && s.last().kind == e.kind && !e.spec_dominates(s.last()) ==> fold_in(s, e) == s,
        !(s.len() > 0 && s.last().kind == e.kind && !e.spec_dominates(s.last())) ==> {
            &&& 0 <= k <= s.len()
            &&& fold_in(s, e) == s.take(k).push(e)
            &&& forall|i: int| k <= i < s.len() && #[trigger] s[i].kind == e.kind ==> e.spec_reaches(s[i])
            &&& k > 0 ==> s[k - 1].kind != e.kind
            &&& k >= 2 ==> !e.spec_reaches(s[k - 2])
            &&& forall|i: int|
                0 <= i < s.len() && #[trigger] s[i].kind != e.kind && (i == 0 || !e.spec_reaches(s[i - 1]))
                    ==> i < k
        },
    decreases s.len(),
{
    let n = s.len() as int;
    if n == 0 {
        assert(s.take(0) =~= s);
        0
    } else if s.last().kind == e.kind {
        if e.spec_dominates(s.last()) {
            let t = s.drop_last();
            assert(kinds_alternate(t)) by {
                assert forall|i: int, j: int| 0 <= i && j == i + 1 && j < t.len() implies #[trigger] t[i].kind != #[trigger] t[j].kind by {
                    assert(s[i] == t[i] && s[j] == t[j]);
                }
            }
            if n >= 2 {
                assert(s[n - 2].kind != s[n - 1].kind);
                assert(t.last() == s[n - 2]);
            }
            let k = lemma_fold_in_characterized(t, e);
            assert(t.take(k) =~= s.take(k));
            assert forall|i: int| k <= i < s.len() && #[trigger] s[i].kind == e.kind implies e.spec_reaches(s[i]) by {
                if i < n - 1 {
                    assert(t[i] == s[i]);
                }
            }
            if k > 0 {
                assert(t[k - 1] == s[k - 1]);
            }
            if k >= 2 {
                assert(t[k - 2] == s[k - 2]);
            }
            assert forall|i: int|
                0 <= i < s.len() && #[trigger] s[i].kind != e.kind && (i == 0 || !e.spec_reaches(s[i - 1])) implies i < k by {
                if i < n - 1 {
                    assert(t[i] == s[i]);
                    if i > 0 {
                        assert(t[i - 1] == s[i - 1]);
                    }
                }
            }
            k
        } else {
            0
        }
    } else if n >= 2 && e.spec_reaches(s[n - 2]) {
        let t = s.take(n - 2);
        assert(kinds_alternate(t)) by {
            assert forall|i: int, j: int| 0 <= i && j == i + 1 && j < t.len() implies #[trigger] t[i].kind != #[trigger] t[j].kind by {
                assert(s[i] == t[i] && s[j] == t[j]);
            }
        }
        assert(s[n - 2].kind != s[n - 1].kind);
        assert(s[n - 2].kind == e.kind) by {
            match e.kind {
                Kind::Max => {},
                Kind::Min => {},
            }
        }
        if n >= 3 {
            assert(s[n - 3].kind != s[n - 2].kind);
            assert(t.last() == s[n - 3]);
        }
        let k = lemma_fold_in_characterized(t, e);
        assert(t.take(k) =~= s.take(k));
        assert forall|i: int| k <= i < s.len() && #[trigger] s[i].kind == e.kind implies e.spec_reaches(s[i]) by {
            if i < n - 2 {
                assert(t[i] == s[i]);
            }
        }
        if k > 0 {
            assert(t[k - 1] == s[k - 1]);
        }
        if k >= 2 {
            assert(t[k - 2] == s[k - 2]);
        }
        assert forall|i: int|
            0 <= i < s.len() && #[trigger] s[i].kind != e.kind && (i == 0 || !e.spec_reaches(s[i - 1])) implies i < k by {
            if i < n - 2 {
                assert(t[i] == s[i]);
                if i > 0 {
                    assert(t[i - 1] == s[i - 1]);
                }
            }
        }
        k
    } else {
        assert(s.take(n) =~= s);
        n
    }
}

/// Each new turning point changes the thinned sequence in one of three ways:
/// not at all, by being appended after an extremum of the other kind, or by
/// taking the place of the last kept extremum of its own kind, which it
/// strictly dominates (a lower maximum never replaces a kept maximum, a higher
/// minimum never replaces a kept minimum) while still clearing the threshold
/// against the extremum before. A turning point that does not clear the
/// threshold against the last kept one changes nothing.
pub proof fn lemma_amplitude_filter_step(raw: Seq<Extreme>, d: RelThreshold)
    requires
        raw.len() > 0,
    ensures
        ({
            let a = amplitude_filter(raw.drop_last(), d);
            let b = amplitude_filter(raw, d);
            let e = raw.last();
            &&& b == a || b == a.push(e) || (a.len() > 0 && b == a.update(a.len() - 1, e))
            &&& a.len() > 0 && !moves_enough(a.last(), e, d) ==> b == a
            &&& b == a.push(e) ==> a.len() == 0 || (a.last().kind != e.kind && moves_enough(a.last(), e, d))
            &&& (a.len() > 0 && b == a.update(a.len() - 1, e) && b != a) ==> {
                &&& e.kind == a.last().kind
                &&& e.spec_dominates(a.last())
                &&& a.len() == 1 || moves_enough(a[a.len() - 2], e, d)
            }
        }),
{
    let a = amplitude_filter(raw.drop_last(), d);
    let b = amplitude_filter(raw, d);
    let e = raw.last();
    let n = a.len() as int;
    if n == 0 {
        assert(b == a.push(e));
    } else if !moves_enough(a.last(), e, d) {
        assert(b == a);
    } else if a.last().kind != e.kind {
        assert(b == a.push(e));
        assert(a.update(n - 1, e).len() == n);
    } else if e.spec_dominates(a.last()) && (n == 1 || moves_enough(a[n - 2], e, d)) {
        assert(b == a.update(n - 1, e));
        assert(b.len() == n);
        assert(a.push(e).len() == n + 1);
    } else {
        assert(b == a);
        assert(a.push(e).len() == n + 1);
    }
}

/// The wiping-out flag of an online step is true exactly when some entry of
/// the old stack did not survive the step.
pub proof fn lemma_tracker_flag_iff_survivor_lost(v: TrackerView, price: i64)
    ensures
        tracker_step(v, price).1 <==> !v.stack.is_prefix_of(tracker_step(v, price).0.stack),
{
    let w = tracker_step(v, price);
    if v.started {
        let sign = step_sign(v.last_price, price);
        match turn_at(v.prev_sign, sign, v.t, v.last_price) {
            Some(e) => {
                if accepts(v.stack, e, v.delta_rel) {
                    lemma_wipe_iff_survivor_lost(v.stack, e);
                } else {
                    assert(v.stack =~= w.0.stack.subrange(0, v.stack.len() as int));
                }
            },
            None => {
                assert(v.stack =~= w.0.stack.subrange(0, v.stack.len() as int));
            },
        }
    } else {
        assert(v.stack =~= w.0.stack.subrange(0, v.stack.len() as int));
    }
}

/// A bar that reveals no turning point (the first price, a flat step, or a
/// step that keeps the direction of the last move) leaves the stack as it is
/// and reports no wiping-out.
pub proof fn lemma_tracker_quiet_bar(v: TrackerView, price: i64)
    requires
        !(v.started && v.prev_sign > 0 && price < v.last_price),
        !(v.started && v.prev_sign < 0 && price > v.last_price),
    ensures
        tracker_step(v, price).0.stack == v.stack,
        !tracker_step(v, price).1,
{
}

/// When a bar reveals a turning point (the last price, as a maximum after a
/// rise followed by a fall, or as a minimum after a fall followed by a rise)
/// of the other kind than the top of the stack, and its relative move from the
/// top does not exceed the threshold, the stack is left as it is and no
/// wiping-out is reported.
pub proof fn lemma_tracker_refuses_small_turn(v: TrackerView, price: i64, kind: Kind)
    requires
        v.started,
        (v.prev_sign > 0 && price < v.last_price && kind == Kind::Max) || (v.prev_sign < 0 && price
            > v.last_price && kind == Kind::Min),
        v.stack.len() > 0,
        v.stack.last().kind != kind,
        abs_int(v.last_price - v.stack.last().x) * v.delta_rel.den <= v.delta_rel.num * abs_int(
            v.stack.last().x as int,
        ),
    ensures
        tracker_step(v, price).0.stack == v.stack,
        !tracker_step(v, price).1,
{
}

/// When a bar reveals a turning point `e` (the last price at the previous bar)
/// and the stack is empty, its top has the kind of `e`, or the move from the
/// top exceeds the threshold, `e` is folded into the stack.
pub proof fn lemma_tracker_takes_turn(v: TrackerView, price: i64, kind: Kind)
    requires
        v.started,
        (v.prev_sign > 0 && price < v.last_price && kind == Kind::Max) || (v.prev_sign < 0 && price
            > v.last_price && kind == Kind::Min),
        v.stack.len() == 0 || v.stack.last().kind == kind || abs_int(v.last_price - v.stack.last().x)
            * v.delta_rel.den > v.delta_rel.num * abs_int(v.stack.last().x as int),
    ensures
        tracker_step(v, price).0.stack == fold_in(
            v.stack,
            Extreme { t: v.t, x: v.last_price, kind },
        ),
{
}


pub(crate) proof fn lemma_tracker_refuses_small_turn_or_takes(v: TrackerView, price: i64, kind: Kind)
    requires
        v.started,
        (v.prev_sign > 0 && price < v.last_price && kind == Kind::Max) || (v.prev_sign < 0 && price
            > v.last_price && kind == Kind::Min),
        v.stack.len() > 0,
    ensures
        v.stack.last().kind != kind && abs_int(v.last_price - v.stack.last().x) * v.delta_rel.den
            <= v.delta_rel.num * abs_int(v.stack.last().x as int) ==> tracker_step(v, price).0.stack
            == v.stack && !tracker_step(v, price).1,
{
    if v.stack.last().kind != kind && abs_int(v.last_price - v.stack.last().x) * v.delta_rel.den
        <= v.delta_rel.num * abs_int(v.stack.last().x as int) {
        lemma_tracker_refuses_small_turn(v, price, kind);
    }
}


/// Every bar gap counts at least one bar.
pub proof fn lemma_gaps_total_at_least_pairs(s: Seq<Extreme>)
    requires
        s.len() >= 2,
    ensures
        gaps_total(s) >= s.len() - 1,
    decreases s.len(),
{
    if s.len() > 2 {
        lemma_gaps_total_at_least_pairs(s.drop_last());
    } else {
        assert(gaps_total(s.drop_last()) == 0);
    }
}

/// There are turning points among the first `u` bars exactly when some bar
/// before `u` is a strict turning point.
pub proof fn lemma_turning_points_nonempty(p: Seq<i64>, u: int)
    ensures
        turning_points(p, u).len() > 0 <==> exists|t: int| 0 <= t < u && #[trigger] turning_point(p, t) is Some,
    decreases u,
{
    if u > 0 {
        lemma_turning_points_nonempty(p, u - 1);
        if turning_point(p, u - 1) is Some {
        } else {
            if exists|t: int| 0 <= t < u && #[trigger] turning_point(p, t) is Some {
                let t = choose|t: int| 0 <= t < u && #[trigger] turning_point(p, t) is Some;
                assert(t < u - 1);
            }
        }
    }
}

/// The amplitude filter keeps something exactly when its input is nonempty.
pub proof fn lemma_amplitude_filter_nonempty(raw: Seq<Extreme>, d: RelThreshold)
    ensures
        amplitude_filter(raw, d).len() > 0 <==> raw.len() > 0,
    decreases raw.len(),
{
    if raw.len() > 0 {
        lemma_amplitude_filter_nonempty(raw.drop_last(), d);
    }
}


/// Local extrema, stated on the prices themselves: each is a strict maximum or
/// minimum of the path at its bar (not at either end), there is at least one
/// exactly when the path has a strict turn somewhere, and adjacent ones
/// alternate in kind and differ by more than the threshold relative to the
/// earlier one.
pub proof fn lemma_local_extrema_explicit(p: Seq<i64>, d: RelThreshold)
    requires
        p.len() <= usize::MAX,
    ensures
        ({
            let out = spec_local_extrema(p, d);
            &&& forall|i: int|
                0 <= i < out.len() ==> {
                    let m = #[trigger] out[i];
                    let t = m.t as int;
                    &&& 1 <= t && t + 1 < p.len()
                    &&& m.x == p[t]
                    &&& m.kind == Kind::Max ==> p[t - 1] < m.x && m.x > p[t + 1]
                    &&& m.kind == Kind::Min ==> p[t - 1] > m.x && m.x < p[t + 1]
                }
            &&& out.len() > 0 <==> exists|t: int|
                1 <= t && t + 1 < p.len() && ((p[t - 1] < #[trigger] p[t] && p[t] > p[t + 1]) || (p[t - 1]
                    > p[t] && p[t] < p[t + 1]))
            &&& forall|i: int, j: int|
                #![trigger out[i], out[j]]
                0 <= i && j == i + 1 && j < out.len() ==> out[i].kind != out[j].kind && abs_int(
                    out[j].x - out[i].x,
                ) * d.den > d.num * abs_int(out[i].x as int)
        }),
{
    let out = spec_local_extrema(p, d);
    let raw = turning_points(p, p.len() as int);
    lemma_local_extrema_sound(p, d);
    assert forall|i: int| 0 <= i < out.len() implies {
        let m = #[trigger] out[i];
        let t = m.t as int;
        &&& 1 <= t && t + 1 < p.len()
        &&& m.x == p[t]
        &&& m.kind == Kind::Max ==> p[t - 1] < m.x && m.x > p[t + 1]
        &&& m.kind == Kind::Min ==> p[t - 1] > m.x && m.x < p[t + 1]
    } by {
        assert(out.contains(out[i]));
    }
    lemma_turning_points_nonempty(p, p.len() as int);
    lemma_amplitude_filter_nonempty(raw, d);
    if exists|t: int|
        1 <= t && t + 1 < p.len() && ((p[t - 1] < #[trigger] p[t] && p[t] > p[t + 1]) || (p[t - 1]
            > p[t] && p[t] < p[t + 1])) {
        let t = choose|t: int|
            1 <= t && t + 1 < p.len() && ((p[t - 1] < #[trigger] p[t] && p[t] > p[t + 1]) || (p[t - 1]
                > p[t] && p[t] < p[t + 1]));
        assert(turning_point(p, t) is Some);
    }
    if out.len() > 0 {
        let t = choose|t: int| 0 <= t < p.len() && #[trigger] turning_point(p, t) is Some;
        assert(p[t] == p[t]);
    }
}

} // verus!
