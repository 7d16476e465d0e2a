//! Last-out-first-in DWT model.
//!
//! A folding stack with wiping-out memory:
//! 1. alternating local extrema are extracted from the price path, subject to a
//!    relative amplitude threshold: each kept extremum moves more than the
//!    threshold from the one before it; a turning point of the kind of the last
//!    kept one takes its place only when it is more extreme and still clears the
//!    threshold against the one before;
//! 2. they are folded by the wiping-out rule into a LIFO stack of surviving
//!    turning points: a top of the same kind is wiped out by a strictly more
//!    extreme extremum, and a pair below is wiped out when the new extremum
//!    reaches the earlier one of its kind (ties included).
//!
//! Invariant of the stack: kinds alternate, maxima strictly fall and minima
//! strictly rise going up the stack.
//!
//! Prices are integers (fixed-point ticks); the relative threshold is a ratio
//! of two integers, so the amplitude test is exact.

use vstd::prelude::*;

pub mod laws;

verus! {

/// Kind of a turning point.
#[derive(Clone, Copy, Debug, PartialEq, Eq, Structural)]
pub enum Kind {
    Max,
    Min,
}

/// A turning point: bar index `t`, price `x` (in ticks) and its kind.
#[derive(Clone, Copy, Debug, PartialEq, Eq, Structural)]
pub struct Extreme {
    pub t: usize,
    pub x: i64,
    pub kind: Kind,
}

impl Extreme {
    pub fn new(t: usize, x: i64, kind: Kind) -> (e: Self)
        ensures
            e == (Extreme { t, x, kind }),
    {
        Extreme { t, x, kind }
    }

    /// `self` dominates `other` when both have the same kind and `self` is
    /// strictly more extreme.
    pub open spec fn spec_dominates(self, other: Extreme) -> bool {
        &&& self.kind == other.kind
        &&& match self.kind {
            Kind::Max => self.x > other.x,
            Kind::Min => self.x < other.x,
        }
    }

    /// `self` reaches `other` when both have the same kind and `self` is at
    /// least as extreme.
    pub open spec fn spec_reaches(self, other: Extreme) -> bool {
        &&& self.kind == other.kind
        &&& match self.kind {
            Kind::Max => self.x >= other.x,
            Kind::Min => self.x <= other.x,
        }
    }

    pub fn reaches(&self, other: &Extreme) -> (r: bool)
        ensures
            r == self.spec_reaches(*other),
            r == (self.kind == other.kind && (self.kind == Kind::Max ==> self.x >= other.x) && (
            self.kind == Kind::Min ==> self.x <= other.x)),
    {
        if self.kind != other.kind {
            return false;
        }
        match self.kind {
            Kind::Max => self.x >= other.x,
            Kind::Min => self.x <= other.x,
        }
    }

    pub fn dominates(&self, other: &Extreme) -> (r: bool)
        ensures
            r == self.spec_dominates(*other),
            r == (self.kind == other.kind && (self.kind == Kind::Max ==> self.x > other.x) && (
            self.kind == Kind::Min ==> self.x < other.x)),
    {
        if self.kind != other.kind {
            return false;
        }
        match self.kind {
            Kind::Max => self.x > other.x,
            Kind::Min => self.x < other.x,
        }
    }
}


/// Relative amplitude threshold `num / den`.
///
/// A move from `from` to `to` clears the threshold when
/// `|to - from| / |from| > num / den`, tested exactly as
/// `|to - from| * den > num * |from|`. No floor is put under `|from|`: from a
/// zero base price every nonzero move clears any threshold with `den > 0`.
#[derive(Clone, Copy, Debug, PartialEq, Eq, Structural)]
pub struct RelThreshold {
    pub num: u64,
    pub den: u64,
}

pub open spec fn abs_int(v: int) -> int {
    if v < 0 {
        -v
    } else {
        v
    }
}

/// The relative move from `from` to `to` exceeds the threshold `d`
/// (from a zero base, any nonzero move does when `d.den > 0`).
pub open spec fn moves_enough(from: Extreme, to: Extreme, d: RelThreshold) -> bool {
    abs_int(to.x - from.x) * d.den > d.num * abs_int(from.x as int)
}

/// Exact relative-amplitude test between two turning points.
pub fn exceeds_threshold(from: &Extreme, to: &Extreme, d: RelThreshold) -> (r: bool)
    ensures
        r == moves_enough(*from, *to, d),
        r == ((if to.x >= from.x {
            to.x - from.x
        } else {
            from.x - to.x
        }) * d.den > d.num * (if from.x >= 0 {
            from.x as int
        } else {
            -from.x
        })),
{
    let diff: i128 = to.x as i128 - from.x as i128;
    let adiff: u128 = if diff < 0 {
        (-diff) as u128
    } else {
        diff as u128
    };
    let base: i128 = from.x as i128;
    let abase: u128 = if base < 0 {
        (-base) as u128
    } else {
        base as u128
    };
    let den: u128 = d.den as u128;
    let num: u128 = d.num as u128;
    assert(adiff * den <= 0x1_0000_0000_0000_0000u128 * 0xffff_ffff_ffff_ffffu128) by (nonlinear_arith)
        requires
            adiff <= 0x1_0000_0000_0000_0000u128,
            den <= 0xffff_ffff_ffff_ffffu128,
    ;
    assert(num * abase <= 0xffff_ffff_ffff_ffffu128 * 0x8000_0000_0000_0000u128) by (nonlinear_arith)
        requires
            abase <= 0x8000_0000_0000_0000u128,
            num <= 0xffff_ffff_ffff_ffffu128,
    ;
    adiff * den > num * abase
}

/// Sign of the step from `a` to `b`: 1 up, -1 down, 0 flat.
pub open spec fn step_sign(a: i64, b: i64) -> i8 {
    if b > a {
        1i8
    } else if b < a {
        -1i8
    } else {
        0i8
    }
}

fn sign_of_step(a: i64, b: i64) -> (s: i8)
    ensures
        s == step_sign(a, b),
{
    if b > a {
        1
    } else if b < a {
        -1
    } else {
        0
    }
}

/// The turning point at bar `i` of `p`, if the path rises strictly into it
/// and falls strictly out of it (a maximum), or the other way round.
pub open spec fn turning_point(p: Seq<i64>, i: int) -> Option<Extreme> {
    if 1 <= i && i + 1 < p.len() && step_sign(p[i - 1], p[i]) > 0 && step_sign(p[i], p[i + 1]) < 0 {
        Some(Extreme { t: i as usize, x: p[i], kind: Kind::Max })
    } else if 1 <= i && i + 1 < p.len() && step_sign(p[i - 1], p[i]) < 0 && step_sign(p[i], p[i + 1])
        > 0 {
        Some(Extreme { t: i as usize, x: p[i], kind: Kind::Min })
    } else {
        None
    }
}

/// Turning points among the bars `0 .. upto`, in bar order.
pub open spec fn turning_points(p: Seq<i64>, upto: int) -> Seq<Extreme>
    decreases upto,
{
    if upto <= 0 {
        Seq::empty()
    } else {
        let prev = turning_points(p, upto - 1);
        match turning_point(p, upto - 1) {
            Some(e) => prev.push(e),
            None => prev,
        }
    }
}

/// The threshold rule on its own: a turning point is kept when it moves far
/// enough from the last kept one, whatever the kinds.
pub open spec fn plain_threshold_filter(raw: Seq<Extreme>, d: RelThreshold) -> Seq<Extreme>
    decreases raw.len(),
{
    if raw.len() == 0 {
        Seq::empty()
    } else {
        let kept = plain_threshold_filter(raw.drop_last(), d);
        if kept.len() == 0 || moves_enough(kept.last(), raw.last(), d) {
            kept.push(raw.last())
        } else {
            kept
        }
    }
}

/// Thins turning points into an alternating sequence. A turning point is
/// dropped unless it moves far enough from the last kept one; one of the other
/// kind is then kept; one of the same kind takes the place of the last kept
/// one when it is strictly more extreme and still moves far enough from the
/// entry before (and is dropped otherwise).
pub open spec fn amplitude_filter(raw: Seq<Extreme>, d: RelThreshold) -> Seq<Extreme>
    decreases raw.len(),
{
    if raw.len() == 0 {
        Seq::empty()
    } else {
        let kept = amplitude_filter(raw.drop_last(), d);
        let e = raw.last();
        if kept.len() == 0 {
            kept.push(e)
        } else if !moves_enough(kept.last(), e, d) {
            kept
        } else if kept.last().kind != e.kind {
            kept.push(e)
        } else if e.spec_dominates(kept.last()) && (kept.len() == 1 || moves_enough(
            kept[kept.len() - 2],
            e,
            d,
        )) {
            kept.update(kept.len() - 1, e)
        } else {
            kept
        }
    }
}

/// Alternating local extrema of a price path, thinned by the amplitude threshold.
pub open spec fn spec_local_extrema(p: Seq<i64>, d: RelThreshold) -> Seq<Extreme> {
    amplitude_filter(turning_points(p, p.len() as int), d)
}

/// Extraction of local extrema with relative amplitude threshold `delta_rel`.
pub fn local_extrema(prices: &[i64], delta_rel: RelThreshold) -> (out: Vec<Extreme>)
    ensures
        out@ == spec_local_extrema(prices@, delta_rel),
        is_chronological(out@),
        forall|m: Extreme| #[trigger] out@.contains(m) ==> turning_point(prices@, m.t as int) == Some(m),
        forall|i: int|
            0 <= i < out@.len() ==> {
                let m = #[trigger] out@[i];
                let t = m.t as int;
                &&& 1 <= t && t + 1 < prices@.len()
                &&& m.x == prices@[t]
                &&& m.kind == Kind::Max ==> prices@[t - 1] < m.x && m.x > prices@[t + 1]
                &&& m.kind == Kind::Min ==> prices@[t - 1] > m.x && m.x < prices@[t + 1]
            },
        out@.len() > 0 <==> exists|t: int|
            1 <= t && t + 1 < prices@.len() && ((prices@[t - 1] < #[trigger] prices@[t] && prices@[t]
                > prices@[t + 1]) || (prices@[t - 1] > prices@[t] && prices@[t] < prices@[t + 1])),
        kinds_alternate(out@),
        forall|i: int, j: int|
            #![trigger out@[i], out@[j]]
            0 <= i && j == i + 1 && j < out@.len() ==> moves_enough(out@[i], out@[j], delta_rel),
        forall|i: int, j: int|
            #![trigger out@[i], out@[j]]
            0 <= i && j == i + 1 && j < out@.len() ==> out@[i].kind != out@[j].kind && abs_int(
                out@[j].x - out@[i].x,
            ) * delta_rel.den > delta_rel.num * abs_int(out@[i].x as int),
        kinds_alternate(plain_threshold_filter(turning_points(prices@, prices@.len() as int), delta_rel))
            ==> out@ == plain_threshold_filter(turning_points(prices@, prices@.len() as int), delta_rel),
{
    let n = prices.len();
    proof {
        laws::lemma_local_extrema_sound(prices@, delta_rel);
        laws::lemma_local_extrema_explicit(prices@, delta_rel);
        let raw = turning_points(prices@, prices@.len() as int);
        if kinds_alternate(plain_threshold_filter(raw, delta_rel)) {
            laws::lemma_amplitude_filter_agrees_when_alternating(raw, delta_rel);
        }
    }
    if n < 3 {
        proof {
            reveal_with_fuel(turning_points, 4);
        }
        return Vec::new();
    }
    let mut signs: Vec<i8> = Vec::with_capacity(n - 1);
    let mut k: usize = 0;
    while k + 1 < n
        invariant
            n == prices@.len(),
            k + 1 <= n,
            signs@.len() == k,
            forall|j: int| 0 <= j < k ==> #[trigger] signs@[j] == step_sign(prices@[j], prices@[j + 1]),
        decreases n - k,
    {
        signs.push(sign_of_step(prices[k], prices[k + 1]));
        k += 1;
    }
    let mut raw: Vec<Extreme> = Vec::new();
    let mut i: usize = 1;
    proof {
        reveal_with_fuel(turning_points, 2);
    }
    while i < signs.len()
        invariant
            n == prices@.len(),
            n >= 3,
            signs@.len() == n - 1,
            forall|j: int| 0 <= j < n - 1 ==> #[trigger] signs@[j] == step_sign(prices@[j], prices@[j + 1]),
            1 <= i <= n - 1,
            raw@ == turning_points(prices@, i as int),
        decreases n - i,
    {
        let prev = signs[i - 1];
        let cur = signs[i];
        if prev > 0 && cur < 0 {
            raw.push(Extreme::new(i, prices[i], Kind::Max));
        } else if prev < 0 && cur > 0 {
            raw.push(Extreme::new(i, prices[i], Kind::Min));
        }
        i += 1;
    }
    assert(turning_point(prices@, n - 1) is None);
    assert(raw@ == turning_points(prices@, n as int));
    let mut out: Vec<Extreme> = Vec::new();
    let mut j: usize = 0;
    while j < raw.len()
        invariant
            j <= raw@.len(),
            out@ == amplitude_filter(raw@.take(j as int), delta_rel),
        decreases raw@.len() - j,
    {
        let e = raw[j];
        assert(raw@.take(j + 1).drop_last() =~= raw@.take(j as int));
        let len = out.len();
        if len == 0 {
            out.push(e);
        } else {
            let last = out[len - 1];
            if exceeds_threshold(&last, &e, delta_rel) {
                if last.kind != e.kind {
                    out.push(e);
                } else if e.dominates(&last) {
                    if len == 1 {
                        out.set(0, e);
                    } else {
                        let prev = out[len - 2];
                        if exceeds_threshold(&prev, &e, delta_rel) {
                            out.set(len - 1, e);
                        }
                    }
                }
            }
        }
        j += 1;
    }
    assert(raw@.take(raw@.len() as int) =~= raw@);
    out
}


/// The first step of the wiping-out rule removes something: the top has the
/// kind of `e` and is dominated by it, or the entry below a top of the other
/// kind is reached by `e`.
pub open spec fn first_step_wipes(s: Seq<Extreme>, e: Extreme) -> bool {
    &&& s.len() > 0
    &&& if s.last().kind == e.kind {
        e.spec_dominates(s.last())
    } else {
        s.len() >= 2 && e.spec_reaches(s[s.len() - 2])
    }
}

/// The stack after the wiping-out rule has processed `e`:
/// a top of the same kind dominated by `e` is erased; a top of the other kind
/// is erased together with the entry below it when `e` reaches that entry;
/// a top of the same kind that `e` does not dominate absorbs `e`;
/// otherwise `e` is pushed.
pub open spec fn fold_in(s: Seq<Extreme>, e: Extreme) -> Seq<Extreme>
    decreases s.len(),
{
    if s.len() == 0 {
        seq![e]
    } else if s.last().kind == e.kind {
        if e.spec_dominates(s.last()) {
            fold_in(s.drop_last(), e)
        } else {
            s
        }
    } else if s.len() >= 2 && e.spec_reaches(s[s.len() - 2]) {
        fold_in(s.take(s.len() - 2), e)
    } else {
        s.push(e)
    }
}

/// The stack obtained by folding `es` in order into an empty stack.
pub open spec fn fold_all(es: Seq<Extreme>) -> Seq<Extreme>
    decreases es.len(),
{
    if es.len() == 0 {
        Seq::empty()
    } else {
        fold_in(fold_all(es.drop_last()), es.last())
    }
}

/// Folding of a sequence of extrema by the wiping-out rule.
pub fn folding_stack(extrema: &[Extreme]) -> (stack: Vec<Extreme>)
    ensures
        stack@ == fold_all(extrema@),
        is_strictly_folded(stack@),
        is_chronological(extrema@) ==> is_chronological(stack@),
{
    proof {
        laws::lemma_fold_all_strictly_folded(extrema@);
        if is_chronological(extrema@) {
            laws::lemma_fold_all_chronological(extrema@);
        }
    }
    let mut stack: Vec<Extreme> = Vec::new();
    let mut i: usize = 0;
    while i < extrema.len()
        invariant
            i <= extrema@.len(),
            stack@ == fold_all(extrema@.take(i as int)),
        decreases extrema@.len() - i,
    {
        let e = extrema[i];
        assert(extrema@.take(i + 1).drop_last() =~= extrema@.take(i as int));
        push_into_stack(&mut stack, e);
        i += 1;
    }
    assert(extrema@.take(extrema@.len() as int) =~= extrema@);
    stack
}

/// `r` is `e` pushed on a prefix `s[..k]` of `s` from which `e` wiped out as
/// much as it could: every removed entry of the kind of `e` is reached by `e`;
/// the entry under `e` has the other kind and the one below it is not reached
/// by `e`; and every entry of the other kind that sits at the bottom or
/// directly on an entry that `e` does not reach survives.
pub open spec fn tops_a_wiped_prefix(s: Seq<Extreme>, e: Extreme, r: Seq<Extreme>) -> bool {
    exists|k: int|
        {
            &&& 0 <= k <= s.len()
            &&& r == s.take(k).push(e)
            &&& forall|i: int| k <= i < s.len() && #[trigger] s[i].kind == e.kind ==> e.spec_reaches(s[i])
            &&& k > 0 ==> s[k - 1].kind != e.kind
            &&& k >= 2 ==> !e.spec_reaches(s[k - 2])
            &&& forall|i: int|
                0 <= i < s.len() && #[trigger] s[i].kind != e.kind && (i == 0 || !e.spec_reaches(s[i - 1]))
                    ==> i < k
        }
}

/// Online update of the stack with a new extremum.
///
/// Returns `true` when at least one entry was wiped out while processing `e`,
/// that is, when a change of regime took place.
pub fn push_into_stack(stack: &mut Vec<Extreme>, e: Extreme) -> (wiped: bool)
    ensures
        final(stack)@ == fold_in(old(stack)@, e),
        wiped == first_step_wipes(old(stack)@, e),
        wiped <==> !old(stack)@.is_prefix_of(final(stack)@),
        final(stack)@.len() <= old(stack)@.len() + 1,
        is_strictly_folded(old(stack)@) ==> is_strictly_folded(final(stack)@),
        kinds_alternate(old(stack)@) && old(stack)@.len() > 0 && old(stack)@.last().kind == e.kind
            && !e.spec_dominates(old(stack)@.last()) ==> final(stack)@ == old(stack)@ && !wiped,
        kinds_alternate(old(stack)@) && !(old(stack)@.len() > 0 && old(stack)@.last().kind == e.kind
            && !e.spec_dominates(old(stack)@.last())) ==> tops_a_wiped_prefix(old(stack)@, e, final(stack)@),
{
    proof {
        if kinds_alternate(stack@) {
            let k = laws::lemma_fold_in_characterized(stack@, e);
        }
        laws::lemma_wipe_iff_survivor_lost(stack@, e);
        laws::lemma_fold_in_grows_by_at_most_one(stack@, e);
        if is_strictly_folded(stack@) {
            laws::lemma_fold_in_keeps_strictly_folded(stack@, e);
        }
    }
    let ghost s0 = stack@;
    let mut wiped = false;
    loop
        invariant
            s0 == old(stack)@,
            first_step_wipes(s0, e) <==> !s0.is_prefix_of(fold_in(s0, e)),
            fold_in(s0, e).len() <= s0.len() + 1,
            is_strictly_folded(s0) ==> is_strictly_folded(fold_in(s0, e)),
            kinds_alternate(s0) && !(s0.len() > 0 && s0.last().kind == e.kind && !e.spec_dominates(
                s0.last(),
            )) ==> tops_a_wiped_prefix(s0, e, fold_in(s0, e)),
            fold_in(stack@, e) == fold_in(s0, e),
            !wiped ==> stack@ == s0,
            wiped ==> first_step_wipes(s0, e),
        ensures
            fold_in(s0, e) == stack@.push(e),
            !wiped ==> stack@ == s0 && !first_step_wipes(s0, e),
            wiped ==> first_step_wipes(s0, e),
        decreases stack@.len(),
    {
        let len = stack.len();
        if len == 0 {
            break;
        }
        let top = stack[len - 1];
        if top.kind == e.kind {
            if e.dominates(&top) {
                stack.pop();
                wiped = true;
            } else {
                return wiped;
            }
        } else if len >= 2 {
            let below = stack[len - 2];
            if e.reaches(&below) {
                let ghost before = stack@;
                stack.pop();
                stack.pop();
                assert(stack@ =~= before.take(len - 2));
                wiped = true;
            } else {
                break;
            }
        } else {
            break;
        }
    }
    stack.push(e);
    wiped
}

/// Full pipeline: prices, then local extrema, then the folding stack.
pub fn skeleton(prices: &[i64], delta_rel: RelThreshold) -> (stack: Vec<Extreme>)
    ensures
        stack@ == fold_all(spec_local_extrema(prices@, delta_rel)),
        is_strictly_folded(stack@),
        is_chronological(stack@),
{
    let extrema = local_extrema(prices, delta_rel);
    folding_stack(extrema.as_slice())
}


/// Adjacent entries of `s` have different kinds.
pub open spec fn kinds_alternate(s: Seq<Extreme>) -> bool {
    forall|i: int, j: int|
        #![trigger s[i], s[j]]
        0 <= i && j == i + 1 && j < s.len() ==> s[i].kind != s[j].kind
}

/// Shape of a folding stack: kinds alternate, and every entry dominates each
/// entry of its kind above it (maxima strictly fall and minima strictly rise
/// going up).
pub open spec fn is_strictly_folded(s: Seq<Extreme>) -> bool {
    &&& kinds_alternate(s)
    &&& forall|i: int, j: int|
        #![trigger s[i], s[j]]
        0 <= i < j < s.len() && s[i].kind == s[j].kind ==> s[i].spec_dominates(s[j])
}

/// Bar indices strictly increase along `s`.
pub open spec fn is_chronological(s: Seq<Extreme>) -> bool {
    forall|i: int, j: int| #![trigger s[i], s[j]] 0 <= i < j < s.len() ==> s[i].t < s[j].t
}


/// Bars between two adjacent surviving turning points, at least one.
pub open spec fn bar_gap(a: Extreme, b: Extreme) -> int {
    if b.t > a.t {
        b.t - a.t
    } else {
        1
    }
}

/// Sum of `bar_gap` over the adjacent pairs of `s`.
pub open spec fn gaps_total(s: Seq<Extreme>) -> int
    decreases s.len(),
{
    if s.len() < 2 {
        0
    } else {
        gaps_total(s.drop_last()) + bar_gap(s[s.len() - 2], s.last())
    }
}

/// State of the stack at a bar: its depth, the top two survivors, the distance
/// of the current price from the top survivor, and the bar gaps between
/// adjacent survivors (the mean gap is `gap_bars_sum / n_gaps`).
#[derive(Clone, Copy, Debug)]
pub struct DwtState {
    pub depth: usize,
    pub top_kind: Option<Kind>,
    pub top_price: Option<i64>,
    pub top2_price: Option<i64>,
    pub dist_to_top: Option<u64>,
    /// Sum over adjacent surviving turning points of the bars between them.
    pub gap_bars_sum: u128,
    /// Number of adjacent pairs of surviving turning points.
    pub n_gaps: usize,
}

/// `r` describes the stack `s` seen at current price `current`.
pub open spec fn describes(r: DwtState, s: Seq<Extreme>, current: i64) -> bool {
    &&& r.depth == s.len()
    &&& r.top_kind == (if s.len() > 0 { Some(s.last().kind) } else { None })
    &&& r.top_price == (if s.len() > 0 { Some(s.last().x) } else { None })
    &&& r.top2_price == (if s.len() >= 2 { Some(s[s.len() - 2].x) } else { None })
    &&& match r.dist_to_top {
        Some(d) => s.len() > 0 && d == abs_int(current - s.last().x),
        None => s.len() == 0,
    }
    &&& r.gap_bars_sum == gaps_total(s)
    &&& r.n_gaps == (if s.len() >= 2 { s.len() - 1 } else { 0 })
}

impl DwtState {
    pub fn from_stack(stack: &[Extreme], current_price: i64) -> (r: Self)
        ensures
            describes(r, stack@, current_price),
            r.depth == stack@.len(),
            match r.dist_to_top {
                Some(d) => stack@.len() > 0 && (d + current_price == stack@.last().x || d + stack@.last().x
                    == current_price),
                None => stack@.len() == 0,
            },
            stack@.len() >= 2 ==> r.n_gaps + 1 == stack@.len() && r.gap_bars_sum >= r.n_gaps,
            stack@.len() < 2 ==> r.n_gaps == 0 && r.gap_bars_sum == 0,
            is_chronological(stack@) && stack@.len() >= 2 ==> r.gap_bars_sum == stack@.last().t
                - stack@[0].t,
    {
        proof {
            if is_chronological(stack@) && stack@.len() >= 2 {
                laws::lemma_gaps_total_span(stack@);
            }
            if stack@.len() >= 2 {
                laws::lemma_gaps_total_at_least_pairs(stack@);
            }
        }
        let depth = stack.len();
        let top_kind = if depth > 0 {
            Some(stack[depth - 1].kind)
        } else {
            None
        };
        let top_price = if depth > 0 {
            Some(stack[depth - 1].x)
        } else {
            None
        };
        let top2_price = if depth >= 2 {
            Some(stack[depth - 2].x)
        } else {
            None
        };
        let dist_to_top = if depth > 0 {
            let d: i128 = current_price as i128 - stack[depth - 1].x as i128;
            let a: i128 = if d < 0 {
                -d
            } else {
                d
            };
            Some(a as u64)
        } else {
            None
        };
        let mut gap_sum: u128 = 0;
        let mut n_gaps: usize = 0;
        if depth >= 2 {
            let mut i: usize = 1;
            proof {
                reveal_with_fuel(gaps_total, 2);
                assert(stack@.take(1).len() == 1);
            }
            while i < depth
                invariant
                    depth == stack@.len(),
                    1 <= i <= depth,
                    gap_sum == gaps_total(stack@.take(i as int)),
                    gap_sum <= (i - 1) * 0xffff_ffff_ffff_ffffu128,
                decreases depth - i,
            {
                let a = stack[i - 1];
                let b = stack[i];
                let g: u128 = if b.t > a.t {
                    (b.t - a.t) as u128
                } else {
                    1
                };
                assert(gap_sum + g <= i * 0xffff_ffff_ffff_ffffu128) by (nonlinear_arith)
                    requires
                        gap_sum <= (i - 1) * 0xffff_ffff_ffff_ffffu128,
                        g <= 0xffff_ffff_ffff_ffffu128,
                        i >= 1,
                ;
                assert(i * 0xffff_ffff_ffff_ffffu128 <= 0xffff_ffff_ffff_ffffu128
                    * 0xffff_ffff_ffff_ffffu128) by (nonlinear_arith)
                    requires
                        i <= 0xffff_ffff_ffff_ffffu128,
                ;
                assert(stack@.take(i + 1).drop_last() =~= stack@.take(i as int));
                assert(stack@.take(i + 1)[i - 1] == a && stack@.take(i + 1)[i as int] == b);
                gap_sum = gap_sum + g;
                i += 1;
            }
            assert(stack@.take(depth as int) =~= stack@);
            n_gaps = depth - 1;
        } else {
            proof {
                reveal_with_fuel(gaps_total, 2);
            }
        }
        DwtState {
            depth,
            top_kind,
            top_price,
            top2_price,
            dist_to_top,
            gap_bars_sum: gap_sum,
            n_gaps,
        }
    }
}


/// The model of an online tracker: its stack, the sign of the last non-flat step,
/// the last price seen, the threshold, the bar index of the last price, and
/// whether any price has been seen.
pub struct TrackerView {
    pub stack: Seq<Extreme>,
    pub prev_sign: i8,
    pub last_price: i64,
    pub delta_rel: RelThreshold,
    pub t: usize,
    pub started: bool,
}

/// The turning point revealed at bar `t` (price `x`) when the step sign
/// changes from `prev_sign` to `sign`.
pub open spec fn turn_at(prev_sign: i8, sign: i8, t: usize, x: i64) -> Option<Extreme> {
    if prev_sign > 0 && sign < 0 {
        Some(Extreme { t, x, kind: Kind::Max })
    } else if prev_sign < 0 && sign > 0 {
        Some(Extreme { t, x, kind: Kind::Min })
    } else {
        None
    }
}

/// The tracker takes a new turning point into its stack when the stack is
/// empty, when the top has the same kind, or when the move from the top clears
/// the threshold.
pub open spec fn accepts(s: Seq<Extreme>, e: Extreme, d: RelThreshold) -> bool {
    s.len() == 0 || s.last().kind == e.kind || moves_enough(s.last(), e, d)
}

/// The stack and wiping-out flag after offering `e` to the tracker.
pub open spec fn accept_step(s: Seq<Extreme>, e: Extreme, d: RelThreshold) -> (Seq<Extreme>, bool) {
    if accepts(s, e, d) {
        (fold_in(s, e), first_step_wipes(s, e))
    } else {
        (s, false)
    }
}

/// One step of the online tracker on price `price`: the new model and the
/// wiping-out flag.
pub open spec fn tracker_step(v: TrackerView, price: i64) -> (TrackerView, bool) {
    if !v.started {
        (
            TrackerView {
                stack: v.stack,
                prev_sign: v.prev_sign,
                last_price: price,
                delta_rel: v.delta_rel,
                t: 0,
                started: true,
            },
            false,
        )
    } else {
        let sign = step_sign(v.last_price, price);
        let stepped = match turn_at(v.prev_sign, sign, v.t, v.last_price) {
            Some(e) => accept_step(v.stack, e, v.delta_rel),
            None => (v.stack, false),
        };
        (
            TrackerView {
                stack: stepped.0,
                prev_sign: if sign != 0 {
                    sign
                } else {
                    v.prev_sign
                },
                last_price: price,
                delta_rel: v.delta_rel,
                t: (v.t + 1) as usize,
                started: true,
            },
            stepped.1,
        )
    }
}

/// A consistent tracker: its stack has the strict folding shape and bar order, every
/// survivor lies before the current bar, and the stack is empty before the
/// first price.
pub open spec fn tracker_wf(v: TrackerView) -> bool {
    &&& is_strictly_folded(v.stack)
    &&& is_chronological(v.stack)
    &&& forall|i: int| 0 <= i < v.stack.len() ==> (#[trigger] v.stack[i]).t < v.t
    &&& !v.started ==> v.stack.len() == 0
}

/// A tracker that has seen no price yet, with threshold `d`.
pub open spec fn fresh_tracker(d: RelThreshold) -> TrackerView {
    TrackerView { stack: Seq::empty(), prev_sign: 0, last_price: 0, delta_rel: d, t: 0, started: false }
}

/// The tracker state after feeding the prices `p` in order, starting from `v`.
pub open spec fn tracker_run(v: TrackerView, p: Seq<i64>) -> TrackerView
    decreases p.len(),
{
    if p.len() == 0 {
        v
    } else {
        tracker_step(tracker_run(v, p.drop_last()), p.last()).0
    }
}

/// Online tracker of local extrema feeding a folding stack.
pub struct OnlineExtrema {
    prev_sign: i8,
    last_price: i64,
    stack: Vec<Extreme>,
    delta_rel: RelThreshold,
    t: usize,
    started: bool,
}

impl View for OnlineExtrema {
    type V = TrackerView;

    closed spec fn view(&self) -> TrackerView {
        TrackerView {
            stack: self.stack@,
            prev_sign: self.prev_sign,
            last_price: self.last_price,
            delta_rel: self.delta_rel,
            t: self.t,
            started: self.started,
        }
    }
}

impl OnlineExtrema {
    pub fn new(delta_rel: RelThreshold) -> (r: Self)
        ensures
            r@ == fresh_tracker(delta_rel),
            tracker_wf(r@),
    {
        OnlineExtrema { prev_sign: 0, last_price: 0, stack: Vec::new(), delta_rel, t: 0, started: false }
    }

    /// Feeds the next price. Returns the current stack and whether wiping-out
    /// took place on this bar.
    pub fn push(&mut self, price: i64) -> (r: (&[Extreme], bool))
        requires
            old(self)@.started ==> old(self)@.t < usize::MAX,
        ensures
            (final(self)@, r.1) == tracker_step(old(self)@, price),
            r.0@ == final(self)@.stack,
            tracker_wf(old(self)@) ==> tracker_wf(final(self)@),
            r.1 <==> !old(self)@.stack.is_prefix_of(final(self)@.stack),
            !(old(self)@.started && old(self)@.prev_sign > 0 && price < old(self)@.last_price) && !(
            old(self)@.started && old(self)@.prev_sign < 0 && price > old(self)@.last_price)
                ==> final(self)@.stack == old(self)@.stack && !r.1,
            old(self)@.started && ((old(self)@.prev_sign > 0 && price < old(self)@.last_price)
                || (old(self)@.prev_sign < 0 && price > old(self)@.last_price)) && old(self)@.stack.len()
                > 0 && (old(self)@.stack.last().kind == Kind::Max) == (old(self)@.prev_sign < 0)
                && abs_int(old(self)@.last_price - old(self)@.stack.last().x) * old(self)@.delta_rel.den
                <= old(self)@.delta_rel.num * abs_int(old(self)@.stack.last().x as int)
                ==> final(self)@.stack == old(self)@.stack && !r.1,
            final(self)@.started,
            final(self)@.last_price == price,
            final(self)@.delta_rel == old(self)@.delta_rel,
            final(self)@.t == (if old(self)@.started {
                old(self)@.t + 1
            } else {
                0
            }),
            final(self)@.prev_sign == (if old(self)@.started && price > old(self)@.last_price {
                1i8
            } else if old(self)@.started && price < old(self)@.last_price {
                -1i8
            } else {
                old(self)@.prev_sign
            }),
            forall|kind: Kind|
                old(self)@.started && ((old(self)@.prev_sign > 0 && price < old(self)@.last_price
                    && kind == Kind::Max) || (old(self)@.prev_sign < 0 && price > old(self)@.last_price
                    && kind == Kind::Min)) && (old(self)@.stack.len() == 0 || old(self)@.stack.last().kind
                    == kind || abs_int(old(self)@.last_price - old(self)@.stack.last().x)
                    * old(self)@.delta_rel.den > old(self)@.delta_rel.num * abs_int(
                    old(self)@.stack.last().x as int,
                )) ==> #[trigger] final(self)@.stack == fold_in(
                    old(self)@.stack,
                    Extreme { t: old(self)@.t, x: old(self)@.last_price, kind },
                ),
    {
        proof {
            laws::lemma_tracker_flag_iff_survivor_lost(self@, price);
            let v = self@;
            if v.started && v.prev_sign > 0 && price < v.last_price && v.stack.len() > 0 {
                laws::lemma_tracker_refuses_small_turn_or_takes(v, price, Kind::Max);
            }
            if v.started && v.prev_sign < 0 && price > v.last_price && v.stack.len() > 0 {
                laws::lemma_tracker_refuses_small_turn_or_takes(v, price, Kind::Min);
            }
            if tracker_wf(self@) {
                laws::lemma_tracker_step_keeps_wf(self@, price);
            }
        }
        if !self.started {
            self.last_price = price;
            self.started = true;
            self.t = 0;
            return (self.stack.as_slice(), false);
        }
        let ghost old_stack = self.stack@;
        let ghost old_t = self.t;
        self.t = self.t + 1;
        let sign = sign_of_step(self.last_price, price);
        let mut wiped = false;
        if sign != 0 {
            if self.prev_sign > 0 && sign < 0 {
                let e = Extreme::new(self.t - 1, self.last_price, Kind::Max);
                wiped = self.maybe_accept(e);
            } else if self.prev_sign < 0 && sign > 0 {
                let e = Extreme::new(self.t - 1, self.last_price, Kind::Min);
                wiped = self.maybe_accept(e);
            }
            self.prev_sign = sign;
        }
        self.last_price = price;
        (self.stack.as_slice(), wiped)
    }

    fn maybe_accept(&mut self, e: Extreme) -> (wiped: bool)
        ensures
            (final(self)@.stack, wiped) == accept_step(old(self)@.stack, e, old(self)@.delta_rel),
            final(self)@ == (TrackerView { stack: final(self)@.stack, ..old(self)@ }),
    {
        let len = self.stack.len();
        let accept = if len == 0 {
            true
        } else {
            let last = self.stack[len - 1];
            if last.kind == e.kind {
                true
            } else {
                exceeds_threshold(&last, &e, self.delta_rel)
            }
        };
        if accept {
            push_into_stack(&mut self.stack, e)
        } else {
            false
        }
    }

    /// The current stack of surviving turning points.
    pub fn stack(&self) -> (r: &[Extreme])
        ensures
            r@ == self@.stack,
    {
        self.stack.as_slice()
    }

    pub fn state(&self, current_price: i64) -> (r: DwtState)
        ensures
            describes(r, self@.stack, current_price),
    {
        DwtState::from_stack(self.stack.as_slice(), current_price)
    }
}

} // verus!
