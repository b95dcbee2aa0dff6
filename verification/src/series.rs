//! A series of candles at one scale, and the gaps in it.

use vstd::prelude::*;
use vstd::string::StringExecFns;
use vstd::arithmetic::div_mod::{
    lemma_fundamental_div_mod,
    lemma_mod_multiples_basic,
    lemma_mod_multiples_vanish,
    lemma_small_mod,
};
use std::collections::HashSet;
use crate::candle::Candle;
use crate::ranges::{
    as_pairs,
    covered,
    holds,
    lemma_minute_spaced_fits,
    lemma_ranges_cover,
    minute_spaced,
    range_list,
    ranges,
};

verus! {

/// Candles in order of time, each spanning `scale` minutes.
#[derive(Clone, Debug, PartialEq)]
pub struct Candles {
    pub v: Vec<Candle>,
    pub scale: u16,
}

/// Whether each element is less than all that follow it.
pub open spec fn ascending(s: Seq<u32>) -> bool {
    forall|i: int, j: int| 0 <= i < j < s.len() ==> s[i] < s[j]
}

/// Minutes strictly between `prev` and `next` that are a whole number of
/// minutes after `prev`.
pub open spec fn gap_len(prev: u32, next: u32) -> int {
    if next > prev {
        (next - prev - 1) / 60
    } else {
        0
    }
}

/// The continuation candles between a candle and the time of its successor:
/// one for each minute counted by [`gap_len`], flat at the candle's close.
pub open spec fn fillers_between(prev: Candle, next: u32) -> Seq<Candle> {
    Seq::new(
        gap_len(prev.time, next) as nat,
        |j: int| Candle::flat_at((prev.time + 60 * (j + 1)) as u32, prev.close),
    )
}

/// The continuation candles of every gap between neighbours in `v`, in order.
pub open spec fn fillers(v: Seq<Candle>) -> Seq<Candle>
    decreases v.len(),
{
    if v.len() < 2 {
        Seq::empty()
    } else {
        fillers(v.drop_last()) + fillers_between(v[v.len() - 2], v.last().time)
    }
}

/// Whether `text` is `head`, a line feed, and `line`.
pub open spec fn joins(head: Seq<char>, line: Seq<char>, text: Seq<char>) -> bool {
    text == head + seq!['\n'] + line
}

/// Whether `text` is the records of `v`, one per line, with a line feed
/// between two lines and none at the end.
pub open spec fn is_csv<F: Fn(u32) -> String>(show: F, v: Seq<Candle>, text: Seq<char>) -> bool
    decreases v.len(),
{
    if v.len() == 0 {
        text == Seq::<char>::empty()
    } else if v.len() == 1 {
        v[0].is_csv_line(show, text)
    } else {
        exists|head: Seq<char>, line: Seq<char>|
            {
                &&& #[trigger] joins(head, line, text)
                &&& is_csv(show, v.drop_last(), head)
                &&& v.last().is_csv_line(show, line)
            }
    }
}

impl Candles {
    /// Seconds from one candle to the next.
    pub open spec fn step(self) -> int {
        self.scale as int * 60
    }

    /// The sequential-epoch invariant: the candle at index `k` starts `k`
    /// steps after the first.
    pub open spec fn sequential(self) -> bool {
        forall|k: int|
            0 <= k < self.v@.len() ==> (#[trigger] self.v@[k]).time == self.v@[0].time + k
                * self.step()
    }

    /// Whether some candle starts at `x`.
    pub open spec fn has_time(self, x: int) -> bool {
        exists|i: int| 0 <= i < self.v@.len() && (#[trigger] self.v@[i]).time == x
    }

    /// Whether `x` is a whole number of steps after the first candle.
    pub open spec fn on_grid(self, x: int) -> bool {
        x >= self.v@[0].time && (x - self.v@[0].time) % self.step() == 0
    }

    /// Whether `x` is a grid point from the first candle up to, but not
    /// including, the last, at which no candle starts.
    pub open spec fn is_missing(self, x: int) -> bool {
        self.on_grid(x) && x < self.v@.last().time && !self.has_time(x)
    }

    /// Whether `m` is the ascending list of the missing grid points.
    pub open spec fn lists_missing(self, m: Seq<u32>) -> bool {
        ascending(m) && forall|x: int| #[trigger] holds(m, x) <==> self.is_missing(x)
    }

    /// Wraps candles and their scale. Nothing is checked.
    pub fn new(v: Vec<Candle>, scale: u16) -> (ret: Candles)
        ensures
            ret.v == v,
            ret.scale == scale,
    {
        Candles { v, scale }
    }

    /// Renders the series, one candle per line. `show` writes out one
    /// binary32 number.
    pub fn to_csv<F: Fn(u32) -> String>(self, show: F) -> (text: String)
        requires
            forall|bits: u32| show.requires((bits,)),
        ensures
            is_csv(show, self.v@, text@),
    {
        let mut text = String::new();
        let n = self.v.len();
        let mut i: usize = 0;
        while i < n
            invariant
                n == self.v@.len(),
                i <= n,
                forall|bits: u32| show.requires((bits,)),
                is_csv(show, self.v@.take(i as int), text@),
            decreases n - i,
        {
            let line = self.v[i].to_csv(&show);
            let ghost head = text@;
            if i > 0 {
                text.append("\n");
            }
            text.append(line.as_str());
            proof {
                reveal_strlit("\n");
                let now = self.v@.take(i as int + 1);
                assert(now.drop_last() =~= self.v@.take(i as int));
                assert(now.last() == self.v@[i as int]);
                assert("\n"@ =~= seq!['\n']);
                if i == 0 {
                    assert(text@ =~= line@);
                } else {
                    assert(text@ =~= head + seq!['\n'] + line@);
                    assert(joins(head, line@, text@));
                }
            }
            i += 1;
        }
        proof {
            assert(self.v@.take(n as int) =~= self.v@);
        }
        text
    }

    /// Tells whether the series keeps the sequential-epoch invariant.
    pub fn _test_epochs_must_be_sequential(&self) -> (ok: bool)
        ensures
            ok == self.sequential(),
    {
        let n = self.v.len();
        if n == 0 {
            return true;
        }
        let first: u128 = self.v[0].time as u128;
        let step: u128 = (self.scale as u128) * 60;
        let mut i: usize = 0;
        while i < n
            invariant
                n == self.v@.len(),
                i <= n,
                n > 0,
                first == self.v@[0].time,
                step == self.step(),
                forall|k: int|
                    0 <= k < i ==> (#[trigger] self.v@[k]).time == self.v@[0].time + k
                        * self.step(),
            decreases n - i,
        {
            assert(i * step <= 0xffff_ffff_ffff_ffff * 3932100) by (nonlinear_arith)
                requires
                    0 <= i <= 0xffff_ffff_ffff_ffff,
                    0 <= step <= 3932100,
            ;
            let expected: u128 = first + (i as u128) * step;
            if expected != self.v[i].time as u128 {
                return false;
            }
            i += 1;
        }
        true
    }

    /// Lists, in ascending order, the grid points from the first candle up
    /// to, but not including, the last at which no candle starts.
    pub fn missing_epochs(&self) -> (missing: Vec<u32>)
        requires
            self.v@.len() > 0,
            self.scale > 0,
        ensures
            self.lists_missing(missing@),
    {
        broadcast use vstd::std_specs::hash::group_hash_axioms;

        let n = self.v.len();
        let mut set = HashSet::<u32>::new();
        let mut i: usize = 0;
        while i < n
            invariant
                n == self.v@.len(),
                i <= n,
                forall|x: u32|
                    set@.contains(x) <==> exists|j: int|
                        0 <= j < i && (#[trigger] self.v@[j]).time == x,
            decreases n - i,
        {
            let ghost before = set@;
            set.insert(self.v[i].time);
            proof {
                assert forall|x: u32| set@.contains(x) <==> exists|j: int|
                    0 <= j < i + 1 && (#[trigger] self.v@[j]).time == x by {
                    if set@.contains(x) {
                        if before.contains(x) {
                            let j = choose|j: int| 0 <= j < i && (#[trigger] self.v@[j]).time == x;
                            assert(0 <= j < i + 1 && self.v@[j].time == x);
                        } else {
                            assert(self.v@[i as int].time == x);
                        }
                    }
                    if exists|j: int| 0 <= j < i + 1 && (#[trigger] self.v@[j]).time == x {
                        let j = choose|j: int| 0 <= j < i + 1 && (#[trigger] self.v@[j]).time == x;
                        if j < i {
                            assert(before.contains(x));
                        }
                    }
                }
            }
            i += 1;
        }
        let min_epoch = self.v[0].time;
        let max_epoch = self.v[n - 1].time;
        let step: u64 = (self.scale as u64) * 60;
        let mut missing: Vec<u32> = Vec::new();
        let mut it: u64 = min_epoch as u64;
        let ghost mut k: int = 0;
        proof {
            assert(0 * step == 0);
        }
        while it < max_epoch as u64
            invariant
                n == self.v@.len(),
                n > 0,
                self.scale > 0,
                step == self.step(),
                min_epoch == self.v@[0].time,
                max_epoch == self.v@.last().time,
                0 <= k,
                it == min_epoch + k * step,
                forall|x: u32| set@.contains(x) <==> self.has_time(x as int),
                ascending(missing@),
                forall|j: int| 0 <= j < missing@.len() ==> #[trigger] missing@[j] < it,
                forall|x: int| #[trigger] holds(missing@, x) <==> self.is_missing(x) && x < it,
            decreases max_epoch + step - it,
        {
            let ghost before = missing@;
            let here: u32 = it as u32;
            let present = set.contains(&here);
            if !present {
                missing.push(here);
            }
            proof {
                assert(self.on_grid(it as int)) by {
                    lemma_mod_multiples_basic(k, step as int);
                }
                assert(present == self.has_time(it as int));
                assert((k + 1) * step == k * step + step) by (nonlinear_arith);
                assert forall|x: int| #[trigger] holds(missing@, x) <==> self.is_missing(x) && x
                    < it + step by {
                    if holds(missing@, x) {
                        let j = choose|j: int| 0 <= j < missing@.len() && #[trigger] missing@[j] == x;
                        if j < before.len() {
                            assert(before[j] == x);
                            assert(holds(before, x));
                        } else {
                            assert(x == it);
                        }
                    }
                    if self.is_missing(x) && x < it + step {
                        if x < it {
                            assert(holds(before, x));
                            let j = choose|j: int| 0 <= j < before.len() && #[trigger] before[j] == x;
                            assert(missing@[j] == x);
                        } else {
                            let d = x - it;
                            assert(x - min_epoch == step * k + d) by (nonlinear_arith)
                                requires
                                    it == min_epoch + k * step,
                                    d == x - it,
                            ;
                            lemma_mod_multiples_vanish(k, d, step as int);
                            lemma_small_mod(d as nat, step as nat);
                            assert(x == it);
                            assert(missing@[missing@.len() - 1] == x);
                        }
                    }
                }
            }
            it += step;
            proof {
                k = k + 1;
            }
        }
        missing
    }

    /// The missing grid points, compressed into inclusive ranges of
    /// consecutive minutes.
    pub fn missing_ranges(&self) -> (r: Vec<(u32, u32)>)
        requires
            self.v@.len() > 0,
            self.scale > 0,
        ensures
            exists|m: Seq<u32>| #[trigger] self.lists_missing(m) && as_pairs(r@) == range_list(m, 0),
    {
        let missing = self.missing_epochs();
        proof {
            lemma_missing_is_minute_spaced(*self, missing@);
            lemma_minute_spaced_fits(missing@);
        }
        ranges(&missing)
    }

    /// Replaces the series by the continuation candles of its gaps: for each
    /// candle after the first, one flat candle at the close of the candle
    /// before it for every minute strictly between the two. The candles that
    /// were there are not kept.
    pub fn insert_continuation_candles(&mut self)
        ensures
            final(self).v@ == fillers(old(self).v@),
            final(self).scale == old(self).scale,
    {
        let n = self.v.len();
        let mut candles: Vec<Candle> = Vec::new();
        if n < 2 {
            self.v = candles;
            return ;
        }
        let mut i: usize = 1;
        proof {
            assert(fillers(self.v@.take(1)) =~= Seq::<Candle>::empty());
        }
        while i < n
            invariant
                n == self.v@.len(),
                1 <= i <= n,
                candles@ == fillers(self.v@.take(i as int)),
            decreases n - i,
        {
            let prev = self.v[i - 1];
            let ts = self.v[i].time;
            let ghost base = candles@;
            let ghost gap = fillers_between(prev, ts);
            let mut cur: u64 = prev.time as u64 + 60;
            let ghost mut j: int = 0;
            while cur < ts as u64
                invariant
                    0 <= j <= gap.len(),
                    gap == fillers_between(prev, ts),
                    cur == prev.time + 60 * (j + 1),
                    candles@ == base + gap.take(j),
                decreases ts + 60 - cur,
            {
                candles.push(Candle::flat(cur as u32, prev.close));
                proof {
                    assert(j < gap.len());
                    assert(gap.take(j + 1) =~= gap.take(j).push(gap[j]));
                    j = j + 1;
                }
                cur += 60;
            }
            proof {
                assert(j == gap.len());
                assert(gap.take(j) =~= gap);
                let now = self.v@.take(i as int + 1);
                assert(now.drop_last() =~= self.v@.take(i as int));
                assert(now[now.len() - 2] == prev);
                assert(now.last().time == ts);
            }
            i += 1;
        }
        proof {
            assert(self.v@.take(n as int) =~= self.v@);
        }
        self.v = candles;
    }
}

proof fn lemma_multiple_of_step(a: int, scale: int)
    requires
        scale > 0,
        a % (scale * 60) == 0,
    ensures
        a % 60 == 0,
{
    let step = scale * 60;
    lemma_fundamental_div_mod(a, step);
    let q = a / step;
    assert(step * q == (scale * q) * 60) by (nonlinear_arith)
        requires
            step == scale * 60,
    ;
    lemma_mod_multiples_basic(scale * q, 60);
}

proof fn lemma_missing_is_minute_spaced(series: Candles, m: Seq<u32>)
    requires
        series.v@.len() > 0,
        series.scale > 0,
        series.lists_missing(m),
    ensures
        minute_spaced(m),
{
    assert forall|i: int, j: int| 0 <= i < j < m.len() implies m[i] < m[j] && (m[j] - m[i]) % 60
        == 0 by {
        assert(holds(m, m[i] as int));
        assert(holds(m, m[j] as int));
        let first = series.v@[0].time as int;
        lemma_multiple_of_step(m[i] - first, series.scale as int);
        lemma_multiple_of_step(m[j] - first, series.scale as int);
    }
}

/// The missing grid points and the candle times share no epoch, and
/// together they hold every grid point from the first candle up to, but not
/// including, the last; nothing off that grid is listed as missing.
pub proof fn lemma_missing_completes_grid(series: Candles, m: Seq<u32>)
    requires
        series.v@.len() > 0,
        series.scale > 0,
        series.lists_missing(m),
    ensures
        forall|x: int| #[trigger] holds(m, x) ==> !series.has_time(x),
        forall|x: int|
            series.on_grid(x) && x < series.v@.last().time ==> #[trigger] holds(m, x)
                || series.has_time(x),
        forall|x: int| #[trigger] holds(m, x) ==> series.on_grid(x) && x < series.v@.last().time,
{
}

/// The missing ranges are the missing grid points, compressed: an epoch lies
/// in one of the ranges exactly if it is a missing grid point.
pub proof fn lemma_missing_ranges_cover(series: Candles, m: Seq<u32>)
    requires
        series.v@.len() > 0,
        series.scale > 0,
        series.lists_missing(m),
    ensures
        forall|x: int| #[trigger] covered(range_list(m, 0), x) <==> series.is_missing(x),
{
    lemma_missing_is_minute_spaced(series, m);
    lemma_ranges_cover(m);
    assert forall|x: int| #[trigger] covered(range_list(m, 0), x) <==> series.is_missing(x) by {
        assert(covered(range_list(m, 0), x) <==> holds(m, x));
    }
}

} // verus!
