//! Resampling of a series into a coarser scale.

use vstd::prelude::*;
use crate::binary32::{larger, max_of, min_of, smaller};
use crate::candle::Candle;
use crate::series::Candles;

verus! {

/// Index of the first candle at or after `from` whose time is a multiple of
/// `step` seconds; the length of `v` if there is none.
pub open spec fn first_aligned(v: Seq<Candle>, step: int, from: int) -> int
    decreases v.len() - from,
{
    if from < 0 || from >= v.len() {
        v.len() as int
    } else if v[from].time as int % step == 0 {
        from
    } else {
        first_aligned(v, step, from + 1)
    }
}

/// The running maximum of the highs of `g`, taken from the first candle on.
pub open spec fn highest(g: Seq<Candle>) -> u32
    decreases g.len(),
{
    if g.len() <= 1 {
        g[0].high
    } else {
        larger(g.last().high, highest(g.drop_last()))
    }
}

/// The running minimum of the lows of `g`, taken from the first candle on.
pub open spec fn lowest(g: Seq<Candle>) -> u32
    decreases g.len(),
{
    if g.len() <= 1 {
        g[0].low
    } else {
        smaller(g.last().low, lowest(g.drop_last()))
    }
}

/// Whether `total` is what adding up the volumes of `g` with `plus` can give:
/// the first volume, then each further one added to the sum so far.
pub open spec fn sums_to<F: Fn(u32, u32) -> u32>(plus: F, g: Seq<Candle>, total: u32) -> bool
    decreases g.len(),
{
    if g.len() <= 1 {
        total == g[0].volume
    } else {
        exists|part: u32|
            sums_to(plus, g.drop_last(), part) && #[trigger] plus.ensures(
                (part, g.last().volume),
                total,
            )
    }
}

/// Whether `c` is the one candle that stands for the group `g`: time and
/// open of the first member, close of the last, highest high, lowest low,
/// and the volumes added up.
pub open spec fn is_merge_of<F: Fn(u32, u32) -> u32>(plus: F, g: Seq<Candle>, c: Candle) -> bool {
    &&& c.time == g[0].time
    &&& c.open == g[0].open
    &&& c.close == g.last().close
    &&& c.high == highest(g)
    &&& c.low == lowest(g)
    &&& sums_to(plus, g, c.volume)
}

impl Candles {
    /// How many candles alignment discards from the front. With `align`,
    /// those before the first whose time is a multiple of this series' own
    /// step; without it, none.
    pub open spec fn skipped(self, align: bool) -> int {
        if align {
            first_aligned(self.v@, self.step(), 0)
        } else {
            0
        }
    }

    /// How many full groups of `n` candles follow the discarded ones.
    pub open spec fn group_count(self, align: bool, n: int) -> int {
        (self.v@.len() - self.skipped(align)) / n
    }

    /// The `k`-th group of `n` candles after the discarded ones.
    pub open spec fn group(self, align: bool, n: int, k: int) -> Seq<Candle> {
        self.v@.subrange(self.skipped(align) + k * n, self.skipped(align) + (k + 1) * n)
    }

    /// What must hold for resampling to `new_scale` to make sense: alignment
    /// costs no group, and the groups start `new_scale` minutes apart.
    pub open spec fn rebin_consistent(self, align: bool, new_scale: u16) -> bool {
        let n = new_scale as int;
        &&& self.group_count(align, n) == (self.v@.len() as int) / n
        &&& forall|k: int|
            0 <= k < self.group_count(align, n) ==> (#[trigger] self.group(align, n, k))[0].time
                == self.group(align, n, 0)[0].time + k * (n * 60)
    }

    fn aligned_start(&self, align: bool) -> (start: usize)
        requires
            self.scale > 0,
        ensures
            start == self.skipped(align),
            start <= self.v@.len(),
    {
        let len = self.v.len();
        let step: u32 = (self.scale as u32) * 60;
        let mut start: usize = 0;
        if align {
            while start < len && self.v[start].time % step != 0
                invariant
                    len == self.v@.len(),
                    start <= len,
                    step == self.step(),
                    step > 0,
                    first_aligned(self.v@, self.step(), 0) == first_aligned(
                        self.v@,
                        self.step(),
                        start as int,
                    ),
                decreases len - start,
            {
                start += 1;
            }
        }
        start
    }

    /// Tells whether resampling to `new_scale` is consistent, as
    /// [`Candles::rebin`] needs it to be.
    pub fn rebin_is_consistent(&self, align: bool, new_scale: u16) -> (ok: bool)
        requires
            self.scale > 0,
            new_scale > 0,
        ensures
            ok == self.rebin_consistent(align, new_scale),
    {
        let len = self.v.len();
        let n = new_scale as usize;
        let start = self.aligned_start(align);
        let count = (len - start) / n;
        if count != len / n {
            return false;
        }
        let mut k: usize = 0;
        while k < count
            invariant
                len == self.v@.len(),
                n == new_scale,
                n > 0,
                start == self.skipped(align),
                start <= len,
                count == self.group_count(align, n as int),
                k <= count,
                forall|j: int|
                    0 <= j < k ==> (#[trigger] self.group(align, n as int, j))[0].time
                        == self.group(align, n as int, 0)[0].time + j * (n * 60),
            decreases count - k,
        {
            proof {
                lemma_group_bounds(len as int, start as int, n as int, k as int);
                lemma_group_bounds(len as int, start as int, n as int, 0);
                assert(0 * n == 0);
                assert(k * (n * 60) <= 0xffff_ffff_ffff_ffff * 3932100) by (nonlinear_arith)
                    requires
                        0 <= k <= 0xffff_ffff_ffff_ffff,
                        0 <= n * 60 <= 3932100,
                ;
            }
            let expected: u128 = (self.v[start].time as u128) + (k as u128) * ((n as u128) * 60);
            if (self.v[start + k * n].time as u128) != expected {
                proof {
                    assert(self.group(align, n as int, k as int)[0] == self.v@[start + k * n]);
                    assert(self.group(align, n as int, 0)[0] == self.v@[start as int]);
                }
                return false;
            }
            proof {
                assert(self.group(align, n as int, k as int)[0] == self.v@[start + k * n]);
                assert(self.group(align, n as int, 0)[0] == self.v@[start as int]);
            }
            k += 1;
        }
        true
    }

    /// Resamples the series into candles of `new_scale` minutes.
    ///
    /// A finer scale than the series' own is refused. The same scale gives
    /// the series back. A coarser one partitions the candles, after the
    /// alignment skip, into groups of `new_scale` and merges each full group
    /// into one candle; `plus` adds two volumes.
    pub fn rebin<F: Fn(u32, u32) -> u32>(self, align: bool, new_scale: u16, plus: F) -> (r: Option<
        Candles,
    >)
        requires
            self.scale > 0,
            forall|a: u32, b: u32| plus.requires((a, b)),
            new_scale > self.scale ==> self.rebin_consistent(align, new_scale),
        ensures
            new_scale < self.scale ==> r is None,
            new_scale == self.scale ==> r == Some(self),
            new_scale > self.scale ==> r is Some && r->0.scale == new_scale && r->0.v@.len()
                == self.group_count(align, new_scale as int) && r->0.sequential() && forall|k: int|
                0 <= k < r->0.v@.len() ==> is_merge_of(
                    plus,
                    self.group(align, new_scale as int, k),
                    #[trigger] r->0.v@[k],
                ),
    {
        if new_scale < self.scale {
            return None;
        }
        if new_scale == self.scale {
            return Some(self);
        }
        let len = self.v.len();
        let n = new_scale as usize;
        let start = self.aligned_start(align);
        let count = (len - start) / n;
        let mut res: Vec<Candle> = Vec::new();
        let mut k: usize = 0;
        while k < count
            invariant
                len == self.v@.len(),
                n == new_scale,
                n > 1,
                start == self.skipped(align),
                start <= len,
                count == self.group_count(align, n as int),
                k <= count,
                res@.len() == k,
                forall|a: u32, b: u32| plus.requires((a, b)),
                forall|j: int|
                    0 <= j < k ==> is_merge_of(
                        plus,
                        self.group(align, n as int, j),
                        #[trigger] res@[j],
                    ),
            decreases count - k,
        {
            proof {
                lemma_group_bounds(len as int, start as int, n as int, k as int);
            }
            let base: usize = start + k * n;
            let ghost g = self.group(align, n as int, k as int);
            let first = self.v[base];
            let mut high = first.high;
            let mut low = first.low;
            let mut close = first.close;
            let mut volume = first.volume;
            let mut j: usize = 1;
            proof {
                assert(g.take(1).len() == 1);
                assert(g.take(1)[0] == first);
            }
            while j < n
                invariant
                    len == self.v@.len(),
                    1 <= j <= n,
                    base + n <= len,
                    g.len() == n,
                    forall|i: int| 0 <= i < n ==> #[trigger] g[i] == self.v@[base + i],
                    forall|a: u32, b: u32| plus.requires((a, b)),
                    high == highest(g.take(j as int)),
                    low == lowest(g.take(j as int)),
                    sums_to(plus, g.take(j as int), volume),
                    close == g[j - 1].close,
                decreases n - j,
            {
                let row = self.v[base + j];
                let ghost part = volume;
                high = max_of(row.high, high);
                low = min_of(row.low, low);
                volume = plus(volume, row.volume);
                close = row.close;
                proof {
                    let now = g.take(j as int + 1);
                    assert(now.drop_last() =~= g.take(j as int));
                    assert(now.last() == row);
                    assert(sums_to(plus, now.drop_last(), part));
                }
                j += 1;
            }
            proof {
                assert(g.take(n as int) =~= g);
            }
            let merged = Candle { time: first.time, open: first.open, high, low, close, volume };
            res.push(merged);
            k += 1;
        }
        let out = Candles { v: res, scale: new_scale };
        proof {
            assert forall|j: int| 0 <= j < out.v@.len() implies (#[trigger] out.v@[j]).time
                == out.v@[0].time + j * out.step() by {
                assert(is_merge_of(plus, self.group(align, n as int, j), out.v@[j]));
                assert(is_merge_of(plus, self.group(align, n as int, 0), out.v@[0]));
                assert(self.group(align, n as int, j)[0].time == self.group(align, n as int, 0)[0].time
                    + j * (n * 60));
            }
        }
        Some(out)
    }
}

proof fn lemma_group_bounds(len: int, start: int, n: int, k: int)
    requires
        0 <= start <= len,
        n > 0,
        0 <= k < (len - start) / n,
    ensures
        0 <= k * n,
        start + k * n + n <= len,
        (k + 1) * n == k * n + n,
{
    let count = (len - start) / n;
    assert(count * n <= len - start) by (nonlinear_arith)
        requires
            count == (len - start) / n,
            n > 0,
            len - start >= 0,
    ;
    assert((k + 1) * n <= count * n) by (nonlinear_arith)
        requires
            k + 1 <= count,
            n > 0,
    ;
    assert((k + 1) * n == k * n + n) by (nonlinear_arith);
    assert(0 <= k * n) by (nonlinear_arith)
        requires
            k >= 0,
            n > 0,
    ;
}

} // verus!
