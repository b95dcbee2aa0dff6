//! Aggregation of trades into one-minute candles.

use vstd::prelude::*;
use vstd::std_specs::iter::IteratorSpec;
use std::collections::HashMap;
use crate::binary32::{larger, max_of, min_of, smaller};
use crate::candle::Candle;
use crate::series::Candles;
use crate::update::Update;

verus! {

/// The working set while trades are consumed: the candles so far by their
/// minute, the minute of the last trade, and its price.
pub struct Working {
    pub m: Map<u32, Candle>,
    pub prev: Option<u32>,
    pub last_close: u32,
}

/// Start of the minute that holds the millisecond timestamp `ts`, in epoch
/// seconds, cut to 32 bits.
pub open spec fn bucket_of(ts: u64) -> u32 {
    ((ts / 1000 / 60 * 60) % 0x1_0000_0000) as u32
}

/// Whether `t` is strictly between `prev` and `bound` and a whole number of
/// minutes after `prev`.
pub open spec fn in_gap(prev: u32, bound: int, t: u32) -> bool {
    prev < t < bound && (t - prev) % 60 == 0
}

/// The working set `m` with a continuation candle at `price` put at every
/// minute of the gap from `prev` to `bound`, over whatever was there.
pub open spec fn filled(m: Map<u32, Candle>, prev: u32, bound: int, price: u32) -> Map<
    u32,
    Candle,
> {
    Map::new(
        |t: u32| m.contains_key(t) || in_gap(prev, bound, t),
        |t: u32|
            if in_gap(prev, bound, t) {
                Candle::flat_at(t, price)
            } else {
                m[t]
            },
    )
}

/// Whether `after` is the candle of minute `t` once a trade at `price` of
/// `size` joins `before`. The first trade of a minute sets every price and
/// the volume; a further one moves high, low and close, keeps the open, and
/// has its size added to the volume by `plus`.
pub open spec fn merged<F: Fn(u32, u32) -> u32>(
    plus: F,
    before: Option<Candle>,
    t: u32,
    price: u32,
    size: u32,
    after: Candle,
) -> bool {
    match before {
        None => after == Candle {
            time: t,
            open: price,
            high: price,
            low: price,
            close: price,
            volume: size,
        },
        Some(c) => {
            &&& after.time == t
            &&& after.open == c.open
            &&& after.high == larger(price, c.high)
            &&& after.low == smaller(price, c.low)
            &&& after.close == price
            &&& plus.ensures((c.volume, size), after.volume)
        },
    }
}

/// The candle of minute `t` in `m`, if there is one.
pub open spec fn candle_at(m: Map<u32, Candle>, t: u32) -> Option<Candle> {
    if m.contains_key(t) {
        Some(m[t])
    } else {
        None
    }
}

/// Whether consuming `u` can take the working set from `s` to `s2`.
///
/// An update that is no trade changes nothing. A trade first has the gap
/// since the minute of the trade before it filled, if gaps are to be fixed,
/// and then joins the candle of its own minute.
pub open spec fn step<F: Fn(u32, u32) -> u32>(
    plus: F,
    fix_missing: bool,
    s: Working,
    u: Update,
    s2: Working,
) -> bool {
    if !u.is_trade {
        s2 == s
    } else {
        let b = bucket_of(u.ts);
        let m1 = if fix_missing && s.prev is Some {
            filled(s.m, s.prev->0, b as int, s.last_close)
        } else {
            s.m
        };
        &&& s2.prev == Some(b)
        &&& s2.last_close == u.price
        &&& s2.m.contains_key(b)
        &&& s2.m == m1.insert(b, s2.m[b])
        &&& merged(plus, candle_at(m1, b), b, u.price, u.size, s2.m[b])
    }
}

/// Whether consuming `ups` in order, from nothing, can end in `s`.
pub open spec fn reaches<F: Fn(u32, u32) -> u32>(
    plus: F,
    fix_missing: bool,
    ups: Seq<Update>,
    s: Working,
) -> bool
    decreases ups.len(),
{
    if ups.len() == 0 {
        s == (Working { m: Map::empty(), prev: None, last_close: 0 })
    } else {
        exists|p: Working|
            reaches(plus, fix_missing, ups.drop_last(), p) && #[trigger] step(
                plus,
                fix_missing,
                p,
                ups.last(),
                s,
            )
    }
}

/// Whether `v` holds the candles of `m`, each once, in ascending order of
/// time.
pub open spec fn lists_in_order(m: Map<u32, Candle>, v: Seq<Candle>) -> bool {
    &&& forall|i: int, j: int| 0 <= i < j < v.len() ==> v[i].time < v[j].time
    &&& forall|i: int|
        0 <= i < v.len() ==> m.contains_key((#[trigger] v[i]).time) && m[v[i].time] == v[i]
    &&& forall|t: u32|
        m.contains_key(t) ==> exists|i: int| 0 <= i < v.len() && (#[trigger] v[i]).time == t
}

/// Sorts `v` with `std`'s `sort` on slices. Assumed of it: the result holds
/// what `v` held, each value as often as before, in ascending order.
#[verifier::external_body]
fn sort_ascending(v: &mut Vec<u32>)
    ensures
        final(v)@.to_multiset() == old(v)@.to_multiset(),
        forall|i: int, j: int| 0 <= i <= j < final(v)@.len() ==> final(v)@[i] <= final(v)@[j],
{
    v.sort();
}

fn minute_of(ts: u64) -> (b: u32)
    ensures
        b == bucket_of(ts),
{
    let m: u64 = ts / 1000 / 60 * 60;
    assert(m as u32 == m % 0x1_0000_0000) by (bit_vector);
    m as u32
}

fn sorted_keys(map: &HashMap<u32, Candle>) -> (keys: Vec<u32>)
    ensures
        forall|i: int, j: int| 0 <= i < j < keys@.len() ==> keys@[i] < keys@[j],
        forall|t: u32| keys@.contains(t) <==> map@.contains_key(t),
{
    broadcast use vstd::std_specs::hash::group_hash_axioms;

    let ghost all: Seq<u32> = map.keys().remaining().unref();
    let mut keys: Vec<u32> = Vec::new();
    for k in it: map.keys()
        invariant
            it.seq().unref() == all,
            keys@ == all.take(it.index()),
    {
        keys.push(*k);
    }
    assert(keys@ == all);
    let ghost unsorted = keys@;
    sort_ascending(&mut keys);
    proof {
        broadcast use vstd::seq_lib::group_to_multiset_ensures;

        unsorted.lemma_multiset_has_no_duplicates();
        keys@.lemma_multiset_has_no_duplicates_conv();
        assert forall|t: u32| keys@.contains(t) <==> map@.contains_key(t) by {
            assert(keys@.contains(t) <==> keys@.to_multiset().count(t) > 0);
            assert(unsorted.contains(t) <==> unsorted.to_multiset().count(t) > 0);
            assert(unsorted.contains(t) <==> unsorted.to_set().contains(t));
        }
    }
    keys
}

fn fill_gap(map: &mut HashMap<u32, Candle>, prev: u32, next: u32, price: u32)
    requires
        forall|t: u32| old(map)@.contains_key(t) ==> (#[trigger] old(map)@[t]).time == t,
    ensures
        final(map)@ == filled(old(map)@, prev, next as int, price),
        forall|t: u32| final(map)@.contains_key(t) ==> (#[trigger] final(map)@[t]).time == t,
{
    broadcast use vstd::std_specs::hash::group_hash_axioms;

    let mut cur: u64 = prev as u64 + 60;
    assert(map@ =~= filled(old(map)@, prev, cur as int, price));
    while cur < next as u64
        invariant
            prev < cur,
            (cur - prev) % 60 == 0,
            cur == prev + 60 || cur - 60 < next,
            map@ == filled(old(map)@, prev, cur as int, price),
            forall|t: u32| map@.contains_key(t) ==> (#[trigger] map@[t]).time == t,
        decreases next + 60 - cur,
    {
        let ghost before = map@;
        map.insert(cur as u32, Candle::flat(cur as u32, price));
        proof {
            assert(map@ =~= filled(old(map)@, prev, cur + 60, price));
        }
        cur += 60;
    }
    assert(map@ =~= filled(old(map)@, prev, next as int, price));
}

fn join<F: Fn(u32, u32) -> u32>(
    plus: &F,
    map: &mut HashMap<u32, Candle>,
    t: u32,
    price: u32,
    size: u32,
)
    requires
        forall|a: u32, b: u32| plus.requires((a, b)),
        forall|t: u32| old(map)@.contains_key(t) ==> (#[trigger] old(map)@[t]).time == t,
    ensures
        final(map)@.contains_key(t),
        final(map)@ == old(map)@.insert(t, final(map)@[t]),
        merged(*plus, candle_at(old(map)@, t), t, price, size, final(map)@[t]),
        forall|t: u32| final(map)@.contains_key(t) ==> (#[trigger] final(map)@[t]).time == t,
{
    broadcast use vstd::std_specs::hash::group_hash_axioms;

    let candle = if map.contains_key(&t) {
        let c = *map.get(&t).unwrap();
        Candle {
            time: t,
            volume: plus(c.volume, size),
            high: max_of(price, c.high),
            low: min_of(price, c.low),
            close: price,
            open: c.open,
        }
    } else {
        Candle { time: t, volume: size, high: price, low: price, close: price, open: price }
    };
    map.insert(t, candle);
}

/// Builds the one-minute candles of the trades among `ups`.
///
/// Timestamps are in milliseconds. Updates that are no trades are passed
/// over. With `fix_missing`, a gap between the minutes of two trades that
/// follow each other is filled with continuation candles at the earlier
/// trade's price. `plus` adds two volumes. The candles come out in ascending
/// order of time, no two of them with the same time.
pub fn updates2candles<F: Fn(u32, u32) -> u32>(fix_missing: bool, ups: &[Update], plus: F) -> (r:
    Candles)
    requires
        forall|a: u32, b: u32| plus.requires((a, b)),
    ensures
        r.scale == 1,
        forall|i: int, j: int| 0 <= i < j < r.v@.len() ==> r.v@[i].time < r.v@[j].time,
        exists|s: Working| #[trigger]
            reaches(plus, fix_missing, ups@, s) && lists_in_order(s.m, r.v@),
{
    broadcast use vstd::std_specs::hash::group_hash_axioms;

    let mut candles: HashMap<u32, Candle> = HashMap::new();
    let mut prev: Option<u32> = None;
    let mut last_close: u32 = 0;
    let ghost mut state = Working { m: Map::empty(), prev: None, last_close: 0 };
    let n = ups.len();
    let mut i: usize = 0;
    proof {
        assert(candles@ =~= state.m);
    }
    while i < n
        invariant
            n == ups@.len(),
            i <= n,
            forall|a: u32, b: u32| plus.requires((a, b)),
            candles@ == state.m,
            prev == state.prev,
            last_close == state.last_close,
            reaches(plus, fix_missing, ups@.take(i as int), state),
            forall|t: u32| candles@.contains_key(t) ==> (#[trigger] candles@[t]).time == t,
        decreases n - i,
    {
        let trade = ups[i];
        let ghost before = state;
        if trade.is_trade {
            let ts = minute_of(trade.ts);
            if fix_missing {
                if let Some(last_ts) = prev {
                    fill_gap(&mut candles, last_ts, ts, last_close);
                }
            }
            join(&plus, &mut candles, ts, trade.price, trade.size);
            prev = Some(ts);
            last_close = trade.price;
            proof {
                state = Working { m: candles@, prev: Some(ts), last_close: trade.price };
            }
        }
        proof {
            let now = ups@.take(i as int + 1);
            assert(now.drop_last() =~= ups@.take(i as int));
            assert(now.last() == trade);
            assert(step(plus, fix_missing, before, trade, state));
        }
        i += 1;
    }
    proof {
        assert(ups@.take(n as int) =~= ups@);
    }
    let keys = sorted_keys(&candles);
    let mut v: Vec<Candle> = Vec::new();
    let mut k: usize = 0;
    while k < keys.len()
        invariant
            k <= keys@.len(),
            v@.len() == k,
            forall|t: u32| keys@.contains(t) <==> candles@.contains_key(t),
            forall|i: int|
                0 <= i < k ==> (#[trigger] v@[i]).time == keys@[i] && candles@[keys@[i]] == v@[i],
            forall|t: u32| candles@.contains_key(t) ==> (#[trigger] candles@[t]).time == t,
        decreases keys@.len() - k,
    {
        let key = keys[k];
        assert(keys@.contains(key));
        let c = *candles.get(&key).unwrap();
        v.push(c);
        k += 1;
    }
    proof {
        assert forall|t: u32| state.m.contains_key(t) implies exists|i: int|
            0 <= i < v@.len() && (#[trigger] v@[i]).time == t by {
            assert(keys@.contains(t));
            let i = choose|i: int| 0 <= i < keys@.len() && keys@[i] == t;
            assert(v@[i].time == t);
        }
        assert forall|i: int| 0 <= i < v@.len() implies state.m.contains_key(
            (#[trigger] v@[i]).time,
        ) && state.m[v@[i].time] == v@[i] by {
            assert(keys@.contains(keys@[i]));
        }
        assert(lists_in_order(state.m, v@));
    }
    Candles::new(v, 1)
}

} // verus!
