//! Compression of a list of epochs into runs of consecutive minutes.

use vstd::prelude::*;
use itertools::Itertools;

verus! {

/// Minute of the epoch at index `i`, less the index. Along a stretch of the
/// list where each epoch is exactly one minute after the one before it, this
/// difference stays the same.
pub open spec fn minute_offset(lst: Seq<u32>, i: int) -> int {
    lst[i] / 60 - i
}

/// Whether a run begins at index `t`: `t` is the first index, or its
/// offset differs from that of the index before it.
pub open spec fn is_run_start(lst: Seq<u32>, t: int) -> bool {
    t == 0 || minute_offset(lst, t) != minute_offset(lst, t - 1)
}

/// One past the last index of the run that holds index `t`.
pub open spec fn run_end(lst: Seq<u32>, t: int) -> int
    decreases lst.len() - t,
{
    if 0 <= t && t + 1 < lst.len() && !is_run_start(lst, t + 1) {
        run_end(lst, t + 1)
    } else {
        t + 1
    }
}

/// The range of the run that begins at `t`: its first epoch, and that epoch
/// plus one minute for each further member.
pub open spec fn range_at(lst: Seq<u32>, t: int) -> (int, int) {
    (lst[t] as int, lst[t] + 60 * (run_end(lst, t) - t - 1))
}

/// The ranges of the runs that begin at index `t` or later, in order.
pub open spec fn range_list(lst: Seq<u32>, t: int) -> Seq<(int, int)>
    decreases lst.len() - t,
{
    if t < 0 || t >= lst.len() {
        Seq::empty()
    } else if is_run_start(lst, t) {
        seq![range_at(lst, t)] + range_list(lst, t + 1)
    } else {
        range_list(lst, t + 1)
    }
}

/// Pairs of machine integers, read as pairs of mathematical integers.
pub open spec fn as_pairs(r: Seq<(u32, u32)>) -> Seq<(int, int)> {
    r.map_values(|p: (u32, u32)| (p.0 as int, p.1 as int))
}

/// The contents of each group.
pub open spec fn views(groups: Seq<Vec<u32>>) -> Seq<Seq<u32>> {
    groups.map_values(|g: Vec<u32>| g@)
}

/// Whether `s` is not empty and holds one value throughout.
pub open spec fn is_run(s: Seq<u32>) -> bool {
    s.len() > 0 && forall|j: int| 0 <= j < s.len() ==> #[trigger] s[j] == s[0]
}

/// Splits `keys` into its runs of equal neighbours with
/// `itertools::Itertools::group_by` under the identity key, and collects each
/// group it yields. Assumed of `group_by`: the groups, laid end to end, are
/// `keys`; no group is empty; a group holds one value throughout; and two
/// groups that follow each other hold different values.
#[verifier::external_body]
fn equal_runs(keys: Vec<u32>) -> (groups: Vec<Vec<u32>>)
    ensures
        views(groups@).flatten() == keys@,
        forall|g: int| 0 <= g < groups@.len() ==> is_run(#[trigger] groups@[g]@),
        forall|g: int|
            0 <= g < groups@.len() - 1 ==> (#[trigger] groups@[g]@)[0] != groups@[g + 1]@[0],
{
    let grouped = keys.into_iter().group_by(|e| *e);
    let mut groups: Vec<Vec<u32>> = Vec::new();
    for (_key, run) in &grouped {
        groups.push(run.collect());
    }
    groups
}

proof fn lemma_run_end(lst: Seq<u32>, t: int, e: int)
    requires
        0 <= t < e <= lst.len(),
        forall|i: int| t < i < e ==> !is_run_start(lst, i),
        e == lst.len() || is_run_start(lst, e),
    ensures
        run_end(lst, t) == e,
    decreases e - t,
{
    if t + 1 < e {
        lemma_run_end(lst, t + 1, e);
    }
}

proof fn lemma_skip_run(lst: Seq<u32>, t: int, e: int)
    requires
        0 <= t <= e <= lst.len(),
        forall|i: int| t <= i < e ==> !is_run_start(lst, i),
    ensures
        range_list(lst, t) == range_list(lst, e),
    decreases e - t,
{
    if t < e {
        lemma_skip_run(lst, t + 1, e);
    }
}

/// Compresses a list of epochs into its runs of consecutive minutes.
///
/// A run is a stretch of neighbours in which each epoch lies in the minute
/// after that of the one before it. Each run yields one pair: its first
/// epoch, and that epoch plus 60 seconds for each further member.
///
/// The list's minutes must not fall behind their indices, and each pair's
/// second part must fit in 32 bits. Both hold of any ascending list of
/// epochs that are a whole number of minutes apart.
pub fn ranges(lst: &Vec<u32>) -> (ret: Vec<(u32, u32)>)
    requires
        forall|i: int| 0 <= i < lst@.len() ==> i <= #[trigger] lst@[i] / 60,
        forall|k: int|
            0 <= k < range_list(lst@, 0).len() ==> (#[trigger] range_list(lst@, 0)[k]).1
                <= u32::MAX,
    ensures
        as_pairs(ret@) == range_list(lst@, 0),
{
    let n = lst.len();
    let mut pos: Vec<u32> = Vec::new();
    let mut i: usize = 0;
    while i < n
        invariant
            n == lst@.len(),
            i <= n,
            pos@.len() == i,
            forall|j: int| 0 <= j < i ==> #[trigger] pos@[j] == minute_offset(lst@, j),
            forall|i: int| 0 <= i < lst@.len() ==> i <= #[trigger] lst@[i] / 60,
        decreases n - i,
    {
        let epoch = lst[i];
        pos.push(epoch / 60 - i as u32);
        i += 1;
    }
    let ghost keys = pos@;
    let groups = equal_runs(pos);
    let mut ret: Vec<(u32, u32)> = Vec::new();
    let mut t: usize = 0;
    let mut g: usize = 0;
    proof {
        assert(keys.skip(0) =~= keys);
        assert(views(groups@).skip(0) =~= views(groups@));
    }
    while g < groups.len()
        invariant
            n == lst@.len(),
            keys.len() == n,
            forall|j: int| 0 <= j < n ==> #[trigger] keys[j] == minute_offset(lst@, j),
            g <= groups@.len(),
            t <= n,
            keys.skip(t as int) == views(groups@).skip(g as int).flatten(),
            forall|g: int| 0 <= g < groups@.len() ==> is_run(#[trigger] groups@[g]@),
            forall|g: int|
                0 <= g < groups@.len() - 1 ==> (#[trigger] groups@[g]@)[0] != groups@[g + 1]@[0],
            t < n ==> is_run_start(lst@, t as int),
            range_list(lst@, 0) == as_pairs(ret@) + range_list(lst@, t as int),
            forall|k: int|
                0 <= k < range_list(lst@, 0).len() ==> (#[trigger] range_list(lst@, 0)[k]).1
                    <= u32::MAX,
        decreases groups@.len() - g,
    {
        let len = groups[g].len();
        proof {
            let rest = views(groups@).skip(g as int);
            let run = groups@[g as int]@;
            assert(is_run(run));
            assert(rest.first() == run);
            assert(rest.drop_first() =~= views(groups@).skip(g as int + 1));
            assert(keys.skip(t as int) == run + views(groups@).skip(g as int + 1).flatten());
            assert(t + len <= n) by {
                assert(keys.skip(t as int).len() >= run.len());
            }
            assert forall|i: int| t <= i < t + len implies #[trigger] keys[i] == run[0] by {
                assert(keys.skip(t as int)[i - t] == run[i - t]);
            }
            assert(keys.skip(t as int + len as int) =~= views(groups@).skip(
                g as int + 1,
            ).flatten()) by {
                assert(keys.skip(t as int).skip(len as int) =~= keys.skip(t as int + len as int));
                assert((run + views(groups@).skip(g as int + 1).flatten()).skip(len as int)
                    =~= views(groups@).skip(g as int + 1).flatten());
            }
            if g + 1 < groups@.len() {
                let next = views(groups@).skip(g as int + 1);
                assert(next.first() == groups@[g as int + 1]@);
                assert(is_run(groups@[g as int + 1]@));
                assert(next.flatten().len() >= next.first().len());
                assert(t + len < n);
                assert(keys.skip(t as int + len as int)[0] == next.first()[0]);
                assert(keys[t + len] == groups@[g as int + 1]@[0]);
                assert(keys[t + len - 1] == run[0]);
                assert(is_run_start(lst@, t + len));
            } else {
                assert(views(groups@).skip(g as int + 1) =~= Seq::<Seq<u32>>::empty());
                assert(keys.skip(t as int + len as int).len() == 0);
                assert(t + len == n);
            }
            assert forall|i: int| t < i < t + len implies !is_run_start(lst@, i) by {
                assert(keys[i] == run[0]);
                assert(keys[i - 1] == run[0]);
            }
            lemma_run_end(lst@, t as int, t + len);
            lemma_skip_run(lst@, t as int + 1, t + len);
            assert(range_list(lst@, t as int) == seq![range_at(lst@, t as int)] + range_list(
                lst@,
                t + len,
            ));
            assert(range_list(lst@, 0)[ret@.len() as int] == range_at(lst@, t as int));
        }
        let first = lst[t];
        let last: u32 = first + 60 * ((len - 1) as u32);
        let ghost before = ret@;
        ret.push((first, last));
        proof {
            assert(as_pairs(ret@) =~= as_pairs(before) + seq![range_at(lst@, t as int)]);
        }
        t += len;
        g += 1;
    }
    proof {
        assert(views(groups@).skip(g as int) =~= Seq::<Seq<u32>>::empty());
        assert(keys.skip(t as int).len() == 0);
        assert(as_pairs(ret@) =~= range_list(lst@, 0));
    }
    ret
}

/// Whether `x` lies within the range `r` and a whole number of minutes
/// after its start.
pub open spec fn in_range(r: (int, int), x: int) -> bool {
    r.0 <= x <= r.1 && (x - r.0) % 60 == 0
}

/// Whether one of the ranges `rs` holds `x`.
pub open spec fn covered(rs: Seq<(int, int)>, x: int) -> bool {
    exists|k: int| 0 <= k < rs.len() && in_range(#[trigger] rs[k], x)
}

/// Whether the list has the epoch `x`.
pub open spec fn holds(lst: Seq<u32>, x: int) -> bool {
    exists|i: int| 0 <= i < lst.len() && #[trigger] lst[i] == x
}

/// Whether the list ascends and any two of its epochs are a whole number of
/// minutes apart.
pub open spec fn minute_spaced(lst: Seq<u32>) -> bool {
    forall|i: int, j: int|
        0 <= i < j < lst.len() ==> lst[i] < lst[j] && (lst[j] - lst[i]) % 60 == 0
}

spec fn run_start(lst: Seq<u32>, i: int) -> int
    decreases i,
{
    if i <= 0 || is_run_start(lst, i) {
        i
    } else {
        run_start(lst, i - 1)
    }
}

spec fn is_range_of_run(lst: Seq<u32>, t: int, r: (int, int)) -> bool {
    exists|s: int| t <= s < lst.len() && is_run_start(lst, s) && r == #[trigger] range_at(lst, s)
}

proof fn lemma_run_start(lst: Seq<u32>, i: int)
    requires
        0 <= i < lst.len(),
    ensures
        0 <= run_start(lst, i) <= i,
        is_run_start(lst, run_start(lst, i)),
        forall|k: int| run_start(lst, i) < k <= i ==> !is_run_start(lst, k),
    decreases i,
{
    if !(i <= 0 || is_run_start(lst, i)) {
        lemma_run_start(lst, i - 1);
    }
}

proof fn lemma_run_end_bounds(lst: Seq<u32>, t: int)
    requires
        0 <= t < lst.len(),
    ensures
        t < run_end(lst, t) <= lst.len(),
        forall|k: int| t < k < run_end(lst, t) ==> !is_run_start(lst, k),
        run_end(lst, t) == lst.len() || is_run_start(lst, run_end(lst, t)),
    decreases lst.len() - t,
{
    if t + 1 < lst.len() && !is_run_start(lst, t + 1) {
        lemma_run_end_bounds(lst, t + 1);
    }
}

proof fn lemma_run_members(lst: Seq<u32>, s: int, i: int)
    requires
        0 <= s <= i < lst.len(),
        forall|k: int| s < k <= i ==> !is_run_start(lst, k),
    ensures
        run_end(lst, s) == run_end(lst, i),
    decreases i - s,
{
    if s < i {
        lemma_run_members(lst, s + 1, i);
    }
}

proof fn lemma_run_is_consecutive(lst: Seq<u32>, s: int, i: int)
    requires
        minute_spaced(lst),
        0 <= s <= i < lst.len(),
        forall|k: int| s < k <= i ==> !is_run_start(lst, k),
    ensures
        lst[i] == lst[s] + 60 * (i - s),
    decreases i - s,
{
    if s < i {
        lemma_run_is_consecutive(lst, s, i - 1);
        assert(!is_run_start(lst, i));
        assert(lst[i - 1] < lst[i] && (lst[i] - lst[i - 1]) % 60 == 0);
    }
}

proof fn lemma_range_list_holds_run(lst: Seq<u32>, t: int, s: int)
    requires
        0 <= t <= s < lst.len(),
        is_run_start(lst, s),
    ensures
        range_list(lst, t).contains(range_at(lst, s)),
    decreases s - t,
{
    if t < s {
        lemma_range_list_holds_run(lst, t + 1, s);
        let rest = range_list(lst, t + 1);
        let k = choose|k: int| 0 <= k < rest.len() && #[trigger] rest[k] == range_at(lst, s);
        if is_run_start(lst, t) {
            assert(range_list(lst, t)[k + 1] == range_at(lst, s));
        }
    } else {
        assert(range_list(lst, t)[0] == range_at(lst, s));
    }
}

proof fn lemma_range_list_members(lst: Seq<u32>, t: int)
    requires
        0 <= t,
    ensures
        forall|k: int|
            0 <= k < range_list(lst, t).len() ==> is_range_of_run(
                lst,
                t,
                #[trigger] range_list(lst, t)[k],
            ),
    decreases lst.len() - t,
{
    if t < lst.len() {
        lemma_range_list_members(lst, t + 1);
        assert forall|k: int| 0 <= k < range_list(lst, t).len() implies is_range_of_run(
            lst,
            t,
            #[trigger] range_list(lst, t)[k],
        ) by {
            let r = range_list(lst, t)[k];
            if is_run_start(lst, t) && k == 0 {
                assert(r == range_at(lst, t));
            } else {
                let k1 = if is_run_start(lst, t) {
                    k - 1
                } else {
                    k
                };
                assert(r == range_list(lst, t + 1)[k1]);
                assert(is_range_of_run(lst, t + 1, r));
                let s = choose|s: int|
                    t + 1 <= s < lst.len() && is_run_start(lst, s) && r == #[trigger] range_at(
                        lst,
                        s,
                    );
                assert(t <= s < lst.len() && is_run_start(lst, s) && r == range_at(lst, s));
            }
        }
    }
}

/// An ascending list of epochs that are whole minutes apart meets what
/// [`ranges`] asks of its argument.
pub proof fn lemma_minute_spaced_fits(lst: Seq<u32>)
    requires
        minute_spaced(lst),
    ensures
        forall|i: int| 0 <= i < lst.len() ==> i <= #[trigger] lst[i] / 60,
        forall|k: int|
            0 <= k < range_list(lst, 0).len() ==> (#[trigger] range_list(lst, 0)[k]).1 <= u32::MAX,
{
    assert forall|i: int| 0 <= i < lst.len() implies i <= #[trigger] lst[i] / 60 by {
        lemma_spaced_growth(lst, i);
    }
    lemma_range_list_members(lst, 0);
    assert forall|k: int| 0 <= k < range_list(lst, 0).len() implies (#[trigger] range_list(
        lst,
        0,
    )[k]).1 <= u32::MAX by {
        let r = range_list(lst, 0)[k];
        assert(is_range_of_run(lst, 0, r));
        let s = choose|s: int|
            0 <= s < lst.len() && is_run_start(lst, s) && r == #[trigger] range_at(lst, s);
        lemma_run_end_bounds(lst, s);
        lemma_run_is_consecutive(lst, s, run_end(lst, s) - 1);
    }
}

proof fn lemma_spaced_growth(lst: Seq<u32>, i: int)
    requires
        minute_spaced(lst),
        0 <= i < lst.len(),
    ensures
        lst[i] >= lst[0] + 60 * i,
    decreases i,
{
    if i > 0 {
        lemma_spaced_growth(lst, i - 1);
        assert(lst[i - 1] < lst[i] && (lst[i] - lst[i - 1]) % 60 == 0);
    }
}

/// The ranges of an ascending list of epochs that are whole minutes apart
/// hold the list's epochs and nothing else: an epoch lies in one of the
/// ranges exactly if the list has it.
pub proof fn lemma_ranges_cover(lst: Seq<u32>)
    requires
        minute_spaced(lst),
    ensures
        forall|x: int| #[trigger] covered(range_list(lst, 0), x) <==> holds(lst, x),
{
    lemma_range_list_members(lst, 0);
    assert forall|x: int| #[trigger] covered(range_list(lst, 0), x) implies holds(lst, x) by {
        let k = choose|k: int|
            0 <= k < range_list(lst, 0).len() && in_range(#[trigger] range_list(lst, 0)[k], x);
        let r = range_list(lst, 0)[k];
        assert(is_range_of_run(lst, 0, r));
        let s = choose|s: int|
            0 <= s < lst.len() && is_run_start(lst, s) && r == #[trigger] range_at(lst, s);
        lemma_run_end_bounds(lst, s);
        let j = (x - lst[s]) / 60;
        assert(x == lst[s] + 60 * j);
        assert(0 <= j <= run_end(lst, s) - s - 1);
        lemma_run_is_consecutive(lst, s, s + j);
        assert(lst[s + j] == x);
    }
    assert forall|x: int| holds(lst, x) implies #[trigger] covered(range_list(lst, 0), x) by {
        let i = choose|i: int| 0 <= i < lst.len() && #[trigger] lst[i] == x;
        let s = run_start(lst, i);
        lemma_run_start(lst, i);
        lemma_run_members(lst, s, i);
        lemma_run_end_bounds(lst, i);
        lemma_run_is_consecutive(lst, s, i);
        lemma_range_list_holds_run(lst, 0, s);
        let r = range_at(lst, s);
        assert(in_range(r, x));
        let all = range_list(lst, 0);
        let k = choose|k: int| 0 <= k < all.len() && #[trigger] all[k] == r;
        assert(in_range(all[k], x));
    }
}

} // verus!
