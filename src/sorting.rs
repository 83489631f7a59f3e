use vstd::prelude::*;
use crate::ranking::{RankState, swap_seq, step, run, settle, awaiting, range_ok, pass_start, midpoint, lemma_step_permutes, lemma_swap_permutes};

verus! {

/// Position `x` lies in the range `r`.
pub open spec fn in_range(r: (usize, usize), x: int) -> bool {
    r.0 <= x && x <= r.1
}

/// No range of `pending` holds both `p` and `q`.
pub open spec fn apart(pending: Seq<(usize, usize)>, p: int, q: int) -> bool {
    forall|k: int| 0 <= k < pending.len() ==> !(#[trigger] in_range(pending[k], p) && in_range(pending[k], q))
}

/// The ranges of `pending` do not overlap.
pub open spec fn disjoint(pending: Seq<(usize, usize)>) -> bool {
    forall|k1: int, k2: int| 0 <= k1 < k2 < pending.len() ==>
        (#[trigger] pending[k1]).1 < (#[trigger] pending[k2]).0 || pending[k2].1 < pending[k1].0
}

/// No two entries of `pop` share a key.
pub open spec fn distinct_keys<T>(pop: Seq<T>, key: spec_fn(T) -> int) -> bool {
    forall|i: int, j: int| 0 <= i < j < pop.len() ==> key(#[trigger] pop[i]) != key(#[trigger] pop[j])
}

/// `pop` is in increasing order of key: most preferred first.
pub open spec fn sorted_by<T>(pop: Seq<T>, key: spec_fn(T) -> int) -> bool {
    forall|i: int, j: int| 0 <= i < j < pop.len() ==> key(#[trigger] pop[i]) < key(#[trigger] pop[j])
}

/// Any two positions that no pending range holds together are in key order.
pub open spec fn ordered_apart<T>(pending: Seq<(usize, usize)>, pop: Seq<T>, key: spec_fn(T) -> int) -> bool {
    forall|p: int, q: int| 0 <= p < q < pop.len() && apart(pending, p, q) ==>
        key(#[trigger] pop[p]) < key(#[trigger] pop[q])
}

/// The part of the active range scanned so far is split around the pivot:
/// preferred elements before `low`, the others from `low` to `scan`.
pub open spec fn partitioned<T>(st: RankState<T>, key: spec_fn(T) -> int) -> bool {
    let s = st.pending.last().0 as int;
    let e = st.pending.last().1 as int;
    &&& forall|x: int| s <= x < st.low ==> key(#[trigger] st.pop[x]) < key(st.pop[e])
    &&& forall|x: int| st.low <= x < st.scan ==> key(#[trigger] st.pop[x]) > key(st.pop[e])
}

/// What holds of every state of a pass answered by a fixed order of keys.
pub open spec fn sorting_inv<T>(st: RankState<T>, key: spec_fn(T) -> int) -> bool {
    &&& awaiting(st)
    &&& distinct_keys(st.pop, key)
    &&& disjoint(st.pending)
    &&& ordered_apart(st.pending, st.pop, key)
    &&& partitioned(st, key)
}

/// Exchanging two entries keeps keys distinct.
proof fn lemma_swap_distinct<T>(pop: Seq<T>, key: spec_fn(T) -> int, a: int, b: int)
    requires
        distinct_keys(pop, key),
        0 <= a < pop.len(),
        0 <= b < pop.len(),
    ensures
        distinct_keys(swap_seq(pop, a, b), key),
{
    let s = swap_seq(pop, a, b);
    assert forall|i: int, j: int| 0 <= i < j < s.len() implies key(#[trigger] s[i]) != key(#[trigger] s[j]) by {
        let si = if i == b { a } else if i == a { b } else { i };
        let sj = if j == b { a } else if j == a { b } else { j };
        assert(s[i] == pop[si]);
        assert(s[j] == pop[sj]);
        if si < sj {
            assert(key(pop[si]) != key(pop[sj]));
        } else {
            assert(key(pop[sj]) != key(pop[si]));
        }
    }
}

/// A position of range `k` lies in no other range.
proof fn lemma_only_range(pending: Seq<(usize, usize)>, k: int, x: int)
    requires
        disjoint(pending),
        0 <= k < pending.len(),
        in_range(pending[k], x),
    ensures
        forall|j: int| 0 <= j < pending.len() && #[trigger] in_range(pending[j], x) ==> j == k,
{
    assert forall|j: int| 0 <= j < pending.len() && #[trigger] in_range(pending[j], x) implies j == k by {
        if j < k {
            assert(pending[j].1 < pending[k].0 || pending[k].1 < pending[j].0);
        } else if k < j {
            assert(pending[k].1 < pending[j].0 || pending[j].1 < pending[k].0);
        }
    }
}

/// Exchanging two entries of one pending range keeps positions that no range
/// holds together in key order.
proof fn lemma_swap_in_range<T>(pending: Seq<(usize, usize)>, pop: Seq<T>, key: spec_fn(T) -> int, k: int, a: int, b: int)
    requires
        disjoint(pending),
        ordered_apart(pending, pop, key),
        0 <= k < pending.len(),
        in_range(pending[k], a),
        in_range(pending[k], b),
        pending[k].1 < pop.len(),
    ensures
        ordered_apart(pending, swap_seq(pop, a, b), key),
{
    let s = swap_seq(pop, a, b);
    let r = pending[k];
    assert forall|p: int, q: int| 0 <= p < q < s.len() && apart(pending, p, q) implies
        key(#[trigger] s[p]) < key(#[trigger] s[q]) by {
        let sp = if p == b { a } else if p == a { b } else { p };
        let sq = if q == b { a } else if q == a { b } else { q };
        assert(s[p] == pop[sp]);
        assert(s[q] == pop[sq]);
        if sp != p || sq != q {
            assert(!(in_range(r, p) && in_range(r, q)));
            if in_range(r, p) {
                lemma_only_range(pending, k, sp);
                assert forall|j: int| 0 <= j < pending.len() implies
                    !(#[trigger] in_range(pending[j], sp) && in_range(pending[j], sq)) by {
                }
            } else {
                lemma_only_range(pending, k, sq);
                assert forall|j: int| 0 <= j < pending.len() implies
                    !(#[trigger] in_range(pending[j], sp) && in_range(pending[j], sq)) by {
                }
            }
        }
    }
}

/// Everything in `[s, e]` is ranked between what lies before `s` and what
/// lies after `e`.
pub open spec fn bounded<T>(pop: Seq<T>, key: spec_fn(T) -> int, s: int, e: int) -> bool {
    &&& forall|x: int, y: int| s <= x <= e && e < y < pop.len() ==> key(#[trigger] pop[x]) < key(#[trigger] pop[y])
    &&& forall|x: int, y: int| 0 <= y < s && s <= x <= e ==> key(#[trigger] pop[y]) < key(#[trigger] pop[x])
}

/// The active range is bounded by what lies outside it.
proof fn lemma_top_bounded<T>(st: RankState<T>, key: spec_fn(T) -> int)
    requires
        sorting_inv(st, key),
    ensures
        bounded(st.pop, key, st.pending.last().0 as int, st.pending.last().1 as int),
{
    let t = st.pending.len() - 1;
    let r = st.pending[t];
    let s = r.0 as int;
    let e = r.1 as int;
    assert forall|x: int, y: int| s <= x <= e && e < y < st.pop.len() implies key(#[trigger] st.pop[x]) < key(#[trigger] st.pop[y]) by {
        lemma_only_range(st.pending, t, x);
        assert(apart(st.pending, x, y));
    }
    assert forall|x: int, y: int| 0 <= y < s && s <= x <= e implies key(#[trigger] st.pop[y]) < key(#[trigger] st.pop[x]) by {
        lemma_only_range(st.pending, t, x);
        assert(apart(st.pending, y, x));
    }
}

/// Exchanging two entries inside `[s, e]` keeps it bounded.
proof fn lemma_swap_bounded<T>(pop: Seq<T>, key: spec_fn(T) -> int, s: int, e: int, a: int, b: int)
    requires
        bounded(pop, key, s, e),
        0 <= s,
        s <= a <= e,
        s <= b <= e,
        e < pop.len(),
    ensures
        bounded(swap_seq(pop, a, b), key, s, e),
{
    let w = swap_seq(pop, a, b);
    assert forall|x: int, y: int| s <= x <= e && e < y < w.len() implies key(#[trigger] w[x]) < key(#[trigger] w[y]) by {
        let sx = if x == b { a } else if x == a { b } else { x };
        assert(w[x] == pop[sx]);
        assert(w[y] == pop[y]);
    }
    assert forall|x: int, y: int| 0 <= y < s && s <= x <= e implies key(#[trigger] w[y]) < key(#[trigger] w[x]) by {
        let sx = if x == b { a } else if x == a { b } else { x };
        assert(w[x] == pop[sx]);
        assert(w[y] == pop[y]);
    }
}

/// Settling the active range, with the pivot at `low` and the range split
/// around it, keeps positions that no range holds together in key order.
#[verifier::rlimit(40)]
proof fn lemma_settle_ordered<T>(
    old_pending: Seq<(usize, usize)>,
    pop: Seq<T>,
    pop2: Seq<T>,
    key: spec_fn(T) -> int,
    low1: int,
)
    requires
        old_pending.len() > 0,
        disjoint(old_pending),
        forall|k: int| 0 <= k < old_pending.len() ==> range_ok(#[trigger] old_pending[k], pop.len() as int),
        ordered_apart(old_pending, pop, key),
        pop2.len() == pop.len(),
        old_pending.last().0 <= low1 <= old_pending.last().1,
        forall|x: int| 0 <= x < pop.len() && !(old_pending.last().0 <= x <= old_pending.last().1)
            ==> #[trigger] pop2[x] == pop[x],
        bounded(pop2, key, old_pending.last().0 as int, old_pending.last().1 as int),
        forall|x: int| old_pending.last().0 <= x < low1 ==> key(#[trigger] pop2[x]) < key(pop2[low1]),
        forall|x: int| low1 < x <= old_pending.last().1 ==> key(#[trigger] pop2[x]) > key(pop2[low1]),
    ensures
        disjoint(settle(old_pending, low1)),
        ordered_apart(settle(old_pending, low1), pop2, key),
        forall|k: int| 0 <= k < settle(old_pending, low1).len() ==> range_ok(#[trigger] settle(old_pending, low1)[k], pop.len() as int),
{
    let t = old_pending.len() - 1;
    let s = old_pending[t].0 as int;
    let e = old_pending[t].1 as int;
    let rest = old_pending.drop_last();
    let has_left = s + 1 < low1;
    let left = if has_left { rest.push((s as usize, (low1 - 1) as usize)) } else { rest };
    let has_right = low1 + 1 < e;
    let pending = settle(old_pending, low1);
    assert(pending == if has_right { left.push(((low1 + 1) as usize, e as usize)) } else { left });
    assert forall|k: int| 0 <= k < rest.len() implies #[trigger] pending[k] == old_pending[k] && (old_pending[k].1 < s || e < old_pending[k].0) by {
        assert(old_pending[k].1 < old_pending[t].0 || old_pending[t].1 < old_pending[k].0);
    }
    assert(range_ok(old_pending[t], pop.len() as int));
    assert forall|k: int| 0 <= k < pending.len() implies range_ok(#[trigger] pending[k], pop.len() as int) by {
        if k < rest.len() {
            assert(range_ok(old_pending[k], pop.len() as int));
        }
    }
    assert(disjoint(pending)) by {
        assert forall|k1: int, k2: int| 0 <= k1 < k2 < pending.len() implies
            (#[trigger] pending[k1]).1 < (#[trigger] pending[k2]).0 || pending[k2].1 < pending[k1].0 by {
            if k2 < rest.len() {
                assert(old_pending[k1].1 < old_pending[k2].0 || old_pending[k2].1 < old_pending[k1].0);
            }
        }
    }
    assert forall|p: int, q: int| 0 <= p < q < pop2.len() && apart(pending, p, q) implies
        key(#[trigger] pop2[p]) < key(#[trigger] pop2[q]) by {
        let pin = s <= p <= e;
        let qin = s <= q <= e;
        if !pin && !qin {
            assert(pop2[p] == pop[p]);
            assert(pop2[q] == pop[q]);
            assert forall|k: int| 0 <= k < old_pending.len() implies
                !(#[trigger] in_range(old_pending[k], p) && in_range(old_pending[k], q)) by {
                if k < rest.len() {
                    assert(pending[k] == old_pending[k]);
                    assert(!(in_range(pending[k], p) && in_range(pending[k], q)));
                }
            }
        } else if pin && qin {
            if q < low1 {
                let k = rest.len() as int;
                assert(pending[k] == (s as usize, (low1 - 1) as usize));
                assert(in_range(pending[k], p) && in_range(pending[k], q));
            } else if low1 < p {
                let k = pending.len() - 1;
                assert(pending[k] == ((low1 + 1) as usize, e as usize));
                assert(in_range(pending[k], p) && in_range(pending[k], q));
            }
        }
    }
}

/// The outcome that agrees with the order of keys: the current element is
/// preferred when its key is the smaller.
pub open spec fn prefers<T>(st: RankState<T>, key: spec_fn(T) -> int) -> bool {
    key(st.pop[st.scan]) < key(st.pop[st.pending.last().1 as int])
}

/// A step answered by the order of keys keeps the invariant, and leaves the
/// population sorted when it completes the pass.
proof fn lemma_step_sorted<T>(st: RankState<T>, key: spec_fn(T) -> int)
    requires
        sorting_inv(st, key),
    ensures
        step(st, prefers(st, key)).1 ==> sorting_inv(step(st, prefers(st, key)).0, key),
        !step(st, prefers(st, key)).1 ==> sorted_by(step(st, prefers(st, key)).0.pop, key),
{
    let b = prefers(st, key);
    lemma_step_permutes(st, b);
    lemma_top_bounded(st, key);
    let n = st.pop.len() as int;
    let t = st.pending.len() - 1;
    assert(range_ok(st.pending[t], n));
    let s = st.pending[t].0 as int;
    let e = st.pending[t].1 as int;
    let pop = st.pop;
    let low = st.low;
    let scan = st.scan;
    let piv = key(pop[e]);
    let pop1 = if b { swap_seq(pop, low, scan) } else { pop };
    let low1 = if b { low + 1 } else { low };
    let scan1 = scan + 1;
    if b {
        lemma_swap_distinct(pop, key, low, scan);
        lemma_swap_in_range(st.pending, pop, key, t, low, scan);
        lemma_swap_bounded(pop, key, s, e, low, scan);
    } else {
        assert(key(pop[scan]) != piv);
    }
    assert(pop1[e] == pop[e]);
    assert forall|x: int| s <= x < low1 implies key(#[trigger] pop1[x]) < piv by {
        if b && x == low {
            assert(pop1[x] == pop[scan]);
        } else if b && x == scan {
            assert(pop1[x] == pop[low]);
        }
    }
    assert forall|x: int| low1 <= x < scan1 implies key(#[trigger] pop1[x]) > piv by {
        if b && x == scan {
            assert(pop1[x] == pop[low]);
        }
    }
    if scan1 == e {
        let pop2 = swap_seq(pop1, low1, e);
        lemma_swap_distinct(pop1, key, low1, e);
        lemma_swap_bounded(pop1, key, s, e, low1, e);
        assert forall|x: int| s <= x < low1 implies key(#[trigger] pop2[x]) < piv by {
            assert(pop2[x] == pop1[x]);
        }
        assert(key(pop2[low1]) == piv);
        assert forall|x: int| low1 < x <= e implies key(#[trigger] pop2[x]) > piv by {
            if x == e {
                assert(pop2[x] == pop1[low1]);
            } else {
                assert(pop2[x] == pop1[x]);
            }
        }
        let pending = settle(st.pending, low1);
        assert forall|x: int| 0 <= x < n && !(s <= x <= e) implies #[trigger] pop2[x] == pop[x] by {}
        lemma_settle_ordered(st.pending, pop, pop2, key, low1);
        if pending.len() > 0 {
            let k = pending.len() - 1;
            let top2 = pending[k];
            assert(range_ok(top2, n));
            let m = midpoint(top2.0 as int, top2.1 as int);
            lemma_swap_in_range(pending, pop2, key, k, m, top2.1 as int);
            lemma_swap_distinct(pop2, key, m, top2.1 as int);
        } else {
            assert forall|i: int, j: int| 0 <= i < j < pop2.len() implies key(#[trigger] pop2[i]) < key(#[trigger] pop2[j]) by {
                assert(apart(pending, i, j));
            }
        }
    } else {
        assert(pop1 == step(st, b).0.pop);
    }
}

/// Number of unordered pairs among `len` elements.
pub open spec fn pairs(len: nat) -> nat
    decreases len,
{
    if len == 0 { 0 } else { pairs((len - 1) as nat) + (len - 1) as nat }
}

/// Sum of `pairs` over the lengths of the ranges in `pending`.
pub open spec fn pending_pairs(pending: Seq<(usize, usize)>) -> nat
    decreases pending.len(),
{
    if pending.len() == 0 {
        0
    } else {
        pending_pairs(pending.drop_last()) + pairs((pending.last().1 - pending.last().0 + 1) as nat)
    }
}

/// Most comparisons that the pass can still ask for: the rest of the active
/// partition, every pair among the rest of the active range, and every pair
/// within each range below it.
pub open spec fn budget<T>(st: RankState<T>) -> nat {
    let s = st.pending.last().0 as int;
    let e = st.pending.last().1 as int;
    (e - st.scan) as nat + pairs((e - s) as nat) + pending_pairs(st.pending.drop_last())
}

/// Fewest comparisons before the pass can complete: the rest of the active
/// partition.
pub open spec fn to_settle<T>(st: RankState<T>) -> int {
    st.pending.last().1 - st.scan
}

/// Splitting a set of elements in two loses pairs and gains none.
proof fn lemma_pairs_split(a: nat, b: nat)
    ensures
        pairs(a) + pairs(b) <= pairs(a + b),
    decreases b,
{
    if b > 0 {
        lemma_pairs_split(a, (b - 1) as nat);
        assert(pairs(a + b) == pairs((a + b - 1) as nat) + (a + b - 1) as nat);
    }
}

/// `pairs(n)` is `n(n - 1) / 2`.
proof fn lemma_pairs_closed(n: nat)
    ensures
        2 * pairs(n) == n * (n - 1),
    decreases n,
{
    if n == 0 {
        assert(n * (n - 1) == 0) by (nonlinear_arith)
            requires
                n == 0,
        ;
    } else {
        let m = (n - 1) as nat;
        lemma_pairs_closed(m);
        let pm = pairs(m) as int;
        assert(pairs(n) == pm + m);
        assert(2 * pm == m * (m - 1));
        assert(2 * (pm + m) == n * (n - 1)) by (nonlinear_arith)
            requires
                2 * pm == m * (m - 1),
                m == n - 1,
        ;
    }
}

/// A step that does not complete the pass spends from the budget; one that
/// completes it came at the end of a partition.
proof fn lemma_step_budget<T>(st: RankState<T>, current_preferred: bool)
    requires
        awaiting(st),
    ensures
        budget(st) >= 1,
        to_settle(st) >= 1,
        step(st, current_preferred).1 ==> budget(step(st, current_preferred).0) < budget(st),
        step(st, current_preferred).1 && to_settle(st) > 1 ==> to_settle(step(st, current_preferred).0) == to_settle(st) - 1,
        !step(st, current_preferred).1 ==> to_settle(st) == 1,
{
    let t = st.pending.len() - 1;
    let s = st.pending[t].0 as int;
    let e = st.pending[t].1 as int;
    let low1 = if current_preferred { st.low + 1 } else { st.low };
    if st.scan + 1 == e {
        let rest = st.pending.drop_last();
        let has_left = s + 1 < low1;
        let left = if has_left { rest.push((s as usize, (low1 - 1) as usize)) } else { rest };
        let has_right = low1 + 1 < e;
        let pending = settle(st.pending, low1);
        assert(pending == if has_right { left.push(((low1 + 1) as usize, e as usize)) } else { left });
        let a = (low1 - s) as nat;
        let b = (e - low1) as nat;
        lemma_pairs_split(a, b);
        if has_left {
            assert(left.drop_last() =~= rest);
        }
        assert(pending_pairs(left) <= pending_pairs(rest) + pairs(a)) by {
            if !has_left {
                assert(a <= 1);
                assert(pairs(a) >= 0);
            }
        }
        if has_right {
            assert(pending.drop_last() =~= left);
        }
        assert(pending_pairs(pending) <= pending_pairs(left) + pairs(b));
        if pending.len() > 0 {
            let top = pending.last();
            let len = (top.1 - top.0 + 1) as nat;
            assert(pairs(len) == pairs((len - 1) as nat) + (len - 1) as nat);
        }
    }
}

/// The state after `steps` outcomes that each agree with the order of keys,
/// stopping at the one that completes the pass; the flag is false when a pass
/// was completed.
pub open spec fn guided<T>(st: RankState<T>, key: spec_fn(T) -> int, steps: nat) -> (RankState<T>, bool)
    decreases steps,
{
    if steps == 0 {
        (st, true)
    } else {
        let (next, going) = step(st, prefers(st, key));
        if going {
            guided(next, key, (steps - 1) as nat)
        } else {
            (next, false)
        }
    }
}

/// The `c`-th outcome agreeing with the order of keys is the one that
/// completes the pass.
pub open spec fn completes_at<T>(st: RankState<T>, key: spec_fn(T) -> int, c: nat) -> bool {
    &&& c >= 1
    &&& !guided(st, key, c).1
    &&& guided(st, key, (c - 1) as nat).1
}

/// From a state of a pass answered by the order of keys, the pass completes
/// within the budget, sorted, with the same elements.
proof fn lemma_guided<T>(st: RankState<T>, key: spec_fn(T) -> int) -> (c: nat)
    requires
        sorting_inv(st, key),
    ensures
        completes_at(st, key, c),
        to_settle(st) <= c <= budget(st),
        sorted_by(guided(st, key, c).0.pop, key),
        guided(st, key, c).0.pop.to_multiset() == st.pop.to_multiset(),
    decreases budget(st),
{
    let b = prefers(st, key);
    lemma_step_sorted(st, key);
    lemma_step_budget(st, b);
    lemma_step_permutes(st, b);
    let (next, going) = step(st, b);
    if going {
        let c1 = lemma_guided(next, key);
        let c = c1 + 1;
        assert(guided(st, key, c) == guided(next, key, c1));
        assert(guided(st, key, (c - 1) as nat) == guided(next, key, (c1 - 1) as nat));
        c
    } else {
        assert(guided(st, key, 1) == (next, false));
        1
    }
}

/// The state at the start of a pass over keys without repeats meets the
/// invariant, with a budget of every pair of elements.
proof fn lemma_pass_start<T>(pop: Seq<T>, key: spec_fn(T) -> int)
    requires
        2 <= pop.len() <= usize::MAX,
        distinct_keys(pop, key),
    ensures
        sorting_inv(pass_start(pop), key),
        budget(pass_start(pop)) == pairs(pop.len()),
        to_settle(pass_start(pop)) == pop.len() - 1,
        pass_start(pop).pop.to_multiset() == pop.to_multiset(),
{
    let n = pop.len() as int;
    let st = pass_start(pop);
    assert(st.pending[0] == (0usize, (n - 1) as usize));
    assert(range_ok(st.pending[0], n));
    lemma_swap_distinct(pop, key, midpoint(0, n - 1), n - 1);
    lemma_swap_permutes(pop, midpoint(0, n - 1), n - 1);
    assert forall|p: int, q: int| 0 <= p < q < st.pop.len() && apart(st.pending, p, q) implies
        key(#[trigger] st.pop[p]) < key(#[trigger] st.pop[q]) by {
        assert(in_range(st.pending[0], p));
    }
    assert(st.pending.drop_last() =~= Seq::<(usize, usize)>::empty());
    assert(pairs(n as nat) == pairs((n - 1) as nat) + (n - 1) as nat);
}

/// Every outcome of `outcomes`, applied from `st` until the pass completes,
/// agrees with the order of keys.
pub open spec fn agrees<T>(st: RankState<T>, key: spec_fn(T) -> int, outcomes: Seq<bool>) -> bool
    decreases outcomes.len(),
{
    outcomes.len() == 0 || (
        outcomes[0] == prefers(st, key)
        && (step(st, outcomes[0]).1 ==> agrees(step(st, outcomes[0]).0, key, outcomes.drop_first()))
    )
}

/// Outcomes that agree with the order of keys are the ones `guided` applies.
proof fn lemma_run_guided<T>(st: RankState<T>, key: spec_fn(T) -> int, outcomes: Seq<bool>)
    requires
        agrees(st, key, outcomes),
    ensures
        run(st, outcomes) == guided(st, key, outcomes.len()),
    decreases outcomes.len(),
{
    if outcomes.len() > 0 {
        let (next, going) = step(st, outcomes[0]);
        if going {
            lemma_run_guided(next, key, outcomes.drop_first());
        }
    }
}

/// Once a pass completed, further outcomes change nothing.
proof fn lemma_guided_stays<T>(st: RankState<T>, key: spec_fn(T) -> int, c: nat, m: nat)
    requires
        c >= 1,
        !guided(st, key, c).1,
        m >= c,
    ensures
        guided(st, key, m) == guided(st, key, c),
    decreases c,
{
    let (next, going) = step(st, prefers(st, key));
    if going {
        assert(guided(next, key, 0).1);
        lemma_guided_stays(next, key, (c - 1) as nat, (m - 1) as nat);
    }
}

/// Rank correctness: when every outcome of a pass agrees with a fixed order
/// of the elements (no two of equal key; the smaller key is preferred), the
/// pass completes within `n(n - 1) / 2` outcomes, with the population sorted
/// by that order, most preferred first, and holding the same elements.
pub proof fn law_pass_sorts<T>(pop: Seq<T>, key: spec_fn(T) -> int, outcomes: Seq<bool>)
    requires
        2 <= pop.len() <= usize::MAX,
        distinct_keys(pop, key),
        agrees(pass_start(pop), key, outcomes),
        outcomes.len() >= pop.len() * (pop.len() - 1) / 2,
    ensures
        !run(pass_start(pop), outcomes).1,
        sorted_by(run(pass_start(pop), outcomes).0.pop, key),
        run(pass_start(pop), outcomes).0.pop.to_multiset() == pop.to_multiset(),
{
    lemma_pass_start(pop, key);
    let c = lemma_guided(pass_start(pop), key);
    lemma_pairs_closed(pop.len());
    assert(pairs(pop.len()) == pop.len() * (pop.len() - 1) / 2);
    lemma_run_guided(pass_start(pop), key, outcomes);
    lemma_guided_stays(pass_start(pop), key, c, outcomes.len());
}

/// Termination: a pass over `n` elements answered by a fixed order completes
/// after at least `n - 1` and at most `n(n - 1) / 2` comparisons.
pub proof fn law_pass_length<T>(pop: Seq<T>, key: spec_fn(T) -> int)
    requires
        2 <= pop.len() <= usize::MAX,
        distinct_keys(pop, key),
    ensures
        exists|c: nat|
            #[trigger] completes_at(pass_start(pop), key, c)
            && pop.len() - 1 <= c <= pop.len() * (pop.len() - 1) / 2,
{
    lemma_pass_start(pop, key);
    let c = lemma_guided(pass_start(pop), key);
    lemma_pairs_closed(pop.len());
    assert(completes_at(pass_start(pop), key, c));
}

} // verus!
