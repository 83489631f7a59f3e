use vstd::prelude::*;

verus! {

/// The sequence `s` with the entries at `a` and `b` exchanged.
pub open spec fn swap_seq<T>(s: Seq<T>, a: int, b: int) -> Seq<T> {
    s.update(a, s[b]).update(b, s[a])
}

/// Exchanges the entries of `v` at `a` and `b`.
fn swap_at<T>(v: &mut Vec<T>, a: usize, b: usize)
    requires
        a < old(v).len(),
        b < old(v).len(),
    ensures
        final(v)@ == swap_seq(old(v)@, a as int, b as int),
{
    if a == b {
        assert(v@ =~= swap_seq(v@, a as int, b as int));
    } else {
        let ghost s = v@;
        let (lo, hi) = if a < b { (a, b) } else { (b, a) };
        let mut x = v.remove(hi);
        std::mem::swap(&mut v[lo], &mut x);
        v.insert(hi, x);
        assert(v@ =~= swap_seq(s, a as int, b as int));
    }
}


/// Abstract state of a ranking pass: the two cursors of the partition under
/// way, the stack of index ranges still to be partitioned (the active one on
/// top, its pivot at its end), and the population in its current order.
pub struct RankState<T> {
    pub low: int,
    pub scan: int,
    pub pending: Seq<(usize, usize)>,
    pub pop: Seq<T>,
}

/// Index of the element of `[start, end]` that is moved into `end` to serve
/// as pivot.
pub open spec fn midpoint(start: int, end: int) -> int {
    start + (end + 1 - start) / 2
}

/// Makes the range on top of `pending` the active one: both cursors at its
/// start, and its midpoint element swapped into its end slot as pivot.
pub open spec fn activate<T>(pending: Seq<(usize, usize)>, pop: Seq<T>) -> RankState<T> {
    let start = pending.last().0 as int;
    let end = pending.last().1 as int;
    RankState {
        low: start,
        scan: start,
        pending,
        pop: swap_seq(pop, midpoint(start, end), end),
    }
}

/// The state at the start of a pass over `pop`: one range over all of it.
pub open spec fn pass_start<T>(pop: Seq<T>) -> RankState<T> {
    activate(seq![(0usize, (pop.len() - 1) as usize)], pop)
}

/// A range that needs partitioning: at least two elements, inside the population.
pub open spec fn range_ok(r: (usize, usize), n: int) -> bool {
    r.0 < r.1 && r.1 < n
}

/// The state awaits a comparison: an active range holds both cursors, and the
/// scan cursor has not reached the pivot.
pub open spec fn awaiting<T>(st: RankState<T>) -> bool {
    &&& st.pending.len() > 0
    &&& forall|k: int| 0 <= k < st.pending.len() ==> range_ok(#[trigger] st.pending[k], st.pop.len() as int)
    &&& st.pending.last().0 <= st.low <= st.scan < st.pending.last().1
}

/// The pending ranges once the active range settled with its pivot at `low`:
/// the active range gives way to the parts on either side of the pivot that
/// hold two elements or more, the part before it first.
pub open spec fn settle(pending: Seq<(usize, usize)>, low: int) -> Seq<(usize, usize)> {
    let start = pending.last().0 as int;
    let end = pending.last().1 as int;
    let rest = pending.drop_last();
    let left = if start + 1 < low { rest.push((start as usize, (low - 1) as usize)) } else { rest };
    if low + 1 < end { left.push(((low + 1) as usize, end as usize)) } else { left }
}

/// One comparison outcome applied to the state; the flag is false exactly when
/// the outcome completed the pass.
pub open spec fn step<T>(st: RankState<T>, current_preferred: bool) -> (RankState<T>, bool) {
    let pop1 = if current_preferred { swap_seq(st.pop, st.low, st.scan) } else { st.pop };
    let low = if current_preferred { st.low + 1 } else { st.low };
    let scan = st.scan + 1;
    let end = st.pending.last().1 as int;
    if scan == end {
        let pop2 = swap_seq(pop1, low, end);
        let pending = settle(st.pending, low);
        if pending.len() > 0 {
            (activate(pending, pop2), true)
        } else {
            (RankState { low, scan, pending, pop: pop2 }, false)
        }
    } else {
        (RankState { low, scan, pending: st.pending, pop: pop1 }, true)
    }
}

/// Exchanging two entries keeps the multiset of entries.
pub proof fn lemma_swap_permutes<T>(s: Seq<T>, a: int, b: int)
    requires
        0 <= a < s.len(),
        0 <= b < s.len(),
    ensures
        swap_seq(s, a, b).to_multiset() == s.to_multiset(),
        swap_seq(s, a, b).len() == s.len(),
{
    broadcast use vstd::seq_lib::group_to_multiset_ensures, vstd::multiset::group_multiset_axioms;
    let s1 = s.update(a, s[b]);
    assert(s1.to_multiset() == s.to_multiset().insert(s[b]).remove(s[a]));
    assert(s1.update(b, s[a]).to_multiset() == s1.to_multiset().insert(s[a]).remove(s1[b]));
    assert(s1[b] == s[b]);
    assert(s.to_multiset().insert(s[b]).remove(s[a]).insert(s[a]).remove(s[b]) =~= s.to_multiset());
}

/// Outcomes applied one after another from `st`, stopping at the one that
/// completes the pass; the flag is false when a pass was completed.
pub open spec fn run<T>(st: RankState<T>, outcomes: Seq<bool>) -> (RankState<T>, bool)
    decreases outcomes.len(),
{
    if outcomes.len() == 0 {
        (st, true)
    } else {
        let (next, going) = step(st, outcomes[0]);
        if going {
            run(next, outcomes.drop_first())
        } else {
            (next, false)
        }
    }
}

/// A step from an awaiting state keeps the multiset of the population, and
/// awaits the next outcome unless it completed the pass.
pub proof fn lemma_step_permutes<T>(st: RankState<T>, current_preferred: bool)
    requires
        awaiting(st),
    ensures
        step(st, current_preferred).0.pop.to_multiset() == st.pop.to_multiset(),
        step(st, current_preferred).0.pop.len() == st.pop.len(),
        step(st, current_preferred).1 ==> awaiting(step(st, current_preferred).0),
{
    let n = st.pop.len() as int;
    let top = st.pending.last();
    assert(range_ok(st.pending[st.pending.len() - 1], n));
    let pop1 = if current_preferred { swap_seq(st.pop, st.low, st.scan) } else { st.pop };
    if current_preferred {
        lemma_swap_permutes(st.pop, st.low, st.scan);
    }
    let low = if current_preferred { st.low + 1 } else { st.low };
    let scan = st.scan + 1;
    let start = top.0 as int;
    let end = top.1 as int;
    if scan == end {
        lemma_swap_permutes(pop1, low, end);
        let pop2 = swap_seq(pop1, low, end);
        let rest = st.pending.drop_last();
        let pending = settle(st.pending, low);
        assert forall|k: int| 0 <= k < pending.len() implies range_ok(#[trigger] pending[k], n) by {
            if k < rest.len() {
                assert(pending[k] == st.pending[k]);
            }
        }
        if pending.len() > 0 {
            let top2 = pending.last();
            assert(range_ok(pending[pending.len() - 1], n));
            lemma_swap_permutes(pop2, midpoint(top2.0 as int, top2.1 as int), top2.1 as int);
        }
    }
}

/// Ranking only reorders: whatever the outcomes, the population stays a
/// permutation of the one the pass started from.
pub proof fn law_ranking_permutes<T>(pop: Seq<T>, outcomes: Seq<bool>)
    requires
        2 <= pop.len() <= usize::MAX,
    ensures
        run(pass_start(pop), outcomes).0.pop.to_multiset() == pop.to_multiset(),
{
    let st = pass_start(pop);
    assert(st.pending[0] == (0usize, (pop.len() - 1) as usize));
    assert(range_ok(st.pending[0], pop.len() as int));
    lemma_swap_permutes(pop, midpoint(0, pop.len() - 1), pop.len() - 1);
    lemma_run_permutes(st, outcomes);
}

/// From an awaiting state, a run of outcomes keeps the multiset of the population.
pub proof fn lemma_run_permutes<T>(st: RankState<T>, outcomes: Seq<bool>)
    requires
        awaiting(st),
    ensures
        run(st, outcomes).0.pop.to_multiset() == st.pop.to_multiset(),
    decreases outcomes.len(),
{
    if outcomes.len() > 0 {
        lemma_step_permutes(st, outcomes[0]);
        let (next, going) = step(st, outcomes[0]);
        if going {
            lemma_run_permutes(next, outcomes.drop_first());
        }
    }
}

/// A population under ranking, ordered from most to least preferred once a
/// pass completes.
pub struct NCARules<T> {
    i: usize,
    j: usize,
    remaining: Vec<(usize, usize)>,
    rules: Vec<T>,
}

impl<T> View for NCARules<T> {
    type V = RankState<T>;

    closed spec fn view(&self) -> RankState<T> {
        RankState { low: self.i as int, scan: self.j as int, pending: self.remaining@, pop: self.rules@ }
    }
}

impl<T> NCARules<T> {
    /// Starts a ranking pass over `rules`.
    pub fn new(rules: Vec<T>) -> (r: Self)
        requires
            rules.len() >= 2,
        ensures
            r@ == pass_start(rules@),
            r@.pop.to_multiset() == rules@.to_multiset(),
            awaiting(r@),
    {
        let ghost pop = rules@;
        let end = rules.len() - 1;
        let mut r = NCARules { i: 0, j: 0, remaining: vec![(0, end)], rules };
        assert(r.remaining@ =~= seq![(0usize, end)]);
        r.select_pivot();
        proof {
            lemma_swap_permutes(pop, midpoint(0, end as int), end as int);
        }
        r
    }

    /// Makes the range on top of the stack active.
    fn select_pivot(&mut self)
        requires
            old(self).remaining.len() > 0,
            forall|k: int| 0 <= k < old(self).remaining@.len() ==> range_ok(#[trigger] old(self).remaining@[k], old(self).rules@.len() as int),
        ensures
            final(self)@ == activate(old(self).remaining@, old(self).rules@),
    {
        let last = self.remaining.len() - 1;
        let (start, end) = self.remaining[last];
        assert(range_ok(self.remaining@[last as int], self.rules@.len() as int));
        assert(end < self.rules.len());
        self.i = start;
        self.j = start;
        let mid = start + (end + 1 - start) / 2;
        swap_at(&mut self.rules, mid, end);
    }

    /// Index of the element being compared against the pivot.
    pub fn current(&self) -> (r: usize)
        requires
            awaiting(self@),
        ensures
            r == self@.scan,
    {
        self.j
    }

    /// Index of the pivot of the active range.
    pub fn pivot(&self) -> (r: usize)
        requires
            awaiting(self@),
        ensures
            r == self@.pending.last().1,
    {
        self.remaining[self.remaining.len() - 1].1
    }

    /// The population in its current order.
    pub fn rules(&self) -> (r: &[T])
        ensures
            r@ == self@.pop,
    {
        self.rules.as_slice()
    }

    /// Applies one comparison outcome: `Greater` when the current element is
    /// preferred over the pivot. Returns false when this completed the pass.
    pub fn rank(&mut self, ordering: std::cmp::Ordering) -> (r: bool)
        requires
            awaiting(old(self)@),
        ensures
            (final(self)@, r) == step(old(self)@, ordering == std::cmp::Ordering::Greater),
            r ==> awaiting(final(self)@),
    {
        let ghost st = self@;
        if matches!(ordering, std::cmp::Ordering::Greater) {
            swap_at(&mut self.rules, self.i, self.j);
            self.i = self.i + 1;
        }
        self.j = self.j + 1;
        let last = self.remaining.len() - 1;
        let end = self.remaining[last].1;
        if self.j == end {
            let (start, end) = self.remaining.pop().unwrap();
            swap_at(&mut self.rules, self.i, end);
            assert(self.i <= end && end < self.rules.len());
            if start + 1 < self.i {
                self.remaining.push((start, self.i - 1));
            }
            if self.i + 1 < end {
                self.remaining.push((self.i + 1, end));
            }
            if self.remaining.len() > 0 {
                self.select_pivot();
                true
            } else {
                false
            }
        } else {
            true
        }
    }
}

} // verus!
