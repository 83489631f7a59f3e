use vstd::prelude::*;
use crate::rule::{NCARule, same_shape, is_crossover, layer_mixes};
use crate::ranking::{NCARules, RankState, step, pass_start, awaiting, lemma_step_permutes};

verus! {

/// Relies on rand::seq::index::sample: `amount` distinct indices below
/// `length`, here two of them; it panics only when `amount > length`.
#[verifier::external_body]
fn sample_pair(length: usize) -> (r: (usize, usize))
    requires
        2 <= length,
    ensures
        r.0 < length,
        r.1 < length,
        r.0 != r.1,
{
    let picked = rand::seq::index::sample(&mut rand::thread_rng(), length, 2);
    (picked.index(0), picked.index(1))
}

/// Every rule of `pop` has the shape of the first.
pub open spec fn uniform(pop: Seq<NCARule>) -> bool {
    forall|p: int| 0 <= p < pop.len() ==> same_shape(#[trigger] pop[p]@, pop[0]@)
}

/// Number of breeding rounds for a population of `n`; each yields two children.
pub open spec fn rounds(n: int) -> int {
    (n - 2) / 2
}

/// Number of fresh random rules that complete a generation of `n`: one for
/// even `n`, two for odd `n`, so that the size stays `n`.
pub open spec fn fresh_count(n: int) -> int {
    n - 1 - 2 * rounds(n)
}

/// Number of fresh random rules that complete a generation of
/// `population_size` rules.
pub fn fresh_rules_needed(population_size: usize) -> (r: usize)
    requires
        population_size >= 2,
    ensures
        r == fresh_count(population_size as int),
{
    population_size - 1 - 2 * ((population_size - 2) / 2)
}

/// The children at `1 + 2k` and `2 + 2k` of `next` come from crossing two
/// distinct slots of the top half of `ranked`.
pub open spec fn bred(ranked: Seq<NCARule>, next: Seq<NCARule>, k: int) -> bool {
    exists|p: int, q: int|
        0 <= p < ranked.len() / 2 && 0 <= q < ranked.len() / 2 && p != q
        && #[trigger] is_crossover(ranked[p]@, ranked[q]@, next[1 + 2 * k]@, next[2 + 2 * k]@)
}

/// `next` is a generation bred from the ranked population `ranked`: the top
/// rule kept at slot 0, then two children per breeding round, then the fresh
/// rules `fresh`.
pub open spec fn is_next_generation(ranked: Seq<NCARule>, fresh: Seq<NCARule>, next: Seq<NCARule>) -> bool {
    let n = ranked.len() as int;
    &&& next.len() == n
    &&& next[0]@ == ranked[0]@
    &&& forall|k: int| 0 <= k < rounds(n) ==> #[trigger] bred(ranked, next, k)
    &&& forall|f: int| 0 <= f < fresh.len() ==> #[trigger] next[1 + 2 * rounds(n) + f] == fresh[f]
}

/// Same shapes are shared through a common third rule.
proof fn lemma_same_shape_through(a: Seq<Seq<u32>>, b: Seq<Seq<u32>>, c: Seq<Seq<u32>>)
    requires
        same_shape(a, c),
        same_shape(b, c),
    ensures
        same_shape(a, b),
{
    assert forall|l: int| 0 <= l < a.len() implies #[trigger] a[l].len() == b[l].len() by {
        assert(a[l].len() == c[l].len());
        assert(b[l].len() == c[l].len());
    }
}

/// Same shapes chain.
proof fn lemma_same_shape_trans(a: Seq<Seq<u32>>, b: Seq<Seq<u32>>, c: Seq<Seq<u32>>)
    requires
        same_shape(a, b),
        same_shape(b, c),
    ensures
        same_shape(a, c),
{
    assert forall|l: int| 0 <= l < a.len() implies #[trigger] a[l].len() == c[l].len() by {
        assert(a[l].len() == b[l].len());
        assert(b[l].len() == c[l].len());
    }
}

/// A reordering of a population whose rules share one shape still has its
/// rules of one shape.
proof fn lemma_permuted_uniform(pop: Seq<NCARule>, perm: Seq<NCARule>)
    requires
        uniform(pop),
        perm.to_multiset() == pop.to_multiset(),
    ensures
        uniform(perm),
{
    broadcast use vstd::seq_lib::group_to_multiset_ensures;
    if perm.len() > 0 {
        assert(perm.contains(perm[0]));
        assert(perm.to_multiset().count(perm[0]) > 0);
        assert(pop.contains(perm[0]));
        let i0 = choose|i: int| 0 <= i < pop.len() && pop[i] == perm[0];
        assert forall|p: int| 0 <= p < perm.len() implies same_shape(#[trigger] perm[p]@, perm[0]@) by {
            assert(perm.contains(perm[p]));
            assert(perm.to_multiset().count(perm[p]) > 0);
            assert(pop.contains(perm[p]));
            let i = choose|i: int| 0 <= i < pop.len() && pop[i] == perm[p];
            assert(same_shape(pop[i]@, pop[0]@));
            assert(same_shape(pop[i0]@, pop[0]@));
            lemma_same_shape_through(pop[i]@, pop[i0]@, pop[0]@);
        }
    }
}

/// Ranking keeps the rules of a population of one shape: a step only
/// reorders them.
pub proof fn lemma_step_keeps_uniform(st: RankState<NCARule>, current_preferred: bool)
    requires
        awaiting(st),
        uniform(st.pop),
    ensures
        uniform(step(st, current_preferred).0.pop),
{
    lemma_step_permutes(st, current_preferred);
    lemma_permuted_uniform(st.pop, step(st, current_preferred).0.pop);
}

/// Breeds the next generation from a ranked population (most preferred
/// first): the top rule is kept, each breeding round crosses two distinct
/// rules drawn from the top half, and the fresh rules fill the remaining slots.
pub fn next_generation(ranked: &[NCARule], fresh: Vec<NCARule>) -> (r: Vec<NCARule>)
    requires
        ranked@.len() >= 2,
        uniform(ranked@),
        fresh.len() == fresh_count(ranked@.len() as int),
        forall|f: int| 0 <= f < fresh.len() ==> same_shape(#[trigger] fresh@[f]@, ranked@[0]@),
    ensures
        is_next_generation(ranked@, fresh@, r@),
        uniform(r@),
        ranked@.len() % 2 == 0 ==> fresh.len() == 1 && 2 * rounds(ranked@.len() as int) == ranked@.len() - 2,
{
    let n = ranked.len();
    let half = n / 2;
    let count = (n - 2) / 2;
    let mut out: Vec<NCARule> = Vec::with_capacity(n);
    out.push(ranked[0].duplicate());
    let mut k: usize = 0;
    while k < count
        invariant
            n == ranked@.len(),
            half == n / 2,
            count == rounds(n as int),
            k <= count,
            uniform(ranked@),
            out.len() == 1 + 2 * k,
            out@[0]@ == ranked@[0]@,
            forall|j: int| 0 <= j < k ==> #[trigger] bred(ranked@, out@, j),
            forall|j: int| 0 <= j < out.len() ==> same_shape(#[trigger] out@[j]@, ranked@[0]@),
        decreases count - k,
    {
        let (p, q) = sample_pair(half);
        proof {
            lemma_same_shape_through(ranked@[q as int]@, ranked@[p as int]@, ranked@[0]@);
        }
        let (a, b) = ranked[p].crossover(&ranked[q]);
        let ghost prev = out@;
        out.push(a);
        out.push(b);
        proof {
            assert forall|j: int| 0 <= j < k implies #[trigger] bred(ranked@, out@, j) by {
                assert(bred(ranked@, prev, j));
                assert(out@[1 + 2 * j] == prev[1 + 2 * j]);
                assert(out@[2 + 2 * j] == prev[2 + 2 * j]);
            }
            assert(is_crossover(ranked@[p as int]@, ranked@[q as int]@, out@[1 + 2 * k]@, out@[2 + 2 * k]@));
            assert(bred(ranked@, out@, k as int));
            let rp = ranked@[p as int]@;
            assert(same_shape(rp, ranked@[0]@));
            assert(a@.len() == rp.len() && b@.len() == rp.len());
            assert(same_shape(a@, rp)) by {
                assert forall|l: int| 0 <= l < a@.len() implies #[trigger] a@[l].len() == rp[l].len() by {
                    assert(layer_mixes(rp[l], ranked@[q as int]@[l], a@[l], b@[l]));
                }
            }
            assert(same_shape(b@, rp)) by {
                assert forall|l: int| 0 <= l < b@.len() implies #[trigger] b@[l].len() == rp[l].len() by {
                    assert(layer_mixes(rp[l], ranked@[q as int]@[l], a@[l], b@[l]));
                }
            }
            lemma_same_shape_trans(a@, rp, ranked@[0]@);
            lemma_same_shape_trans(b@, rp, ranked@[0]@);
            assert forall|j: int| 0 <= j < out.len() implies same_shape(#[trigger] out@[j]@, ranked@[0]@) by {
                if j < prev.len() {
                    assert(out@[j] == prev[j]);
                }
            }
        }
        k = k + 1;
    }
    let ghost bred_part = out@;
    let ghost fresh_rules = fresh@;
    let mut fresh = fresh;
    out.append(&mut fresh);
    proof {
        assert forall|j: int| 0 <= j < count implies #[trigger] bred(ranked@, out@, j) by {
            assert(bred(ranked@, bred_part, j));
            assert(out@[1 + 2 * j] == bred_part[1 + 2 * j]);
            assert(out@[2 + 2 * j] == bred_part[2 + 2 * j]);
        }
        assert(out@[0] == bred_part[0]);
        assert forall|f: int| 0 <= f < fresh_rules.len() implies
            #[trigger] out@[1 + 2 * rounds(n as int) + f] == fresh_rules[f] by {
        }
        assert forall|j: int| 0 <= j < out.len() implies same_shape(#[trigger] out@[j]@, out@[0]@) by {
            if j < bred_part.len() {
                assert(out@[j] == bred_part[j]);
            } else {
                assert(out@[j] == fresh_rules[j - bred_part.len()]);
            }
            lemma_same_shape_trans(out@[0]@, ranked@[0]@, ranked@[0]@);
            assert forall|l: int| 0 <= l < ranked@[0]@.len() implies #[trigger] ranked@[0]@[l].len() == out@[0]@[l].len() by {}
            lemma_same_shape_trans(out@[j]@, ranked@[0]@, out@[0]@);
        }
    }
    out
}

impl NCARules<NCARule> {
    /// Replaces the ranked population by the generation bred from it, and
    /// starts a new ranking pass over that generation.
    pub fn regenerate(&mut self, fresh: Vec<NCARule>)
        requires
            old(self)@.pop.len() >= 2,
            uniform(old(self)@.pop),
            fresh.len() == fresh_count(old(self)@.pop.len() as int),
            forall|f: int| 0 <= f < fresh.len() ==> same_shape(#[trigger] fresh@[f]@, old(self)@.pop[0]@),
        ensures
            uniform(final(self)@.pop),
            exists|next: Seq<NCARule>|
                is_next_generation(old(self)@.pop, fresh@, next) && final(self)@ == #[trigger] pass_start(next),
            awaiting(final(self)@),
    {
        let next = next_generation(self.rules(), fresh);
        let ghost g = next@;
        *self = NCARules::new(next);
        proof {
            lemma_permuted_uniform(g, self@.pop);
        }
        assert(is_next_generation(old(self)@.pop, fresh@, g) && self@ == pass_start(g));
    }
}

} // verus!
