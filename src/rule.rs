use vstd::prelude::*;

verus! {

/// Bit pattern of the single-precision value 1.0, held in the fourth slot of
/// every tap.
pub const BIAS_BITS: u32 = 0x3f80_0000;

/// Number of taps in one layer: three channels over a square kernel.
pub open spec fn taps(kernel_size: nat) -> nat {
    3 * kernel_size * kernel_size
}

/// Number of weights in one layer: four slots per tap.
pub open spec fn layer_len(kernel_size: nat) -> nat {
    4 * taps(kernel_size)
}

/// Weight `c` of tap `q` in a layer.
pub open spec fn slot(layer: Seq<u32>, q: int, c: int) -> u32 {
    layer[4 * q + c]
}

/// `w` is a stack of `num_layers` layers of a kernel of side `kernel_size`.
pub open spec fn has_shape(w: Seq<Seq<u32>>, kernel_size: nat, num_layers: nat) -> bool {
    &&& w.len() == num_layers
    &&& forall|l: int| 0 <= l < w.len() ==> #[trigger] w[l].len() == layer_len(kernel_size)
}

/// `a` and `b` have the same number of layers, layer by layer of equal length.
pub open spec fn same_shape<A, B>(a: Seq<Seq<A>>, b: Seq<Seq<B>>) -> bool {
    &&& a.len() == b.len()
    &&& forall|l: int| 0 <= l < a.len() ==> #[trigger] a[l].len() == b[l].len()
}

/// The layer built from drawn weights `d`, three per tap: tap `q` holds
/// `d[3q]`, `d[3q + 1]`, `d[3q + 2]` and the bias.
pub open spec fn laid_out(layer: Seq<u32>, d: Seq<u32>) -> bool {
    &&& d.len() % 3 == 0
    &&& layer.len() == 4 * (d.len() / 3)
    &&& forall|q: int, c: int| 0 <= q < d.len() / 3 && 0 <= c < 4 ==>
        #[trigger] slot(layer, q, c) == if c == 3 { BIAS_BITS } else { d[3 * q + c] }
}

/// Layer children `x`, `y` of layers `a` and `b` under the coin flips
/// `coins`: where a coin shows true, `x` takes the weight of `a` and `y` that
/// of `b`; else the other way round.
pub open spec fn layer_crossed(a: Seq<u32>, b: Seq<u32>, coins: Seq<bool>, x: Seq<u32>, y: Seq<u32>) -> bool {
    &&& x.len() == a.len()
    &&& y.len() == a.len()
    &&& forall|t: int| 0 <= t < a.len() ==>
        if #[trigger] coins[t] {
            x[t] == a[t] && y[t] == b[t]
        } else {
            x[t] == b[t] && y[t] == a[t]
        }
}

/// Rule children `c1`, `c2` of `a` and `b` under the coin flips `coins`, layer
/// by layer.
pub open spec fn crossed(
    a: Seq<Seq<u32>>,
    b: Seq<Seq<u32>>,
    coins: Seq<Seq<bool>>,
    c1: Seq<Seq<u32>>,
    c2: Seq<Seq<u32>>,
) -> bool {
    &&& c1.len() == a.len()
    &&& c2.len() == a.len()
    &&& forall|l: int| 0 <= l < a.len() ==> layer_crossed(a[l], b[l], coins[l], #[trigger] c1[l], c2[l])
}

/// At every position of the layers, the weights of `x` and `y` are those of
/// `a` and `b`, in one order or the other.
pub open spec fn layer_mixes(a: Seq<u32>, b: Seq<u32>, x: Seq<u32>, y: Seq<u32>) -> bool {
    &&& x.len() == a.len()
    &&& y.len() == a.len()
    &&& forall|t: int| 0 <= t < a.len() ==>
        (#[trigger] x[t] == a[t] && y[t] == b[t]) || (x[t] == b[t] && y[t] == a[t])
}

/// `c1` and `c2` are children of `a` and `b` by uniform crossover: they share
/// the shape of `a`, and at every weight position the pair of their weights
/// is that of `a` and `b`, in one order or the other.
pub open spec fn is_crossover(
    a: Seq<Seq<u32>>,
    b: Seq<Seq<u32>>,
    c1: Seq<Seq<u32>>,
    c2: Seq<Seq<u32>>,
) -> bool {
    &&& c1.len() == a.len()
    &&& c2.len() == a.len()
    &&& forall|l: int| 0 <= l < a.len() ==> layer_mixes(a[l], b[l], #[trigger] c1[l], c2[l])
}

/// The flips held by a vector of coin rows.
pub open spec fn coins_view(v: Seq<Vec<bool>>) -> Seq<Seq<bool>> {
    v.map_values(|c: Vec<bool>| c@)
}

/// Relies on rand::random::<bool>: a fair coin from the thread-local
/// generator. Nothing is promised of the value.
#[verifier::external_body]
fn coin() -> (r: bool) {
    rand::random::<bool>()
}

/// One candidate update rule: a stack of convolution layers whose weights are
/// held as single-precision bit patterns.
pub struct NCARule(Vec<Vec<u32>>);

/// The weights held by a vector of layers.
pub open spec fn layers_view(v: Seq<Vec<u32>>) -> Seq<Seq<u32>> {
    v.map_values(|l: Vec<u32>| l@)
}

impl View for NCARule {
    type V = Seq<Seq<u32>>;

    closed spec fn view(&self) -> Seq<Seq<u32>> {
        layers_view(self.0@)
    }
}

/// A copy of `v`.
fn copy_layer(v: &Vec<u32>) -> (r: Vec<u32>)
    ensures
        r@ == v@,
{
    let mut r: Vec<u32> = Vec::with_capacity(v.len());
    let mut t: usize = 0;
    while t < v.len()
        invariant
            t <= v.len(),
            r@ == v@.subrange(0, t as int),
        decreases v.len() - t,
    {
        r.push(v[t]);
        t = t + 1;
        assert(r@ =~= v@.subrange(0, t as int));
    }
    assert(v@.subrange(0, v.len() as int) =~= v@);
    r
}

/// Crosses two layers under the coin flips `coins`.
fn cross_layer(a: &Vec<u32>, b: &Vec<u32>, coins: &Vec<bool>) -> (r: (Vec<u32>, Vec<u32>))
    requires
        b.len() == a.len(),
        coins.len() == a.len(),
    ensures
        layer_crossed(a@, b@, coins@, r.0@, r.1@),
{
    let mut x: Vec<u32> = Vec::with_capacity(a.len());
    let mut y: Vec<u32> = Vec::with_capacity(a.len());
    let mut t: usize = 0;
    while t < a.len()
        invariant
            t <= a.len(),
            b.len() == a.len(),
            coins.len() == a.len(),
            x.len() == t,
            y.len() == t,
            forall|u: int| 0 <= u < t ==>
                if #[trigger] coins@[u] {
                    x@[u] == a@[u] && y@[u] == b@[u]
                } else {
                    x@[u] == b@[u] && y@[u] == a@[u]
                },
        decreases a.len() - t,
    {
        if coins[t] {
            x.push(a[t]);
            y.push(b[t]);
        } else {
            x.push(b[t]);
            y.push(a[t]);
        }
        t = t + 1;
    }
    (x, y)
}

/// Flips a fair coin for each of `len` weight positions.
fn draw_layer_coins(len: usize) -> (r: Vec<bool>)
    ensures
        r.len() == len,
{
    let mut r: Vec<bool> = Vec::with_capacity(len);
    let mut t: usize = 0;
    while t < len
        invariant
            t <= len,
            r.len() == t,
        decreases len - t,
    {
        r.push(coin());
        t = t + 1;
    }
    r
}

/// Lays out drawn weights, three per tap, with the bias in each fourth slot.
fn lay_out(d: &Vec<u32>) -> (r: Vec<u32>)
    requires
        d.len() % 3 == 0,
    ensures
        laid_out(r@, d@),
{
    let n = d.len() / 3;
    let mut r: Vec<u32> = Vec::with_capacity(d.len());
    let mut q: usize = 0;
    while q < n
        invariant
            q <= n,
            n == d.len() / 3,
            d.len() % 3 == 0,
            r.len() == 4 * q,
            forall|p: int, c: int| 0 <= p < q && 0 <= c < 4 ==>
                #[trigger] slot(r@, p, c) == if c == 3 { BIAS_BITS } else { d@[3 * p + c] },
        decreases n - q,
    {
        let ghost prev = r@;
        r.push(d[3 * q]);
        r.push(d[3 * q + 1]);
        r.push(d[3 * q + 2]);
        r.push(BIAS_BITS);
        assert forall|p: int, c: int| 0 <= p <= q && 0 <= c < 4 implies
            #[trigger] slot(r@, p, c) == if c == 3 { BIAS_BITS } else { d@[3 * p + c] } by {
            if p < q {
                assert(slot(prev, p, c) == slot(r@, p, c));
            }
        }
        q = q + 1;
    }
    r
}

/// Number of weights drawn for one layer of a kernel of side `kernel_size`:
/// three per tap. `None` when that number does not fit in a `usize`.
pub fn draws_per_layer(kernel_size: usize) -> (r: Option<usize>)
    ensures
        r matches Some(v) ==> v == 3 * taps(kernel_size as nat),
        r is None <==> 3 * taps(kernel_size as nat) > usize::MAX,
{
    let ghost k = kernel_size as int;
    assert(3 * taps(kernel_size as nat) == 9 * (k * k)) by (nonlinear_arith)
        requires
            k == kernel_size,
    ;
    match kernel_size.checked_mul(kernel_size) {
        Some(square) => {
            assert(square == k * k);
            square.checked_mul(9)
        },
        None => {
            assert(9 * (k * k) > usize::MAX);
            None
        },
    }
}

impl NCARule {
    /// Builds a rule of side `kernel_size` from drawn weights, one row per
    /// layer holding three weights per tap; the fourth slot of every tap holds
    /// the bias 1.0.
    pub fn from_draws(kernel_size: usize, draws: &Vec<Vec<u32>>) -> (r: NCARule)
        requires
            forall|l: int| 0 <= l < draws.len() ==> #[trigger] draws@[l].len() == 3 * taps(kernel_size as nat),
        ensures
            has_shape(r@, kernel_size as nat, draws.len() as nat),
            forall|l: int| 0 <= l < draws.len() ==> laid_out(#[trigger] r@[l], draws@[l]@),
    {
        let mut out: Vec<Vec<u32>> = Vec::with_capacity(draws.len());
        let mut l: usize = 0;
        while l < draws.len()
            invariant
                l <= draws.len(),
                forall|k: int| 0 <= k < draws.len() ==> #[trigger] draws@[k].len() == 3 * taps(kernel_size as nat),
                out.len() == l,
                forall|k: int| 0 <= k < l ==> laid_out(#[trigger] out@[k]@, draws@[k]@),
            decreases draws.len() - l,
        {
            let layer = lay_out(&draws[l]);
            out.push(layer);
            l = l + 1;
        }
        let r = NCARule(out);
        assert(r@.len() == draws.len());
        assert forall|k: int| 0 <= k < draws.len() implies laid_out(#[trigger] r@[k], draws@[k]@) by {
            assert(r@[k] == out@[k]@);
        }
        assert forall|k: int| 0 <= k < r@.len() implies #[trigger] r@[k].len() == layer_len(kernel_size as nat) by {
            assert(laid_out(r@[k], draws@[k]@));
            let t = taps(kernel_size as nat) as int;
            assert(draws@[k].len() == 3 * t);
            assert(draws@[k]@.len() == 3 * t);
            assert((3 * t) / 3 == t);
        }
        r
    }

    /// The two children of `self` and `other` under the coin flips `coins`:
    /// where a coin shows true the first child takes the weight of `self` at
    /// that position and the second that of `other`; else the other way round.
    pub fn crossover_with(&self, other: &NCARule, coins: &Vec<Vec<bool>>) -> (r: (NCARule, NCARule))
        requires
            same_shape(other@, self@),
            same_shape(coins_view(coins@), self@),
        ensures
            crossed(self@, other@, coins_view(coins@), r.0@, r.1@),
    {
        let mut xs: Vec<Vec<u32>> = Vec::with_capacity(self.0.len());
        let mut ys: Vec<Vec<u32>> = Vec::with_capacity(self.0.len());
        let mut l: usize = 0;
        while l < self.0.len()
            invariant
                l <= self.0.len(),
                same_shape(other@, self@),
                same_shape(coins_view(coins@), self@),
                xs.len() == l,
                ys.len() == l,
                forall|k: int| 0 <= k < l ==>
                    layer_crossed(self@[k], other@[k], coins_view(coins@)[k], #[trigger] xs@[k]@, ys@[k]@),
            decreases self.0.len() - l,
        {
            assert(self@[l as int] == self.0@[l as int]@);
            assert(other@[l as int] == other.0@[l as int]@);
            assert(coins_view(coins@)[l as int] == coins@[l as int]@);
            let (x, y) = cross_layer(&self.0[l], &other.0[l], &coins[l]);
            xs.push(x);
            ys.push(y);
            l = l + 1;
        }
        let r = (NCARule(xs), NCARule(ys));
        assert forall|k: int| 0 <= k < self@.len() implies
            layer_crossed(self@[k], other@[k], coins_view(coins@)[k], #[trigger] r.0@[k], r.1@[k]) by {
            assert(r.0@[k] == xs@[k]@);
            assert(r.1@[k] == ys@[k]@);
        }
        r
    }

    /// Flips a fair coin for every weight position of the rule.
    fn draw_coins(&self) -> (r: Vec<Vec<bool>>)
        ensures
            same_shape(coins_view(r@), self@),
    {
        let mut r: Vec<Vec<bool>> = Vec::with_capacity(self.0.len());
        let mut l: usize = 0;
        while l < self.0.len()
            invariant
                l <= self.0.len(),
                r.len() == l,
                forall|k: int| 0 <= k < l ==> #[trigger] r@[k].len() == self@[k].len(),
            decreases self.0.len() - l,
        {
            assert(self@[l as int] == self.0@[l as int]@);
            let row = draw_layer_coins(self.0[l].len());
            r.push(row);
            l = l + 1;
        }
        assert(self@.len() == self.0.len());
        assert forall|k: int| 0 <= k < self@.len() implies #[trigger] coins_view(r@)[k].len() == self@[k].len() by {
            assert(coins_view(r@)[k] == r@[k]@);
            assert(r@[k].len() == self@[k].len());
        }
        r
    }

    /// Uniform crossover: for every weight position a fair coin decides which
    /// child takes the weight of `self` and which that of `other`.
    pub fn crossover(&self, other: &NCARule) -> (r: (NCARule, NCARule))
        requires
            same_shape(other@, self@),
        ensures
            is_crossover(self@, other@, r.0@, r.1@),
    {
        let coins = self.draw_coins();
        let r = self.crossover_with(other, &coins);
        let ghost cv = coins_view(coins@);
        assert forall|l: int| 0 <= l < self@.len() implies layer_mixes(self@[l], other@[l], #[trigger] r.0@[l], r.1@[l]) by {
            assert(layer_crossed(self@[l], other@[l], cv[l], r.0@[l], r.1@[l]));
            assert forall|t: int| 0 <= t < self@[l].len() implies
                (#[trigger] r.0@[l][t] == self@[l][t] && r.1@[l][t] == other@[l][t])
                || (r.0@[l][t] == other@[l][t] && r.1@[l][t] == self@[l][t]) by {
                if cv[l][t] {
                } else {
                }
            }
        }
        r
    }

    /// The layers of the rule.
    pub fn layers(&self) -> (r: &Vec<Vec<u32>>)
        ensures
            layers_view(r@) == self@,
    {
        &self.0
    }

    /// A copy of the rule.
    pub fn duplicate(&self) -> (r: NCARule)
        ensures
            r@ == self@,
    {
        let mut out: Vec<Vec<u32>> = Vec::with_capacity(self.0.len());
        let mut l: usize = 0;
        while l < self.0.len()
            invariant
                l <= self.0.len(),
                out.len() == l,
                layers_view(out@) == self@.subrange(0, l as int),
            decreases self.0.len() - l,
        {
            let ghost prev = out@;
            let layer = copy_layer(&self.0[l]);
            out.push(layer);
            l = l + 1;
            assert forall|k: int| 0 <= k < l implies #[trigger] layers_view(out@)[k] == self@[k] by {
                if k < l - 1 {
                    assert(layers_view(prev)[k] == self@.subrange(0, l - 1)[k]);
                }
            }
            assert(layers_view(out@) =~= self@.subrange(0, l as int));
        }
        assert(self@.subrange(0, l as int) =~= self@);
        NCARule(out)
    }
}

} // verus!
