use nca::rule::{NCARule, BIAS_BITS};

fn rule_of(kernel_size: usize, layers: usize, base: u32) -> NCARule {
    let per_layer = 9 * kernel_size * kernel_size;
    let draws: Vec<Vec<u32>> = (0..layers)
        .map(|l| (0..per_layer).map(|t| base + (l * per_layer + t) as u32).collect())
        .collect();
    NCARule::from_draws(kernel_size, &draws)
}

#[test]
fn bias_bits_are_one() {
    assert_eq!(f32::from_bits(BIAS_BITS), 1.0);
}

#[test]
fn draws_laid_out_with_bias() {
    let draws = vec![vec![10u32; 27], (0..27u32).collect::<Vec<u32>>()];
    let rule = NCARule::from_draws(1, &draws);
    let layers = rule.layers();
    assert_eq!(layers.len(), 2);
    assert_eq!(layers[0].len(), 36);
    assert_eq!(&layers[1][0..8], &[0, 1, 2, BIAS_BITS, 3, 4, 5, BIAS_BITS]);
    assert_eq!(layers[1][35], BIAS_BITS);
    assert_eq!(layers[1][34], 26);
    assert_eq!(layers[0][4], 10);
}

#[test]
fn layer_length_follows_kernel_size() {
    let rule = rule_of(3, 4, 0);
    assert_eq!(rule.layers().len(), 4);
    for layer in rule.layers() {
        assert_eq!(layer.len(), 3 * 3 * 3 * 4);
    }
}

#[test]
fn crossover_with_follows_coins() {
    let a = NCARule::from_draws(1, &vec![vec![1u32; 27]]);
    let b = NCARule::from_draws(1, &vec![vec![2u32; 27]]);
    let coins: Vec<Vec<bool>> = vec![(0..36).map(|t| t % 2 == 0).collect()];
    let (x, y) = a.crossover_with(&b, &coins);
    assert_eq!(x.layers()[0][0], 1);
    assert_eq!(y.layers()[0][0], 2);
    assert_eq!(x.layers()[0][1], 2);
    assert_eq!(y.layers()[0][1], 1);
    assert_eq!(x.layers()[0][3], BIAS_BITS);
    assert_eq!(y.layers()[0][3], BIAS_BITS);
}

#[test]
fn crossover_all_true_keeps_parents() {
    let a = rule_of(1, 2, 0);
    let b = rule_of(1, 2, 1000);
    let coins: Vec<Vec<bool>> = vec![vec![true; 36], vec![true; 36]];
    let (x, y) = a.crossover_with(&b, &coins);
    assert_eq!(x.layers(), a.layers());
    assert_eq!(y.layers(), b.layers());
    let coins: Vec<Vec<bool>> = vec![vec![false; 36], vec![false; 36]];
    let (x, y) = a.crossover_with(&b, &coins);
    assert_eq!(x.layers(), b.layers());
    assert_eq!(y.layers(), a.layers());
}

#[test]
fn crossover_invents_and_drops_nothing() {
    let a = rule_of(2, 3, 0);
    let b = rule_of(2, 3, 100_000);
    for _ in 0..20 {
        let (x, y) = a.crossover(&b);
        assert_eq!(x.layers().len(), 3);
        assert_eq!(y.layers().len(), 3);
        for l in 0..3 {
            assert_eq!(x.layers()[l].len(), a.layers()[l].len());
            for t in 0..a.layers()[l].len() {
                let pair = (x.layers()[l][t], y.layers()[l][t]);
                let wa = a.layers()[l][t];
                let wb = b.layers()[l][t];
                assert!(pair == (wa, wb) || pair == (wb, wa));
            }
        }
    }
}

#[test]
fn duplicate_is_equal() {
    let a = rule_of(2, 2, 7);
    let c = a.duplicate();
    assert_eq!(c.layers(), a.layers());
}

#[test]
fn draws_per_layer_counts_three_per_tap() {
    assert_eq!(nca::rule::draws_per_layer(13), Some(9 * 13 * 13));
    assert_eq!(nca::rule::draws_per_layer(1), Some(9));
    assert_eq!(nca::rule::draws_per_layer(0), Some(0));
    assert_eq!(nca::rule::draws_per_layer(usize::MAX), None);
    assert_eq!(nca::rule::draws_per_layer(1usize << 32), None);
}
