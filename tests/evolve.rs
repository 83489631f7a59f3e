use std::cmp::Ordering;

use nca::evolve::next_generation;
use nca::ranking::NCARules;
use nca::rule::NCARule;

/// A rule of kernel side 1 and one layer whose drawn weights all equal `v`.
fn flat(v: u32) -> NCARule {
    NCARule::from_draws(1, &vec![vec![v; 27]])
}

fn first_weight(r: &NCARule) -> u32 {
    r.layers()[0][0]
}

#[test]
fn generation_of_eight_keeps_size_and_elite() {
    let ranked: Vec<NCARule> = (0..8).map(flat).collect();
    let next = next_generation(&ranked, vec![flat(99)]);
    assert_eq!(next.len(), 8);
    assert_eq!(next[0].layers(), ranked[0].layers());
    assert_eq!(next[7].layers(), flat(99).layers());
}

#[test]
fn bred_children_come_from_top_half() {
    let ranked: Vec<NCARule> = (0..8).map(flat).collect();
    for _ in 0..20 {
        let next = next_generation(&ranked, vec![flat(99)]);
        for child in &next[1..7] {
            for t in 0..36 {
                if t % 4 != 3 {
                    assert!(child.layers()[0][t] < 4);
                }
            }
        }
    }
}

#[test]
fn breeding_parents_are_distinct() {
    let ranked: Vec<NCARule> = (0..8).map(flat).collect();
    for _ in 0..50 {
        let next = next_generation(&ranked, vec![flat(99)]);
        for k in 0..3 {
            let x = &next[1 + 2 * k];
            let y = &next[2 + 2 * k];
            for t in 0..36 {
                if t % 4 != 3 {
                    assert_ne!(x.layers()[0][t], y.layers()[0][t]);
                }
            }
        }
    }
}

#[test]
fn smallest_pool_breeds_its_two_rules() {
    let ranked: Vec<NCARule> = (0..4).map(flat).collect();
    let next = next_generation(&ranked, vec![flat(42)]);
    assert_eq!(next.len(), 4);
    assert_eq!(first_weight(&next[0]), 0);
    let pair = (first_weight(&next[1]), first_weight(&next[2]));
    assert!(pair == (0, 1) || pair == (1, 0));
    assert_eq!(first_weight(&next[3]), 42);
}

#[test]
fn odd_generation_takes_two_fresh_rules() {
    let ranked: Vec<NCARule> = (0..5).map(flat).collect();
    let next = next_generation(&ranked, vec![flat(50), flat(51)]);
    assert_eq!(next.len(), 5);
    assert_eq!(first_weight(&next[3]), 50);
    assert_eq!(first_weight(&next[4]), 51);
}

#[test]
fn two_rules_keep_elite_and_fresh() {
    let ranked: Vec<NCARule> = (0..2).map(flat).collect();
    let next = next_generation(&ranked, vec![flat(9)]);
    assert_eq!(next.len(), 2);
    assert_eq!(first_weight(&next[0]), 0);
    assert_eq!(first_weight(&next[1]), 9);
}

#[test]
fn completed_pass_regenerates_population() {
    let mut rules = NCARules::new((0..8).map(|v| flat(7 - v)).collect());
    let mut completions = 0;
    loop {
        let current = first_weight(&rules.rules()[rules.current()]);
        let pivot = first_weight(&rules.rules()[rules.pivot()]);
        let ordering = if current < pivot { Ordering::Greater } else { Ordering::Less };
        if !rules.rank(ordering) {
            completions += 1;
            break;
        }
    }
    assert_eq!(completions, 1);
    let ranked: Vec<u32> = rules.rules().iter().map(first_weight).collect();
    assert_eq!(ranked, vec![0, 1, 2, 3, 4, 5, 6, 7]);
    rules.regenerate(vec![flat(99)]);
    assert_eq!(rules.rules().len(), 8);
    assert_eq!(first_weight(&rules.rules()[0]), 0);
    assert_eq!(rules.current(), 0);
    assert_eq!(rules.pivot(), 7);
    let fresh = rules.rules().iter().filter(|r| first_weight(r) == 99).count();
    assert_eq!(fresh, 1);
}

#[test]
fn fresh_rules_fill_even_and_odd_generations() {
    assert_eq!(nca::evolve::fresh_rules_needed(8), 1);
    assert_eq!(nca::evolve::fresh_rules_needed(2), 1);
    assert_eq!(nca::evolve::fresh_rules_needed(5), 2);
    assert_eq!(nca::evolve::fresh_rules_needed(3), 2);
}
