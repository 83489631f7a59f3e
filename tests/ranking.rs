use std::cmp::Ordering;

use nca::ranking::NCARules;

/// Runs one pass, answering each comparison by the given preference, and
/// returns how many comparisons the pass took.
fn rank_pass<T: Copy>(rules: &mut NCARules<T>, current_preferred: impl Fn(T, T) -> bool) -> usize {
    let mut count = 0;
    loop {
        let current = rules.rules()[rules.current()];
        let pivot = rules.rules()[rules.pivot()];
        let ordering = if current_preferred(current, pivot) { Ordering::Greater } else { Ordering::Less };
        count += 1;
        if !rules.rank(ordering) {
            return count;
        }
        assert!(count < 10_000);
    }
}

#[test]
fn four_letters_pivot_is_midpoint() {
    let rules = NCARules::new(vec!['A', 'B', 'C', 'D']);
    assert_eq!(rules.rules(), &['A', 'B', 'D', 'C']);
    assert_eq!(rules.current(), 0);
    assert_eq!(rules.pivot(), 3);
    assert_eq!(rules.rules()[rules.pivot()], 'C');
}

#[test]
fn four_letters_ranked_by_higher_letter() {
    let mut rules = NCARules::new(vec!['A', 'B', 'C', 'D']);
    let mut completions = 0;
    let mut count = 0;
    loop {
        let current = rules.rules()[rules.current()];
        let pivot = rules.rules()[rules.pivot()];
        let ordering = if current > pivot { Ordering::Greater } else { Ordering::Less };
        count += 1;
        if !rules.rank(ordering) {
            completions += 1;
            break;
        }
    }
    assert_eq!(completions, 1);
    assert_eq!(rules.rules(), &['D', 'C', 'B', 'A']);
    assert_eq!(count, 4);
}

#[test]
fn eight_elements_sorted_by_preference() {
    let orders: Vec<Vec<u32>> = vec![
        vec![0, 1, 2, 3, 4, 5, 6, 7],
        vec![7, 6, 5, 4, 3, 2, 1, 0],
        vec![3, 7, 0, 5, 1, 6, 2, 4],
        vec![4, 4, 1, 9, 2, 8, 3, 0],
    ];
    for order in orders {
        let mut expected = order.clone();
        expected.sort();
        let mut rules = NCARules::new(order);
        rank_pass(&mut rules, |a, b| a < b);
        assert_eq!(rules.rules(), expected.as_slice());
    }
}

#[test]
fn comparison_count_within_bounds() {
    for n in 2u32..10 {
        for shift in 0..n {
            let pop: Vec<u32> = (0..n).map(|x| (x * 3 + shift) % n).collect();
            let mut rules = NCARules::new(pop);
            let count = rank_pass(&mut rules, |a, b| a < b);
            let n = n as usize;
            assert!(count >= n - 1);
            assert!(count <= n * (n - 1) / 2);
        }
    }
}

#[test]
fn ranking_keeps_every_element() {
    let pop: Vec<u32> = vec![5, 3, 8, 1, 9, 2, 7, 4];
    let mut rules = NCARules::new(pop.clone());
    let mut flip = false;
    loop {
        let mut seen = rules.rules().to_vec();
        seen.sort();
        let mut original = pop.clone();
        original.sort();
        assert_eq!(seen, original);
        flip = !flip;
        let ordering = if flip { Ordering::Greater } else { Ordering::Less };
        if !rules.rank(ordering) {
            break;
        }
    }
    let mut seen = rules.rules().to_vec();
    seen.sort();
    let mut original = pop;
    original.sort();
    assert_eq!(seen, original);
}

#[test]
fn two_elements_take_one_comparison() {
    let mut rules = NCARules::new(vec![1u32, 2]);
    assert_eq!(rules.current(), 0);
    assert_eq!(rules.pivot(), 1);
    assert!(!rules.rank(Ordering::Less));
    assert_eq!(rules.rules(), &[2, 1]);
}
