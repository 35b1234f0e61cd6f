use combinatorial::Combinations;
use combinatorial::CombinationsWithReplacement;
use combinatorial::Permutations;
use combinatorial::factorial;
use combinatorial::powerset;
use combinatorial::triangle_number;

fn collect_combos(mut combos: Combinations<char>) -> Vec<String> {
    let mut words: Vec<String> = Vec::new();
    while let Some(combo) = combos.next() {
        words.push(String::from_iter(combo));
    }
    words
}

fn collect_combos_w_rep(mut combos: CombinationsWithReplacement<char>) -> Vec<String> {
    let mut words: Vec<String> = Vec::new();
    while let Some(combo) = combos.next() {
        words.push(String::from_iter(combo));
    }
    words
}

#[test]
fn test_combinations_next() {
    let mut combos = Combinations::of_size(vec![1, 2, 3], 0);
    assert_eq!(combos.next(), Some(Vec::new()));
    assert_eq!(combos.next(), None);
    let mut combos = Combinations::of_size(vec![1, 2, 3], 4);
    assert_eq!(combos.next(), None);
    let mut combos: Combinations<u64> = Combinations::all(Vec::new());
    assert_eq!(combos.next(), Some(Vec::new()));
    assert_eq!(combos.next(), None);
    let mut combos: Combinations<u64> = Combinations::of_size(Vec::new(), 0);
    assert_eq!(combos.next(), Some(Vec::new()));
    assert_eq!(combos.next(), None);
    let combos = Combinations::all("hello".chars().collect());
    assert_eq!(
        collect_combos(combos),
        vec![
            "", "e", "h", "l", "o", "eh", "el", "eo", "hl", "ho", "lo", "ehl", "eho", "elo",
            "hlo", "ehlo",
        ]
    );
}

#[test]
fn test_combinations_w_rep_next() {
    let mut combos = CombinationsWithReplacement::of_size(vec![1, 2, 3], 0);
    assert_eq!(combos.next(), Some(Vec::new()));
    assert_eq!(combos.next(), None);
    let mut combos = CombinationsWithReplacement::of_size(vec![1, 2, 3], 4);
    assert_eq!(combos.next(), None);
    let mut combos: CombinationsWithReplacement<u64> = CombinationsWithReplacement::all(Vec::new());
    assert_eq!(combos.next(), Some(Vec::new()));
    assert_eq!(combos.next(), None);
    let mut combos: CombinationsWithReplacement<u64> =
        CombinationsWithReplacement::of_size(Vec::new(), 0);
    assert_eq!(combos.next(), Some(Vec::new()));
    assert_eq!(combos.next(), None);
    let combos = CombinationsWithReplacement::all("hello".chars().collect());
    assert_eq!(
        collect_combos_w_rep(combos),
        vec![
            "", "e", "h", "l", "o", "ee", "eh", "el", "eo", "hh", "hl", "ho", "ll", "lo", "oo",
            "eee", "eeh", "eel", "eeo", "ehh", "ehl", "eho", "ell", "elo", "eoo", "hhh", "hhl",
            "hho", "hll", "hlo", "hoo", "lll", "llo", "loo", "ooo", "eeee", "eeeh", "eeel",
            "eeeo", "eehh", "eehl", "eeho", "eell", "eelo", "eeoo", "ehhh", "ehhl", "ehho",
            "ehll", "ehlo", "ehoo", "elll", "ello", "eloo", "eooo", "hhhh", "hhhl", "hhho",
            "hhll", "hhlo", "hhoo", "hlll", "hllo", "hloo", "hooo", "llll", "lllo", "lloo",
            "looo", "oooo",
        ]
    );
}

#[test]
fn test_triangle_number_values() {
    assert_eq!(triangle_number(0), 0);
    assert_eq!(triangle_number(1), 1);
    assert_eq!(triangle_number(2), 3);
    let nums: Vec<usize> = (3..8).map(triangle_number).collect();
    assert_eq!(nums, vec![6, 10, 15, 21, 28]);
    assert_eq!(triangle_number(1000), (0..=1000).sum());
    for n in 1..=1000 {
        assert_eq!(triangle_number(n), n + triangle_number(n - 1));
    }
}

#[test]
fn test_factorial_values() {
    assert_eq!(factorial(0), 1);
    assert_eq!(factorial(1), 1);
    assert_eq!(factorial(2), 2);
    assert_eq!(factorial(3), 6);
    assert_eq!(factorial(10), (1..=10).product());
    for n in 1..10 {
        assert_eq!(factorial(n), n * factorial(n - 1));
    }
}

#[test]
fn test_powerset_matches_combinations_all() {
    let mut subsets = powerset(vec!['x', 'y']);
    assert_eq!(subsets.next(), Some(Vec::new()));
    assert_eq!(subsets.next(), Some(vec!['x']));
    assert_eq!(subsets.next(), Some(vec!['y']));
    assert_eq!(subsets.next(), Some(vec!['x', 'y']));
    assert_eq!(subsets.next(), None);
    let mut subsets = powerset((0..15).collect::<Vec<i32>>());
    let mut count: usize = 0;
    while subsets.next().is_some() {
        count += 1;
    }
    assert_eq!(count, 1 << 15);
}

#[test]
fn test_combinations_of_size_counts() {
    // C(5, 2) results for size two over five elements, zero for size six
    let mut combos = Combinations::of_size(vec![1, 2, 3, 4, 5], 2);
    let mut count: usize = 0;
    while combos.next().is_some() {
        count += 1;
    }
    assert_eq!(count, 10);
    let mut combos = Combinations::of_size(vec![1, 2, 3, 4, 5], 6);
    assert_eq!(combos.next(), None);
    assert_eq!(combos.next(), None);
}

#[test]
fn test_combinations_all_count_is_power_of_two() {
    let mut combos = Combinations::all(vec![1, 2, 3, 4]);
    let mut count: usize = 0;
    while combos.next().is_some() {
        count += 1;
    }
    assert_eq!(count, 16);
}

#[test]
fn test_combinations_w_rep_of_size_counts() {
    // C(N + k - 1, k) = C(4, 2) = 6 for three elements taken two at a time
    let mut combos = CombinationsWithReplacement::of_size(vec!['a', 'b', 'c'], 2);
    let mut count: usize = 0;
    while combos.next().is_some() {
        count += 1;
    }
    assert_eq!(count, 6);
}

#[test]
fn test_permutations_counts() {
    // N! / (N - k)! = 4! / 2! = 12 ordered pairs out of four elements
    let mut perms = Permutations::of_length(vec![1, 2, 3, 4], 2);
    let mut count: usize = 0;
    while perms.next().is_some() {
        count += 1;
    }
    assert_eq!(count, 12);
    // N! = 3! = 6 full-length permutations
    let mut perms = Permutations::new(vec![1, 2, 3]);
    let mut count: usize = 0;
    while perms.next().is_some() {
        count += 1;
    }
    assert_eq!(count, 6);
    // zero results when the requested length exceeds the domain
    let mut perms = Permutations::of_length(vec![1, 2, 3], 4);
    assert_eq!(perms.next(), None);
    assert_eq!(perms.next(), None);
}

#[test]
fn test_permutations_full_scenario() {
    let mut perms = Permutations::new(vec!['x', 'y', 'z']);
    assert_eq!(perms.next(), Some(vec!['x', 'y', 'z']));
    assert_eq!(perms.next(), Some(vec!['x', 'z', 'y']));
    assert_eq!(perms.next(), Some(vec!['y', 'x', 'z']));
    assert_eq!(perms.next(), Some(vec!['y', 'z', 'x']));
    assert_eq!(perms.next(), Some(vec!['z', 'x', 'y']));
    assert_eq!(perms.next(), Some(vec!['z', 'y', 'x']));
    assert_eq!(perms.next(), None);
}

#[test]
fn test_permutations_of_length_order() {
    let mut perms = Permutations::of_length(vec![1, 2, 3], 2);
    assert_eq!(perms.next(), Some(vec![1, 2]));
    assert_eq!(perms.next(), Some(vec![1, 3]));
    assert_eq!(perms.next(), Some(vec![2, 1]));
    assert_eq!(perms.next(), Some(vec![2, 3]));
    assert_eq!(perms.next(), Some(vec![3, 1]));
    assert_eq!(perms.next(), Some(vec![3, 2]));
    assert_eq!(perms.next(), None);
}

#[test]
fn test_permutations_all_sizes() {
    let mut perms = Permutations::all(vec![0, 1]);
    assert_eq!(perms.next(), Some(Vec::new()));
    assert_eq!(perms.next(), Some(vec![0]));
    assert_eq!(perms.next(), Some(vec![1]));
    assert_eq!(perms.next(), Some(vec![0, 1]));
    assert_eq!(perms.next(), Some(vec![1, 0]));
    assert_eq!(perms.next(), None);
}

#[test]
fn test_permutations_zero_length_yields_single_empty_result() {
    // a zero-length request yields the one empty permutation, then ends
    let mut perms = Permutations::of_length(vec![1, 2, 3], 0);
    assert_eq!(perms.next(), Some(Vec::new()));
    assert_eq!(perms.next(), None);
    let mut perms: Permutations<u64> = Permutations::new(Vec::new());
    assert_eq!(perms.next(), Some(Vec::new()));
    assert_eq!(perms.next(), None);
    let mut perms: Permutations<u64> = Permutations::all(Vec::new());
    assert_eq!(perms.next(), Some(Vec::new()));
    assert_eq!(perms.next(), None);
}

#[test]
fn test_permutations_keep_duplicate_elements() {
    // the permutation domain is taken verbatim: duplicates are not merged
    let mut perms = Permutations::new(vec![7, 7]);
    assert_eq!(perms.next(), Some(vec![7, 7]));
    assert_eq!(perms.next(), Some(vec![7, 7]));
    assert_eq!(perms.next(), None);
    let mut perms = Permutations::new(vec![2, 1, 3]);
    assert_eq!(perms.next(), Some(vec![2, 1, 3]));
    assert_eq!(perms.next(), Some(vec![2, 3, 1]));
    assert_eq!(perms.next(), Some(vec![1, 2, 3]));
    assert_eq!(perms.next(), Some(vec![1, 3, 2]));
    assert_eq!(perms.next(), Some(vec![3, 2, 1]));
    assert_eq!(perms.next(), Some(vec![3, 1, 2]));
    assert_eq!(perms.next(), None);
}

#[test]
fn test_combinations_scenarios() {
    let mut abc_tuples = Combinations::of_size(vec!['a', 'b', 'c'], 2);
    assert_eq!(abc_tuples.next(), Some(vec!['a', 'b']));
    assert_eq!(abc_tuples.next(), Some(vec!['a', 'c']));
    assert_eq!(abc_tuples.next(), Some(vec!['b', 'c']));
    assert_eq!(abc_tuples.next(), None);
    let mut abc_tuples = CombinationsWithReplacement::of_size(vec!['a', 'b', 'c'], 2);
    assert_eq!(abc_tuples.next(), Some(vec!['a', 'a']));
    assert_eq!(abc_tuples.next(), Some(vec!['a', 'b']));
    assert_eq!(abc_tuples.next(), Some(vec!['a', 'c']));
    assert_eq!(abc_tuples.next(), Some(vec!['b', 'b']));
    assert_eq!(abc_tuples.next(), Some(vec!['b', 'c']));
    assert_eq!(abc_tuples.next(), Some(vec!['c', 'c']));
    assert_eq!(abc_tuples.next(), None);
    let mut combos = Combinations::all(vec![0, 1]);
    assert_eq!(combos.next(), Some(Vec::new()));
    assert_eq!(combos.next(), Some(vec![0]));
    assert_eq!(combos.next(), Some(vec![1]));
    assert_eq!(combos.next(), Some(vec![0, 1]));
    assert_eq!(combos.next(), None);
    let mut combos = Combinations::of_size(vec!["foo", "bar", "baz"], 4);
    assert_eq!(combos.next(), None);
}

#[test]
fn test_normalization_is_order_and_duplicate_insensitive() {
    let mut noisy = Combinations::all(vec![2, 1, 2, 1, 3]);
    let mut clean = Combinations::all(vec![1, 2, 3]);
    assert_eq!(noisy.elements, clean.elements);
    loop {
        let a = noisy.next();
        let b = clean.next();
        assert_eq!(a, b);
        if a.is_none() {
            break;
        }
    }
}

#[test]
fn test_outputs_strictly_increase_and_never_repeat() {
    let mut seen: Vec<Vec<i32>> = Vec::new();
    let mut combos = Combinations::all(vec![3, 1, 4, 2]);
    while let Some(combo) = combos.next() {
        seen.push(combo);
    }
    for i in 0..seen.len() {
        for j in (i + 1)..seen.len() {
            assert_ne!(seen[i], seen[j]);
            // ordered by length first, then lexicographically within a length
            assert!(
                seen[i].len() < seen[j].len() || (seen[i].len() == seen[j].len() && seen[i] < seen[j])
            );
        }
    }
    let mut seen: Vec<Vec<i32>> = Vec::new();
    let mut perms = Permutations::new(vec![10, 20, 30]);
    while let Some(perm) = perms.next() {
        seen.push(perm);
    }
    assert_eq!(seen.len(), 6);
    for i in 0..seen.len() {
        for j in (i + 1)..seen.len() {
            assert_ne!(seen[i], seen[j]);
        }
    }
}
