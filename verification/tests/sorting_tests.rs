use playground::sorting_testing::{
    bubble_sort_vec, insertion_sort_vec, merge_sort_vec, quick_sort_vec, selection_sort_vec,
};

fn all_sorts(v: Vec<i32>) -> Vec<Vec<i32>> {
    vec![
        insertion_sort_vec(v.clone()),
        bubble_sort_vec(v.clone()),
        selection_sort_vec(v.clone()),
        merge_sort_vec(v.clone()),
        quick_sort_vec(v),
    ]
}

fn check_all(input: Vec<i32>) {
    let mut expected = input.clone();
    expected.sort();
    for r in all_sorts(input) {
        assert_eq!(r, expected);
    }
}

#[test]
fn sorts_mixed_values() {
    for r in all_sorts(vec![5, 3, 8, 1, 9, 2]) {
        assert_eq!(r, vec![1, 2, 3, 5, 8, 9]);
    }
}

#[test]
fn sorts_empty_and_single() {
    for r in all_sorts(vec![]) {
        assert_eq!(r, Vec::<i32>::new());
    }
    for r in all_sorts(vec![42]) {
        assert_eq!(r, vec![42]);
    }
}

#[test]
fn sorts_two_elements() {
    for r in all_sorts(vec![2, 1]) {
        assert_eq!(r, vec![1, 2]);
    }
    for r in all_sorts(vec![1, 2]) {
        assert_eq!(r, vec![1, 2]);
    }
}

#[test]
fn sorts_duplicates_and_negatives() {
    for r in all_sorts(vec![3, -1, 3, 0, -1, 7, 3]) {
        assert_eq!(r, vec![-1, -1, 0, 3, 3, 3, 7]);
    }
}

#[test]
fn sorts_already_sorted_and_reversed() {
    let sorted: Vec<i32> = (0..20).collect();
    let reversed: Vec<i32> = (0..20).rev().collect();
    for r in all_sorts(sorted.clone()) {
        assert_eq!(r, sorted);
    }
    for r in all_sorts(reversed) {
        assert_eq!(r, sorted);
    }
}

#[test]
fn sorts_all_equal() {
    for r in all_sorts(vec![4; 9]) {
        assert_eq!(r, vec![4; 9]);
    }
}

#[test]
fn sorts_agree_on_pseudo_random_inputs() {
    let mut seed: u64 = 12345;
    for len in 0..40 {
        let mut v = Vec::new();
        for _ in 0..len {
            seed = seed.wrapping_mul(6364136223846793005).wrapping_add(1442695040888963407);
            v.push(((seed >> 33) % 50) as i32 - 25);
        }
        check_all(v);
    }
}

#[test]
fn sorts_other_element_types() {
    let words = vec!["pear".to_string(), "apple".to_string(), "fig".to_string()];
    let expected = vec!["apple".to_string(), "fig".to_string(), "pear".to_string()];
    assert_eq!(insertion_sort_vec(words.clone()), expected);
    assert_eq!(bubble_sort_vec(words.clone()), expected);
    assert_eq!(selection_sort_vec(words.clone()), expected);
    assert_eq!(merge_sort_vec(words.clone()), expected);
    assert_eq!(quick_sort_vec(words), expected);
    assert_eq!(quick_sort_vec(vec![3u64, 1, 2]), vec![1u64, 2, 3]);
}

/// A value ordered by its key alone; the tag tells equal keys apart.
#[derive(Clone, Debug, PartialEq)]
struct Keyed {
    key: i32,
    tag: char,
}

impl PartialOrd for Keyed {
    fn partial_cmp(&self, other: &Self) -> Option<std::cmp::Ordering> {
        self.key.partial_cmp(&other.key)
    }
}

fn keyed(pairs: &[(i32, char)]) -> Vec<Keyed> {
    pairs.iter().map(|&(key, tag)| Keyed { key, tag }).collect()
}

#[test]
fn stable_sorts_keep_equal_keys_in_order() {
    let input = keyed(&[(2, 'a'), (1, 'b'), (2, 'c'), (0, 'd'), (1, 'e'), (2, 'f')]);
    let expected = keyed(&[(0, 'd'), (1, 'b'), (1, 'e'), (2, 'a'), (2, 'c'), (2, 'f')]);
    assert_eq!(insertion_sort_vec(input.clone()), expected);
    assert_eq!(bubble_sort_vec(input.clone()), expected);
    assert_eq!(merge_sort_vec(input), expected);
}

#[test]
fn selection_sort_leaves_sorted_input_alone() {
    let input = keyed(&[(0, 'x'), (1, 'b'), (1, 'a'), (3, 'z'), (3, 'y')]);
    assert_eq!(selection_sort_vec(input.clone()), input);
}

#[test]
fn sorts_without_total_order_keep_the_elements() {
    let input = vec![3.0, f64::NAN, 1.0, 2.0, f64::NAN, 0.5];
    let count_nan = |v: &Vec<f64>| v.iter().filter(|x| x.is_nan()).count();
    let rest = |v: &Vec<f64>| {
        let mut r: Vec<f64> = v.iter().cloned().filter(|x| !x.is_nan()).collect();
        r.sort_by(|a, b| a.partial_cmp(b).unwrap());
        r
    };
    for r in [
        insertion_sort_vec(input.clone()),
        bubble_sort_vec(input.clone()),
        selection_sort_vec(input.clone()),
        merge_sort_vec(input.clone()),
        quick_sort_vec(input.clone()),
    ] {
        assert_eq!(r.len(), input.len());
        assert_eq!(count_nan(&r), 2);
        assert_eq!(rest(&r), rest(&input));
    }
}
