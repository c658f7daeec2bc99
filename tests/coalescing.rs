use rand::Rng;
use range_rover::{missed_in_range, range_rover, RangeTree};

#[test]
fn max_value() {
    let input: Vec<u16> = (u16::MIN..=u16::MAX).rev().collect();
    let result = range_rover(input);
    assert_eq!(result, vec![(u16::MIN, u16::MAX)]);
}

#[test]
fn random() {
    let mut rng = rand::thread_rng();
    let mut random_numbers = [0_usize; 1024 * 4];
    rng.fill(&mut random_numbers);

    let mut input_sorted = random_numbers.to_vec();
    input_sorted.sort();

    let ranges = range_rover(random_numbers.to_vec());
    let mut output: Vec<usize> = ranges
        .into_iter()
        .flat_map(|r| (r.0..=r.1).collect::<Vec<usize>>())
        .collect();
    output.sort();

    assert_eq!(input_sorted, output);
}

#[test]
fn missed() {
    let input = vec![2, 0, 7, 10, 1, 3, 0, 9, 8];
    let tree = RangeTree::from_iter(input);
    let missed = tree.missed_in_range((0, 10));
    assert_eq!(missed, vec![(4, 6)]);
    let missed = tree.missed_in_range((5, 10));
    assert_eq!(missed, vec![(5, 6)]);
    let missed = tree.missed_in_range((5, 15));
    assert_eq!(missed, vec![(5, 6), (11, 15)]);

    let input = vec![7, 3, 9, 8, 11, 14, 15];
    let tree = RangeTree::from_iter(input);
    let missed = tree.missed_in_range((1, 10));
    assert_eq!(missed, vec![(1, 2), (4, 6), (10, 10)]);
}

#[test]
fn contiguous_input_is_one_range() {
    let input = vec![2, 0, 7, 10, 1, 3, 6, 4, 5, 9, 8];
    assert_eq!(range_rover(input), vec![(0, 10)]);
}

#[test]
fn negative_values_and_a_gap() {
    let input = vec![-1, -2, 2, 0, 7, 10, -4, 1, 3, 6, -3, 4, 9, 8];
    assert_eq!(range_rover(input), vec![(-4, 4), (6, 10)]);
}

#[test]
fn repeats_are_ignored() {
    let input = vec![2, 0, 7, 10, 4, 1, 3, 6, 4, 0, 5, 9, 8];
    assert_eq!(range_rover(input), vec![(0, 10)]);
    let input = vec![-1, -2, 2, 0, 7, 10, -4, 1, 3, 6, -3, 10, 4, 9, 8, -2];
    assert_eq!(range_rover(input), vec![(-4, 4), (6, 10)]);
}

#[test]
fn gaps_around_and_between() {
    let input = vec![-1, -2, 2, 0, 7, 10, -4, 1, 3, 6, -3, 10, 4, 9, 8, -2];
    let missed = missed_in_range(input, (-10, 20));
    assert_eq!(missed, vec![(-10, -5), (5, 5), (11, 20)]);
}

#[test]
fn empty_input() {
    assert_eq!(range_rover(Vec::<i32>::new()), Vec::<(i32, i32)>::new());
    assert_eq!(missed_in_range(Vec::<i32>::new(), (3, 5)), vec![(3, 5)]);
    assert_eq!(missed_in_range(Vec::<i32>::new(), (5, 3)), Vec::<(i32, i32)>::new());
}

#[test]
fn single_value() {
    assert_eq!(range_rover(vec![42u32]), vec![(42, 42)]);
    assert_eq!(missed_in_range(vec![42u32], (40, 44)), vec![(40, 41), (43, 44)]);
}

#[test]
fn empty_tree_holds_zero() {
    let tree = RangeTree::from_iter(Vec::<i64>::new());
    assert_eq!(tree.to_vec(), vec![(0, 0)]);
}

#[test]
fn inverted_bound_has_no_gaps() {
    let tree = RangeTree::from_iter(vec![1, 5]);
    assert_eq!(tree.missed_in_range((10, 0)), Vec::<(i32, i32)>::new());
}

#[test]
fn bound_clear_of_the_values() {
    let tree = RangeTree::from_iter(vec![20, 21, 25, 30]);
    assert_eq!(tree.missed_in_range((0, 10)), vec![(0, 10)]);
    assert_eq!(tree.missed_in_range((40, 50)), vec![(40, 50)]);
    assert_eq!(tree.missed_in_range((21, 21)), Vec::<(i32, i32)>::new());
    assert_eq!(tree.missed_in_range((18, 23)), vec![(18, 19), (22, 23)]);
}

#[test]
fn spanning_to_the_maximum() {
    let input: Vec<u8> = ((u8::MAX - 10)..=u8::MAX).collect();
    assert_eq!(range_rover(input), vec![(u8::MAX - 10, u8::MAX)]);
    let input: Vec<u64> = ((u64::MAX - 10)..=u64::MAX).rev().collect();
    assert_eq!(range_rover(input), vec![(u64::MAX - 10, u64::MAX)]);
    let input: Vec<i8> = (i8::MIN..=i8::MAX).collect();
    assert_eq!(range_rover(input), vec![(i8::MIN, i8::MAX)]);
}

#[test]
fn type_extremes_apart() {
    assert_eq!(
        range_rover(vec![i8::MAX, i8::MIN]),
        vec![(i8::MIN, i8::MIN), (i8::MAX, i8::MAX)]
    );
    assert_eq!(missed_in_range(vec![u8::MAX, 0], (0, u8::MAX)), vec![(1, 254)]);
    assert_eq!(missed_in_range(vec![5u8], (0, u8::MAX)), vec![(0, 4), (6, 255)]);
}

#[test]
fn tree_merges_neighbours() {
    let mut tree = RangeTree::new(5);
    tree.insert(7);
    assert_eq!(tree.to_vec(), vec![(5, 5), (7, 7)]);
    tree.insert(6);
    assert_eq!(tree.to_vec(), vec![(5, 7)]);
    tree.insert(3);
    tree.insert(4);
    assert_eq!(tree.to_vec(), vec![(3, 7)]);
}

#[test]
fn neighbours_in_different_subtrees() {
    let mut tree = RangeTree::new(5);
    tree.insert(10);
    tree.insert(7);
    tree.insert(6);
    assert_eq!(tree.to_vec(), vec![(5, 7), (10, 10)]);
    assert_eq!(tree.missed_in_range((0, 12)), vec![(0, 4), (8, 9), (11, 12)]);
}

#[test]
fn inserting_a_held_value_changes_nothing() {
    let mut tree = RangeTree::from_iter(vec![1, 2, 3, 8, 9, 20]);
    let before = tree.to_vec();
    tree.insert(2);
    tree.insert(9);
    tree.insert(20);
    assert_eq!(tree.to_vec(), before);
    assert_eq!(before, vec![(1, 3), (8, 9), (20, 20)]);
}

#[test]
fn order_and_repeats_do_not_matter() {
    let a = range_rover(vec![1, 2, 3, 5, 9, 10, 11]);
    let b = range_rover(vec![11, 5, 5, 1, 10, 3, 9, 2, 11, 1]);
    assert_eq!(a, b);
    assert_eq!(a, vec![(1, 3), (5, 5), (9, 11)]);
}

#[test]
fn ranges_and_gaps_fill_the_bound() {
    let input = vec![3, 4, 9, 15, 16, 17, 30];
    let bound = (0, 20);
    let filled = range_rover(input.clone());
    let missed = missed_in_range(input, bound);
    let mut seen = vec![0u32; 21];
    for (s, e) in filled {
        for x in s.max(bound.0)..=e.min(bound.1) {
            seen[x as usize] += 1;
        }
    }
    for (s, e) in missed {
        for x in s..=e {
            seen[x as usize] += 1;
        }
    }
    assert!(seen.iter().all(|c| *c == 1));
}

#[test]
fn output_is_sorted_and_apart() {
    let ranges = range_rover(vec![40, 1, 7, 3, 2, 19, 20, 8, 100, 5]);
    assert_eq!(ranges, vec![(1, 3), (5, 5), (7, 8), (19, 20), (40, 40), (100, 100)]);
    for w in ranges.windows(2) {
        assert!(w[0].1 + 1 < w[1].0);
    }
}
