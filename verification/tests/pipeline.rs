use flu::{flu, input, range, Closure, FluExt, Stage, WindowIterator};

#[test]
fn basic_filter() {
    let result: Vec<_> = (0..10).flu().filter(|x| x % 2 == 0).collect();
    assert_eq!(result, vec![0, 2, 4, 6, 8]);
}

#[test]
fn fluent_chained_operations() {
    let result: Vec<_> = (0..10)
        .flu()
        .filter(|x| x % 2 == 0)
        .map(|x| x * 2)
        .take(3)
        .collect();
    assert_eq!(result, vec![0, 4, 8]);
}

#[test]
fn flu_from_vec() {
    let result: Vec<_> = flu(vec![1, 2, 3, 4, 5]).filter(|x| x % 2 == 0).collect();
    assert_eq!(result, vec![2, 4]);
}

#[test]
fn range_basic() {
    let result: Vec<_> = range(0, 5).collect();
    assert_eq!(result, vec![0, 1, 2, 3, 4]);
}

#[test]
fn lib_chained_operations() {
    let result: Vec<_> = flu(vec![1, 2, 3, 4, 5])
        .filter(|x| x % 2 == 0)
        .map(|x| x * 2)
        .take(2)
        .collect();
    assert_eq!(result, vec![4, 8]);
}

#[test]
fn terminal_operations() {
    assert_eq!((1..=5).flu().sum::<i32>(), 15);
    assert_eq!((1..=5).flu().count(), 5);
    assert_eq!((1..=5).flu().min(), Some(1));
    assert_eq!((1..=5).flu().max(), Some(5));
}

#[test]
fn scenario_chunk() {
    let result = (0..5).flu().chunk(2).collect();
    assert_eq!(result, vec![vec![0, 1], vec![2, 3], vec![4]]);
}

#[test]
fn scenario_window() {
    let result = (1..=4).flu().window(2).collect();
    assert_eq!(result, vec![vec![1, 2], vec![2, 3], vec![3, 4]]);
}

#[test]
fn scenario_inner_join() {
    let left = vec![(1, "a"), (2, "b"), (3, "c")];
    let right = vec![(1, "x"), (2, "y"), (4, "z")];
    let result = flu(left).join_inner(right, |x| x.0, |x| x.0).collect();
    assert_eq!(result, vec![((1, "a"), (1, "x")), ((2, "b"), (2, "y"))]);
}

#[test]
fn scenario_left_join() {
    let left = vec![(1, "a"), (2, "b"), (3, "c")];
    let right = vec![(1, "x"), (2, "y")];
    let result = flu(left).join_left(right, |x| x.0, |x| x.0).collect();
    assert_eq!(result.len(), 3);
    assert_eq!(
        result,
        vec![
            ((1, "a"), Some((1, "x"))),
            ((2, "b"), Some((2, "y"))),
            ((3, "c"), None),
        ]
    );
}

#[test]
fn take_and_skip() {
    assert_eq!((0..100).flu().take(3).collect(), vec![0, 1, 2]);
    assert_eq!((0..5).flu().skip(2).collect(), vec![2, 3, 4]);
    assert_eq!((0..3).flu().take(10).collect(), vec![0, 1, 2]);
    assert_eq!((0..3).flu().skip(10).collect(), Vec::<i32>::new());
    assert_eq!((0..3).flu().take(0).collect(), Vec::<i32>::new());
}

#[test]
fn take_is_lazy_on_a_long_source() {
    assert_eq!(range(0, i64::MAX).take(3).collect(), vec![0, 1, 2]);
    assert_eq!(range(5, i64::MAX).first(), Some(5));
}

#[test]
fn take_while_and_drop_while() {
    let items = vec![1, 2, 3, 4, 1, 2];
    assert_eq!(flu(items.clone()).take_while(|x| *x < 4).collect(), vec![1, 2, 3]);
    assert_eq!(flu(items).drop_while(|x| *x < 3).collect(), vec![3, 4, 1, 2]);
    assert_eq!(flu(vec![1, 2]).drop_while(|x| *x < 3).collect(), Vec::<i32>::new());
    assert_eq!(flu(vec![5, 1]).take_while(|x| *x < 3).collect(), Vec::<i32>::new());
}

#[test]
fn unique_keeps_first_occurrences() {
    assert_eq!(flu(vec![1, 2, 2, 3, 1, 4]).unique().collect(), vec![1, 2, 3, 4]);
}

#[test]
fn unique_twice_is_unique_once() {
    let once = flu(vec![3, 1, 3, 2, 1, 1]).unique().collect();
    let twice = flu(vec![3, 1, 3, 2, 1, 1]).unique().unique().collect();
    assert_eq!(once, vec![3, 1, 2]);
    assert_eq!(twice, once);
}

#[test]
fn map_enumerate_zip_flatten() {
    assert_eq!(flu(vec![1, 2, 3]).map(|x| x * 2).collect(), vec![2, 4, 6]);
    assert_eq!(
        flu(vec!["a", "b", "c"]).enumerate().collect(),
        vec![(0, "a"), (1, "b"), (2, "c")]
    );
    assert_eq!(
        flu(vec![1, 2, 3]).zip(vec!["a", "b"]).collect(),
        vec![(1, "a"), (2, "b")]
    );
    assert_eq!(flu(vec![1]).zip(0..5).collect(), vec![(1, 0)]);
    assert_eq!(
        flu(vec![vec![1, 2], vec![], vec![3, 4]]).flatten().collect(),
        vec![1, 2, 3, 4]
    );
}

#[test]
fn chunks_laid_end_to_end_are_the_input() {
    for n in 1..6usize {
        let chunks = (0..11).flu().chunk(n).collect();
        let mut all = Vec::new();
        for (i, c) in chunks.iter().enumerate() {
            assert!(!c.is_empty() && c.len() <= n);
            if i + 1 < chunks.len() {
                assert_eq!(c.len(), n);
            }
            all.extend(c.iter().copied());
        }
        assert_eq!(all, (0..11).collect::<Vec<i32>>());
    }
    assert_eq!((0..0).flu().chunk(3).collect(), Vec::<Vec<i32>>::new());
    assert_eq!((0..6).flu().chunk(3).collect(), vec![vec![0, 1, 2], vec![3, 4, 5]]);
}

#[test]
fn windows_slide_by_one() {
    let w = (0..6).flu().window(3).collect();
    assert_eq!(w.len(), 6 - 3 + 1);
    for i in 0..w.len() {
        assert_eq!(w[i], vec![i as i32, i as i32 + 1, i as i32 + 2]);
    }
    assert_eq!((0..2).flu().window(3).collect(), Vec::<Vec<i32>>::new());
    assert_eq!((0..3).flu().window(3).collect(), vec![vec![0, 1, 2]]);
    assert_eq!((0..3).flu().window(1).collect(), vec![vec![0], vec![1], vec![2]]);
}

#[test]
fn window_ends_for_good() {
    let mut stage = WindowIterator::new(0..3, 2);
    assert_eq!(stage.next(), Some(vec![0, 1]));
    assert_eq!(stage.next(), Some(vec![1, 2]));
    assert_eq!(stage.next(), None);
    assert_eq!(stage.next(), None);
    let mut short = WindowIterator::new(0..1, 2);
    assert_eq!(short.next(), None);
    assert_eq!(short.next(), None);
}

#[test]
fn group_by_partitions_in_order_of_first_key() {
    let groups = flu(vec![5, 2, 3, 4, 1, 6]).group_by(|x| x % 3).collect();
    assert_eq!(
        groups,
        vec![(2, vec![5, 2]), (0, vec![3, 6]), (1, vec![4, 1])]
    );
    let empty = flu(Vec::<i32>::new()).group_by(|x| x % 3).collect();
    assert_eq!(empty, Vec::<(i32, Vec<i32>)>::new());
}

#[test]
fn inner_join_counts_pairs_by_key() {
    let left = vec![1, 1, 2, 3, 3, 3];
    let right = vec![1, 3, 3, 4];
    let rows = flu(left.clone()).join_inner(right.clone(), |x| *x, |x| *x).collect();
    assert_eq!(rows.len(), 2 * 1 + 3 * 2);
    assert_eq!(
        rows,
        vec![(1, 1), (1, 1), (3, 3), (3, 3), (3, 3), (3, 3), (3, 3), (3, 3)]
    );
    let swapped = flu(right).join_inner(left, |x| *x, |x| *x).collect();
    assert_eq!(swapped.len(), rows.len());
}

#[test]
fn inner_join_pairs_in_left_then_right_order() {
    let left = vec![(1, 'a'), (2, 'b'), (1, 'c')];
    let right = vec![(1, 'x'), (1, 'y')];
    let rows = flu(left).join_inner(right, |l| l.0, |r| r.0).collect();
    assert_eq!(
        rows,
        vec![
            ((1, 'a'), (1, 'x')),
            ((1, 'a'), (1, 'y')),
            ((1, 'c'), (1, 'x')),
            ((1, 'c'), (1, 'y')),
        ]
    );
}

#[test]
fn left_join_keeps_every_left_item() {
    let left = vec![1, 2, 2, 5];
    let right = vec![2, 2, 7];
    let rows = flu(left).join_left(right, |x| *x, |x| *x).collect();
    assert_eq!(
        rows,
        vec![
            (1, None),
            (2, Some(2)),
            (2, Some(2)),
            (2, Some(2)),
            (2, Some(2)),
            (5, None),
        ]
    );
    let matched = rows.iter().filter(|r| r.1.is_some()).count();
    let unmatched = rows.iter().filter(|r| r.1.is_none()).count();
    assert_eq!(matched, 4);
    assert_eq!(unmatched, 2);
    let none = flu(vec![1, 2]).join_left(Vec::<i32>::new(), |x| *x, |x| *x).collect();
    assert_eq!(none, vec![(1, None), (2, None)]);
}

#[test]
fn terminals_on_an_empty_pipeline() {
    let empty = || flu(Vec::<i32>::new());
    assert_eq!(empty().count(), 0);
    assert_eq!(empty().sum::<i32>(), 0);
    assert_eq!(empty().min(), None);
    assert_eq!(empty().max(), None);
    assert_eq!(empty().first(), None);
    assert_eq!(empty().last(), None);
    assert_eq!(empty().reduce(|a, b| a + b), None);
    assert_eq!(empty().fold(7, |a, b| a + b), 7);
    assert!(!empty().any(|x| x > 0));
    assert!(empty().all(|x| x > 0));
    assert_eq!(empty().to_list(), Vec::<i32>::new());
}

#[test]
fn terminals_on_values() {
    assert_eq!((1..10).flu().first(), Some(1));
    assert_eq!((1..10).flu().last(), Some(9));
    assert_eq!((1..=5).flu().reduce(|a, b| a * b), Some(120));
    assert_eq!((1..=5).flu().fold(0, |a, b| a + b), 15);
    assert_eq!(flu(vec![3, 1, 4, 1, 5]).min(), Some(1));
    assert_eq!(flu(vec![3, 1, 4, 1, 5]).max(), Some(5));
    assert_eq!(range(1, 101).sum::<i64>(), 5050);
    assert_eq!((0..5).flu().to_list(), vec![0, 1, 2, 3, 4]);
    assert!((1..10).flu().any(|x| x % 2 == 0));
    assert!(!(1..10).flu().any(|x| x > 20));
    assert!((1..10).flu().all(|x| x > 0));
    assert!(!(1..10).flu().all(|x| x < 5));
}

#[test]
fn any_and_all_stop_at_the_deciding_item() {
    assert!(range(0, i64::MAX).any(|x| x == 3));
    assert!(!range(0, i64::MAX).all(|x| x < 3));
}

#[test]
fn inclusive_ranges() {
    assert_eq!((3..=5i64).flu().collect(), vec![3, 4, 5]);
    assert_eq!((5..=3).flu().collect(), Vec::<i32>::new());
    assert_eq!((i32::MAX - 1..=i32::MAX).flu().collect(), vec![i32::MAX - 1, i32::MAX]);
}

#[test]
fn empty_and_backward_ranges() {
    assert_eq!(range(3, 3).collect(), Vec::<i64>::new());
    assert_eq!(range(5, 2).count(), 0);
}

#[test]
fn a_pipeline_can_feed_a_pipeline() {
    let evens = (0..10).flu().filter(|x| x % 2 == 0);
    let pairs = (0..3).flu().zip(evens).collect();
    assert_eq!(pairs, vec![(0, 0), (1, 2), (2, 4)]);
    let again = flu((0..3).flu().map(|x| x + 1)).collect();
    assert_eq!(again, vec![1, 2, 3]);
}

#[test]
fn function_values_in_place_of_closures() {
    let kept = flu(vec![1, 2, 3, 4]).filter_by(Closure(|x: &i32| *x > 2)).collect();
    assert_eq!(kept, vec![3, 4]);
    let doubled = flu(vec![1, 2]).map_by(Closure(|x: i32| x * 2)).collect();
    assert_eq!(doubled, vec![2, 4]);
    let front = flu(vec![1, 2, 3, 1]).take_while_by(Closure(|x: &i32| *x < 3)).collect();
    assert_eq!(front, vec![1, 2]);
    let back = flu(vec![1, 2, 3, 1]).drop_while_by(Closure(|x: &i32| *x < 3)).collect();
    assert_eq!(back, vec![3, 1]);
    let groups = flu(vec![1, 2, 3]).group_by_key(Closure(|x: &i32| *x % 2)).collect();
    assert_eq!(groups, vec![(1, vec![1, 3]), (0, vec![2])]);
    let inner = flu(vec![1, 2])
        .join_inner_by(vec![2, 3], Closure(|x: &i32| *x), Closure(|x: &i32| *x))
        .collect();
    assert_eq!(inner, vec![(2, 2)]);
    let left = flu(vec![1, 2])
        .join_left_by(vec![2, 3], Closure(|x: &i32| *x), Closure(|x: &i32| *x))
        .collect();
    assert_eq!(left, vec![(1, None), (2, Some(2))]);
}

#[test]
fn input_lines_are_trimmed_and_not_empty() {
    let raw = vec![
        String::from("  ERROR a "),
        String::from(""),
        String::from(" \t "),
        String::from("b"),
        String::from("\u{a0}c\u{3000}"),
    ];
    assert_eq!(input(raw).collect(), vec!["ERROR a", "b", "c"]);
    assert_eq!(input(Vec::new()).count(), 0);
}
