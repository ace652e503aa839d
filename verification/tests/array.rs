use nail::std_lib::array::{combinations, permutations, sort_by_keys, sort_by_keys_descending, sort_descending};
use nail::std_lib::array::{
    all_equal, array_range, array_range_inclusive, binary_search, cartesian_product, chunk, common_prefix_length, compact_strings, contains, count_of, count_runs, deduplicate, difference, ends_with, first, first_position, flatten, get, index_of, index_of_max, index_of_min, insert_at, insert_sorted, insertion_point, interleave, intersect, is_empty, is_sorted, is_unique, join_texts, last, last_position, len, max, max_by_keys, middle, min, min_by_keys, pad_end, pad_start, page, parallel_pays, pop, push, remove_at, repeat, replace_at, reverse, rotate, rotate_left, rotate_right, shuffle, skip, skip_last, slice, sort, starts_with, step_by, swap, take, take_int, take_last, take_string, union, unique, windows, worth_parallel_fold, zip,
};

fn words(items: &[&str]) -> Vec<String> {
    return items.iter().map(|item| item.to_string()).collect();
}

#[test]
fn the_extremes_follow_the_keys_too() {
    let books = vec!["later".to_string(), "early".to_string()];
    let years = vec![2001, 1999];
    assert_eq!(min_by_keys(books.clone(), years.clone()).expect("a book"), "early");
    assert_eq!(max_by_keys(books, years).expect("a book"), "later");
    assert!(min_by_keys::<String, i64>(vec![], vec![]).is_err());
}

#[test]
fn stepping_keeps_the_first_and_every_step_th_after() {
    assert_eq!(step_by(vec![1, 2, 3, 4, 5], 2).expect("a valid step"), vec![1, 3, 5]);
    assert_eq!(step_by(words(&["a", "b", "c", "d"]), 3).expect("a valid step"), words(&["a", "d"]));
    assert_eq!(step_by(vec![1, 2, 3], 1).expect("a valid step"), vec![1, 2, 3]);
    assert_eq!(step_by(vec![1, 2, 3], 10).expect("a valid step"), vec![1]);
    assert_eq!(step_by(Vec::<i64>::new(), 2).expect("a valid step"), Vec::<i64>::new());
}

#[test]
fn a_step_below_one_is_an_error() {
    assert!(step_by(vec![1, 2, 3], 0).is_err());
    assert!(step_by(vec![1, 2, 3], -2).is_err());
}

#[test]
fn interleaving_alternates_and_appends_the_leftover_tail() {
    assert_eq!(interleave(vec![1, 3, 5], vec![2, 4, 6]), vec![1, 2, 3, 4, 5, 6]);
    assert_eq!(interleave(vec![1, 3, 5, 7, 9], vec![2, 4]), vec![1, 2, 3, 4, 5, 7, 9]);
    assert_eq!(interleave(vec![1], vec![2, 4, 6]), vec![1, 2, 4, 6]);
    assert_eq!(interleave(words(&["a", "b"]), words(&["x"])), words(&["a", "x", "b"]));
    assert_eq!(interleave(Vec::<i64>::new(), vec![1, 2]), vec![1, 2]);
    assert_eq!(interleave(Vec::<i64>::new(), Vec::<i64>::new()), Vec::<i64>::new());
}

#[test]
fn padding_grows_short_arrays_and_leaves_long_ones_alone() {
    assert_eq!(pad_end(vec![1, 2], 4, 0), vec![1, 2, 0, 0]);
    assert_eq!(pad_end(vec![1, 2, 3], 3, 0), vec![1, 2, 3]);
    assert_eq!(pad_end(vec![1, 2, 3], 2, 0), vec![1, 2, 3]);
    assert_eq!(pad_end(Vec::<String>::new(), 2, "x".to_string()), words(&["x", "x"]));
    assert_eq!(pad_end(vec![1], -3, 0), vec![1]);
    assert_eq!(pad_start(vec![1, 2], 4, 0), vec![0, 0, 1, 2]);
    assert_eq!(pad_start(vec![1, 2, 3], 2, 0), vec![1, 2, 3]);
    assert_eq!(pad_start(words(&["end"]), 3, "-".to_string()), words(&["-", "-", "end"]));
}

#[test]
fn sortedness_allows_equal_neighbours_and_holds_for_the_trivial_arrays() {
    assert!(is_sorted(&vec![1, 2, 2, 3]));
    assert!(!is_sorted(&vec![3, 1, 2]));
    assert!(is_sorted(&Vec::<i64>::new()));
    assert!(is_sorted(&vec![42]));
    assert!(is_sorted(&words(&["apple", "banana", "banana"])));
    assert!(!is_sorted(&words(&["banana", "apple"])));
    assert!(is_sorted(&vec![1.0, 1.5, 2.0]));
}

#[test]
fn compacting_drops_only_the_empty_strings() {
    assert_eq!(compact_strings(words(&["a", "", "b", ""])), words(&["a", "b"]));
    assert_eq!(compact_strings(words(&["", ""])), Vec::<String>::new());
    assert_eq!(compact_strings(Vec::new()), Vec::<String>::new());
    assert_eq!(compact_strings(words(&[" "])), words(&[" "]));
}

#[test]
fn the_middle_element_is_the_lower_of_two_for_even_lengths() {
    assert_eq!(middle(&vec![1, 2, 3]).expect("a middle"), 2);
    assert_eq!(middle(&vec![1, 2, 3, 4]).expect("a middle"), 2);
    assert_eq!(middle(&vec![7]).expect("a middle"), 7);
    assert_eq!(middle(&words(&["a", "b", "c"])).expect("a middle"), "b");
    assert!(middle(&Vec::<i64>::new()).is_err());
}

#[test]
fn taking_and_skipping_from_the_end_mirror_take_and_skip() {
    assert_eq!(take_last(vec![1, 2, 3, 4], 2), vec![3, 4]);
    assert_eq!(take_last(vec![1, 2], 5), vec![1, 2]);
    assert_eq!(take_last(vec![1, 2], 0), Vec::<i64>::new());
    assert_eq!(take_last(vec![1, 2], -1), Vec::<i64>::new());
    assert_eq!(take_last(words(&["a", "b", "c"]), 1), words(&["c"]));
    assert_eq!(skip_last(vec![1, 2, 3, 4], 2), vec![1, 2]);
    assert_eq!(skip_last(vec![1, 2], 5), Vec::<i64>::new());
    assert_eq!(skip_last(vec![1, 2], 0), vec![1, 2]);
    assert_eq!(skip_last(Vec::<i64>::new(), 3), Vec::<i64>::new());
}

#[test]
fn prefix_and_suffix_checks_match_element_for_element() {
    assert!(starts_with(&vec![1, 2, 3], vec![1, 2]));
    assert!(!starts_with(&vec![1, 2, 3], vec![2]));
    assert!(starts_with(&vec![1, 2], Vec::new()));
    assert!(!starts_with(&vec![1], vec![1, 2]));
    assert!(starts_with(&words(&["a", "b"]), words(&["a"])));
    assert!(ends_with(&vec![1, 2, 3], vec![2, 3]));
    assert!(!ends_with(&vec![1, 2, 3], vec![1]));
    assert!(ends_with(&vec![1, 2], Vec::new()));
    assert!(ends_with(&words(&["a", "b"]), words(&["b"])));
    assert!(!ends_with(&Vec::<i64>::new(), vec![1]));
}

#[test]
fn uniqueness_means_no_value_repeats_anywhere() {
    assert!(is_unique(&vec![1, 2, 3]));
    assert!(!is_unique(&vec![1, 2, 1]));
    assert!(is_unique(&Vec::<i64>::new()));
    assert!(is_unique(&words(&["a", "b"])));
    assert!(!is_unique(&words(&["a", "a"])));
}

#[test]
fn runs_count_stretches_of_equal_neighbours() {
    assert_eq!(count_runs(&vec![1, 1, 2, 1]), 3);
    assert_eq!(count_runs(&vec![5, 5, 5]), 1);
    assert_eq!(count_runs(&vec![1, 2, 3]), 3);
    assert_eq!(count_runs(&Vec::<i64>::new()), 0);
    assert_eq!(count_runs(&words(&["a", "a", "b"])), 2);
}

#[test]
fn the_common_prefix_stops_at_the_first_difference() {
    assert_eq!(common_prefix_length(&vec![1, 2, 3], &vec![1, 2, 9]), 2);
    assert_eq!(common_prefix_length(&vec![1, 2], &vec![3, 4]), 0);
    assert_eq!(common_prefix_length(&vec![1, 2], &vec![1, 2]), 2);
    assert_eq!(common_prefix_length(&vec![1, 2, 3], &vec![1, 2]), 2);
    assert_eq!(common_prefix_length(&Vec::<i64>::new(), &vec![1]), 0);
    assert_eq!(common_prefix_length(&words(&["usr", "bin"]), &words(&["usr", "lib"])), 1);
}

#[test]
fn extreme_positions_go_to_the_first_of_a_tie() {
    assert_eq!(index_of_max(&vec![1, 9, 3]).expect("a position"), 1);
    assert_eq!(index_of_max(&vec![9, 2, 9]).expect("a position"), 0);
    assert_eq!(index_of_min(&vec![4, 1, 7]).expect("a position"), 1);
    assert_eq!(index_of_min(&vec![2, 5, 2]).expect("a position"), 0);
    assert_eq!(index_of_max(&words(&["ant", "zebra", "cat"])).expect("a position"), 1);
    assert_eq!(index_of_min(&vec![2.5, 1.5, 3.5]).expect("a position"), 1);
    assert!(index_of_max(&Vec::<i64>::new()).is_err());
    assert!(index_of_min(&Vec::<i64>::new()).is_err());
}

#[test]
fn rotations_wrap_and_agree_with_their_directions() {
    assert_eq!(rotate_left(vec![1, 2, 3], 1), vec![2, 3, 1]);
    assert_eq!(rotate_right(vec![1, 2, 3], 1), vec![3, 1, 2]);
    assert_eq!(rotate_left(vec![1, 2, 3], 4), vec![2, 3, 1]);
    assert_eq!(rotate_right(vec![1, 2, 3], 4), vec![3, 1, 2]);
    assert_eq!(rotate_left(vec![1, 2, 3], -1), rotate_right(vec![1, 2, 3], 1));
    assert_eq!(rotate_left(Vec::<i64>::new(), 2), Vec::<i64>::new());
    assert_eq!(rotate_right(words(&["a", "b"]), 1), words(&["b", "a"]));
}

#[test]
fn halving_the_range_finds_what_walking_it_would() {
    let sorted = vec![1, 3, 5, 7, 9, 11];
    for (position, value) in sorted.iter().enumerate() {
        assert_eq!(binary_search(&sorted, *value).expect("a present value"), position as i64);
    }
    assert!(binary_search(&sorted, 4).is_err());
    assert!(binary_search(&Vec::<i64>::new(), 1).is_err());
    assert_eq!(binary_search(&words(&["ant", "bee", "cow"]), "bee".to_string()).expect("a present word"), 1);
    assert_eq!(binary_search(&vec![0.5, 1.5, 2.5], 2.5).expect("a present number"), 2);
}

#[test]
fn the_insertion_point_counts_what_comes_before() {
    let sorted = vec![10, 20, 20, 30];
    assert_eq!(insertion_point(&sorted, 5), 0);
    assert_eq!(insertion_point(&sorted, 15), 1);
    assert_eq!(insertion_point(&sorted, 20), 3, "equal values are passed, so an insert keeps arrival order");
    assert_eq!(insertion_point(&sorted, 99), 4);
    assert_eq!(insertion_point(&Vec::<i64>::new(), 1), 0);
}

#[test]
fn inserting_keeps_the_array_sorted() {
    assert_eq!(insert_sorted(vec![1, 3, 5], 4), vec![1, 3, 4, 5]);
    assert_eq!(insert_sorted(vec![1, 3, 5], 0), vec![0, 1, 3, 5]);
    assert_eq!(insert_sorted(vec![1, 3, 5], 9), vec![1, 3, 5, 9]);
    assert_eq!(insert_sorted(Vec::<i64>::new(), 2), vec![2]);
    assert_eq!(insert_sorted(words(&["ant", "cow"]), "bee".to_string()), words(&["ant", "bee", "cow"]));
}

#[test]
fn pages_are_numbered_from_one_and_run_out_quietly() {
    let items = vec![1, 2, 3, 4, 5];
    assert_eq!(page(&items, 1, 2).expect("a real page"), vec![1, 2]);
    assert_eq!(page(&items, 3, 2).expect("a real page"), vec![5], "the last page is short");
    assert_eq!(page(&items, 4, 2).expect("a real page"), Vec::<i64>::new(), "past the end is empty, not an error");
    assert_eq!(page(&items, 1, 99).expect("a real page"), items);
    assert!(page(&items, 0, 2).unwrap_err().contains("numbered from 1"));
    assert!(page(&items, 1, 0).unwrap_err().contains("at least one item"));
}

#[test]
fn windows_overlap_where_chunks_do_not() {
    assert_eq!(windows(&vec![1, 2, 3, 4], 2).expect("a real size"), vec![vec![1, 2], vec![2, 3], vec![3, 4]]);
    assert_eq!(windows(&vec![1, 2, 3], 3).expect("a real size"), vec![vec![1, 2, 3]]);
    assert_eq!(windows(&vec![1, 2], 3).expect("a real size"), Vec::<Vec<i64>>::new(), "no run that long exists");
    assert!(windows(&vec![1, 2], 0).unwrap_err().contains("at least one element"));
}

#[test]
fn every_pairing_comes_out_grouped_by_the_first_array() {
    assert_eq!(cartesian_product(&vec![1, 2], &vec![8, 9]).expect("a small product"), vec![vec![1, 8], vec![1, 9], vec![2, 8], vec![2, 9]]);
    assert_eq!(cartesian_product(&vec![1], &Vec::<i64>::new()).expect("a small product"), Vec::<Vec<i64>>::new());
    assert_eq!(cartesian_product(&words(&["s", "m"]), &words(&["red"])).expect("a small product"), vec![words(&["s", "red"]), words(&["m", "red"])]);
}

#[test]
fn reading_one_element_names_what_went_wrong() {
    assert_eq!(get(&vec![10, 20, 30], 1).unwrap(), 20);
    assert_eq!(get(&vec![10, 20, 30], -1).unwrap_err(), "array_get: index cannot be negative, got -1");
    assert_eq!(get(&vec![10, 20, 30], 3).unwrap_err(), "array_get: index 3 is out of bounds for an array of length 3");
    assert_eq!(first(&vec![4, 5]).unwrap(), 4);
    assert_eq!(last(&vec![4, 5]).unwrap(), 5);
    assert_eq!(first(&Vec::<i64>::new()).unwrap_err(), "array_first: cannot get the first element of an empty array");
    assert_eq!(last(&Vec::<i64>::new()).unwrap_err(), "array_last: cannot get the last element of an empty array");
}

#[test]
fn growing_and_shrinking_leave_the_rest_in_place() {
    assert_eq!(push(vec![1, 2], 3), vec![1, 2, 3]);
    assert_eq!(pop(vec![1, 2, 3]).unwrap(), vec![1, 2]);
    assert_eq!(pop(Vec::<i64>::new()).unwrap_err(), "array_pop: cannot pop from an empty array");
    assert_eq!(reverse(vec![1, 2, 3]), vec![3, 2, 1]);
    assert_eq!(nail::std_lib::array::concat(vec![1], vec![2, 3]), vec![1, 2, 3]);
    assert_eq!(len(&vec![1, 2, 3]), 3);
    assert!(is_empty(&Vec::<i64>::new()));
    assert!(!is_empty(&vec![0]));
}

#[test]
fn slicing_checks_its_bounds_in_order() {
    assert_eq!(slice(&vec![1, 2, 3, 4], 1, 3).unwrap(), vec![2, 3]);
    assert_eq!(slice(&vec![1, 2, 3, 4], 2, 2).unwrap(), Vec::<i64>::new());
    assert_eq!(slice(&vec![1, 2], -1, 1).unwrap_err(), "array_slice: indices cannot be negative, got -1..1");
    assert_eq!(slice(&vec![1, 2], 0, 5).unwrap_err(), "array_slice: range 0..5 is out of bounds for an array of length 2");
    assert_eq!(slice(&vec![1, 2], 2, 1).unwrap_err(), "array_slice: start index 2 is greater than end index 1");
}

#[test]
fn taking_and_skipping_count_from_the_front() {
    assert_eq!(take(vec![1, 2, 3], 2), vec![1, 2]);
    assert_eq!(take(vec![1, 2, 3], 9), vec![1, 2, 3]);
    assert_eq!(take(vec![1, 2, 3], -1), Vec::<i64>::new());
    assert_eq!(skip(vec![1, 2, 3], 1), vec![2, 3]);
    assert_eq!(skip(vec![1, 2, 3], 0), vec![1, 2, 3]);
    assert_eq!(skip(vec![1, 2, 3], 7), Vec::<i64>::new());
    assert_eq!(take_int(vec![1, 2, 3], 2), vec![1, 2]);
    assert_eq!(take_int(vec![1, 2, 3], -1), vec![1, 2, 3]);
    assert_eq!(take_string(words(&["a", "b"]), 1), words(&["a"]));
}

#[test]
fn nesting_is_removed_and_pairs_are_made() {
    assert_eq!(flatten(vec![vec![1, 2], vec![], vec![3]]), vec![1, 2, 3]);
    assert_eq!(zip(vec![1, 2, 3], words(&["a", "b"])), vec![(1, "a".to_string()), (2, "b".to_string())]);
}

#[test]
fn repeating_and_cutting_into_pieces() {
    assert_eq!(repeat(7, 3), vec![7, 7, 7]);
    assert_eq!(repeat(7, -2), Vec::<i64>::new());
    assert_eq!(chunk(&vec![1, 2, 3, 4, 5], 2).unwrap(), vec![vec![1, 2], vec![3, 4], vec![5]]);
    assert_eq!(chunk(&Vec::<i64>::new(), 2).unwrap(), Vec::<Vec<i64>>::new());
    assert_eq!(chunk(&vec![1], 0).unwrap_err(), "array_chunk: chunk size must be positive, got 0");
}

#[test]
fn rotating_either_way_wraps_around() {
    assert_eq!(rotate(vec![1, 2, 3, 4], 1), vec![4, 1, 2, 3]);
    assert_eq!(rotate(vec![1, 2, 3, 4], -1), vec![2, 3, 4, 1]);
    assert_eq!(rotate(vec![1, 2, 3, 4], 6), vec![3, 4, 1, 2]);
    assert_eq!(rotate(Vec::<i64>::new(), 3), Vec::<i64>::new());
    assert_eq!(rotate_left(vec![1, 2, 3, 4], -5), vec![4, 1, 2, 3]);
}

#[test]
fn changing_one_place_keeps_the_others() {
    assert_eq!(insert_at(vec![1, 3], 1, 2).unwrap(), vec![1, 2, 3]);
    assert_eq!(insert_at(vec![1, 3], 2, 4).unwrap(), vec![1, 3, 4]);
    assert_eq!(insert_at(vec![1, 3], 3, 4).unwrap_err(), "array_insert: index 3 is past the end of an array of length 2");
    assert_eq!(insert_at(vec![1, 3], -1, 4).unwrap_err(), "array_insert: index cannot be negative, got -1");
    assert_eq!(remove_at(vec![1, 2, 3], 0).unwrap(), vec![2, 3]);
    assert_eq!(remove_at(vec![1, 2, 3], 3).unwrap_err(), "array_remove_at: index 3 is out of bounds for an array of length 3");
    assert_eq!(replace_at(vec![1, 2, 3], 2, 9).unwrap(), vec![1, 2, 9]);
    assert_eq!(replace_at(vec![1], -4, 9).unwrap_err(), "array_replace_at: index cannot be negative, got -4");
    assert_eq!(swap(vec![1, 2, 3], 0, 2).unwrap(), vec![3, 2, 1]);
    assert_eq!(swap(words(&["a", "b", "c"]), 2, 1).unwrap(), words(&["a", "c", "b"]));
    assert_eq!(swap(vec![1, 2, 3], 1, 1).unwrap(), vec![1, 2, 3]);
    assert_eq!(swap(vec![1, 2], -1, 0).unwrap_err(), "array_swap: indexes cannot be negative, got -1 and 0");
    assert_eq!(swap(vec![1, 2], 0, 2).unwrap_err(), "array_swap: indexes 0 and 2 are not both inside an array of length 2");
}

#[test]
fn searching_for_a_value() {
    let items = vec![5, 7, 5, 9];
    assert!(contains(&items, 9));
    assert!(!contains(&items, 4));
    assert_eq!(index_of(&items, 5).unwrap(), 0);
    assert_eq!(index_of(&items, 4).unwrap_err(), "array_index_of: the array does not contain that item");
    assert_eq!(count_of(&items, 5), 2);
    assert_eq!(count_of(&items, 4), 0);
    assert_eq!(first_position(&items, &5), Some(0));
    assert_eq!(last_position(&items, &5), Some(2));
    assert_eq!(last_position(&items, &4), None);
}

#[test]
fn set_like_operations_keep_first_occurrences_in_order() {
    assert_eq!(unique(vec![3, 1, 3, 2, 1]), vec![3, 1, 2]);
    assert_eq!(deduplicate(vec![1, 1, 2, 2, 1, 3, 3]), vec![1, 2, 1, 3]);
    assert_eq!(deduplicate(Vec::<i64>::new()), Vec::<i64>::new());
    assert_eq!(intersect(vec![1, 2, 2, 3], vec![2, 3, 4]), vec![2, 3]);
    assert_eq!(difference(vec![1, 2, 2, 3], vec![2]), vec![1, 3]);
    assert_eq!(union(vec![1, 2], vec![2, 3, 3]), vec![1, 2, 3]);
    assert!(all_equal(&vec![4, 4, 4]));
    assert!(!all_equal(&vec![4, 5]));
    assert!(all_equal(&Vec::<i64>::new()));
}

#[test]
fn extremes_and_sorting() {
    assert_eq!(min(&vec![3, 1, 2]).unwrap(), 1);
    assert_eq!(max(&vec![3, 1, 2]).unwrap(), 3);
    assert_eq!(min(&Vec::<i64>::new()).unwrap_err(), "array_min: cannot get the minimum of an empty array");
    assert_eq!(max(&Vec::<i64>::new()).unwrap_err(), "array_max: cannot get the maximum of an empty array");
    assert_eq!(sort(vec![3, 1, 2, 1]), vec![1, 1, 2, 3]);
    let mut shuffled = shuffle((0..50).collect::<Vec<i64>>());
    shuffled.sort();
    assert_eq!(shuffled, (0..50).collect::<Vec<i64>>());
}

#[test]
fn parallel_work_pays_only_past_the_crossover() {
    assert!(!parallel_pays(10_000_000, 1_000_000, 1));
    assert!(!parallel_pays(1_999_999, 1_000_000, 2));
    assert!(parallel_pays(2_000_000, 1_000_000, 2));
    assert!(parallel_pays(1_043_479, 1_000_000, 24));
    assert!(!worth_parallel_fold(10));
}

#[test]
fn text_joins_and_ranges() {
    assert_eq!(join_texts(&words(&["a", "b", "c"]), ", "), "a, b, c");
    assert_eq!(join_texts(&Vec::new(), ", "), "");
    assert_eq!(array_range(2, 5), vec![2, 3, 4]);
    assert_eq!(array_range_inclusive(2, 5), vec![2, 3, 4, 5]);
    assert_eq!(array_range(5, 2), Vec::<i64>::new());
}

#[test]
fn errors_of_the_counting_functions() {
    assert_eq!(page(&vec![1, 2], 0, 1).unwrap_err(), "array_page: pages are numbered from 1, got 0");
    assert_eq!(windows(&vec![1, 2], -1).unwrap_err(), "array_windows: the window has to hold at least one element, got -1");
    assert_eq!(step_by(vec![1], 0).unwrap_err(), "array_step_by: step must be at least 1, got 0");
    let big: Vec<i64> = (0..1001).collect();
    assert_eq!(
        cartesian_product(&big, &big).unwrap_err(),
        "array_cartesian_product: 1001 by 1001 is 1002001 pairs, more than the 1000000 this will build"
    );
}

#[test]
fn combinations_choose_without_order_and_permutations_with_it() {
    assert_eq!(combinations(&vec![1, 2, 3], 2).expect("a real size"), vec![vec![1, 2], vec![1, 3], vec![2, 3]]);
    assert_eq!(combinations(&vec![1, 2, 3], 3).expect("a real size"), vec![vec![1, 2, 3]]);
    assert_eq!(combinations(&vec![1, 2], 0).expect("a real size"), vec![Vec::<i64>::new()], "choosing none is one empty choice");
    assert_eq!(combinations(&vec![1, 2], 3).expect("a real size"), Vec::<Vec<i64>>::new());
    // 52 cards chosen 5 at a time is nearly three million hands.
    let too_many: Vec<i64> = (0..52).collect();
    assert!(combinations(&too_many, 5).unwrap_err().contains("more than the"));

    assert_eq!(permutations(&vec![1, 2, 3]).expect("few enough"), vec![vec![1, 2, 3], vec![1, 3, 2], vec![2, 1, 3], vec![2, 3, 1], vec![3, 1, 2], vec![3, 2, 1]]);
    assert_eq!(permutations(&Vec::<i64>::new()).expect("few enough"), vec![Vec::<i64>::new()]);
    let ten: Vec<i64> = (0..10).collect();
    assert!(permutations(&ten).unwrap_err().contains("more orderings than"));
}

#[test]
fn combinations_refuse_a_negative_size_and_name_the_count() {
    assert_eq!(combinations(&vec![1, 2], -1).unwrap_err(), "array_combinations: cannot choose -1 elements");
    let too_many: Vec<i64> = (0..52).collect();
    assert_eq!(
        combinations(&too_many, 5).unwrap_err(),
        format!("array_combinations: choosing 5 of 52 elements is {} arrays, more than the 1000000 this will build", usize::MAX)
    );
    // Near the whole array the count is small again: 40 choose 39 is 40.
    let forty: Vec<i64> = (0..40).collect();
    assert_eq!(combinations(&forty, 39).unwrap().len(), 40);
    assert_eq!(combinations(&(0..20).collect::<Vec<i64>>(), 10).unwrap().len(), 184756);
}

#[test]
fn permutations_come_in_the_order_of_their_positions() {
    assert_eq!(
        nail::std_lib::array::permutations(&vec![1, 2, 3]).expect("few enough"),
        vec![vec![1, 2, 3], vec![1, 3, 2], vec![2, 1, 3], vec![2, 3, 1], vec![3, 1, 2], vec![3, 2, 1]]
    );
    assert_eq!(nail::std_lib::array::permutations(&Vec::<i64>::new()).expect("few enough"), vec![Vec::<i64>::new()]);
    let ten: Vec<i64> = (0..10).collect();
    assert_eq!(
        nail::std_lib::array::permutations(&ten).unwrap_err(),
        "array_permutations: 10 elements have more orderings than the 1000000 this will build"
    );
    assert_eq!(nail::std_lib::array::permutations(&(0..9).collect::<Vec<i64>>()).unwrap().len(), 362880);
}

#[test]
fn joining_writes_each_element() {
    assert_eq!(nail::std_lib::array::join(&vec![1, 2, 3], "-".to_string()), "1-2-3");
    assert_eq!(nail::std_lib::array::join(&Vec::<i64>::new(), "-".to_string()), "");
}

#[test]
fn sorting_by_keys_keeps_level_keys_in_place_and_stops_at_the_shorter_array() {
    assert_eq!(sort_descending(vec![3, 1, 2, 3]), vec![3, 3, 2, 1]);
    assert_eq!(sort_descending(Vec::<i64>::new()), Vec::<i64>::new());
    assert_eq!(sort_by_keys(vec!["a", "b", "c", "d"], vec![3, 1, 2, 1]), vec!["b", "d", "c", "a"]);
    assert_eq!(sort_by_keys_descending(vec!["a", "b", "c", "d"], vec![3, 1, 2, 1]), vec!["a", "c", "b", "d"]);
    assert_eq!(sort_by_keys(vec!["a", "b", "c"], vec![2, 1]), vec!["b", "a"]);
}
