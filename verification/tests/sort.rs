use sudoku::sort::{merge, merge_sort};

fn less(a: &i32, b: &i32) -> bool {
    a < b
}

fn first_less(a: &(i32, char), b: &(i32, char)) -> bool {
    a.0 < b.0
}

#[test]
fn sort_of_nothing_is_nothing() {
    let empty: [i32; 0] = [];
    assert_eq!(merge_sort(&empty, less), Vec::<i32>::new());
}

#[test]
fn sort_of_one_item_is_that_item() {
    assert_eq!(merge_sort(&[7], less), vec![7]);
}

#[test]
fn sort_of_two_items() {
    assert_eq!(merge_sort(&[2, 1], less), vec![1, 2]);
    assert_eq!(merge_sort(&[1, 2], less), vec![1, 2]);
    assert_eq!(merge_sort(&[3, 3], less), vec![3, 3]);
}

#[test]
fn sort_keeps_length_and_items() {
    let input = [5, 3, 9, 1, 5, 0, -2, 8, 3, 3, 7];
    let out = merge_sort(&input, less);
    assert_eq!(out.len(), input.len());
    assert_eq!(out, vec![-2, 0, 1, 3, 3, 3, 5, 5, 7, 8, 9]);
}

#[test]
fn sort_puts_neighbours_in_order() {
    let input = [12, 4, 4, 19, 0, 7, 7, 7, 3, 15, 1];
    let out = merge_sort(&input, less);
    for pair in out.windows(2) {
        assert!(less(&pair[0], &pair[1]) || !less(&pair[1], &pair[0]));
    }
}

#[test]
fn sort_leaves_sorted_input_as_it_is() {
    let input = [(1, 'a'), (1, 'b'), (2, 'c'), (2, 'd'), (2, 'e'), (5, 'f'), (9, 'g')];
    assert_eq!(merge_sort(&input, first_less), input.to_vec());
}

#[test]
fn sort_keeps_tied_items_in_their_order() {
    let input = [(2, 'a'), (1, 'b'), (2, 'c'), (1, 'd'), (2, 'e'), (1, 'f'), (0, 'g')];
    let out = merge_sort(&input, first_less);
    assert_eq!(
        out,
        vec![(0, 'g'), (1, 'b'), (1, 'd'), (1, 'f'), (2, 'a'), (2, 'c'), (2, 'e')]
    );
}

#[test]
fn sort_does_not_change_its_input() {
    let input = vec![3, 1, 2];
    let out = merge_sort(&input, less);
    assert_eq!(input, vec![3, 1, 2]);
    assert_eq!(out, vec![1, 2, 3]);
}

#[test]
fn sort_by_descending_predicate() {
    let out = merge_sort(&[3, 1, 2, 5, 4], |a: &i32, b: &i32| a > b);
    assert_eq!(out, vec![5, 4, 3, 2, 1]);
}

#[test]
fn sort_of_strings() {
    let input = ["pear".to_string(), "apple".to_string(), "fig".to_string()];
    let out = merge_sort(&input, |a: &String, b: &String| a.len() < b.len());
    assert_eq!(out, vec!["fig".to_string(), "pear".to_string(), "apple".to_string()]);
}

#[test]
fn merge_takes_the_first_head_on_ties() {
    let a = [(1, 'a'), (3, 'a'), (3, 'A')];
    let b = [(1, 'b'), (2, 'b'), (3, 'b')];
    let out = merge(&a, &b, &first_less);
    assert_eq!(
        out,
        vec![(1, 'a'), (1, 'b'), (2, 'b'), (3, 'a'), (3, 'A'), (3, 'b')]
    );
}

#[test]
fn merge_with_an_empty_side() {
    let none: [i32; 0] = [];
    assert_eq!(merge(&[1, 2, 3], &none, &less), vec![1, 2, 3]);
    assert_eq!(merge(&none, &[1, 2, 3], &less), vec![1, 2, 3]);
    assert_eq!(merge(&none, &none, &less), Vec::<i32>::new());
}

#[test]
fn merge_interleaves() {
    assert_eq!(merge(&[1, 4, 6], &[2, 3, 5, 7], &less), vec![1, 2, 3, 4, 5, 6, 7]);
}
