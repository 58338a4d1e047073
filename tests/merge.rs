use talna::merge::{merge_order, pick_next};

#[test]
fn pick_newest_head() {
    assert_eq!(Some(1), pick_next(&[Some(3), Some(9), None, Some(4)]));
    assert_eq!(None, pick_next(&[None, None]));
    assert_eq!(None, pick_next(&[]));
}

#[test]
fn pick_ties_go_to_lower_index() {
    assert_eq!(Some(1), pick_next(&[Some(2), Some(7), Some(7)]));
}

#[test]
fn merge_is_a_descending_sort_with_ties_by_input() {
    let inputs = vec![vec![9, 5, 5, 1], vec![8, 5, 2], vec![], vec![9, 0]];
    let order = merge_order(&inputs);
    let ts: Vec<u128> = order.iter().map(|(i, p)| inputs[*i][*p]).collect();
    assert_eq!(vec![9, 9, 8, 5, 5, 5, 2, 1, 0], ts);
    assert_eq!(
        vec![(0, 0), (3, 0), (1, 0), (0, 1), (0, 2), (1, 1), (1, 2), (0, 3), (3, 1)],
        order
    );
}

#[test]
fn merge_single_input_is_unchanged() {
    let inputs = vec![vec![4, 3, 1]];
    assert_eq!(vec![(0, 0), (0, 1), (0, 2)], merge_order(&inputs));
}
