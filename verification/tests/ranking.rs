use source_stats::ranking::{rank, sort_ranked, Ranked};

fn item(index: usize, weight: usize) -> Ranked {
    Ranked { index, weight }
}

#[test]
fn rank_puts_the_greatest_first() {
    let ranking = rank(&vec![18, 15, 19, 1]);
    assert_eq!(ranking, vec![item(2, 19), item(0, 18), item(1, 15), item(3, 1)]);
}

#[test]
fn rank_keeps_the_order_of_equal_values() {
    let ranking = rank(&vec![5, 7, 5, 7, 5]);
    assert_eq!(ranking, vec![item(1, 7), item(3, 7), item(0, 5), item(2, 5), item(4, 5)]);
}

#[test]
fn rank_of_nothing_is_empty() {
    assert_eq!(rank(&Vec::new()), Vec::new());
}

#[test]
fn sort_ranked_is_stable() {
    let items = vec![item(9, 1), item(8, 3), item(7, 1), item(6, 3), item(5, 2)];
    let sorted = sort_ranked(&items);
    assert_eq!(sorted, vec![item(8, 3), item(6, 3), item(5, 2), item(9, 1), item(7, 1)]);
    assert_eq!(sort_ranked(&sorted), sorted);
}
