use source_stats::verticals::normalize_to_NUM_OF_VERTICALS;

#[test]
fn test_normalize() {
    let mut verticals = vec![18, 15, 19, 1];
    normalize_to_NUM_OF_VERTICALS(&mut verticals, 53);
    assert_eq!(vec![16, 15, 18, 1], verticals);
    assert!(verticals.iter().sum::<usize>() == 50);

    let mut verticals = vec![17, 17, 18, 1];
    normalize_to_NUM_OF_VERTICALS(&mut verticals, 53);
    assert_eq!(vec![16, 16, 17, 1], verticals);
    assert!(verticals.iter().sum::<usize>() == 50);

    let mut verticals = vec![16, 15, 16, 1];
    normalize_to_NUM_OF_VERTICALS(&mut verticals, 48);
    assert_eq!(vec![17, 15, 17, 1], verticals);
    assert!(verticals.iter().sum::<usize>() == 50);

    let mut verticals = vec![18, 16, 17];
    normalize_to_NUM_OF_VERTICALS(&mut verticals, 51);
    assert_eq!(vec![17, 16, 17], verticals);
    assert!(verticals.iter().sum::<usize>() == 50);

    let mut verticals = vec![25, 26];
    normalize_to_NUM_OF_VERTICALS(&mut verticals, 51);
    assert_eq!(vec![25, 25], verticals);
    assert!(verticals.iter().sum::<usize>() == 50);
}

#[test]
fn shares_that_fit_stay_as_they_are() {
    let mut verticals = vec![25, 25];
    normalize_to_NUM_OF_VERTICALS(&mut verticals, 50);
    assert_eq!(vec![25, 25], verticals);
    let mut verticals = vec![50];
    normalize_to_NUM_OF_VERTICALS(&mut verticals, 50);
    assert_eq!(vec![50], verticals);
    let mut verticals = vec![0, 50, 0];
    normalize_to_NUM_OF_VERTICALS(&mut verticals, 50);
    assert_eq!(vec![0, 50, 0], verticals);
}

#[test]
fn a_single_share_moves_by_one() {
    let mut verticals = vec![51];
    normalize_to_NUM_OF_VERTICALS(&mut verticals, 51);
    assert_eq!(vec![50], verticals);
    let mut verticals = vec![49];
    normalize_to_NUM_OF_VERTICALS(&mut verticals, 49);
    assert_eq!(vec![50], verticals);
}

#[test]
fn too_few_strokes_go_to_the_heaviest_shares() {
    let mut verticals = vec![1, 24, 24];
    normalize_to_NUM_OF_VERTICALS(&mut verticals, 49);
    assert_eq!(vec![1, 25, 24], verticals);
    let mut verticals = vec![6, 25, 12, 6];
    normalize_to_NUM_OF_VERTICALS(&mut verticals, 49);
    assert_eq!(vec![6, 26, 12, 6], verticals);
    let mut verticals = vec![16, 17, 16];
    normalize_to_NUM_OF_VERTICALS(&mut verticals, 49);
    assert_eq!(vec![16, 18, 16], verticals);
}

#[test]
fn with_a_far_lead_the_second_share_grows() {
    let mut verticals = vec![40, 2, 1];
    normalize_to_NUM_OF_VERTICALS(&mut verticals, 43);
    assert_eq!(verticals.iter().sum::<usize>(), 50);
    assert_eq!(vec![41, 8, 1], verticals);
}

#[test]
fn too_many_strokes_are_taken_from_the_heaviest_shares() {
    let mut verticals = vec![60, 0];
    normalize_to_NUM_OF_VERTICALS(&mut verticals, 60);
    assert_eq!(vec![50, 0], verticals);
    let mut verticals = vec![30, 30];
    normalize_to_NUM_OF_VERTICALS(&mut verticals, 60);
    assert_eq!(verticals.iter().sum::<usize>(), 50);
    assert_eq!(vec![23, 27], verticals);
    let mut verticals = vec![1; 60];
    normalize_to_NUM_OF_VERTICALS(&mut verticals, 60);
    assert_eq!(verticals.iter().sum::<usize>(), 50);
    assert_eq!(verticals[..10], [0; 10]);
    assert_eq!(verticals[10..], [1; 50]);
}

#[test]
fn shares_far_from_the_bar_still_end_at_fifty() {
    let mut verticals = vec![3, 2, 1];
    normalize_to_NUM_OF_VERTICALS(&mut verticals, 6);
    assert_eq!(verticals.iter().sum::<usize>(), 50);
    let mut verticals = vec![0, 0];
    normalize_to_NUM_OF_VERTICALS(&mut verticals, 0);
    assert_eq!(verticals.iter().sum::<usize>(), 50);
    let mut verticals = vec![100, 90, 80, 70];
    normalize_to_NUM_OF_VERTICALS(&mut verticals, 340);
    assert_eq!(verticals.iter().sum::<usize>(), 50);
    assert_eq!(verticals.len(), 4);
}
