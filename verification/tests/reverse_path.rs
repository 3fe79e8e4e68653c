use sapio::reverse_path::ReversePath;
use std::sync::Arc;

#[test]
fn a_path_round_trips_through_a_vector() {
    let p = ReversePath::try_from_vec(vec![1u64, 2, 3]).unwrap();
    assert_eq!(p.to_vec(), [1, 2, 3]);
    let single = ReversePath::try_from_vec(vec![7u64]).unwrap();
    assert_eq!(single.to_vec(), [7]);
}

#[test]
fn an_empty_path_is_refused() {
    assert!(ReversePath::<u64>::try_from_vec(Vec::new()).is_err());
}

#[test]
fn pushing_shares_the_prefix() {
    let root = ReversePath::push(None, Arc::new(1u8));
    let left = ReversePath::push(Some(root.clone()), Arc::new(2u8));
    let right = ReversePath::push(Some(root), Arc::new(3u8));
    assert_eq!(left.to_vec(), [1, 2]);
    assert_eq!(right.to_vec(), [1, 3]);
}
