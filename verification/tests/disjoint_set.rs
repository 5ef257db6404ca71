use ps_algorithm::disjoint_set::SetForest;

#[test]
fn join() {
    let mut forest = SetForest::new(5);
    assert_eq!(false, forest.join(1, 3));
    assert_eq!(&vec![0, 1, 2, 1, 4], forest.parent());
    assert_eq!(&vec![1, 2, 1, 1, 1], forest.rank());
    assert_eq!(false, forest.join(2, 4));
    assert_eq!(&vec![0, 1, 2, 1, 2], forest.parent());
    assert_eq!(&vec![1, 2, 2, 1, 1], forest.rank());
    assert_eq!(false, forest.join(0, 3));
    assert_eq!(&vec![1, 1, 2, 1, 2], forest.parent());
    assert_eq!(&vec![1, 2, 2, 1, 1], forest.rank());
    assert_eq!(true, forest.join(0, 1));
    assert_eq!(&vec![1, 1, 2, 1, 2], forest.parent());
    assert_eq!(&vec![1, 2, 2, 1, 1], forest.rank());
    assert_eq!(false, forest.join(1, 4));
    assert_eq!(&vec![1, 1, 1, 1, 2], forest.parent());
    assert_eq!(&vec![1, 3, 2, 1, 1], forest.rank());
}

#[test]
fn find() {
    let mut forest = SetForest::new(5);
    assert_eq!(4, forest.find(4));
    forest.join(0, 1);
    assert_eq!(0, forest.find(1));
    forest.join(3, 2);
    assert_eq!(3, forest.find(2));
    forest.join(0, 2);
    assert_eq!(0, forest.find(3));
}

#[test]
fn forest_starts_with_singletons() {
    let mut forest = SetForest::new(4);
    assert_eq!(&vec![0, 1, 2, 3], forest.parent());
    assert_eq!(&vec![1, 1, 1, 1], forest.rank());
    for i in 0..4 {
        assert_eq!(i, forest.find(i));
    }
    let empty = SetForest::new(0);
    assert!(empty.parent().is_empty());
}

#[test]
fn forest_find_halves_the_path() {
    let mut forest = SetForest::new(8);
    // Build the chain 0 <- 1 <- 3 <- 7 out of trees of equal rank.
    forest.join(0, 1);
    forest.join(2, 3);
    forest.join(4, 5);
    forest.join(6, 7);
    forest.join(0, 2);
    forest.join(4, 6);
    forest.join(0, 4);
    assert_eq!(&vec![0, 0, 0, 2, 0, 4, 4, 6], forest.parent());
    assert_eq!(0, forest.find(7));
    assert_eq!(&vec![0, 0, 0, 2, 0, 4, 4, 4], forest.parent());
    assert_eq!(&vec![4, 1, 2, 1, 3, 1, 2, 1], forest.rank());
}

#[test]
fn forest_lower_rank_goes_below() {
    let mut forest = SetForest::new(3);
    forest.join(1, 2);
    // Root 1 has rank 2, root 0 rank 1: 0 goes below 1 whichever comes first.
    assert_eq!(false, forest.join(0, 1));
    assert_eq!(1, forest.find(0));
    assert_eq!(&vec![1, 2, 1], forest.rank());
    assert_eq!(true, forest.join(2, 0));
}
