use ps_algorithm::data_structure::segtree::{KeepFirst, SegmentTree, SumSet};
use ps_algorithm::data_structure::IndexOutOfRange;

fn firsts(values: &[u64]) -> Vec<Option<u64>> {
    values.iter().map(|v| Some(*v)).collect()
}

#[test]
fn segtree_query() {
    let mut tree = SegmentTree::<SumSet>::new(10, vec![2, 1, 4, 3, 6, 5, 8, 7, 10, 9]);
    assert_eq!(10, tree.query(0, 4));
    assert_eq!(48, tree.query(3, 10));
}

#[test]
fn segtree_modify() {
    let mut tree = SegmentTree::<SumSet>::new(10, vec![2, 1, 4, 3, 6, 5, 8, 7, 10, 9]);
    tree.modify(5, &2);
    assert_eq!(
        &vec![0, 52, 37, 15, 34, 3, 7, 8, 15, 19, 2, 1, 4, 3, 6, 2, 8, 7, 10, 9],
        tree.val()
    );
}

#[test]
fn segtree_sum_after_set() {
    let mut tree = SegmentTree::<SumSet>::new(10, vec![2, 1, 4, 3, 6, 5, 8, 7, 10, 9]);
    assert_eq!(10, tree.query(0, 4));
    assert_eq!(48, tree.query(3, 10));
    tree.modify(5, &2);
    assert_eq!(52, tree.query(0, 10));
}

#[test]
fn segtree_whole_range_is_the_sum_of_all() {
    let values = vec![2i64, 1, 4, 3, 6, 5, 8, 7, 10, 9];
    for n in 0..=10usize {
        let mut tree = SegmentTree::<SumSet>::new(n, values[..n].to_vec());
        assert_eq!(values[..n].iter().sum::<i64>(), tree.query(0, n));
    }
}

#[test]
fn segtree_every_range_is_the_sum_of_its_values() {
    let values = vec![2i64, 1, 4, 3, 6, 5, 8, 7, 10, 9];
    let mut tree = SegmentTree::<SumSet>::new(10, values.clone());
    for l in 0..=10 {
        for r in l..=10 {
            assert_eq!(values[l..r].iter().sum::<i64>(), tree.query(l, r));
        }
    }
}

#[test]
fn segtree_modify_then_query_one() {
    let mut tree = SegmentTree::<SumSet>::new(7, vec![5, 4, 3, 2, 1, 0, 9]);
    for i in 0..7 {
        tree.modify(i, &(100 + i as i64));
        assert_eq!(100 + i as i64, tree.query(i, i + 1));
    }
}

#[test]
fn segtree_empty_range_is_identity_and_changes_nothing() {
    let mut tree = SegmentTree::<SumSet>::new(10, vec![2, 1, 4, 3, 6, 5, 8, 7, 10, 9]);
    let before = tree.val().clone();
    for l in 0..=10 {
        assert_eq!(0, tree.query(l, l));
    }
    assert_eq!(&before, tree.val());
}

#[test]
fn segtree_short_data_is_padded_and_long_data_cut() {
    let short = SegmentTree::<SumSet>::new(4, vec![7, 8]);
    assert_eq!(&vec![0, 15, 15, 0, 7, 8, 0, 0], short.val());
    let long = SegmentTree::<SumSet>::new(2, vec![1, 2, 3, 4]);
    assert_eq!(&vec![0, 3, 1, 2], long.val());
    let none = SegmentTree::<SumSet>::new(0, vec![1]);
    assert_eq!(&Vec::<i64>::new(), none.val());
}

#[test]
fn segtree_power_of_two_keeps_the_order() {
    let mut tree = SegmentTree::<KeepFirst>::new(4, firsts(&[1, 2, 3, 4]));
    assert_eq!(Some(1), tree.query(0, 4));
    assert_eq!(Some(2), tree.query(1, 4));
    assert_eq!(Some(1), tree.query(0, 3));
    assert_eq!(Some(3), tree.query(2, 3));
    assert_eq!(None, tree.query(2, 2));
}

#[test]
fn segtree_keeps_the_order_on_every_range() {
    let mut tree = SegmentTree::<KeepFirst>::new(4, firsts(&[1, 2, 3, 4]));
    assert_eq!(Some(2), tree.query(1, 3));
    let mut odd = SegmentTree::<KeepFirst>::new(3, firsts(&[1, 2, 3]));
    assert_eq!(Some(1), odd.query(0, 3));
    assert_eq!(Some(1), odd.query(0, 2));
    assert_eq!(Some(2), odd.query(1, 3));
    for n in 1..=17usize {
        let values: Vec<u64> = (1..=n as u64).collect();
        let mut tree = SegmentTree::<KeepFirst>::new(n, firsts(&values));
        for l in 0..n {
            for r in (l + 1)..=n {
                assert_eq!(Some(l as u64 + 1), tree.query(l, r));
            }
        }
    }
}

#[test]
fn segtree_whole_range_is_the_fold_from_the_left() {
    let values = vec![None, Some(5), None, Some(7), Some(2), None, Some(9)];
    let mut tree = SegmentTree::<KeepFirst>::new(7, values.clone());
    let folded = values.iter().fold(None, |acc: Option<u64>, x| acc.or(*x));
    assert_eq!(folded, tree.query(0, 7));
    assert_eq!(Some(5), tree.query(0, 7));
    assert_eq!(Some(7), tree.query(2, 7));
    assert_eq!(Some(9), tree.query(5, 7));
}

#[test]
fn segtree_update_replaces_the_value() {
    let mut tree = SegmentTree::<KeepFirst>::new(4, vec![None, Some(2), Some(3), None]);
    assert_eq!(Some(2), tree.query(0, 2));
    tree.modify(0, &Some(9));
    assert_eq!(Some(9), tree.query(0, 1));
    assert_eq!(Some(9), tree.query(0, 2));
    tree.modify(0, &None);
    tree.modify(1, &None);
    assert_eq!(None, tree.query(0, 2));
    assert_eq!(Some(3), tree.query(0, 4));
}

#[test]
fn segtree_refuses_ranges_outside() {
    let mut tree = SegmentTree::<SumSet>::new(10, vec![2, 1, 4, 3, 6, 5, 8, 7, 10, 9]);
    let before = tree.val().clone();
    assert_eq!(Err(IndexOutOfRange { index: 10, size: 10 }), tree.try_modify(10, &1));
    assert_eq!(Err(IndexOutOfRange { index: 11, size: 10 }), tree.try_query(0, 11));
    assert_eq!(Err(IndexOutOfRange { index: 5, size: 10 }), tree.try_query(5, 4));
    assert_eq!(Err(IndexOutOfRange { index: 12, size: 10 }), tree.try_query(13, 12));
    assert_eq!(&before, tree.val());
    assert_eq!(Ok(55), tree.try_query(0, 10));
    assert_eq!(Ok(0), tree.try_query(10, 10));
    assert_eq!(Ok(()), tree.try_modify(9, &0));
    assert_eq!(Ok(46), tree.try_query(0, 10));
    assert_eq!(10, tree.len());
}
