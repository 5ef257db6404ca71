use ps_algorithm::data_structure::fenwick::{FenwickTree, FirstSeen, SumAdd};
use ps_algorithm::data_structure::IndexOutOfRange;

fn filled() -> FenwickTree<SumAdd> {
    let mut tree = FenwickTree::<SumAdd>::new(10);
    for (i, v) in [2, 1, 4, 3, 6, 5, 8, 7, 10, 9].iter().enumerate() {
        tree.modify(i + 1, &v);
    }
    tree
}

#[test]
fn fenwick_modify() {
    let tree = filled();
    assert_eq!(&vec![0, 2, 3, 4, 10, 6, 11, 8, 36, 10, 19], tree.val());
}

#[test]
fn fenwick_query() {
    let mut tree = filled();
    assert_eq!(10, tree.query(4));
    assert_eq!(55, tree.query(10));
}

#[test]
fn fenwick_new_holds_identities() {
    let tree = FenwickTree::<SumAdd>::new(4);
    assert_eq!(&vec![0, 0, 0, 0, 0], tree.val());
    let empty = FenwickTree::<SumAdd>::new(0);
    assert_eq!(&vec![0], empty.val());
}

#[test]
fn fenwick_query_of_nothing_is_identity() {
    let mut tree = filled();
    let before = tree.val().clone();
    assert_eq!(0, tree.query(0));
    assert_eq!(&before, tree.val());
}

#[test]
fn fenwick_prefixes_are_left_to_right_sums() {
    let values = [2i64, 1, 4, 3, 6, 5, 8, 7, 10, 9];
    let mut tree = filled();
    let mut sum = 0;
    for count in 1..=10 {
        sum += values[count - 1];
        assert_eq!(sum, tree.query(count));
    }
}

#[test]
fn fenwick_repeated_updates_add_up() {
    let mut tree = FenwickTree::<SumAdd>::new(5);
    tree.modify(3, &4);
    tree.modify(3, &-1);
    tree.modify(5, &7);
    assert_eq!(0, tree.query(2));
    assert_eq!(3, tree.query(3));
    assert_eq!(3, tree.query(4));
    assert_eq!(10, tree.query(5));
}

#[test]
fn fenwick_modify_touches_the_covering_nodes_only() {
    let mut tree = FenwickTree::<SumAdd>::new(8);
    tree.modify(5, &1);
    assert_eq!(&vec![0, 0, 0, 0, 0, 1, 1, 0, 1], tree.val());
    tree.modify(8, &2);
    assert_eq!(&vec![0, 0, 0, 0, 0, 1, 1, 0, 3], tree.val());
}

#[test]
fn fenwick_sums_wrap_around() {
    let mut tree = FenwickTree::<SumAdd>::new(2);
    tree.modify(1, &i64::MAX);
    tree.modify(2, &1);
    assert_eq!(i64::MAX, tree.query(1));
    assert_eq!(i64::MIN, tree.query(2));
}

#[test]
fn fenwick_refuses_positions_outside() {
    let mut tree = filled();
    let before = tree.val().clone();
    let zero = tree.try_modify(0, &1).unwrap_err();
    assert_eq!(IndexOutOfRange { index: 0, size: 10 }, zero);
    assert_eq!("index out of range", zero.message());
    assert_eq!(Err(IndexOutOfRange { index: 11, size: 10 }), tree.try_modify(11, &1));
    assert_eq!(Err(IndexOutOfRange { index: 11, size: 10 }), tree.try_query(11));
    assert_eq!(&before, tree.val());
    assert_eq!(Ok(55), tree.try_query(10));
    assert_eq!(Ok(0), tree.try_query(0));
    assert_eq!(Ok(()), tree.try_modify(10, &1));
    assert_eq!(Ok(56), tree.try_query(10));
    assert_eq!(10, tree.len());
}

#[test]
fn fenwick_rising_updates_keep_the_order() {
    let mut tree = FenwickTree::<FirstSeen>::new(6);
    tree.modify(3, &Some(30));
    tree.modify(5, &Some(50));
    tree.modify(6, &Some(60));
    assert_eq!(None, tree.query(0));
    assert_eq!(None, tree.query(2));
    assert_eq!(Some(30), tree.query(3));
    assert_eq!(Some(30), tree.query(4));
    assert_eq!(Some(30), tree.query(6));

    for n in 1..=12usize {
        for first in 1..=n {
            let mut tree = FenwickTree::<FirstSeen>::new(n);
            for i in first..=n {
                tree.modify(i, &Some(i as u64));
            }
            for count in 0..=n {
                let expected = if count >= first { Some(first as u64) } else { None };
                assert_eq!(expected, tree.query(count));
            }
        }
    }
}

#[test]
fn fenwick_sums_after_any_updates() {
    let mut tree = FenwickTree::<SumAdd>::new(7);
    let mut values = [0i64; 7];
    let updates = [(4usize, 5i64), (1, -2), (7, 9), (4, 1), (2, 3), (1, 8)];
    for (i, u) in updates {
        tree.modify(i, &u);
        values[i - 1] += u;
        for count in 0..=7 {
            assert_eq!(values[..count].iter().sum::<i64>(), tree.query(count));
        }
    }
}
