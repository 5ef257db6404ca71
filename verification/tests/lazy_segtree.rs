use ps_algorithm::data_structure::lazy_segtree::{
    FirstAssign, LazySegmentTree, MinAssign, Operation, SumAdd,
};
use ps_algorithm::data_structure::IndexOutOfRange;

fn sample() -> LazySegmentTree<SumAdd> {
    LazySegmentTree::<SumAdd>::new(10, vec![2, 1, 4, 3, 6, 5, 8, 7, 10, 9])
}

#[test]
fn lazy_segtree_query() {
    let mut tree = sample();
    assert_eq!(10, tree.query(0, 4));
    assert_eq!(48, tree.query(3, 10));
}

#[test]
fn lazy_segtree_modify() {
    let mut tree = sample();
    tree.modify(5, 9, &-5);
    assert_eq!(
        &vec![0, 35, 22, 13, 19, 3, 7, 6, 5, 14, 2, 1, 4, 3, 6, 0, 8, 7, 5, 9],
        tree.val(),
    );
    assert_eq!(&vec![0, 0, 0, 0, 0, 0, 0, 0, -5, 0], tree.lazy());
}

#[test]
fn lazy_segtree_range_add_lowers_the_sum() {
    let mut tree = sample();
    assert_eq!(10, tree.query(0, 4));
    assert_eq!(48, tree.query(3, 10));
    let before = tree.query(5, 9);
    tree.modify(5, 9, &-5);
    assert_eq!(before - 5 * 4, tree.query(5, 9));
}

#[test]
fn lazy_segtree_range_add_moves_every_sum() {
    let mut values = vec![2i64, 1, 4, 3, 6, 5, 8, 7, 10, 9];
    let mut tree = sample();
    let updates = [(0usize, 10usize, 3i64), (2, 7, -4), (5, 6, 10), (0, 1, 1), (9, 10, -9), (3, 3, 8)];
    for (a, b, amount) in updates {
        let before = tree.query(a, b);
        tree.modify(a, b, &amount);
        for v in &mut values[a..b] {
            *v += amount;
        }
        assert_eq!(before + amount * (b - a) as i64, tree.query(a, b));
        for l in 0..=10 {
            for r in l..=10 {
                assert_eq!(values[l..r].iter().sum::<i64>(), tree.query(l, r));
            }
        }
    }
}

#[test]
fn lazy_segtree_empty_range_changes_nothing() {
    let mut tree = sample();
    tree.modify(0, 10, &7);
    let val = tree.val().clone();
    let lazy = tree.lazy().clone();
    for l in 0..=10 {
        assert_eq!(0, tree.query(l, l));
        tree.modify(l, l, &100);
    }
    assert_eq!(&val, tree.val());
    assert_eq!(&lazy, tree.lazy());
}

#[test]
fn lazy_segtree_short_data_is_padded() {
    let mut tree = LazySegmentTree::<SumAdd>::new(4, vec![7, 8]);
    assert_eq!(&vec![0, 15, 15, 0, 7, 8, 0, 0], tree.val());
    assert_eq!(&vec![0, 0, 0, 0], tree.lazy());
    assert_eq!(15, tree.query(0, 4));
    assert_eq!(0, tree.query(2, 4));
}

#[test]
fn lazy_segtree_of_one_value() {
    let mut tree = LazySegmentTree::<SumAdd>::new(1, vec![5]);
    assert_eq!(5, tree.query(0, 1));
    tree.modify(0, 1, &3);
    assert_eq!(8, tree.query(0, 1));
    assert_eq!(0, tree.query(1, 1));
}

#[test]
fn lazy_segtree_later_assignment_wins() {
    let mut values = vec![9i64, 8, 7, 6, 5, 4, 3];
    let mut tree = LazySegmentTree::<MinAssign>::new(7, values.clone());
    let updates = [(0usize, 7usize, 5i64), (2, 5, 9), (1, 3, 1), (4, 7, 2), (0, 2, 6)];
    for (a, b, x) in updates {
        tree.modify(a, b, &Some(x));
        for v in &mut values[a..b] {
            *v = x;
        }
        for l in 0..7 {
            for r in (l + 1)..=7 {
                assert_eq!(*values[l..r].iter().min().unwrap(), tree.query(l, r));
            }
        }
    }
}

#[test]
fn lazy_segtree_compose_then_apply_is_apply_twice() {
    for a in [-3i64, 0, 4] {
        for b in [-2i64, 0, 7] {
            for len in [1usize, 2, 8] {
                let mut composed = a;
                SumAdd::compose(&mut composed, &b);
                let mut once = 10;
                SumAdd::apply(&mut once, len, &composed);
                let mut twice = 10;
                SumAdd::apply(&mut twice, len, &a);
                SumAdd::apply(&mut twice, len, &b);
                assert_eq!(twice, once);
            }
        }
    }
    let mut composed = Some(3);
    MinAssign::compose(&mut composed, &None);
    assert_eq!(Some(3), composed);
    MinAssign::compose(&mut composed, &Some(8));
    assert_eq!(Some(8), composed);
}

#[test]
fn lazy_segtree_sums_wrap_around() {
    let mut tree = LazySegmentTree::<SumAdd>::new(4, vec![i64::MAX, 0, 0, 0]);
    tree.modify(0, 4, &1);
    assert_eq!(i64::MIN, tree.query(0, 1));
    assert_eq!(i64::MIN.wrapping_add(3), tree.query(0, 4));
    let mut value = 5;
    SumAdd::apply(&mut value, usize::MAX, &-1);
    assert_eq!(6, value);
}

#[test]
fn lazy_segtree_refuses_ranges_outside() {
    let mut tree = sample();
    tree.modify(0, 10, &1);
    let val = tree.val().clone();
    let lazy = tree.lazy().clone();
    assert_eq!(Err(IndexOutOfRange { index: 11, size: 10 }), tree.try_modify(0, 11, &1));
    assert_eq!(Err(IndexOutOfRange { index: 3, size: 10 }), tree.try_modify(3, 2, &1));
    assert_eq!(Err(IndexOutOfRange { index: 11, size: 10 }), tree.try_query(11, 11));
    assert_eq!(Err(IndexOutOfRange { index: 7, size: 10 }), tree.try_query(7, 0));
    assert_eq!(&val, tree.val());
    assert_eq!(&lazy, tree.lazy());
    assert_eq!(Ok(65), tree.try_query(0, 10));
    assert_eq!(Ok(()), tree.try_modify(9, 10, &-10));
    assert_eq!(Ok(0), tree.try_query(9, 10));
    assert_eq!(Ok(0), tree.try_query(10, 10));
    assert_eq!(10, tree.len());
}

#[test]
fn lazy_segtree_keeps_values_given_beyond_its_size() {
    let mut tree = LazySegmentTree::<SumAdd>::new(2, vec![1, 2, 3, 4]);
    assert_eq!(&vec![0, 3, 1, 2, 3, 4], tree.val());
    assert_eq!(&vec![0, 0], tree.lazy());
    assert_eq!(3, tree.query(0, 2));
    tree.modify(0, 2, &1);
    assert_eq!(5, tree.query(0, 2));
    assert_eq!(3, tree.val()[4]);
    assert_eq!(4, tree.val()[5]);
    let empty = LazySegmentTree::<SumAdd>::new(0, vec![9]);
    assert_eq!(&vec![9], empty.val());
}

#[test]
fn lazy_segtree_keeps_the_order_on_every_range() {
    for n in 1..=17usize {
        let values: Vec<Option<u64>> = (1..=n as u64).map(Some).collect();
        let mut tree = LazySegmentTree::<FirstAssign>::new(n, values);
        for l in 0..n {
            for r in (l + 1)..=n {
                assert_eq!(Some(l as u64 + 1), tree.query(l, r));
            }
        }
    }
}

#[test]
fn lazy_segtree_keeps_the_order_after_assignments() {
    let mut values: Vec<Option<u64>> = vec![None, Some(2), Some(3), None, Some(5), Some(6), None];
    let mut tree = LazySegmentTree::<FirstAssign>::new(7, values.clone());
    let updates = [(1usize, 4usize, 40u64), (0, 2, 10), (3, 7, 70), (2, 3, 30), (5, 6, 60)];
    for (a, b, x) in updates {
        tree.modify(a, b, &Some(x));
        for v in &mut values[a..b] {
            *v = Some(x);
        }
        for l in 0..7 {
            for r in l..=7 {
                let folded = values[l..r].iter().fold(None, |acc: Option<u64>, v| acc.or(*v));
                assert_eq!(folded, tree.query(l, r));
            }
        }
    }
}

#[test]
fn lazy_segtree_query_hands_pending_updates_down() {
    let mut tree = sample();
    tree.modify(0, 8, &1);
    let pending_before = tree.lazy().clone();
    assert_eq!(&vec![0, 0, 0, 1, 0, 1, 0, 0, 1, 0], &pending_before);
    assert_eq!(3 + 2 + 5, tree.query(0, 3));
    assert_eq!(&vec![0, 0, 0, 0, 0, 0, 0, 1, 1, 0], tree.lazy());
    assert_eq!(3 + 2 + 5, tree.query(0, 3));
    assert_eq!(&vec![0, 0, 0, 0, 0, 0, 0, 1, 1, 0], tree.lazy());
}
