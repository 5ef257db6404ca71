use ps_algorithm::graph::hld::{HeavyLight, Path};
use ps_algorithm::graph::Graph;

fn collect(mut path: Path<'_>) -> Vec<(usize, usize)> {
    let mut out = Vec::new();
    while let Some(stretch) = path.next() {
        out.push(stretch);
    }
    out
}

fn test_tree1() -> Graph<()> {
    //         1
    //      /     \
    //      0     2
    //   /     \   \
    //   5     4   3
    // /   \   |
    // 6   7   8
    let mut tree = Graph::new(9, 8);
    tree.connect(1, 0, ());
    tree.connect(1, 2, ());
    tree.connect(0, 5, ());
    tree.connect(0, 4, ());
    tree.connect(2, 3, ());
    tree.connect(5, 6, ());
    tree.connect(5, 7, ());
    tree.connect(4, 8, ());
    tree
}

// Tree 1 in bidirectional manner.
fn test_tree2() -> Graph<()> {
    let mut tree = Graph::new(9, 16);
    tree.connect(1, 0, ());
    tree.connect(1, 2, ());
    tree.connect(0, 5, ());
    tree.connect(0, 4, ());
    tree.connect(2, 3, ());
    tree.connect(5, 6, ());
    tree.connect(5, 7, ());
    tree.connect(4, 8, ());
    tree.connect(0, 1, ());
    tree.connect(2, 1, ());
    tree.connect(5, 0, ());
    tree.connect(4, 0, ());
    tree.connect(3, 2, ());
    tree.connect(6, 5, ());
    tree.connect(7, 5, ());
    tree.connect(8, 4, ());
    tree
}

#[test]
fn fill_chains() {
    let tree = test_tree1();
    let hld = HeavyLight::new(1, &tree);
    assert_eq!(&vec![1, 1, 1, 2, 0, 0, 5, 5, 4], hld.parents());
    assert_eq!(&vec![2, 1, 2, 3, 3, 3, 4, 4, 4], hld.depths());
    assert_eq!(&vec![5, 0, 3, 3, 8, 6, 6, 7, 8], hld.chains());
}

#[test]
fn fill_chains_bidirectional() {
    let tree = test_tree2();
    let hld = HeavyLight::new(1, &tree);
    assert_eq!(&vec![1, 1, 1, 2, 0, 0, 5, 5, 4], hld.parents());
    assert_eq!(&vec![2, 1, 2, 3, 3, 3, 4, 4, 4], hld.depths());
    assert_eq!(&vec![5, 0, 3, 3, 8, 6, 6, 7, 8], hld.chains());
}

#[test]
fn fill_heads() {
    let tree = test_tree1();
    let hld = HeavyLight::new(1, &tree);
    assert_eq!(&vec![1, 1, 2, 2, 4, 1, 1, 7, 4], hld.heads());
    assert_eq!(&vec![1, 0, 7, 8, 5, 2, 3, 4, 6], hld.pos());
}

#[test]
fn fill_heads_bidirectional() {
    let tree = test_tree2();
    let hld = HeavyLight::new(1, &tree);
    assert_eq!(&vec![1, 1, 2, 2, 4, 1, 1, 7, 4], hld.heads());
    assert_eq!(&vec![1, 0, 7, 8, 5, 2, 3, 4, 6], hld.pos());
}

#[test]
fn path() {
    let tree = test_tree1();
    let hld = HeavyLight::new(1, &tree);
    assert_eq!(vec![(7, 8), (0, 2)], collect(hld.path(5, 3)));
    assert_eq!(vec![(7, 8), (0, 2)], collect(hld.path(3, 5)));
    assert_eq!(vec![(4, 4), (5, 6), (1, 2)], collect(hld.path(8, 7)));
    assert_eq!(vec![(4, 4), (5, 6), (1, 2)], collect(hld.path(7, 8)));
}

#[test]
fn hld_of_a_single_node() {
    let tree = Graph::<()>::new(1, 0);
    let hld = HeavyLight::new(0, &tree);
    assert_eq!(&vec![0], hld.parents());
    assert_eq!(&vec![1], hld.depths());
    assert_eq!(&vec![0], hld.chains());
    assert_eq!(&vec![0], hld.heads());
    assert_eq!(&vec![0], hld.pos());
    assert_eq!(vec![(0, 0)], collect(hld.path(0, 0)));
}

#[test]
fn hld_of_a_path_is_one_chain() {
    let mut tree = Graph::new(5, 8);
    for v in 0..4 {
        tree.connect(v, v + 1, ());
        tree.connect(v + 1, v, ());
    }
    let hld = HeavyLight::new(0, &tree);
    assert_eq!(&vec![0, 0, 1, 2, 3], hld.parents());
    assert_eq!(&vec![1, 2, 3, 4, 5], hld.depths());
    assert_eq!(&vec![1, 2, 3, 4, 4], hld.chains());
    assert_eq!(&vec![0, 0, 0, 0, 0], hld.heads());
    assert_eq!(&vec![0, 1, 2, 3, 4], hld.pos());
    assert_eq!(vec![(1, 3)], collect(hld.path(3, 1)));
    assert_eq!(vec![(2, 2)], collect(hld.path(2, 2)));
}

#[test]
fn hld_chains_have_consecutive_positions() {
    let tree = test_tree2();
    let hld = HeavyLight::new(1, &tree);
    for v in 0..9 {
        let next = hld.chains()[v];
        if next != v {
            assert_eq!(hld.pos()[v] + 1, hld.pos()[next]);
            assert_eq!(hld.heads()[v], hld.heads()[next]);
            assert_eq!(v, hld.parents()[next]);
        }
        if hld.heads()[v] == v && v != 1 {
            assert!(hld.chains()[hld.parents()[v]] != v);
        }
    }
    let mut seen = hld.pos().clone();
    seen.sort();
    assert_eq!((0..9).collect::<Vec<usize>>(), seen);
}

#[test]
fn hld_leaves_unreachable_nodes_alone() {
    let mut tree = Graph::new(4, 1);
    tree.connect(0, 1, ());
    let hld = HeavyLight::new(0, &tree);
    assert_eq!(&vec![0, 0, 0, 0], hld.parents());
    assert_eq!(&vec![1, 2, 0, 0], hld.depths());
    assert_eq!(&vec![1, 1, 2, 3], hld.chains());
    assert_eq!(&vec![0, 0, 0, 0], hld.heads());
    assert_eq!(&vec![0, 1, 0, 0], hld.pos());
}

fn naive_path(hld: &HeavyLight, mut u: usize, mut v: usize) -> Vec<usize> {
    let mut nodes = Vec::new();
    while u != v {
        if hld.depths()[u] > hld.depths()[v] {
            nodes.push(u);
            u = hld.parents()[u];
        } else {
            nodes.push(v);
            v = hld.parents()[v];
        }
    }
    nodes.push(u);
    nodes
}

#[test]
fn hld_stretches_hold_the_positions_of_the_path() {
    for tree in [test_tree1(), test_tree2()] {
        let hld = HeavyLight::new(1, &tree);
        for u in 0..9 {
            for v in 0..9 {
                let mut expected: Vec<usize> =
                    naive_path(&hld, u, v).iter().map(|x| hld.pos()[*x]).collect();
                expected.sort();
                let mut found = Vec::new();
                for (a, b) in collect(hld.path(u, v)) {
                    assert!(a <= b);
                    found.extend(a..=b);
                }
                found.sort();
                assert_eq!(expected, found);
            }
        }
    }
}

#[test]
fn hld_chains_go_on_with_the_heaviest_child() {
    for tree in [test_tree1(), test_tree2()] {
        let hld = HeavyLight::new(1, &tree);
        let weight = |c: usize| -> usize {
            (0..9).filter(|x| naive_path(&hld, c, *x).contains(&c) && {
                let mut up = *x;
                while hld.depths()[up] > hld.depths()[c] {
                    up = hld.parents()[up];
                }
                up == c
            }).count()
        };
        assert_eq!(9, weight(1));
        assert_eq!(6, weight(0));
        assert_eq!(3, weight(5));
        assert_eq!(1, weight(8));
        for c in 0..9 {
            if c != 1 {
                let parent = hld.parents()[c];
                let chosen = hld.chains()[parent];
                assert!(chosen != parent);
                assert!(weight(c) <= weight(chosen));
            }
        }
    }
}

#[test]
fn hld_equal_children_keep_the_one_listed_last() {
    // The root lists its children as 3, 2, 1: the edge made last comes first.
    let mut star = Graph::new(4, 3);
    star.connect(0, 1, ());
    star.connect(0, 2, ());
    star.connect(0, 3, ());
    let hld = HeavyLight::new(0, &star);
    assert_eq!(&vec![1, 1, 2, 3], hld.chains());
    assert_eq!(&vec![0, 0, 2, 3], hld.heads());
    assert_eq!(&vec![0, 1, 2, 3], hld.pos());

    let mut other = Graph::new(4, 3);
    other.connect(0, 3, ());
    other.connect(0, 1, ());
    other.connect(0, 2, ());
    let hld = HeavyLight::new(0, &other);
    assert_eq!(&vec![3, 1, 2, 3], hld.chains());
    assert_eq!(&vec![0, 1, 2, 0], hld.heads());
    assert_eq!(&vec![0, 2, 3, 1], hld.pos());
}

#[test]
fn hld_subtrees_have_positions_of_their_own() {
    for tree in [test_tree1(), test_tree2()] {
        let hld = HeavyLight::new(1, &tree);
        assert_eq!(0, hld.pos()[1]);
        for c in 0..9usize {
            let mut members = Vec::new();
            for x in 0..9usize {
                let mut up = x;
                while up != c && up != 1 {
                    up = hld.parents()[up];
                }
                if up == c {
                    members.push(hld.pos()[x]);
                }
            }
            members.sort();
            let first = hld.pos()[c];
            let expected: Vec<usize> = (first..first + members.len()).collect();
            assert_eq!(expected, members);
        }
    }
}
