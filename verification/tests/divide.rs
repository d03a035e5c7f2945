use tpntree::tpntree::TpnTree;

// The region values below are exact dyadic fixed-point data: a numerator
// `n` at scale `s` stands for `n / 2^s`. A root of span 2 at scale 0 that
// divides has children centered at +1 and -1; a root of span 1 has children
// centered at +1/2 and -1/2, written as numerator 1 at scale 1.

#[test]
fn divide_into_subregions_dim_1() {
    let mut root = TpnTree::<()>::root(2, 1);

    assert!(root.divide().is_ok());
    assert_eq!(root.child_count(), 2);

    assert_eq!(root.get_child(0).map(|c| c.coordinates().clone()), Some(vec![2]));
    assert_eq!(root.get_child(1).map(|c| c.coordinates().clone()), Some(vec![-2]));
    assert_eq!(root.get_child(0).map(|c| c.scale()), Some(1));

    assert!(root.divide().is_err());
}

#[test]
fn divide_into_subregions_dim_2() {
    let mut root = TpnTree::<()>::root(1, 2);

    assert!(root.divide().is_ok());
    assert_eq!(root.child_count(), 4);

    let children = root.children();
    assert!(children.iter().any(|c| c.coordinates() == &vec![1, 1]));
    assert!(children.iter().any(|c| c.coordinates() == &vec![1, -1]));
    assert!(children.iter().any(|c| c.coordinates() == &vec![-1, 1]));
    assert!(children.iter().any(|c| c.coordinates() == &vec![-1, -1]));
    assert!(children.iter().all(|c| c.scale() == 1));

    assert!(root.divide().is_err());
}

#[test]
fn divide_into_subregions_dim_3() {
    let mut root = TpnTree::<()>::root(1, 3);

    assert!(root.divide().is_ok());
    assert_eq!(root.child_count(), 8);

    let children = root.children();
    assert!(children.iter().any(|c| c.coordinates() == &vec![1, 1, 1]));
    assert!(children.iter().any(|c| c.coordinates() == &vec![1, 1, -1]));
    assert!(children.iter().any(|c| c.coordinates() == &vec![1, -1, 1]));
    assert!(children.iter().any(|c| c.coordinates() == &vec![1, -1, -1]));
    assert!(children.iter().any(|c| c.coordinates() == &vec![-1, 1, 1]));
    assert!(children.iter().any(|c| c.coordinates() == &vec![-1, 1, -1]));
    assert!(children.iter().any(|c| c.coordinates() == &vec![-1, -1, 1]));
    assert!(children.iter().any(|c| c.coordinates() == &vec![-1, -1, -1]));

    assert!(root.divide().is_err());
}

#[test]
fn tpntree_divide_into_subregions_dim_1() {
    let mut tree = TpnTree::<()>::root(2, 1);

    assert!(tree.divide().is_ok());
    assert_eq!(tree.child_count(), 2);

    assert_eq!(tree.get_child(0).map(|c| c.coordinates().clone()), Some(vec![2]));
    assert_eq!(tree.get_child(1).map(|c| c.coordinates().clone()), Some(vec![-2]));

    assert!(tree.divide().is_err());
}

#[test]
fn tpntree_divide_into_subregions_dim_2() {
    let mut tree = TpnTree::<()>::root(1, 2);

    assert!(tree.divide().is_ok());
    assert_eq!(tree.child_count(), 4);

    let children = tree.children();
    assert!(children.iter().any(|c| c.coordinates() == &vec![1, 1]));
    assert!(children.iter().any(|c| c.coordinates() == &vec![1, -1]));
    assert!(children.iter().any(|c| c.coordinates() == &vec![-1, 1]));
    assert!(children.iter().any(|c| c.coordinates() == &vec![-1, -1]));

    assert!(tree.divide().is_err());
}

#[test]
fn tpntree_divide_into_subregions_dim_3() {
    let mut tree = TpnTree::<()>::root(1, 3);

    assert!(tree.divide().is_ok());
    assert_eq!(tree.child_count(), 8);

    let children = tree.children();
    assert!(children.iter().any(|c| c.coordinates() == &vec![1, 1, 1]));
    assert!(children.iter().any(|c| c.coordinates() == &vec![1, 1, -1]));
    assert!(children.iter().any(|c| c.coordinates() == &vec![1, -1, 1]));
    assert!(children.iter().any(|c| c.coordinates() == &vec![1, -1, -1]));
    assert!(children.iter().any(|c| c.coordinates() == &vec![-1, 1, 1]));
    assert!(children.iter().any(|c| c.coordinates() == &vec![-1, 1, -1]));
    assert!(children.iter().any(|c| c.coordinates() == &vec![-1, -1, 1]));
    assert!(children.iter().any(|c| c.coordinates() == &vec![-1, -1, -1]));

    assert!(tree.divide().is_err());
}

#[test]
fn mod_divide_into_subregions_dim_1() {
    let mut root = TpnTree::<()>::root(2, 1);

    assert!(root.divide().is_ok());
    assert_eq!(root.child_count(), 2);

    assert_eq!(root.get_child(0).map(|c| c.coordinates().clone()), Some(vec![2]));
    assert_eq!(root.get_child(1).map(|c| c.coordinates().clone()), Some(vec![-2]));

    assert!(root.divide().is_err());
}

#[test]
fn mod_divide_into_subregions_dim_2() {
    let mut root = TpnTree::<()>::root(1, 2);

    assert!(root.divide().is_ok());
    assert_eq!(root.child_count(), 4);

    let children = root.children();
    assert!(children.iter().any(|c| c.coordinates() == &vec![1, 1]));
    assert!(children.iter().any(|c| c.coordinates() == &vec![1, -1]));
    assert!(children.iter().any(|c| c.coordinates() == &vec![-1, 1]));
    assert!(children.iter().any(|c| c.coordinates() == &vec![-1, -1]));

    assert!(root.divide().is_err());
}

#[test]
fn mod_divide_into_subregions_dim_3() {
    let mut root = TpnTree::<()>::root(1, 3);

    assert!(root.divide().is_ok());
    assert_eq!(root.child_count(), 8);

    let children = root.children();
    assert!(children.iter().any(|c| c.coordinates() == &vec![1, 1, 1]));
    assert!(children.iter().any(|c| c.coordinates() == &vec![1, 1, -1]));
    assert!(children.iter().any(|c| c.coordinates() == &vec![1, -1, 1]));
    assert!(children.iter().any(|c| c.coordinates() == &vec![1, -1, -1]));
    assert!(children.iter().any(|c| c.coordinates() == &vec![-1, 1, 1]));
    assert!(children.iter().any(|c| c.coordinates() == &vec![-1, 1, -1]));
    assert!(children.iter().any(|c| c.coordinates() == &vec![-1, -1, 1]));
    assert!(children.iter().any(|c| c.coordinates() == &vec![-1, -1, -1]));

    assert!(root.divide().is_err());
}

#[test]
fn children_coordinates_pairwise_distinct() {
    for dim in 1..=3usize {
        let mut root = TpnTree::<()>::root(1, dim);
        assert!(root.divide().is_ok());
        let children = root.children();
        assert_eq!(children.len(), 1usize << dim);
        for a in 0..children.len() {
            for b in 0..children.len() {
                if a != b {
                    assert_ne!(children[a].coordinates(), children[b].coordinates());
                }
            }
        }
    }
}

#[test]
fn children_level_and_span_follow_parent() {
    let mut root = TpnTree::<()>::new(vec![4, -6], vec![2, 10], 3, 5);
    assert!(root.divide().is_ok());
    let children = root.children();
    assert_eq!(children.len(), 4);
    for c in children.iter() {
        assert_eq!(c.level(), 6);
        assert_eq!(c.scale(), 4);
        assert_eq!(c.span(), &vec![2, 10]);
    }
    // Counter order: bit 0 clear moves up along axis 0 first.
    assert_eq!(children[0].coordinates(), &vec![2 * 4 + 2, 2 * -6 + 10]);
    assert_eq!(children[1].coordinates(), &vec![2 * 4 - 2, 2 * -6 + 10]);
    assert_eq!(children[2].coordinates(), &vec![2 * 4 + 2, 2 * -6 - 10]);
    assert_eq!(children[3].coordinates(), &vec![2 * 4 - 2, 2 * -6 - 10]);
}

#[test]
fn divide_on_internal_node_reports_can_not_divide() {
    let mut root = TpnTree::<()>::root(1, 2);
    assert!(root.divide().is_ok());
    let before: Vec<Vec<i64>> =
        root.children().iter().map(|c| c.coordinates().clone()).collect();
    let result = root.divide();
    assert_eq!(result, Err(tpntree::TpnTreeError::CanNotDivide));
    let after: Vec<Vec<i64>> =
        root.children().iter().map(|c| c.coordinates().clone()).collect();
    assert_eq!(before, after);
    assert_eq!(root.child_count(), 4);
}
