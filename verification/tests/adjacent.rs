use tpntree::tpntree::TpnTree;

#[test]
fn get_adjacent_trees_dimension_one() {
    let root = TpnTree::<()>::root(1, 1);

    let adjacent_trees = root.adjacent_trees();

    assert!(adjacent_trees.iter().any(|c| c.coordinates() == &vec![2]));
    assert!(adjacent_trees.iter().any(|c| c.coordinates() == &vec![-2]));
}

#[test]
fn get_adjacent_trees_dimension_two() {
    let root = TpnTree::<()>::root(1, 2);

    let adjacent_trees = root.adjacent_trees();

    assert!(adjacent_trees.iter().any(|c| c.coordinates() == &vec![0, 2]));
    assert!(adjacent_trees.iter().any(|c| c.coordinates() == &vec![0, -2]));
    assert!(adjacent_trees.iter().any(|c| c.coordinates() == &vec![2, 0]));
    assert!(adjacent_trees.iter().any(|c| c.coordinates() == &vec![-2, 0]));
}

#[test]
fn mod_get_adjacent_trees_dimension_one() {
    let root = TpnTree::<()>::root(1, 1);

    let adjacent_trees = root.adjacent_trees();

    assert!(adjacent_trees.iter().any(|c| c.coordinates() == &vec![2]));
    assert!(adjacent_trees.iter().any(|c| c.coordinates() == &vec![-2]));
}

#[test]
fn mod_get_adjacent_trees_dimension_two() {
    let root = TpnTree::<()>::root(1, 2);

    let adjacent_trees = root.adjacent_trees();

    assert!(adjacent_trees.iter().any(|c| c.coordinates() == &vec![0, 2]));
    assert!(adjacent_trees.iter().any(|c| c.coordinates() == &vec![0, -2]));
    assert!(adjacent_trees.iter().any(|c| c.coordinates() == &vec![2, 0]));
    assert!(adjacent_trees.iter().any(|c| c.coordinates() == &vec![-2, 0]));
}

#[test]
fn adjacent_trees_axis_major_above_before_below() {
    let root = TpnTree::<()>::root(1, 2);

    let adjacent_trees = root.adjacent_trees();

    assert_eq!(adjacent_trees.len(), 4);
    assert_eq!(adjacent_trees[0].coordinates(), &vec![2, 0]);
    assert_eq!(adjacent_trees[1].coordinates(), &vec![-2, 0]);
    assert_eq!(adjacent_trees[2].coordinates(), &vec![0, 2]);
    assert_eq!(adjacent_trees[3].coordinates(), &vec![0, -2]);
    for t in adjacent_trees.iter() {
        assert_eq!(t.span(), root.span());
        assert_eq!(t.scale(), root.scale());
        assert_eq!(t.level(), 0);
        assert!(t.is_leaf());
        assert!(t.data().is_none());
    }
}
