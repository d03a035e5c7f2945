use tpntree::tpntree::{Point, SpatialTree, TpnTree};
use tpntree::TpnTreeError;

#[test]
fn new_keeps_explicit_geometry() {
    let tree = TpnTree::<()>::new(vec![3, -1], vec![4, 1], 1, 2);
    assert_eq!(tree.coordinates(), &vec![3, -1]);
    assert_eq!(tree.span(), &vec![4, 1]);
    assert_eq!(tree.scale(), 1);
    assert_eq!(tree.level(), 2);
    assert!(tree.is_leaf());
    assert!(!tree.is_root());
    assert!(tree.data().is_none());
    assert_eq!(tree.child_count(), 0);
    assert!(tree.get_child(0).is_none());
}

#[test]
fn root_is_centered_level_zero() {
    let tree = TpnTree::<()>::root(7, 3);
    assert_eq!(tree.coordinates(), &vec![0, 0, 0]);
    assert_eq!(tree.span(), &vec![7, 7, 7]);
    assert_eq!(tree.scale(), 0);
    assert!(tree.is_root());
    assert!(tree.is_leaf());
}

#[test]
fn error_variants_are_distinct() {
    assert_ne!(TpnTreeError::DoesNotSpan, TpnTreeError::CanNotDivide);
    let mut tree = TpnTree::<()>::root(1, 1);
    assert_eq!(tree.divide(), Ok(()));
    assert_eq!(tree.divide(), Err(TpnTreeError::CanNotDivide));
    let mut spatial = SpatialTree::<Point>::root(1, 1);
    assert_eq!(
        spatial.insert_by_coordinates(Point::new(vec![9], 0), &|_| false),
        Err(TpnTreeError::DoesNotSpan)
    );
}

#[test]
fn data_mut_stores_and_clears_payload() {
    let mut tree = TpnTree::<&str>::root(1, 2);
    assert!(tree.data().is_none());
    *tree.data_mut() = Some("payload");
    assert_eq!(tree.data(), &Some("payload"));
    *tree.data_mut() = None;
    assert!(tree.data().is_none());
}

#[test]
fn spans_is_closed_on_boundaries() {
    let tree = SpatialTree::<Point>::root(1, 2);
    // Exactly on the corner.
    assert!(tree.spans(&Point::new(vec![1, 1], 0)));
    assert!(tree.spans(&Point::new(vec![-1, -1], 0)));
    // Just beyond it, at a finer scale.
    assert!(!tree.spans(&Point::new(vec![3, 2], 1)));
    // Mixed scales: (3/4, -3/4) lies inside.
    assert!(tree.spans(&Point::new(vec![3, -3], 2)));
}

#[test]
fn divided_region_geometry_is_exact() {
    // A root spanning 1 around the origin divides into quarters whose
    // centers sit at distance 1/2 and whose spans are 1/2.
    let mut tree = TpnTree::<()>::root(1, 2);
    assert!(tree.divide().is_ok());
    for child in tree.children().iter() {
        assert_eq!(child.span(), &vec![1, 1]);
        assert_eq!(child.scale(), 1);
        assert_eq!(child.level(), 1);
        assert!(child.is_leaf());
    }
}

#[test]
fn tree_clones_and_debug_prints() {
    let mut tree = TpnTree::<u32>::root(1, 2);
    assert!(tree.divide().is_ok());
    *tree.data_mut() = Some(5);
    let copy = tree.clone();
    assert_eq!(copy.coordinates(), tree.coordinates());
    assert_eq!(copy.span(), tree.span());
    assert_eq!(copy.child_count(), tree.child_count());
    assert_eq!(copy.data(), &Some(5));
    assert_eq!(
        copy.get_child(3).map(|c| c.coordinates().clone()),
        tree.get_child(3).map(|c| c.coordinates().clone())
    );
    let printed = format!("{:?}", tree);
    assert!(!printed.is_empty());
}
