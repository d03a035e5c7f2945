use tpntree::tpntree::{Point, SpatialTree};
use tpntree::TpnTreeError;

// Points are dyadic fixed-point data: `Point::new(vec![1, 1, 1], 1)` is the
// point (1/2, 1/2, 1/2); `Point::new(vec![1, 1, 1], 0)` is (1, 1, 1).

#[test]
fn tree_contains_coordinates() {
    let tree = SpatialTree::<Point>::root(1, 3);

    let data_inside = Point::new(vec![1, 1, 1], 0);

    assert!(tree.spans(&data_inside));
}

#[test]
fn tree_does_not_contain_coordinates() {
    let tree = SpatialTree::<Point>::root(1, 3);

    let data_outside = Point::new(vec![2, 3, 2], 1);

    assert!(!tree.spans(&data_outside));
}

#[test]
fn insert_into_root() {
    let mut tree = SpatialTree::<Point>::root(1, 3);

    let data = Point::new(vec![1, 1, 1], 0);

    assert!(tree.insert_by_coordinates(data.clone(), &|_| false).is_ok());
    assert!(tree
        .find_by_coordinates(&Point::new(vec![0, 0, 0], 0))
        .map(|node| node.data().as_ref().map(|bag| bag.contains(&data)))
        .unwrap()
        .unwrap());
    assert!(tree.is_leaf());
}

#[test]
fn insert_and_split() {
    let mut tree = SpatialTree::<Point>::root(1, 3);

    let data_one = Point::new(vec![1, 1, 1], 0);
    let data_two = Point::new(vec![-1, -1, -1], 0);

    let division_condition = |tree: &SpatialTree<Point>| tree.data().is_some();

    assert!(tree.insert_by_coordinates(data_one.clone(), &division_condition).is_ok());
    assert!(tree.insert_by_coordinates(data_two.clone(), &division_condition).is_ok());
    assert!(tree
        .find_by_coordinates(&Point::new(vec![1, 1, 1], 1))
        .ok()
        .and_then(|node| node.data().as_ref().map(|bag| bag.contains(&data_one)))
        .unwrap());
    assert!(tree
        .find_by_coordinates(&Point::new(vec![-1, -1, -1], 1))
        .ok()
        .and_then(|node| node.data().as_ref().map(|bag| bag.contains(&data_two)))
        .unwrap());
    assert!(tree.data().is_none());
    assert!(tree.child_count() == 8);
}

#[test]
fn end_to_end_split_places_each_item_in_its_octant() {
    let mut tree = SpatialTree::<Point>::root(1, 3);

    let data_one = Point::new(vec![1, 1, 1], 0);
    let data_two = Point::new(vec![-1, -1, -1], 0);
    let division_condition = |tree: &SpatialTree<Point>| tree.data().is_some();

    assert!(tree.insert_by_coordinates(data_one.clone(), &division_condition).is_ok());
    assert!(tree.insert_by_coordinates(data_two.clone(), &division_condition).is_ok());

    assert_eq!(tree.child_count(), 8);
    assert!(tree.data().is_none());

    // The child centered at (1/2, 1/2, 1/2) holds the first item.
    let upper = tree
        .children()
        .iter()
        .find(|c| c.coordinates() == &vec![1, 1, 1] && c.scale() == 1)
        .unwrap();
    assert_eq!(upper.data().as_ref().map(|bag| bag.len()), Some(1));
    assert!(upper.data().as_ref().unwrap().contains(&data_one));

    // The child centered at (-1/2, -1/2, -1/2) holds the second.
    let lower = tree
        .children()
        .iter()
        .find(|c| c.coordinates() == &vec![-1, -1, -1] && c.scale() == 1)
        .unwrap();
    assert_eq!(lower.data().as_ref().map(|bag| bag.len()), Some(1));
    assert!(lower.data().as_ref().unwrap().contains(&data_two));
}

#[test]
fn insert_outside_root_fails_and_leaves_tree_unchanged() {
    let mut tree = SpatialTree::<Point>::root(1, 3);
    let inside = Point::new(vec![1, 1, 1], 1);
    assert!(tree.insert_by_coordinates(inside.clone(), &|_| false).is_ok());

    let outside = Point::new(vec![3, 3, 3], 0);
    let result = tree.insert_by_coordinates(outside, &|_| false);
    assert_eq!(result, Err(TpnTreeError::DoesNotSpan));

    // The tree is exactly as before the failed call.
    assert!(tree.is_leaf());
    assert_eq!(tree.coordinates(), &vec![0, 0, 0]);
    assert_eq!(tree.span(), &vec![1, 1, 1]);
    assert_eq!(tree.data().as_ref().map(|bag| bag.len()), Some(1));
    assert!(tree.data().as_ref().unwrap().contains(&inside));
}

#[test]
fn find_outside_root_fails() {
    let tree = SpatialTree::<Point>::root(1, 2);
    let outside = Point::new(vec![5, 0], 0);
    assert_eq!(tree.find_by_coordinates(&outside).err(), Some(TpnTreeError::DoesNotSpan));
}

#[test]
fn find_breaks_boundary_ties_toward_first_child() {
    let mut tree = SpatialTree::<Point>::root(1, 2);
    assert!(tree.divide().is_ok());

    // The origin lies on the shared boundary of all four children; the
    // descent picks the first spanning child in enumeration order.
    let origin = Point::new(vec![0, 0], 0);
    let found = tree.find_by_coordinates(&origin).unwrap();
    assert_eq!(found.coordinates(), &vec![1, 1]);
    assert_eq!(found.scale(), 1);
}

#[test]
fn inserted_boundary_point_is_findable() {
    let mut tree = SpatialTree::<Point>::root(2, 2);
    let division_condition = |tree: &SpatialTree<Point>| tree.data().is_some();

    let a = Point::new(vec![1, 1], 0);
    let b = Point::new(vec![1, 1], 1);
    assert!(tree.insert_by_coordinates(a.clone(), &division_condition).is_ok());
    assert!(tree.insert_by_coordinates(b.clone(), &division_condition).is_ok());

    let found_a = tree.find_by_coordinates(&a).unwrap();
    assert!(found_a.data().as_ref().unwrap().contains(&a));
    let found_b = tree.find_by_coordinates(&b).unwrap();
    assert!(found_b.data().as_ref().unwrap().contains(&b));
}
