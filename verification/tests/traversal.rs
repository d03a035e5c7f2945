use tpntree::tpntree::TpnTree;

#[test]
fn iterate_depth_first() {
    let mut tree = TpnTree::<f64>::root(1, 2);

    *tree.data_mut() = Some(1.0);
    assert!(tree.divide().is_ok());

    {
        let child = tree.get_child_mut(3).unwrap();
        *child.data_mut() = Some(2.0);
        assert!(child.divide().is_ok());
        let childchild = child.get_child_mut(3).unwrap();
        *childchild.data_mut() = Some(3.0);
    }

    let order = tree.depth_first();

    assert_eq!(order[0].data(), &Some(1.0));
    assert_eq!(order[1].data(), &Some(2.0));
    assert_eq!(order[2].data(), &Some(3.0));
}

#[test]
fn iterate_breadth_first() {
    let mut tree = TpnTree::<f64>::root(1, 2);

    *tree.data_mut() = Some(1.0);
    assert!(tree.divide().is_ok());

    {
        let child = tree.get_child_mut(0).unwrap();
        *child.data_mut() = Some(2.0);
        assert!(child.divide().is_ok());
    }
    {
        let child = tree.get_child_mut(1).unwrap();
        *child.data_mut() = Some(3.0);
        assert!(child.divide().is_ok());
    }

    let order = tree.breadth_first();

    assert_eq!(order[0].data(), &Some(1.0));
    assert_eq!(order[1].data(), &Some(2.0));
    assert_eq!(order[2].data(), &Some(3.0));
}

#[test]
fn iterators_iterate_depth_first() {
    let mut tree = TpnTree::<f64>::root(1, 2);

    *tree.data_mut() = Some(1.0);
    assert!(tree.divide().is_ok());

    {
        let child = tree.get_child_mut(3).unwrap();
        *child.data_mut() = Some(2.0);
        assert!(child.divide().is_ok());
        let childchild = child.get_child_mut(3).unwrap();
        *childchild.data_mut() = Some(3.0);
    }

    let order = tree.depth_first();

    assert_eq!(order[0].data(), &Some(1.0));
    assert_eq!(order[1].data(), &Some(2.0));
    assert_eq!(order[2].data(), &Some(3.0));
}

#[test]
fn iterators_iterate_breadth_first() {
    let mut tree = TpnTree::<f64>::root(1, 2);

    *tree.data_mut() = Some(1.0);
    assert!(tree.divide().is_ok());

    {
        let child = tree.get_child_mut(0).unwrap();
        *child.data_mut() = Some(2.0);
        assert!(child.divide().is_ok());
    }
    {
        let child = tree.get_child_mut(1).unwrap();
        *child.data_mut() = Some(3.0);
        assert!(child.divide().is_ok());
    }

    let order = tree.breadth_first();

    assert_eq!(order[0].data(), &Some(1.0));
    assert_eq!(order[1].data(), &Some(2.0));
    assert_eq!(order[2].data(), &Some(3.0));
}

#[test]
fn depth_first_visits_last_child_before_earlier_siblings() {
    let mut tree = TpnTree::<u32>::root(1, 1);
    *tree.data_mut() = Some(0);
    assert!(tree.divide().is_ok());
    *tree.get_child_mut(0).unwrap().data_mut() = Some(1);
    *tree.get_child_mut(1).unwrap().data_mut() = Some(2);

    let order = tree.depth_first();
    let seen: Vec<Option<u32>> = order.iter().map(|t| *t.data()).collect();
    // The stack yields the most recently enumerated child first.
    assert_eq!(seen, vec![Some(0), Some(2), Some(1)]);
}

#[test]
fn breadth_first_is_level_order() {
    let mut tree = TpnTree::<u32>::root(1, 1);
    *tree.data_mut() = Some(0);
    assert!(tree.divide().is_ok());
    {
        let child = tree.get_child_mut(0).unwrap();
        *child.data_mut() = Some(1);
        assert!(child.divide().is_ok());
        *child.get_child_mut(0).unwrap().data_mut() = Some(3);
        *child.get_child_mut(1).unwrap().data_mut() = Some(4);
    }
    *tree.get_child_mut(1).unwrap().data_mut() = Some(2);

    let order = tree.breadth_first();
    let seen: Vec<Option<u32>> = order.iter().map(|t| *t.data()).collect();
    assert_eq!(seen, vec![Some(0), Some(1), Some(2), Some(3), Some(4)]);
}
