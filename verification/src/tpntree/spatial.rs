use super::{
    lemma_child_coverage, lemma_first_spanning_found, lemma_first_spanning_none,
    lemma_wf_replace_data, lemma_wf_update_child, TpnTree, TpnTreeView,
};
use crate::errors::TpnTreeError;
use crate::dyadic::{le_at_exec, SCALE_LIMIT};
use vstd::arithmetic::power2::pow2;
use vstd::multiset::Multiset;
use vstd::prelude::*;

verus! {

broadcast use {vstd::seq_lib::group_to_multiset_ensures, vstd::multiset::group_multiset_axioms};

/// The coordinate-extraction capability a payload type needs for the
/// spatial locator: its position as dyadic fixed-point data, an ordered
/// sequence of `i64` numerators read at one power-of-two scale. The
/// numerator count must equal the tree's dimension.
pub trait Coordinates {
    /// The numerators of the position, one per axis.
    spec fn coordinates_spec(&self) -> Seq<i64>;

    /// The scale the numerators are read at.
    spec fn scale_spec(&self) -> u32;

    /// Returns the numerators of the position, one per axis.
    fn coordinates(&self) -> (r: &Vec<i64>)
        ensures
            r@ == self.coordinates_spec(),
    ;

    /// Returns the scale the numerators are read at.
    fn coordinate_scale(&self) -> (r: u32)
        ensures
            r == self.scale_spec(),
    ;
}

/// A point in N-dimensional space held as plain dyadic fixed-point data:
/// the coordinate along axis `i` is `coordinates[i] / 2^scale`.
#[derive(Debug, Clone, PartialEq, Eq)]
pub struct Point {
    coordinates: Vec<i64>,
    scale: u32,
}

impl Point {
    /// Creates a point from its coordinate numerators and their scale.
    pub fn new(coordinates: Vec<i64>, scale: u32) -> (r: Point)
        ensures
            r.coordinates_spec() == coordinates@,
            r.scale_spec() == scale,
    {
        Point { coordinates, scale }
    }
}

impl Coordinates for Point {
    closed spec fn coordinates_spec(&self) -> Seq<i64> {
        self.coordinates@
    }

    closed spec fn scale_spec(&self) -> u32 {
        self.scale
    }

    fn coordinates(&self) -> (r: &Vec<i64>) {
        &self.coordinates
    }

    fn coordinate_scale(&self) -> (r: u32) {
        self.scale
    }
}

/// A helper type to work with spatial data bins: the payload of each region
/// is a bag of items, so a region can accumulate several data points before
/// splitting.
pub type SpatialTree<T> = TpnTree<Vec<T>>;

/// The items of all trees of a forest together, as a multiset.
pub open spec fn forest_items<T>(f: Seq<TpnTreeView<Vec<T>>>) -> Multiset<T>
    decreases f,
{
    if f.len() == 0 {
        Multiset::empty()
    } else {
        forest_items(f.drop_last()).add(f.last().items())
    }
}

impl<T> TpnTreeView<Vec<T>> {
    /// The bag of items stored at this node itself: the payload sequence,
    /// or empty when there is none.
    pub open spec fn bag(self) -> Seq<T> {
        match self.data {
            Some(v) => v@,
            None => Seq::empty(),
        }
    }

    /// Every item stored anywhere in the subtree, as a multiset.
    pub open spec fn items(self) -> Multiset<T>
        decreases self,
    {
        self.bag().to_multiset().add(forest_items(self.children))
    }
}

impl<T: Coordinates> TpnTreeView<Vec<T>> {
    /// One stored item is admissible at this node: its dimension matches,
    /// its scale is representable, and the node's region spans it.
    pub open spec fn bag_item_ok(self, p: T) -> bool {
        &&& p.coordinates_spec().len() == self.dim()
        &&& p.scale_spec() <= SCALE_LIMIT
        &&& self.spans_point(p.coordinates_spec(), p.scale_spec() as nat)
    }

    /// Spatial well-formedness of the payloads: every item stored at any
    /// node of the subtree lies within that node's region. The insert
    /// operation establishes this for every item it stores and relies on it
    /// when it redistributes a divided leaf's bag to the children.
    pub open spec fn bags_wf(self) -> bool
        decreases self,
    {
        &&& forall|j: int| 0 <= j < self.bag().len() ==> self.bag_item_ok(#[trigger] self.bag()[j])
        &&& forall|k: int| 0 <= k < self.children.len() ==> (#[trigger] self.children[k]).bags_wf()
    }
}

/// Replacing one tree of a forest redirects its contribution to the item
/// count and changes nothing else: adding the replaced tree's items to the
/// new total gives the old total plus the replacement's items.
proof fn lemma_forest_items_update<T>(f: Seq<TpnTreeView<Vec<T>>>, k: int, c: TpnTreeView<Vec<T>>)
    requires
        0 <= k < f.len(),
    ensures
        forest_items(f.update(k, c)).add(f[k].items()) == forest_items(f).add(c.items()),
    decreases f.len(),
{
    let g = f.update(k, c);
    if k == f.len() - 1 {
        assert(g.drop_last() =~= f.drop_last());
        assert(g.last() == c);
        assert(forest_items(g).add(f[k].items()) =~= forest_items(f).add(c.items()));
    } else {
        assert(g.drop_last() =~= f.drop_last().update(k, c));
        assert(g.last() == f.last());
        lemma_forest_items_update(f.drop_last(), k, c);
        assert(f.drop_last()[k] == f[k]);
        assert(g.len() == f.len());
        assert(forest_items(g) == forest_items(g.drop_last()).add(g.last().items()));
        assert(forest_items(f) == forest_items(f.drop_last()).add(f.last().items()));
        assert(forest_items(g.drop_last()) == forest_items(f.drop_last().update(k, c)));
        assert forall|e: T|
            forest_items(g).add(f[k].items()).count(e) == forest_items(f).add(
                c.items(),
            ).count(e) by {
            assert(forest_items(f.drop_last().update(k, c)).add(f.drop_last()[k].items()).count(e)
                == forest_items(f.drop_last()).add(c.items()).count(e));
        }
        assert(forest_items(g).add(f[k].items()) =~= forest_items(f).add(c.items()));
    }
}

/// A forest of fresh empty leaves holds no items.
proof fn lemma_forest_items_all_empty<T>(f: Seq<TpnTreeView<Vec<T>>>)
    requires
        forall|k: int|
            0 <= k < f.len() ==> (#[trigger] f[k]).data is None && f[k].children.len() == 0,
    ensures
        forest_items(f) == Multiset::<T>::empty(),
    decreases f.len(),
{
    if f.len() > 0 {
        lemma_forest_items_all_empty(f.drop_last());
        let t = f.last();
        assert(t.bag() =~= Seq::<T>::empty());
        assert(t.bag().to_multiset().len() == 0);
        assert(t.items() =~= Multiset::<T>::empty());
        assert(forest_items(f) =~= Multiset::<T>::empty());
    }
}

/// A leaf's items are exactly its own bag.
proof fn lemma_leaf_items<T>(v: TpnTreeView<Vec<T>>)
    requires
        v.is_leaf(),
    ensures
        v.items() == v.bag().to_multiset(),
{
    assert(forest_items(v.children) == Multiset::<T>::empty());
    assert(v.items() =~= v.bag().to_multiset());
}

/// An item admissible at a node is admissible at any node with the same
/// geometry.
proof fn lemma_bag_item_ok_same_geometry<T: Coordinates>(
    v: TpnTreeView<Vec<T>>,
    w: TpnTreeView<Vec<T>>,
    p: T,
)
    requires
        v.bag_item_ok(p),
        w.coordinates == v.coordinates,
        w.span == v.span,
        w.scale == v.scale,
    ensures
        w.bag_item_ok(p),
{
}

/// Replacing a node's payload with admissible items preserves spatial
/// well-formedness of the payloads.
proof fn lemma_bags_wf_with_data<T: Coordinates>(v: TpnTreeView<Vec<T>>, d: Option<Vec<T>>)
    requires
        v.bags_wf(),
        ({
            let w = TpnTreeView { data: d, ..v };
            forall|j: int| 0 <= j < w.bag().len() ==> v.bag_item_ok(#[trigger] w.bag()[j])
        }),
    ensures
        (TpnTreeView { data: d, ..v }).bags_wf(),
{
    let w = TpnTreeView { data: d, ..v };
    assert forall|j: int| 0 <= j < w.bag().len() implies w.bag_item_ok(#[trigger] w.bag()[j]) by {
        lemma_bag_item_ok_same_geometry(v, w, w.bag()[j]);
    }
}

/// Replacing one child with a tree whose payloads are spatially
/// well-formed preserves spatial well-formedness of the whole.
proof fn lemma_bags_wf_update_child<T: Coordinates>(
    v: TpnTreeView<Vec<T>>,
    k: int,
    c: TpnTreeView<Vec<T>>,
)
    requires
        v.bags_wf(),
        0 <= k < v.children.len(),
        c.bags_wf(),
    ensures
        (TpnTreeView { children: v.children.update(k, c), ..v }).bags_wf(),
{
    let w = TpnTreeView { children: v.children.update(k, c), ..v };
    assert forall|j: int| 0 <= j < w.bag().len() implies w.bag_item_ok(#[trigger] w.bag()[j]) by {
        assert(v.bag_item_ok(v.bag()[j]));
        lemma_bag_item_ok_same_geometry(v, w, w.bag()[j]);
    }
    assert forall|j: int| 0 <= j < w.children.len() implies (#[trigger] w.children[j]).bags_wf() by {
        if j != k {
            assert(w.children[j] == v.children[j]);
            assert(v.children[j].bags_wf());
        }
    }
}

/// Division leaves the payloads spatially well-formed: the divided node
/// keeps its bag over an unchanged region, and the fresh children are
/// empty.
proof fn lemma_bags_wf_divided<T: Coordinates>(v: TpnTreeView<Vec<T>>)
    requires
        v.bags_wf(),
    ensures
        v.divided().bags_wf(),
{
    let w = v.divided();
    assert forall|j: int| 0 <= j < w.bag().len() implies w.bag_item_ok(#[trigger] w.bag()[j]) by {
        assert(v.bag_item_ok(v.bag()[j]));
        lemma_bag_item_ok_same_geometry(v, w, w.bag()[j]);
    }
    assert forall|j: int| 0 <= j < w.children.len() implies (#[trigger] w.children[j]).bags_wf() by {
        let ch = w.children[j];
        assert(ch == v.child_view(j as nat));
        assert(ch.bag() =~= Seq::<T>::empty());
    }
}

impl<T: Coordinates> SpatialTree<T> {
    /// Checks whether the tree's region spans the coordinates of the
    /// provided data: along every axis the data's coordinate lies within
    /// the closed interval from center minus span to center plus span.
    /// Children overlap on their shared boundary faces.
    pub fn spans(&self, data: &T) -> (r: bool)
        requires
            self@.wf(),
            data.coordinates_spec().len() == self@.dim(),
            data.scale_spec() <= SCALE_LIMIT,
        ensures
            r == self@.spans_point(data.coordinates_spec(), data.scale_spec() as nat),
    {
        let q = data.coordinates();
        let u = data.coordinate_scale();
        let cs = self.coordinates();
        let ss = self.span();
        let m = self.scale();
        let n = cs.len();
        let ghost qv = data.coordinates_spec();
        let mut i: usize = 0;
        while i < n
            invariant
                self@.wf(),
                qv == data.coordinates_spec(),
                q@ == qv,
                cs@ == self@.coordinates,
                ss@ == self@.span,
                m as nat == self@.scale,
                u == data.scale_spec(),
                u <= SCALE_LIMIT,
                n == self@.dim(),
                qv.len() == n,
                0 <= i <= n,
                forall|j: int|
                    0 <= j < i ==> {
                        let c = self@.coordinates[j] as int;
                        let s = self@.span[j] as int;
                        &&& crate::dyadic::le_at(c - s, self@.scale, #[trigger] qv[j] as int, u as nat)
                        &&& crate::dyadic::le_at(qv[j] as int, u as nat, c + s, self@.scale)
                    },
            decreases n - i,
        {
            let c = cs[i] as i128;
            let s = ss[i] as i128;
            let lo_ok = le_at_exec(c - s, m, q[i] as i128, u);
            let hi_ok = le_at_exec(q[i] as i128, u, c + s, m);
            if !(lo_ok && hi_ok) {
                return false;
            }
            i = i + 1;
        }
        true
    }
}

impl<T: Coordinates> TpnTreeView<Vec<T>> {
    /// Every item rests exactly where the coordinate descent looks for it:
    /// bags live only on leaves, and an item stored below an internal node
    /// lies under the first child, in enumeration order, that spans it.
    /// Insertion establishes this placement and preserves it.
    pub open spec fn placed(self) -> bool
        decreases self,
    {
        &&& (self.bag().len() > 0 ==> self.is_leaf())
        &&& forall|k: int, x: T|
            0 <= k < self.children.len() && (#[trigger] self.children[k].items().contains(x))
                ==> self.first_spanning_from(x.coordinates_spec(), x.scale_spec() as nat, 0) == k
        &&& forall|k: int| 0 <= k < self.children.len() ==> (#[trigger] self.children[k]).placed()
    }
}

/// An item held somewhere in a forest is held by one of its trees.
proof fn lemma_forest_items_member<T>(f: Seq<TpnTreeView<Vec<T>>>, x: T)
    requires
        forest_items(f).contains(x),
    ensures
        exists|k: int| 0 <= k < f.len() && (#[trigger] f[k].items()).contains(x),
    decreases f.len(),
{
    if f.len() > 0 {
        if f.last().items().contains(x) {
            assert(0 <= f.len() - 1 < f.len() && f[f.len() - 1].items().contains(x));
        } else {
            lemma_forest_items_member(f.drop_last(), x);
            let k = choose|k: int|
                0 <= k < f.drop_last().len() && (#[trigger] f.drop_last()[k].items()).contains(x);
            assert(f[k].items().contains(x));
        }
    }
}

/// Two nodes over the same region span exactly the same points.
proof fn lemma_spans_point_same_geometry<T, U>(
    v: TpnTreeView<T>,
    w: TpnTreeView<U>,
    q: Seq<i64>,
    u: nat,
)
    requires
        w.coordinates == v.coordinates,
        w.span == v.span,
        w.scale == v.scale,
    ensures
        w.spans_point(q, u) == v.spans_point(q, u),
{
    if v.spans_point(q, u) {
        assert(w.spans_point(q, u));
    }
    if w.spans_point(q, u) {
        assert(v.spans_point(q, u));
    }
}

/// The first-spanning scan depends only on which children span the point:
/// two nodes whose child lists agree on that, position by position, scan to
/// the same index.
proof fn lemma_first_spanning_same_spans<T>(
    v: TpnTreeView<Vec<T>>,
    w: TpnTreeView<Vec<T>>,
    q: Seq<i64>,
    u: nat,
    start: int,
)
    requires
        w.children.len() == v.children.len(),
        forall|j: int|
            0 <= j < v.children.len() ==> (#[trigger] w.children[j]).spans_point(q, u)
                == v.children[j].spans_point(q, u),
    ensures
        w.first_spanning_from(q, u, start) == v.first_spanning_from(q, u, start),
    decreases v.children.len() - start,
{
    if 0 <= start < v.children.len() && !v.children[start].spans_point(q, u) {
        lemma_first_spanning_same_spans(v, w, q, u, start + 1);
    }
}

/// The library's central retrieval guarantee: in a well-formed tree whose
/// payloads are placed by insertion, every stored item lies in the bag of
/// exactly the node that the coordinate descent reaches for the item's own
/// coordinates — what was inserted is found again.
pub proof fn lemma_every_item_is_located<T: Coordinates>(v: TpnTreeView<Vec<T>>, x: T)
    requires
        v.wf(),
        v.placed(),
        v.items().contains(x),
    ensures
        v.locate(x.coordinates_spec(), x.scale_spec() as nat).bag().contains(x),
    decreases v,
{
    let q = x.coordinates_spec();
    let u = x.scale_spec() as nat;
    if v.is_leaf() {
        lemma_leaf_items(v);
        assert(v.bag().to_multiset().contains(x));
        assert(v.bag().contains(x));
        assert(v.first_spanning_from(q, u, 0) == 0);
        assert(v.locate(q, u) == v);
    } else {
        assert(v.bag().len() == 0);
        assert(v.bag().to_multiset().len() == 0);
        assert(!v.bag().to_multiset().contains(x));
        assert(forest_items(v.children).contains(x));
        lemma_forest_items_member(v.children, x);
        let k = choose|k: int|
            0 <= k < v.children.len() && (#[trigger] v.children[k].items()).contains(x);
        assert(v.first_spanning_from(q, u, 0) == k);
        assert(v.locate(q, u) == v.children[k].locate(q, u));
        assert(v.children[k].wf());
        lemma_every_item_is_located(v.children[k], x);
    }
}

impl<T: Coordinates> SpatialTree<T> {
    /// Index of the first child in enumeration order that spans the data.
    fn first_spanning_index(&self, data: &T) -> (k: usize)
        requires
            self@.wf(),
            !self@.is_leaf(),
            data.coordinates_spec().len() == self@.dim(),
            data.scale_spec() <= SCALE_LIMIT,
            self@.spans_point(data.coordinates_spec(), data.scale_spec() as nat),
        ensures
            ({
                let q = data.coordinates_spec();
                let u = data.scale_spec() as nat;
                &&& k < self@.children.len()
                &&& self@.children[k as int].spans_point(q, u)
                &&& forall|j: int| 0 <= j < k ==> !(#[trigger] self@.children[j]).spans_point(q, u)
                &&& self@.first_spanning_from(q, u, 0) == k as int
            }),
    {
        let ghost q = data.coordinates_spec();
        let ghost u = data.scale_spec() as nat;
        proof {
            lemma_child_coverage(self@, q, u);
        }
        let n = self.child_count();
        let mut k: usize = 0;
        while k < n
            invariant
                self@.wf(),
                data.coordinates_spec().len() == self@.dim(),
                data.scale_spec() <= SCALE_LIMIT,
                q == data.coordinates_spec(),
                u == data.scale_spec() as nat,
                n == self@.children.len(),
                0 <= k <= n,
                exists|j: int|
                    0 <= j < self@.children.len() && (#[trigger] self@.children[j]).spans_point(
                        q,
                        u,
                    ),
                forall|j: int| 0 <= j < k ==> !(#[trigger] self@.children[j]).spans_point(q, u),
            decreases n - k,
        {
            match self.get_child(k) {
                Some(child) => {
                    proof {
                        let ki: int = k as int;
                        assert(self@.child_geometry_ok(ki as nat));
                        assert(self@.children[ki].wf());
                    }
                    if child.spans(data) {
                        proof {
                            lemma_first_spanning_found(self@, q, u, 0, k as int);
                        }
                        return k;
                    }
                },
                None => {
                    proof {
                        assert(false);
                    }
                },
            }
            k = k + 1;
        }
        proof {
            assert(false);
        }
        0
    }

    /// Inserts the data into the first child, in enumeration order, whose
    /// region spans it; that child absorbs the item recursively.
    fn insert_into_children<F: Fn(&Self) -> bool>(
        &mut self,
        data: T,
        division_condition: &F,
    ) -> (r: Result<(), TpnTreeError>)
        requires
            old(self)@.wf(),
            old(self)@.bags_wf(),
            old(self)@.placed(),
            !old(self)@.is_leaf(),
            data.coordinates_spec().len() == old(self)@.dim(),
            data.scale_spec() <= SCALE_LIMIT,
            old(self)@.spans_point(data.coordinates_spec(), data.scale_spec() as nat),
            forall|t: &Self| #[trigger] call_requires(*division_condition, (t,)),
            forall|t: &Self| call_ensures(*division_condition, (t,), true) ==> t@.divide_fits(),
        ensures
            r is Ok,
            final(self)@.wf(),
            final(self)@.bags_wf(),
            final(self)@.placed(),
            !final(self)@.is_leaf(),
            final(self)@.coordinates == old(self)@.coordinates,
            final(self)@.span == old(self)@.span,
            final(self)@.scale == old(self)@.scale,
            final(self)@.level == old(self)@.level,
            final(self)@.items() == old(self)@.items().insert(data),
            final(self)@.locate(data.coordinates_spec(), data.scale_spec() as nat).bag().contains(
                data,
            ),
            final(self)@.data == old(self)@.data,
            final(self)@.children.len() == old(self)@.children.len(),
            ({
                let k = old(self)@.first_spanning_from(
                    data.coordinates_spec(),
                    data.scale_spec() as nat,
                    0,
                );
                forall|j: int|
                    0 <= j < old(self)@.children.len() && j != k ==> final(self)@.children[j]
                        == old(self)@.children[j]
            }),
        decreases usize::MAX - old(self)@.level, 0nat,
    {
        let ghost q = data.coordinates_spec();
        let ghost u = data.scale_spec() as nat;
        let ghost pre = self@;
        let k = self.first_spanning_index(&data);
        let ghost ki: int = k as int;
        proof {
            assert(pre.child_geometry_ok(ki as nat));
            assert(pre.children[ki].wf());
            assert(pre.children[ki].bags_wf());
            assert(pre.children[ki].placed());
        }
        match self.get_child_mut(k) {
            Some(c) => {
                let ghost cpre = c@;
                proof {
                    assert(cpre == pre.children[ki]);
                    assert(cpre.dim() == pre.dim());
                    assert(cpre.level == pre.level + 1);
                }
                let res = c.insert_by_coordinates(data, division_condition);
                proof {
                    assert(!cpre.is_root());
                    assert(res is Ok);
                }
                let ghost w = self@;
                let ghost cpost = w.children[ki];
                proof {
                    assert(w.children =~= pre.children.update(ki, cpost));
                    assert(w =~= (TpnTreeView { children: pre.children.update(ki, cpost), ..pre }));
                    assert(cpost.wf() && cpost.bags_wf());
                    assert(cpost.coordinates == cpre.coordinates && cpost.span == cpre.span
                        && cpost.scale == cpre.scale && cpost.level == cpre.level);
                    lemma_wf_update_child(pre, ki, cpost);
                    assert(w.wf());
                    lemma_bags_wf_update_child(pre, ki, cpost);
                    assert(w.bags_wf());
                    // Item accounting: the child gained exactly the item.
                    lemma_forest_items_update(pre.children, ki, cpost);
                    assert(cpost.items() == cpre.items().insert(data));
                    assert forall|e: T| w.items().count(e) == pre.items().insert(data).count(e) by {
                        assert(forest_items(pre.children.update(ki, cpost)).add(
                            pre.children[ki].items(),
                        ).count(e) == forest_items(pre.children).add(cpost.items()).count(e));
                    }
                    assert(w.items() =~= pre.items().insert(data));
                    // The descent into the updated tree still chooses child
                    // `k`: the siblings and the child's geometry are
                    // unchanged.
                    assert(cpost.spans_point(q, u)) by {
                        assert(cpre.spans_point(q, u));
                        assert(cpost.dim() == cpre.dim());
                    }
                    assert forall|j: int| 0 <= j < ki implies !(#[trigger] w.children[j]).spans_point(
                        q,
                        u,
                    ) by {
                        assert(w.children[j] == pre.children[j]);
                    }
                    lemma_first_spanning_found(w, q, u, 0, ki);
                    assert(w.locate(q, u) == cpost.locate(q, u));
                    assert(w.locate(q, u).bag().contains(data));
                    // Only the chosen child changes: the payload, the child
                    // count, and every sibling subtree are untouched.
                    assert(w.data == pre.data);
                    assert(w.children.len() == pre.children.len());
                    assert(pre.first_spanning_from(q, u, 0) == ki);
                    assert forall|j: int|
                        0 <= j < pre.children.len() && j != ki implies w.children[j]
                        == pre.children[j] by {
                        assert(w.children[j] == pre.children.update(ki, cpost)[j]);
                    }
                    // Placement is preserved: the updated child keeps its
                    // region, so which child spans which point is unchanged.
                    assert(w.bag() == pre.bag());
                    assert(pre.bag().len() == 0);
                    assert forall|j: int, x: T|
                        0 <= j < w.children.len() && (#[trigger] w.children[j].items().contains(
                            x,
                        )) implies w.first_spanning_from(
                        x.coordinates_spec(),
                        x.scale_spec() as nat,
                        0,
                    ) == j by {
                        let xq = x.coordinates_spec();
                        let xu = x.scale_spec() as nat;
                        assert forall|m: int|
                            0 <= m < pre.children.len() implies (#[trigger] w.children[
                            m]).spans_point(xq, xu) == pre.children[m].spans_point(xq, xu) by {
                            if m == ki {
                                lemma_spans_point_same_geometry(cpre, cpost, xq, xu);
                            }
                        }
                        if j == ki {
                            if x == data {
                                assert(w.first_spanning_from(q, u, 0) == ki);
                            } else {
                                assert(cpost.items().count(x) == cpre.items().insert(
                                    data,
                                ).count(x));
                                assert(cpre.items().contains(x));
                                assert(pre.first_spanning_from(xq, xu, 0) == j);
                                lemma_first_spanning_same_spans(pre, w, xq, xu, 0);
                            }
                        } else {
                            assert(w.children[j] == pre.children[j]);
                            assert(pre.children[j].items().contains(x));
                            assert(pre.first_spanning_from(xq, xu, 0) == j);
                            lemma_first_spanning_same_spans(pre, w, xq, xu, 0);
                        }
                    }
                    assert forall|j: int| 0 <= j < w.children.len() implies (#[trigger] w.children[
                    j]).placed() by {
                        if j != ki {
                            assert(w.children[j] == pre.children[j]);
                            assert(pre.children[j].placed());
                        }
                    }
                    assert(w.placed());
                }
                res
            },
            None => {
                proof {
                    assert(false);
                }
                Err(TpnTreeError::CanNotDivide)
            },
        }
    }

    /// Inserts data into the subtree, descending to the region with its
    /// center closest to the data under the constraints of the
    /// `division_condition`.
    ///
    /// The `division_condition` is a caller-supplied, read-only predicate
    /// over a node, consulted before a leaf absorbs its next item: when it
    /// answers `true` the leaf divides first, drains its bag, appends the
    /// new item, and hands every item to whichever single child spans it,
    /// ties broken toward the earlier child in enumeration order. When it
    /// answers `false` the leaf simply appends the item to its bag. An
    /// internal node passes the item to its first spanning child.
    ///
    /// Fails with `DoesNotSpan` exactly when called on a root that does not
    /// span the data; the tree is then left unchanged. A condition that
    /// keeps requesting division on ever-smaller regions recurses further
    /// and further; the precondition that it may only answer `true` where a
    /// division is still representable bounds that recursion.
    pub fn insert_by_coordinates<F: Fn(&Self) -> bool>(
        &mut self,
        data: T,
        division_condition: &F,
    ) -> (r: Result<(), TpnTreeError>)
        requires
            old(self)@.wf(),
            old(self)@.bags_wf(),
            old(self)@.placed(),
            data.coordinates_spec().len() == old(self)@.dim(),
            data.scale_spec() <= SCALE_LIMIT,
            old(self)@.is_root() || old(self)@.spans_point(
                data.coordinates_spec(),
                data.scale_spec() as nat,
            ),
            forall|t: &Self| #[trigger] call_requires(*division_condition, (t,)),
            forall|t: &Self| call_ensures(*division_condition, (t,), true) ==> t@.divide_fits(),
        ensures
            final(self)@.wf(),
            final(self)@.bags_wf(),
            final(self)@.placed(),
            final(self)@.coordinates == old(self)@.coordinates,
            final(self)@.span == old(self)@.span,
            final(self)@.scale == old(self)@.scale,
            final(self)@.level == old(self)@.level,
            ({
                let q = data.coordinates_spec();
                let u = data.scale_spec() as nat;
                match r {
                    Ok(()) => {
                        &&& !(old(self)@.is_root() && !old(self)@.spans_point(q, u))
                        &&& final(self)@.items() == old(self)@.items().insert(data)
                        &&& final(self)@.locate(q, u).bag().contains(data)
                        // An internal node hands the item to its first
                        // spanning child; its payload, its child count and
                        // every sibling subtree stay untouched.
                        &&& (!old(self)@.is_leaf() ==> {
                            let k = old(self)@.first_spanning_from(q, u, 0);
                            &&& final(self)@.data == old(self)@.data
                            &&& final(self)@.children.len() == old(self)@.children.len()
                            &&& forall|j: int|
                                0 <= j < old(self)@.children.len() && j != k
                                    ==> final(self)@.children[j] == old(self)@.children[j]
                        })
                        // A leaf consults the division condition on itself:
                        // on a false answer it stays a leaf and appends the
                        // item to its bag; on a true answer it divides into
                        // `2^dim` children and drains its payload (`items`
                        // and `placed` above say where the drained items
                        // went).
                        &&& (old(self)@.is_leaf() ==> exists|t: &Self, b: bool|
                            {
                                &&& *t == *old(self)
                                &&& #[trigger] call_ensures(*division_condition, (t,), b)
                                &&& (!b ==> final(self)@.is_leaf() && final(self)@.bag()
                                    == old(self)@.bag().push(data))
                                &&& (b ==> final(self)@.children.len() == pow2(old(self)@.dim())
                                    && final(self)@.data is None)
                            })
                    },
                    Err(e) => {
                        &&& e == TpnTreeError::DoesNotSpan
                        &&& old(self)@.is_root() && !old(self)@.spans_point(q, u)
                        &&& final(self)@ == old(self)@
                    },
                }
            }),
        decreases usize::MAX - old(self)@.level, 1nat,
    {
        let ghost q = data.coordinates_spec();
        let ghost u = data.scale_spec() as nat;
        let ghost pre = self@;
        if self.is_root() && !self.spans(&data) {
            return Err(TpnTreeError::DoesNotSpan);
        }
        if self.is_leaf() {
            let should_divide = (division_condition)(&*self);
            proof {
                assert(exists|t: &Self, b: bool|
                    {
                        &&& *t == *old(self)
                        &&& #[trigger] call_ensures(*division_condition, (t,), b)
                        &&& b == should_divide
                    });
            }
            if should_divide {
                proof {
                    assert(call_ensures(*division_condition, (&*self,), true));
                    assert(pre.divide_fits());
                }
                match self.divide() {
                    Ok(()) => {},
                    Err(e) => {
                        proof {
                            assert(false);
                        }
                        return Err(e);
                    },
                }
                proof {
                    assert(self@ == pre.divided());
                    lemma_bags_wf_divided(pre);
                }
                let taken = self.take_data();
                let mut bag: Vec<T> = match taken {
                    Some(v) => v,
                    None => Vec::new(),
                };
                bag.push(data);
                let ghost start = self@;
                proof {
                    lemma_wf_replace_data(pre.divided(), None::<Vec<T>>);
                    lemma_bags_wf_with_data(pre.divided(), None::<Vec<T>>);
                    assert(start.wf());
                    assert(start.bags_wf());
                    assert(!start.is_leaf()) by {
                        vstd::arithmetic::power2::lemma_pow2_pos(pre.dim());
                    }
                    // The freshly divided node holds nothing: its bag was
                    // taken and its children are empty leaves.
                    assert forall|j: int| 0 <= j < start.children.len() implies (#[trigger] start
                        .children[j]).data is None && start.children[j].children.len() == 0 by {
                        assert(start.children[j] == pre.child_view(j as nat));
                    }
                    lemma_forest_items_all_empty(start.children);
                    assert(start.items() =~= Multiset::<T>::empty());
                    // Nothing is stored yet, so everything is trivially in
                    // place: the fresh children are empty leaves.
                    assert forall|j: int| 0 <= j < start.children.len() implies (#[trigger] start
                        .children[j]).items() =~= Multiset::<T>::empty() by {
                        assert(start.children[j].bag() =~= Seq::<T>::empty());
                        assert(start.children[j].bag().to_multiset().len() == 0);
                        assert(forest_items(start.children[j].children) == Multiset::<T>::empty());
                    }
                    assert forall|j: int| 0 <= j < start.children.len() implies (#[trigger] start
                        .children[j]).placed() by {
                        assert(start.children[j].bag() =~= Seq::<T>::empty());
                        assert(start.children[j].children.len() == 0);
                    }
                    assert(start.placed());
                    // What waits in the local bag is exactly everything the
                    // leaf held, plus the new item.
                    lemma_leaf_items(pre);
                    assert(bag@ == pre.bag().push(data));
                    assert(bag@.to_multiset() =~= pre.items().insert(data));
                    // Every waiting item lies within this region.
                    assert forall|j: int| 0 <= j < bag@.len() implies start.bag_item_ok(
                        #[trigger] bag@[j],
                    ) by {
                        if j < bag@.len() - 1 {
                            assert(bag@[j] == pre.bag()[j]);
                            assert(pre.bag_item_ok(pre.bag()[j]));
                            lemma_bag_item_ok_same_geometry(pre, start, bag@[j]);
                        } else {
                            assert(bag@[j] == data);
                            assert(pre.spans_point(q, u));
                            assert(start.bag_item_ok(data));
                        }
                    }
                }
                while bag.len() > 0
                    invariant
                        pre == old(self)@,
                        self@.wf(),
                        self@.bags_wf(),
                        self@.placed(),
                        !self@.is_leaf(),
                        self@.children.len() == pow2(pre.dim()),
                        self@.data is None,
                        self@.coordinates == pre.coordinates,
                        self@.span == pre.span,
                        self@.scale == pre.scale,
                        self@.level == pre.level,
                        q == data.coordinates_spec(),
                        u == data.scale_spec() as nat,
                        forall|t: &Self| #[trigger] call_requires(*division_condition, (t,)),
                        forall|t: &Self|
                            call_ensures(*division_condition, (t,), true) ==> t@.divide_fits(),
                        forall|j: int|
                            0 <= j < bag@.len() ==> self@.bag_item_ok(#[trigger] bag@[j]),
                        self@.items().add(bag@.to_multiset()) == pre.items().insert(data),
                        bag@.len() > 0 ==> bag@[bag@.len() - 1] == data,
                        bag@.len() == 0 ==> self@.locate(q, u).bag().contains(data),
                    decreases bag@.len(),
                {
                    let ghost loop_pre = self@;
                    let ghost bag_pre = bag@;
                    let item = bag.remove(0);
                    proof {
                        assert(loop_pre.bag_item_ok(item));
                        assert(bag@ == bag_pre.remove(0));
                        assert(bag@.to_multiset() =~= bag_pre.to_multiset().remove(item));
                        assert(bag_pre.to_multiset().contains(item));
                    }
                    match self.insert_into_children(item, division_condition) {
                        Ok(()) => {},
                        Err(e) => {
                            proof {
                                assert(false);
                            }
                            return Err(e);
                        },
                    }
                    proof {
                        assert(self@.items() == loop_pre.items().insert(item));
                        assert forall|e: T|
                            self@.items().add(bag@.to_multiset()).count(e) == pre.items().insert(
                                data,
                            ).count(e) by {
                            assert(loop_pre.items().add(bag_pre.to_multiset()).count(e)
                                == pre.items().insert(data).count(e));
                        }
                        assert(self@.items().add(bag@.to_multiset()) =~= pre.items().insert(data));
                        if bag@.len() == 0 {
                            assert(item == bag_pre[bag_pre.len() - 1]);
                            assert(item == data);
                            assert(self@.locate(q, u).bag().contains(data));
                        } else {
                            assert(bag@[bag@.len() - 1] == bag_pre[bag_pre.len() - 1]);
                        }
                    }
                }
                proof {
                    assert(bag@.to_multiset().len() == 0);
                    assert(self@.items() =~= pre.items().insert(data));
                    let (t0, b0) = choose|t: &Self, b: bool|
                        {
                            &&& *t == *old(self)
                            &&& #[trigger] call_ensures(*division_condition, (t,), b)
                            &&& b == should_divide
                        };
                    assert(b0);
                    assert(call_ensures(*division_condition, (t0,), b0));
                    assert(self@.children.len() == pow2(old(self)@.dim()));
                    assert(self@.data is None);
                }
                Ok(())
            } else {
                let taken = self.take_data();
                let mut bag: Vec<T> = match taken {
                    Some(v) => v,
                    None => Vec::new(),
                };
                bag.push(data);
                let ghost bagv = bag@;
                proof {
                    assert(bagv == pre.bag().push(data));
                }
                self.set_data(Some(bag));
                proof {
                    let w = self@;
                    assert(w.bag() == bagv);
                    assert(w.coordinates == pre.coordinates && w.span == pre.span && w.scale
                        == pre.scale && w.level == pre.level && w.children == pre.children);
                    lemma_wf_replace_data(pre, w.data);
                    assert forall|j: int| 0 <= j < w.bag().len() implies pre.bag_item_ok(
                        #[trigger] w.bag()[j],
                    ) by {
                        if j < w.bag().len() - 1 {
                            assert(w.bag()[j] == pre.bag()[j]);
                            assert(pre.bag_item_ok(pre.bag()[j]));
                        } else {
                            assert(w.bag()[j] == data);
                            assert(pre.spans_point(q, u));
                        }
                    }
                    lemma_bags_wf_with_data(pre, w.data);
                    // A leaf locates to itself and now carries the item.
                    lemma_first_spanning_none(w, q, u, 0);
                    assert(w.locate(q, u) == w);
                    assert(w.bag().contains(data)) by {
                        assert(w.bag()[w.bag().len() - 1] == data);
                    }
                    // Item accounting on a leaf is plain bag accounting.
                    lemma_leaf_items(pre);
                    lemma_leaf_items(w);
                    assert(w.items() =~= pre.items().insert(data));
                    assert(w.children.len() == 0);
                    assert(w.placed());
                    let (t0, b0) = choose|t: &Self, b: bool|
                        {
                            &&& *t == *old(self)
                            &&& #[trigger] call_ensures(*division_condition, (t,), b)
                            &&& b == should_divide
                        };
                    assert(!b0);
                    assert(call_ensures(*division_condition, (t0,), b0));
                    assert(w.is_leaf());
                    assert(w.bag() == old(self)@.bag().push(data));
                }
                Ok(())
            }
        } else {
            self.insert_into_children(data, division_condition)
        }
    }

    /// Returns the tree closest to the given data coordinates: the descent
    /// steps into the first spanning child in enumeration order at each
    /// level (ties on shared boundary faces go to the earlier child) and
    /// stops at a leaf or at a node none of whose children spans the data.
    ///
    /// Fails with `DoesNotSpan` exactly when called on a root that does not
    /// span the data.
    pub fn find_by_coordinates(&self, data: &T) -> (r: Result<&Self, TpnTreeError>)
        requires
            self@.wf(),
            data.coordinates_spec().len() == self@.dim(),
            data.scale_spec() <= SCALE_LIMIT,
        ensures
            ({
                let q = data.coordinates_spec();
                let u = data.scale_spec() as nat;
                match r {
                    Ok(node) => !(self@.is_root() && !self@.spans_point(q, u)) && node@
                        == self@.locate(q, u),
                    Err(e) => e == TpnTreeError::DoesNotSpan && self@.is_root()
                        && !self@.spans_point(q, u),
                }
            }),
        decreases self@,
    {
        let ghost q = data.coordinates_spec();
        let ghost u = data.scale_spec() as nat;
        if self.is_root() && !self.spans(data) {
            return Err(TpnTreeError::DoesNotSpan);
        }
        let n = self.child_count();
        let mut k: usize = 0;
        while k < n
            invariant
                self@.wf(),
                data.coordinates_spec().len() == self@.dim(),
                data.scale_spec() <= SCALE_LIMIT,
                q == data.coordinates_spec(),
                u == data.scale_spec() as nat,
                n == self@.children.len(),
                0 <= k <= n,
                !(self@.is_root() && !self@.spans_point(q, u)),
                forall|j: int| 0 <= j < k ==> !(#[trigger] self@.children[j]).spans_point(q, u),
            decreases n - k,
        {
            match self.get_child(k) {
                Some(child) => {
                    proof {
                        let ki: int = k as int;
                        assert(self@.child_geometry_ok(ki as nat));
                        assert(self@.children[ki].wf());
                    }
                    if child.spans(data) {
                        proof {
                            lemma_first_spanning_found(self@, q, u, 0, k as int);
                            assert(decreases_to!(self@ => self@.children[k as int]));
                        }
                        let res = child.find_by_coordinates(data);
                        proof {
                            assert(!child@.is_root());
                            assert(self@.locate(q, u) == child@.locate(q, u));
                        }
                        return res;
                    }
                },
                None => {
                    proof {
                        assert(false);
                    }
                },
            }
            k = k + 1;
        }
        proof {
            lemma_first_spanning_none(self@, q, u, 0);
        }
        Ok(self)
    }
}

} // verus!
