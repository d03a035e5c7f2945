mod iterators;
mod spatial;

pub use iterators::{
    bfs_seq, dfs_forest, dfs_seq, forest_size, lemma_bfs_visits_every_node_once,
    lemma_breadth_first_level_order, lemma_dfs_visits_every_node_once, tree_size,
};
pub use spatial::{forest_items, Coordinates, Point, SpatialTree};

use crate::dyadic::{le_at, lemma_le_at_double, pow2_usize, SCALE_LIMIT};
use crate::errors::TpnTreeError;
use vstd::arithmetic::power2::pow2;
use vstd::prelude::*;

verus! {

/// The mathematical model of a tree node: the region's center numerators,
/// half-extent numerators, the scale both are read at (a numerator stands
/// for `numerator / 2^scale`), the depth in the tree, the child models in
/// enumeration order, and the payload.
#[verifier::ext_equal]
pub ghost struct TpnTreeView<T> {
    pub coordinates: Seq<i64>,
    pub span: Seq<i64>,
    pub scale: nat,
    pub level: nat,
    pub children: Seq<TpnTreeView<T>>,
    pub data: Option<T>,
}

/// Whether bit `i` of the counter `k` is set; bit `i` chooses the offset
/// sign along axis `i` when a region is divided.
pub open spec fn bit_of(k: nat, i: nat) -> bool {
    (k / pow2(i)) % 2 == 1
}

/// Numerator of a child's center along one axis, at the child scale
/// (parent scale plus one): a cleared bit moves the center up by half the
/// parent span, a set bit moves it down.
pub open spec fn child_num(c: i64, s: i64, b: bool) -> int {
    if b {
        2 * c - s
    } else {
        2 * c + s
    }
}

impl<T> TpnTreeView<T> {
    /// Number of dimensions of the region.
    pub open spec fn dim(self) -> nat {
        self.coordinates.len()
    }

    /// A node is a leaf exactly when it has no children.
    pub open spec fn is_leaf(self) -> bool {
        self.children.len() == 0
    }

    /// A node is a root exactly when its level is zero.
    pub open spec fn is_root(self) -> bool {
        self.level == 0
    }

    /// The geometry a division gives child `k`: the center moved by half
    /// the parent span up or down along each axis as the bits of `k`
    /// choose, the span halved, the level one deeper, no children, no
    /// payload.
    pub open spec fn child_view(self, k: nat) -> TpnTreeView<T> {
        TpnTreeView {
            coordinates: Seq::new(self.dim(), |i: int| child_num(
                self.coordinates[i],
                self.span[i],
                bit_of(k, i as nat),
            ) as i64),
            span: self.span,
            scale: self.scale + 1,
            level: self.level + 1,
            children: Seq::empty(),
            data: None,
        }
    }

    /// Child `k` carries exactly the geometry of `child_view(k)`, except
    /// that it may have been divided further and may hold payload.
    pub open spec fn child_geometry_ok(self, k: nat) -> bool {
        let ch = self.children[k as int];
        &&& ch.coordinates.len() == self.dim()
        &&& forall|i: int|
            0 <= i < self.dim() ==> ch.coordinates[i] as int == child_num(
                self.coordinates[i],
                self.span[i],
                bit_of(k, i as nat),
            )
        &&& ch.span == self.span
        &&& ch.scale == self.scale + 1
        &&& ch.level == self.level + 1
    }

    /// The machine limits a division must respect: the child level and
    /// scale must be representable, the child count `2^dim` must fit a
    /// `usize`, and every child center numerator `2c - s` and `2c + s`
    /// must fit an `i64`.
    pub open spec fn divide_fits(self) -> bool {
        &&& self.level + 1 <= usize::MAX
        &&& self.scale + 1 <= SCALE_LIMIT as nat
        &&& pow2(self.dim()) <= usize::MAX
        &&& forall|i: int|
            0 <= i < self.dim() ==> {
                let c = #[trigger] self.coordinates[i] as int;
                let s = self.span[i] as int;
                &&& i64::MIN <= 2 * c - s <= i64::MAX
                &&& i64::MIN <= 2 * c + s <= i64::MAX
            }
    }

    /// The model of a node right after a division: the same region and
    /// payload, with all `2^dim` children attached in enumeration order.
    pub open spec fn divided(self) -> TpnTreeView<T> {
        TpnTreeView { children: Seq::new(pow2(self.dim()), |k: int| self.child_view(k as nat)), ..self }
    }

    /// The machine limits an adjacent-tree construction must respect:
    /// every offset center numerator `c - 2s` and `c + 2s` must fit an
    /// `i64`, and the result length `2 * dim` must fit a `usize`.
    pub open spec fn adjacent_fits(self) -> bool {
        &&& 2 * self.dim() <= usize::MAX
        &&& forall|i: int|
            0 <= i < self.dim() ==> {
                let c = #[trigger] self.coordinates[i] as int;
                let s = self.span[i] as int;
                &&& i64::MIN <= c - 2 * s <= i64::MAX
                &&& i64::MIN <= c + 2 * s <= i64::MAX
            }
    }

    /// The lattice neighbor of the region along `axis`: a fresh root-level
    /// leaf with the same span, whose center is moved by twice the span
    /// along that axis, upwards when `above` holds and downwards otherwise.
    pub open spec fn adjacent_view(self, axis: int, above: bool) -> TpnTreeView<T> {
        TpnTreeView {
            coordinates: Seq::new(
                self.dim(),
                |j: int|
                    if j == axis {
                        (if above {
                            self.coordinates[j] as int + 2 * self.span[j] as int
                        } else {
                            self.coordinates[j] as int - 2 * self.span[j] as int
                        }) as i64
                    } else {
                        self.coordinates[j]
                    },
            ),
            span: self.span,
            scale: self.scale,
            level: 0,
            children: Seq::empty(),
            data: None,
        }
    }

    /// The region spans the point whose coordinate numerators are `q`, read
    /// at scale `u`: along every axis the point lies within the closed
    /// interval from center minus span to center plus span. The interval is
    /// closed on both sides, so adjacent sibling regions overlap exactly on
    /// shared boundary faces.
    pub open spec fn spans_point(self, q: Seq<i64>, u: nat) -> bool {
        &&& q.len() == self.dim()
        &&& forall|i: int|
            0 <= i < self.dim() ==> {
                let c = self.coordinates[i] as int;
                let s = self.span[i] as int;
                &&& le_at(c - s, self.scale, #[trigger] q[i] as int, u)
                &&& le_at(q[i] as int, u, c + s, self.scale)
            }
    }

    /// Index of the first child at or after `k` that spans the point, or
    /// the child count when no child from `k` on does.
    pub open spec fn first_spanning_from(self, q: Seq<i64>, u: nat, k: int) -> int
        decreases self.children.len() - k,
    {
        if k < 0 || k >= self.children.len() {
            self.children.len() as int
        } else if self.children[k].spans_point(q, u) {
            k
        } else {
            self.first_spanning_from(q, u, k + 1)
        }
    }

    /// The node the coordinate-driven descent reaches: while some child
    /// spans the point, step into the first such child in enumeration
    /// order; stop at a leaf or at a node none of whose children spans the
    /// point.
    pub open spec fn locate(self, q: Seq<i64>, u: nat) -> TpnTreeView<T>
        decreases self,
    {
        let k = self.first_spanning_from(q, u, 0);
        if 0 <= k < self.children.len() {
            self.children[k].locate(q, u)
        } else {
            self
        }
    }

    /// Structural well-formedness: spans match the dimension, the scale is
    /// representable, and the node is either a leaf or carries exactly
    /// `2^dim` children whose geometry is the one division produces, each
    /// well-formed in turn.
    pub open spec fn wf(self) -> bool
        decreases self,
    {
        &&& self.span.len() == self.dim()
        &&& self.scale <= SCALE_LIMIT as nat
        &&& self.level <= usize::MAX
        &&& (self.children.len() == 0 || self.children.len() == pow2(self.dim()))
        &&& forall|k: int|
            0 <= k < self.children.len() ==> #[trigger] self.child_geometry_ok(k as nat)
        &&& forall|k: int| 0 <= k < self.children.len() ==> (#[trigger] self.children[k]).wf()
    }
}

/// A tree is a clone of another: the geometry and structure agree exactly,
/// and each payload of the clone is a possible result of `T::clone` on the
/// original's payload (for payloads whose `clone` guarantees equality, the
/// two models are equal).
pub open spec fn cloned_tree<T: Clone>(a: TpnTreeView<T>, b: TpnTreeView<T>) -> bool
    decreases a,
{
    &&& b.coordinates == a.coordinates
    &&& b.span == a.span
    &&& b.scale == a.scale
    &&& b.level == a.level
    &&& match (a.data, b.data) {
        (Option::None, Option::None) => true,
        (Option::Some(x), Option::Some(y)) => vstd::pervasive::cloned::<T>(x, y),
        _ => false,
    }
    &&& b.children.len() == a.children.len()
    &&& forall|k: int|
        0 <= k < a.children.len() ==> cloned_tree(#[trigger] a.children[k], b.children[k])
}

/// A clone of a well-formed tree is well-formed: the geometry is identical.
pub proof fn lemma_cloned_tree_wf<T: Clone>(a: TpnTreeView<T>, b: TpnTreeView<T>)
    requires
        cloned_tree(a, b),
        a.wf(),
    ensures
        b.wf(),
    decreases a,
{
    assert forall|k: int| 0 <= k < b.children.len() implies #[trigger] b.child_geometry_ok(
        k as nat,
    ) by {
        assert(a.child_geometry_ok(k as nat));
        assert(cloned_tree(a.children[k], b.children[k]));
    }
    assert forall|k: int| 0 <= k < b.children.len() implies (#[trigger] b.children[k]).wf() by {
        assert(cloned_tree(a.children[k], b.children[k]));
        assert(a.children[k].wf());
        lemma_cloned_tree_wf(a.children[k], b.children[k]);
    }
}

/// An N-dimensional region tree node. The region is a hyperrectangle given
/// by its center and per-axis half-extents, both held as exact dyadic
/// fixed-point values: `i64` numerators read at the node's power-of-two
/// scale. The dimension is the length of the coordinate vector and is fixed
/// at construction; every derived node preserves it.
#[derive(Debug)]
pub struct TpnTree<T> {
    /// Numerators of the center of the hyperrectangle, at `scale`.
    coordinates: Vec<i64>,
    /// Numerators of the half-extents from center to the faces, at `scale`.
    span: Vec<i64>,
    /// Power-of-two scale: a numerator `n` stands for `n / 2^scale`.
    scale: u32,
    /// Height in the tree; the root sits at level zero.
    level: usize,
    /// Zero or `2^dim` children, in counter enumeration order.
    children: Vec<TpnTree<T>>,
    /// Any potential data the tree might hold.
    data: Option<T>,
}

impl<T> View for TpnTree<T> {
    type V = TpnTreeView<T>;

    closed spec fn view(&self) -> TpnTreeView<T> {
        self.model()
    }
}

impl<T> TpnTree<T> {
    /// The mathematical model of the node; `view` exposes it as `@`.
    closed spec fn model(self) -> TpnTreeView<T>
        decreases self,
    {
        TpnTreeView {
            coordinates: self.coordinates@,
            span: self.span@,
            scale: self.scale as nat,
            level: self.level as nat,
            children: Seq::new(
                self.children@.len() as nat,
                |i: int|
                    if 0 <= i < self.children@.len() {
                        self.children@[i].model()
                    } else {
                        TpnTreeView {
                            coordinates: Seq::empty(),
                            span: Seq::empty(),
                            scale: 0,
                            level: 0,
                            children: Seq::empty(),
                            data: None,
                        }
                    },
            ),
            data: self.data,
        }
    }

    /// Creates a new leaf with explicit center, span, scale and level.
    ///
    /// The center and span vectors must agree in length; that length is the
    /// tree's dimension from here on.
    pub fn new(coordinates: Vec<i64>, span: Vec<i64>, scale: u32, level: usize) -> (r: Self)
        requires
            coordinates@.len() == span@.len(),
            scale <= SCALE_LIMIT,
        ensures
            r@ == (TpnTreeView {
                coordinates: coordinates@,
                span: span@,
                scale: scale as nat,
                level: level as nat,
                children: Seq::<TpnTreeView<T>>::empty(),
                data: None::<T>,
            }),
            r@.wf(),
    {
        let r = TpnTree { coordinates, span, scale, level, children: Vec::new(), data: None };
        proof {
            assert(r@.children =~= Seq::<TpnTreeView<T>>::empty());
            assert(r@ =~= TpnTreeView {
                coordinates: r.coordinates@,
                span: r.span@,
                scale: scale as nat,
                level: level as nat,
                children: Seq::<TpnTreeView<T>>::empty(),
                data: None::<T>,
            });
        }
        r
    }

    /// Creates a new tree centered at the zero vector with the same integer
    /// span along every axis, at scale zero and level zero.
    pub fn root(span: i64, dimensions: usize) -> (r: Self)
        ensures
            r@ == (TpnTreeView {
                coordinates: Seq::new(dimensions as nat, |i: int| 0i64),
                span: Seq::new(dimensions as nat, |i: int| span),
                scale: 0nat,
                level: 0nat,
                children: Seq::<TpnTreeView<T>>::empty(),
                data: None::<T>,
            }),
            r@.wf(),
    {
        let mut coordinates: Vec<i64> = Vec::new();
        let mut spans: Vec<i64> = Vec::new();
        let mut i: usize = 0;
        while i < dimensions
            invariant
                0 <= i <= dimensions,
                coordinates@ =~= Seq::new(i as nat, |j: int| 0i64),
                spans@ =~= Seq::new(i as nat, |j: int| span),
            decreases dimensions - i,
        {
            coordinates.push(0);
            spans.push(span);
            i = i + 1;
            proof {
                assert(coordinates@ =~= Seq::new(i as nat, |j: int| 0i64));
                assert(spans@ =~= Seq::new(i as nat, |j: int| span));
            }
        }
        Self::new(coordinates, spans, 0, 0)
    }

    /// Returns the numerators of the center of the region.
    pub fn coordinates(&self) -> (r: &Vec<i64>)
        ensures
            r@ == self@.coordinates,
    {
        &self.coordinates
    }

    /// Returns the numerators of the per-axis half-extents of the region.
    pub fn span(&self) -> (r: &Vec<i64>)
        ensures
            r@ == self@.span,
    {
        &self.span
    }

    /// Returns the scale both the center and the span are read at.
    pub fn scale(&self) -> (r: u32)
        ensures
            r as nat == self@.scale,
    {
        self.scale
    }

    /// Returns the level of the node.
    pub fn level(&self) -> (r: usize)
        ensures
            r as nat == self@.level,
    {
        self.level
    }

    /// Returns the data of the node by reference.
    pub fn data(&self) -> (r: &Option<T>)
        ensures
            *r == self@.data,
    {
        &self.data
    }

    /// Returns the data of the node by mutable reference.
    pub fn data_mut(&mut self) -> (r: &mut Option<T>)
        ensures
            *r == old(self)@.data,
            final(self)@ == (TpnTreeView { data: *final(r), ..old(self)@ }),
    {
        &mut self.data
    }

    /// Removes and returns the payload, leaving none behind.
    fn take_data(&mut self) -> (r: Option<T>)
        ensures
            r == old(self)@.data,
            final(self)@ == (TpnTreeView { data: None::<T>, ..old(self)@ }),
    {
        self.data.take()
    }

    /// Replaces the payload wholesale.
    fn set_data(&mut self, d: Option<T>)
        ensures
            final(self)@ == (TpnTreeView { data: d, ..old(self)@ }),
    {
        self.data = d;
    }

    /// Copies a vector of numerators exactly.
    fn copy_nums(v: &Vec<i64>) -> (r: Vec<i64>)
        ensures
            r@ == v@,
    {
        let mut r: Vec<i64> = Vec::new();
        let mut i: usize = 0;
        while i < v.len()
            invariant
                0 <= i <= v@.len(),
                r@ =~= v@.subrange(0, i as int),
            decreases v@.len() - i,
        {
            r.push(v[i]);
            proof {
                assert(r@ =~= v@.subrange(0, i + 1));
            }
            i = i + 1;
        }
        proof {
            assert(v@.subrange(0, v@.len() as int) =~= v@);
        }
        r
    }

    /// Returns the count of direct children: zero on a leaf, `2^dim` on an
    /// internal node.
    pub fn child_count(&self) -> (r: usize)
        ensures
            r == self@.children.len(),
    {
        self.children.len()
    }

    /// Gets a reference to the child at `index` in enumeration order, if it
    /// exists.
    pub fn get_child(&self, index: usize) -> (r: Option<&Self>)
        ensures
            match r {
                Some(c) => index < self@.children.len() && c@ == self@.children[index as int],
                None => index >= self@.children.len(),
            },
    {
        if index < self.children.len() {
            Some(&self.children[index])
        } else {
            None
        }
    }

    /// Gets a mutable reference to the child at `index` in enumeration
    /// order, if it exists.
    pub fn get_child_mut(&mut self, index: usize) -> (r: Option<&mut Self>)
        ensures
            r is Some <==> index < old(self)@.children.len(),
            r is None ==> *final(self) == *old(self),
            match r {
                Some(c) => {
                    &&& (*c)@ == old(self)@.children[index as int]
                    &&& final(self)@.children =~= old(self)@.children.update(
                        index as int,
                        final(c)@,
                    )
                    &&& final(self)@.coordinates == old(self)@.coordinates
                    &&& final(self)@.span == old(self)@.span
                    &&& final(self)@.scale == old(self)@.scale
                    &&& final(self)@.level == old(self)@.level
                    &&& final(self)@.data == old(self)@.data
                },
                None => true,
            },
    {
        if index < self.children.len() {
            Some(&mut self.children[index])
        } else {
            None
        }
    }

    /// All direct children, in enumeration order.
    pub fn children(&self) -> (r: &Vec<Self>)
        ensures
            r@.len() == self@.children.len(),
            forall|i: int| 0 <= i < r@.len() ==> (#[trigger] r@[i])@ == self@.children[i],
    {
        &self.children
    }

    /// Divides the tree into subregions, creating all `2^dim` children.
    ///
    /// Fails with `CanNotDivide` if the node is already internal, leaving it
    /// unchanged. Otherwise the children are produced in counter enumeration
    /// order: a counter `k` runs from `0` to `2^dim - 1`, and bit `i` of `k`
    /// moves the child center up (bit clear) or down (bit set) by half the
    /// parent span along axis `i`, so every sign combination occurs exactly
    /// once. Each child has half the parent span and sits one level deeper.
    ///
    /// Division keeps the node's payload in place. Dividing a leaf that
    /// still carries a bag therefore leaves that bag on the now-internal
    /// node, where the spatial locator will not look for it; the locator's
    /// own insertion divides only while draining the bag, so trees built
    /// through it never hold payload on an internal node.
    pub fn divide(&mut self) -> (r: Result<(), TpnTreeError>)
        requires
            old(self)@.wf(),
            old(self)@.is_leaf() ==> old(self)@.divide_fits(),
        ensures
            r is Ok <==> old(self)@.is_leaf(),
            !old(self)@.is_leaf() ==> r == Err::<(), TpnTreeError>(TpnTreeError::CanNotDivide)
                && final(self)@ == old(self)@,
            old(self)@.is_leaf() ==> r == Ok::<(), TpnTreeError>(()) && final(self)@ == old(
                self,
            )@.divided(),
            final(self)@.wf(),
    {
        if self.is_leaf() {
            let ghost pre = self@;
            let dim = self.coordinates.len();
            let count = pow2_usize(dim);
            let mut children: Vec<Self> = Vec::new();
            let mut k: usize = 0;
            while k < count
                invariant
                    *self == *old(self),
                    pre == self@,
                    pre.wf(),
                    pre.is_leaf(),
                    pre.divide_fits(),
                    dim == pre.dim(),
                    count == pow2(dim as nat),
                    0 <= k <= count,
                    children@.len() == k,
                    forall|j: int|
                        0 <= j < k ==> (#[trigger] children@[j])@ == pre.child_view(j as nat),
                decreases count - k,
            {
                let mut ccoords: Vec<i64> = Vec::new();
                let mut cspans: Vec<i64> = Vec::new();
                let mut pow: usize = 1;
                let mut i: usize = 0;
                proof {
                    vstd::arithmetic::power2::lemma2_to64();
                }
                while i < dim
                    invariant
                        *self == *old(self),
                        pre == self@,
                        pre.wf(),
                        pre.divide_fits(),
                        dim == pre.dim(),
                        count == pow2(dim as nat),
                        0 <= i <= dim,
                        pow == pow2(i as nat),
                        ccoords@.len() == i,
                        cspans@.len() == i,
                        forall|j: int|
                            0 <= j < i ==> #[trigger] ccoords@[j] as int == child_num(
                                pre.coordinates[j],
                                pre.span[j],
                                bit_of(k as nat, j as nat),
                            ),
                        forall|j: int| 0 <= j < i ==> #[trigger] cspans@[j] == pre.span[j],
                    decreases dim - i,
                {
                    proof {
                        vstd::arithmetic::power2::lemma_pow2_pos(i as nat);
                    }
                    let bit = (k / pow) % 2 == 1;
                    let c = self.coordinates[i];
                    let s = self.span[i];
                    let wide: i128 = if bit {
                        2 * (c as i128) - (s as i128)
                    } else {
                        2 * (c as i128) + (s as i128)
                    };
                    proof {
                        assert(pre.divide_fits());
                        assert(i64::MIN <= wide <= i64::MAX);
                    }
                    let num = wide as i64;
                    ccoords.push(num);
                    cspans.push(s);
                    proof {
                        if i as nat + 1 < dim as nat {
                            vstd::arithmetic::power2::lemma_pow2_strictly_increases(
                                i as nat + 1,
                                dim as nat,
                            );
                        }
                        vstd::arithmetic::power2::lemma_pow2_adds(i as nat, 1);
                        vstd::arithmetic::power2::lemma2_to64();
                        assert(pow2(i as nat + 1) == pow2(i as nat) * 2) by (nonlinear_arith)
                            requires
                                pow2(i as nat + 1) == pow2(i as nat) * pow2(1),
                                pow2(1) == 2,
                        ;
                    }
                    pow = pow * 2;
                    i = i + 1;
                }
                proof {
                    assert(ccoords@ =~= pre.child_view(k as nat).coordinates);
                    assert(cspans@ =~= pre.span);
                }
                let child = Self::new(ccoords, cspans, self.scale + 1, self.level + 1);
                proof {
                    assert(child@ =~= pre.child_view(k as nat));
                }
                children.push(child);
                k = k + 1;
            }
            self.children = children;
            proof {
                assert(self@.children =~= Seq::new(
                    pow2(pre.dim()),
                    |j: int| pre.child_view(j as nat),
                ));
                assert(self@ =~= pre.divided());
                lemma_divided_wf(pre);
            }
            Ok(())
        } else {
            Err(TpnTreeError::CanNotDivide)
        }
    }

    /// Returns a list of same-sized lattice-neighboring regions along each
    /// dimension: fresh, unattached level-zero leaves whose centers are
    /// offset from this node's center by twice its span. They appear in
    /// axis-major order, the neighbor above (positive offset) before the one
    /// below (negative offset). The tree itself is neither consulted beyond
    /// its geometry nor mutated.
    pub fn adjacent_trees(&self) -> (r: Vec<Self>)
        requires
            self@.wf(),
            self@.adjacent_fits(),
        ensures
            r@.len() == 2 * self@.dim(),
            forall|i: int|
                0 <= i < self@.dim() ==> (#[trigger] r@[2 * i])@ == self@.adjacent_view(i, true),
            forall|i: int|
                0 <= i < self@.dim() ==> (#[trigger] r@[2 * i + 1])@ == self@.adjacent_view(
                    i,
                    false,
                ),
    {
        let dim = self.coordinates.len();
        let mut adjacent: Vec<Self> = Vec::new();
        let mut i: usize = 0;
        while i < dim
            invariant
                self@.wf(),
                self@.adjacent_fits(),
                dim == self@.dim(),
                0 <= i <= dim,
                adjacent@.len() == 2 * i,
                forall|j: int|
                    0 <= j < i ==> (#[trigger] adjacent@[2 * j])@ == self@.adjacent_view(j, true),
                forall|j: int|
                    0 <= j < i ==> (#[trigger] adjacent@[2 * j + 1])@ == self@.adjacent_view(
                        j,
                        false,
                    ),
            decreases dim - i,
        {
            let mut above_coords: Vec<i64> = Vec::new();
            let mut below_coords: Vec<i64> = Vec::new();
            let mut above_span: Vec<i64> = Vec::new();
            let mut below_span: Vec<i64> = Vec::new();
            let mut j: usize = 0;
            while j < dim
                invariant
                    self@.wf(),
                    self@.adjacent_fits(),
                    dim == self@.dim(),
                    i < dim,
                    0 <= j <= dim,
                    above_coords@.len() == j,
                    below_coords@.len() == j,
                    above_span@.len() == j,
                    below_span@.len() == j,
                    forall|m: int|
                        0 <= m < j ==> #[trigger] above_coords@[m] == self@.adjacent_view(
                            i as int,
                            true,
                        ).coordinates[m],
                    forall|m: int|
                        0 <= m < j ==> #[trigger] below_coords@[m] == self@.adjacent_view(
                            i as int,
                            false,
                        ).coordinates[m],
                    forall|m: int| 0 <= m < j ==> #[trigger] above_span@[m] == self@.span[m],
                    forall|m: int| 0 <= m < j ==> #[trigger] below_span@[m] == self@.span[m],
                decreases dim - j,
            {
                let c = self.coordinates[j];
                let s = self.span[j];
                if j == i {
                    let up: i128 = (c as i128) + 2 * (s as i128);
                    let down: i128 = (c as i128) - 2 * (s as i128);
                    proof {
                        assert(self@.adjacent_fits());
                        assert(i64::MIN <= up <= i64::MAX);
                        assert(i64::MIN <= down <= i64::MAX);
                    }
                    above_coords.push(up as i64);
                    below_coords.push(down as i64);
                } else {
                    above_coords.push(c);
                    below_coords.push(c);
                }
                above_span.push(s);
                below_span.push(s);
                j = j + 1;
            }
            proof {
                assert(above_coords@ =~= self@.adjacent_view(i as int, true).coordinates);
                assert(below_coords@ =~= self@.adjacent_view(i as int, false).coordinates);
                assert(above_span@ =~= self@.span);
                assert(below_span@ =~= self@.span);
            }
            let above = Self::new(above_coords, above_span, self.scale, 0);
            let below = Self::new(below_coords, below_span, self.scale, 0);
            proof {
                assert(above@ =~= self@.adjacent_view(i as int, true));
                assert(below@ =~= self@.adjacent_view(i as int, false));
            }
            adjacent.push(above);
            adjacent.push(below);
            i = i + 1;
        }
        adjacent
    }

    /// Returns whether the node is a root.
    pub fn is_root(&self) -> (r: bool)
        ensures
            r == self@.is_root(),
    {
        self.level == 0
    }

    /// Returns whether the node is a leaf.
    pub fn is_leaf(&self) -> (r: bool)
        ensures
            r == self@.is_leaf(),
    {
        self.children.is_empty()
    }
}

impl<T: Clone> Clone for TpnTree<T> {
    /// Clones the whole tree: the geometry and structure are reproduced
    /// exactly, and each payload is cloned with `T::clone`.
    fn clone(&self) -> (res: Self)
        ensures
            cloned_tree(self@, res@),
        decreases self,
    {
        let mut children: Vec<TpnTree<T>> = Vec::new();
        let mut i: usize = 0;
        while i < self.children.len()
            invariant
                0 <= i <= self.children@.len(),
                children@.len() == i,
                forall|j: int|
                    0 <= j < i ==> cloned_tree(self@.children[j], (#[trigger] children@[j])@),
            decreases self.children@.len() - i,
        {
            proof {
                assert(decreases_to!(self => self.children@[i as int]));
            }
            let child = self.children[i].clone();
            children.push(child);
            i = i + 1;
        }
        let res = TpnTree {
            coordinates: Self::copy_nums(&self.coordinates),
            span: Self::copy_nums(&self.span),
            scale: self.scale,
            level: self.level,
            children,
            data: match &self.data {
                Some(d) => Some(d.clone()),
                None => None,
            },
        };
        proof {
            assert(res@.children.len() == self@.children.len());
            assert(cloned_tree(self@, res@));
        }
        res
    }
}

/// Bit `i + 1` of a counter is bit `i` of its half.
proof fn lemma_bit_half(k: nat, i: nat)
    ensures
        bit_of(k, i + 1) == bit_of(k / 2, i),
{
    vstd::arithmetic::power2::lemma_pow2_adds(1, i);
    vstd::arithmetic::power2::lemma2_to64();
    vstd::arithmetic::power2::lemma_pow2_pos(i);
    vstd::arithmetic::div_mod::lemma_div_denominator(k as int, 2, pow2(i) as int);
    assert(k as int / 2 == (k / 2) as int);
    assert((k as int / 2) / (pow2(i) as int) == k as int / (2 * pow2(i) as int));
    assert(2 * pow2(i) == pow2(i + 1));
}

/// Two distinct counters below `2^d` differ in some bit below `d`.
proof fn lemma_bits_distinguish(k1: nat, k2: nat, d: nat)
    requires
        k1 < pow2(d),
        k2 < pow2(d),
        k1 != k2,
    ensures
        exists|i: nat| i < d && #[trigger] bit_of(k1, i) != bit_of(k2, i),
    decreases d,
{
    vstd::arithmetic::power2::lemma2_to64();
    if d == 0 {
        assert(pow2(0) == 1);
        assert(false);
    } else {
        assert(bit_of(k1, 0) == (k1 % 2 == 1)) by {
            assert(pow2(0) == 1);
        }
        assert(bit_of(k2, 0) == (k2 % 2 == 1)) by {
            assert(pow2(0) == 1);
        }
        if k1 % 2 != k2 % 2 {
            assert(bit_of(k1, 0) != bit_of(k2, 0));
            assert(0 < d && bit_of(k1, 0nat) != bit_of(k2, 0nat));
        } else {
            vstd::arithmetic::div_mod::lemma_fundamental_div_mod(k1 as int, 2);
            vstd::arithmetic::div_mod::lemma_fundamental_div_mod(k2 as int, 2);
            assert(k1 / 2 != k2 / 2);
            vstd::arithmetic::power2::lemma_pow2_adds(1, (d - 1) as nat);
            assert(pow2(d) == 2 * pow2((d - 1) as nat));
            assert(k1 / 2 < pow2((d - 1) as nat) && k2 / 2 < pow2((d - 1) as nat));
            lemma_bits_distinguish(k1 / 2, k2 / 2, (d - 1) as nat);
            let i = choose|i: nat| i < (d - 1) as nat && #[trigger] bit_of(k1 / 2, i) != bit_of(k2 / 2, i);
            lemma_bit_half(k1, i);
            lemma_bit_half(k2, i);
            assert(i + 1 < d && bit_of(k1, i + 1) != bit_of(k2, i + 1));
        }
    }
}

/// The children of a divided node have pairwise distinct centers whenever
/// every span component is nonzero: distinct counters differ in some bit,
/// and along that axis the two centers differ by twice the span.
pub proof fn lemma_children_coordinates_distinct<T>(v: TpnTreeView<T>)
    requires
        v.wf(),
        !v.is_leaf(),
        forall|i: int| 0 <= i < v.dim() ==> v.span[i] != 0,
    ensures
        forall|k1: int, k2: int|
            0 <= k1 < v.children.len() && 0 <= k2 < v.children.len() && k1 != k2
                ==> v.children[k1].coordinates != v.children[k2].coordinates,
{
    assert forall|k1: int, k2: int|
        0 <= k1 < v.children.len() && 0 <= k2 < v.children.len() && k1 != k2
        implies v.children[k1].coordinates != v.children[k2].coordinates by {
        assert(v.children.len() == pow2(v.dim()));
        lemma_bits_distinguish(k1 as nat, k2 as nat, v.dim());
        let i = choose|i: nat| i < v.dim() && #[trigger] bit_of(k1 as nat, i) != bit_of(k2 as nat, i);
        assert(v.child_geometry_ok(k1 as nat));
        assert(v.child_geometry_ok(k2 as nat));
        let c = v.coordinates[i as int] as int;
        let s = v.span[i as int] as int;
        assert(v.children[k1].coordinates[i as int] as int == child_num(
            v.coordinates[i as int],
            v.span[i as int],
            bit_of(k1 as nat, i),
        ));
        assert(v.children[k2].coordinates[i as int] as int == child_num(
            v.coordinates[i as int],
            v.span[i as int],
            bit_of(k2 as nat, i),
        ));
        assert(s != 0);
        assert(v.children[k1].coordinates[i as int] != v.children[k2].coordinates[i as int]);
    }
}

/// The numeric value of a sign pattern read as a little-endian counter.
pub open spec fn bits_value(signs: Seq<bool>) -> nat
    decreases signs.len(),
{
    if signs.len() == 0 {
        0
    } else {
        (if signs[0] {
            1nat
        } else {
            0nat
        }) + 2 * bits_value(signs.drop_first())
    }
}

/// `bits_value` realizes its pattern: it stays below `2^len` and its bits
/// are exactly the pattern's entries.
proof fn lemma_bits_value(signs: Seq<bool>)
    ensures
        bits_value(signs) < pow2(signs.len()),
        forall|i: int| 0 <= i < signs.len() ==> bit_of(bits_value(signs), i as nat) == signs[i],
    decreases signs.len(),
{
    vstd::arithmetic::power2::lemma2_to64();
    if signs.len() == 0 {
        assert(pow2(0) == 1);
    } else {
        let rest = signs.drop_first();
        lemma_bits_value(rest);
        let b = bits_value(signs);
        let s0: nat = if signs[0] {
            1
        } else {
            0
        };
        assert(b == s0 + 2 * bits_value(rest));
        vstd::arithmetic::power2::lemma_pow2_adds(1, (signs.len() - 1) as nat);
        assert(pow2(signs.len()) == 2 * pow2(rest.len()));
        vstd::arithmetic::div_mod::lemma_fundamental_div_mod_converse(
            b as int,
            2,
            bits_value(rest) as int,
            s0 as int,
        );
        assert(b % 2 == s0 && b / 2 == bits_value(rest));
        assert(bit_of(b, 0) == signs[0]) by {
            assert(pow2(0) == 1);
        }
        assert forall|i: int| 1 <= i < signs.len() implies bit_of(b, i as nat) == signs[i] by {
            lemma_bit_half(b, (i - 1) as nat);
            assert(bit_of(bits_value(rest), (i - 1) as nat) == rest[i - 1]);
        }
    }
}

/// The bits of the counter `k` spell out exactly the sign pattern `signs`.
pub open spec fn matches_signs(k: nat, signs: Seq<bool>) -> bool {
    forall|i: int| 0 <= i < signs.len() ==> #[trigger] bit_of(k, i as nat) == signs[i]
}

/// No sign combination is omitted by a division: for every choice of
/// per-axis directions there is a child index whose bits are that choice.
pub proof fn lemma_sign_combination_realized<T>(v: TpnTreeView<T>, signs: Seq<bool>)
    requires
        v.wf(),
        !v.is_leaf(),
        signs.len() == v.dim(),
    ensures
        exists|k: nat| k < v.children.len() && #[trigger] matches_signs(k, signs),
{
    lemma_bits_value(signs);
    let k = bits_value(signs);
    assert(v.children.len() == pow2(v.dim()));
    assert(k < v.children.len() && matches_signs(k, signs));
}

/// Replacing the payload of a node leaves its structural well-formedness
/// untouched: `wf` speaks only of geometry and children.
pub proof fn lemma_wf_replace_data<T>(v: TpnTreeView<T>, d: Option<T>)
    requires
        v.wf(),
    ensures
        (TpnTreeView { data: d, ..v }).wf(),
{
    let w = TpnTreeView { data: d, ..v };
    assert forall|k: int| 0 <= k < w.children.len() implies #[trigger] w.child_geometry_ok(
        k as nat,
    ) by {
        assert(v.child_geometry_ok(k as nat));
    }
}

/// Replacing one child with a node of identical geometry preserves
/// structural well-formedness, provided the replacement is well-formed.
pub proof fn lemma_wf_update_child<T>(v: TpnTreeView<T>, k: int, c: TpnTreeView<T>)
    requires
        v.wf(),
        0 <= k < v.children.len(),
        c.wf(),
        c.coordinates == v.children[k].coordinates,
        c.span == v.children[k].span,
        c.scale == v.children[k].scale,
        c.level == v.children[k].level,
    ensures
        (TpnTreeView { children: v.children.update(k, c), ..v }).wf(),
{
    let w = TpnTreeView { children: v.children.update(k, c), ..v };
    assert(w.children.len() == v.children.len());
    assert forall|j: int| 0 <= j < w.children.len() implies #[trigger] w.child_geometry_ok(
        j as nat,
    ) by {
        assert(v.child_geometry_ok(j as nat));
        if j != k {
            assert(w.children[j] == v.children[j]);
        } else {
            assert(w.children[j] == c);
            assert forall|i: int| 0 <= i < w.dim() implies c.coordinates[i] as int == child_num(
                w.coordinates[i],
                w.span[i],
                bit_of(j as nat, i as nat),
            ) by {
                assert(v.children[k].coordinates[i] as int == child_num(
                    v.coordinates[i],
                    v.span[i],
                    bit_of(j as nat, i as nat),
                ));
            }
        }
    }
    assert forall|j: int| 0 <= j < w.children.len() implies (#[trigger] w.children[j]).wf() by {
        assert(v.children[j].wf());
        if j != k {
            assert(w.children[j] == v.children[j]);
        }
    }
}

/// The first-spanning scan, started anywhere at or before a hit, stops
/// exactly at the first spanning child at or after its start.
pub proof fn lemma_first_spanning_found<T>(
    v: TpnTreeView<T>,
    q: Seq<i64>,
    u: nat,
    start: int,
    k: int,
)
    requires
        0 <= start <= k < v.children.len(),
        v.children[k].spans_point(q, u),
        forall|j: int| start <= j < k ==> !(#[trigger] v.children[j]).spans_point(q, u),
    ensures
        v.first_spanning_from(q, u, start) == k,
    decreases k - start,
{
    if start < k {
        lemma_first_spanning_found(v, q, u, start + 1, k);
    }
}

/// When no child from `start` on spans the point, the scan runs off the
/// end.
pub proof fn lemma_first_spanning_none<T>(v: TpnTreeView<T>, q: Seq<i64>, u: nat, start: int)
    requires
        0 <= start,
        forall|j: int|
            start <= j < v.children.len() ==> !(#[trigger] v.children[j]).spans_point(q, u),
    ensures
        v.first_spanning_from(q, u, start) == v.children.len(),
    decreases v.children.len() - start,
{
    if start < v.children.len() {
        lemma_first_spanning_none(v, q, u, start + 1);
    }
}

/// The first-spanning scan stays within bounds and, when it lands on a
/// child, that child spans the point.
proof fn lemma_first_spanning_properties<T>(v: TpnTreeView<T>, q: Seq<i64>, u: nat, start: int)
    requires
        0 <= start <= v.children.len(),
    ensures
        start <= v.first_spanning_from(q, u, start) <= v.children.len(),
        v.first_spanning_from(q, u, start) < v.children.len() ==> v.children[v.first_spanning_from(
            q,
            u,
            start,
        )].spans_point(q, u),
    decreases v.children.len() - start,
{
    if start < v.children.len() && !v.children[start].spans_point(q, u) {
        lemma_first_spanning_properties(v, q, u, start + 1);
    }
}

/// The node the descent reaches lies within the queried point: whenever a
/// well-formed tree spans a point, the located node is well-formed and its
/// own region still spans that point.
pub proof fn lemma_locate_in_spanned_region<T>(v: TpnTreeView<T>, q: Seq<i64>, u: nat)
    requires
        v.wf(),
        v.spans_point(q, u),
    ensures
        v.locate(q, u).wf(),
        v.locate(q, u).spans_point(q, u),
    decreases v,
{
    let k = v.first_spanning_from(q, u, 0);
    lemma_first_spanning_properties(v, q, u, 0);
    if 0 <= k < v.children.len() {
        assert(v.children[k].wf());
        lemma_locate_in_spanned_region(v.children[k], q, u);
    }
}

/// The descent stops only where it must: the located node is a leaf, or
/// none of its children spans the point.
pub proof fn lemma_locate_is_terminal<T>(v: TpnTreeView<T>, q: Seq<i64>, u: nat)
    ensures
        ({
            let node = v.locate(q, u);
            node.is_leaf() || forall|k: int|
                0 <= k < node.children.len() ==> !(#[trigger] node.children[k]).spans_point(q, u)
        }),
    decreases v,
{
    let k = v.first_spanning_from(q, u, 0);
    lemma_first_spanning_properties(v, q, u, 0);
    if 0 <= k < v.children.len() {
        lemma_locate_is_terminal(v.children[k], q, u);
    } else {
        assert forall|j: int|
            0 <= j < v.children.len() implies !(#[trigger] v.children[j]).spans_point(q, u) by {
            if v.children[j].spans_point(q, u) {
                lemma_first_spanning_le(v, q, u, 0, j);
            }
        }
    }
}

/// The scan never runs past a spanning child.
proof fn lemma_first_spanning_le<T>(v: TpnTreeView<T>, q: Seq<i64>, u: nat, start: int, m: int)
    requires
        0 <= start <= m < v.children.len(),
        v.children[m].spans_point(q, u),
    ensures
        v.first_spanning_from(q, u, start) <= m,
    decreases m - start,
{
    if start < m && !v.children[start].spans_point(q, u) {
        lemma_first_spanning_le(v, q, u, start + 1, m);
    }
}

/// Coverage: the children of a divided region jointly cover it. Whenever a
/// well-formed internal node spans a point, at least one of its children
/// spans that point, namely the child that moves toward the point along
/// every axis.
pub proof fn lemma_child_coverage<T>(v: TpnTreeView<T>, q: Seq<i64>, u: nat)
    requires
        v.wf(),
        !v.is_leaf(),
        v.spans_point(q, u),
    ensures
        exists|k: int|
            0 <= k < v.children.len() && (#[trigger] v.children[k]).spans_point(q, u),
{
    let signs = Seq::new(
        v.dim() as nat,
        |i: int| !le_at(v.coordinates[i] as int, v.scale, q[i] as int, u),
    );
    lemma_sign_combination_realized(v, signs);
    let k = choose|k: nat| k < v.children.len() && #[trigger] matches_signs(k, signs);
    let ki: int = k as int;
    let ch = v.children[ki];
    assert(v.child_geometry_ok(ki as nat));
    assert(ki as nat == k);
    assert forall|i: int| 0 <= i < v.dim() implies {
        let cc = ch.coordinates[i] as int;
        let cs = ch.span[i] as int;
        &&& le_at(cc - cs, ch.scale, #[trigger] q[i] as int, u)
        &&& le_at(q[i] as int, u, cc + cs, ch.scale)
    } by {
        let c = v.coordinates[i] as int;
        let s = v.span[i] as int;
        let m = v.scale;
        let cc = ch.coordinates[i] as int;
        let cs = ch.span[i] as int;
        assert(bit_of(k, i as nat) == signs[i]);
        assert(cc == child_num(v.coordinates[i], v.span[i], signs[i]));
        assert(cs == s);
        assert(le_at(c - s, m, q[i] as int, u));
        assert(le_at(q[i] as int, u, c + s, m));
        if signs[i] {
            // The point lies strictly below the center: the downward child
            // reaches from `c - s` up to `c`.
            assert(!le_at(c, m, q[i] as int, u));
            assert(cc == 2 * c - s);
            assert(cc - cs == 2 * (c - s));
            assert(cc + cs == 2 * c);
            lemma_le_at_double(c - s, m, q[i] as int, u);
            assert(le_at(cc - cs, m + 1, q[i] as int, u));
            lemma_le_at_double(c, m, q[i] as int, u);
            assert(le_at(q[i] as int, u, c, m));
            assert(le_at(q[i] as int, u, cc + cs, m + 1));
        } else {
            // The point lies at or above the center: the upward child
            // reaches from `c` up to `c + s`.
            assert(le_at(c, m, q[i] as int, u));
            assert(cc == 2 * c + s);
            assert(cc - cs == 2 * c);
            assert(cc + cs == 2 * (c + s));
            lemma_le_at_double(c, m, q[i] as int, u);
            assert(le_at(cc - cs, m + 1, q[i] as int, u));
            lemma_le_at_double(c + s, m, q[i] as int, u);
            assert(le_at(q[i] as int, u, cc + cs, m + 1));
        }
        assert(ch.scale == m + 1);
    }
    assert(ch.spans_point(q, u)) by {
        assert(ch.coordinates.len() == v.dim());
        assert(q.len() == ch.dim());
    }
    assert(0 <= k < v.children.len() && v.children[k as int].spans_point(q, u));
}

/// Division preserves well-formedness: the children a division attaches to
/// a well-formed leaf carry exactly the geometry `wf` demands, and each is a
/// well-formed leaf itself.
pub proof fn lemma_divided_wf<T>(v: TpnTreeView<T>)
    requires
        v.wf(),
        v.is_leaf(),
        v.divide_fits(),
    ensures
        v.divided().wf(),
{
    let d = v.divided();
    assert(d.children.len() == pow2(v.dim()));
    assert forall|k: int| 0 <= k < d.children.len() implies #[trigger] d.child_geometry_ok(
        k as nat,
    ) by {
        let ch = d.children[k];
        assert(ch == v.child_view(k as nat));
        assert forall|i: int| 0 <= i < d.dim() implies ch.coordinates[i] as int == child_num(
            d.coordinates[i],
            d.span[i],
            bit_of(k as nat, i as nat),
        ) by {
            assert(v.divide_fits());
            let c = v.coordinates[i] as int;
            let s = v.span[i] as int;
            assert(i64::MIN <= 2 * c - s <= i64::MAX);
            assert(i64::MIN <= 2 * c + s <= i64::MAX);
        }
    }
    assert forall|k: int| 0 <= k < d.children.len() implies (#[trigger] d.children[k]).wf() by {
        let ch = d.children[k];
        assert(ch == v.child_view(k as nat));
        assert(ch.children.len() == 0);
        assert(ch.span.len() == ch.dim());
    }
}

} // verus!
