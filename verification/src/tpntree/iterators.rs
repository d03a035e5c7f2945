use super::{TpnTree, TpnTreeView};
use vstd::prelude::*;

verus! {

/// Number of nodes in the tree.
pub open spec fn tree_size<T>(v: TpnTreeView<T>) -> nat
    decreases v,
{
    1 + forest_size(v.children)
}

/// Number of nodes in all trees of the forest together.
pub open spec fn forest_size<T>(f: Seq<TpnTreeView<T>>) -> nat
    decreases f,
{
    if f.len() == 0 {
        0
    } else {
        forest_size(f.drop_last()) + tree_size(f.last())
    }
}

/// The depth-first visiting order: the node itself, then the subtrees of
/// its children, the most recently enumerated child first. This is the
/// order a stack produces when each popped node pushes its children in
/// enumeration order.
pub open spec fn dfs_seq<T>(v: TpnTreeView<T>) -> Seq<TpnTreeView<T>>
    decreases v,
{
    seq![v] + dfs_forest(v.children)
}

/// Depth-first order over a pending stack, whose last tree is visited
/// first.
pub open spec fn dfs_forest<T>(f: Seq<TpnTreeView<T>>) -> Seq<TpnTreeView<T>>
    decreases f,
{
    if f.len() == 0 {
        Seq::empty()
    } else {
        dfs_seq(f.last()) + dfs_forest(f.drop_last())
    }
}

/// The breadth-first visiting order over a pending queue: the front node
/// first, with its children enqueued at the back in enumeration order, so
/// every node at one depth is visited before any node one deeper.
pub open spec fn bfs_seq<T>(q: Seq<TpnTreeView<T>>) -> Seq<TpnTreeView<T>>
    decreases forest_size(q),
        via bfs_seq_decreases::<T>
{
    if q.len() == 0 {
        Seq::empty()
    } else {
        seq![q[0]] + bfs_seq(q.drop_first() + q[0].children)
    }
}

/// Sizes add up over concatenation.
proof fn lemma_forest_size_concat<T>(a: Seq<TpnTreeView<T>>, b: Seq<TpnTreeView<T>>)
    ensures
        forest_size(a + b) == forest_size(a) + forest_size(b),
    decreases b.len(),
{
    if b.len() == 0 {
        assert(a + b =~= a);
    } else {
        lemma_forest_size_concat(a, b.drop_last());
        assert((a + b).drop_last() =~= a + b.drop_last());
        assert((a + b).last() == b.last());
    }
}

/// A forest's size splits at the front: the first tree plus the rest.
proof fn lemma_forest_size_drop_first<T>(f: Seq<TpnTreeView<T>>)
    requires
        f.len() > 0,
    ensures
        forest_size(f) == tree_size(f[0]) + forest_size(f.drop_first()),
{
    let single = seq![f[0]];
    assert(f =~= single + f.drop_first());
    lemma_forest_size_concat(single, f.drop_first());
    assert(single.drop_last() =~= Seq::<TpnTreeView<T>>::empty());
    assert(forest_size(Seq::<TpnTreeView<T>>::empty()) == 0);
    assert(single.len() == 1 && single.last() == f[0]);
    assert(forest_size(single) == forest_size(single.drop_last()) + tree_size(single.last()));
    assert(forest_size(single) == tree_size(f[0]));
}

/// The breadth-first queue step shrinks the total size by one: the front
/// node leaves and only its children enter.
#[via_fn]
proof fn bfs_seq_decreases<T>(q: Seq<TpnTreeView<T>>) {
    if q.len() > 0 {
        lemma_forest_size_drop_first(q);
        lemma_forest_size_concat(q.drop_first(), q[0].children);
    }
}

/// Depth-first order distributes over stack concatenation: what was pushed
/// later is visited first.
proof fn lemma_dfs_forest_concat<T>(a: Seq<TpnTreeView<T>>, b: Seq<TpnTreeView<T>>)
    ensures
        dfs_forest(a + b) == dfs_forest(b) + dfs_forest(a),
    decreases b.len(),
{
    if b.len() == 0 {
        assert(a + b =~= a);
        assert(dfs_forest(b) + dfs_forest(a) =~= dfs_forest(a));
    } else {
        lemma_dfs_forest_concat(a, b.drop_last());
        assert((a + b).drop_last() =~= a + b.drop_last());
        assert((a + b).last() == b.last());
        assert(dfs_forest(a + b) =~= dfs_forest(b) + dfs_forest(a)) by {
            assert(dfs_forest(a + b) == dfs_seq(b.last()) + dfs_forest(a + b.drop_last()));
            assert(dfs_forest(b) == dfs_seq(b.last()) + dfs_forest(b.drop_last()));
            assert(dfs_forest(a + b.drop_last()) == dfs_forest(b.drop_last()) + dfs_forest(a));
        }
    }
}

/// The depth-first order visits every node of the tree exactly once: its
/// length is the number of nodes.
pub proof fn lemma_dfs_visits_every_node_once<T>(v: TpnTreeView<T>)
    ensures
        dfs_seq(v).len() == tree_size(v),
    decreases v,
{
    lemma_dfs_forest_len(v.children);
}

proof fn lemma_dfs_forest_len<T>(f: Seq<TpnTreeView<T>>)
    ensures
        dfs_forest(f).len() == forest_size(f),
    decreases f,
{
    if f.len() > 0 {
        lemma_dfs_visits_every_node_once(f.last());
        lemma_dfs_forest_len(f.drop_last());
    }
}

/// The breadth-first order visits every node of every queued tree exactly
/// once: its length is the number of nodes.
pub proof fn lemma_bfs_visits_every_node_once<T>(q: Seq<TpnTreeView<T>>)
    ensures
        bfs_seq(q).len() == forest_size(q),
    decreases forest_size(q),
{
    if q.len() > 0 {
        lemma_forest_size_drop_first(q);
        lemma_forest_size_concat(q.drop_first(), q[0].children);
        lemma_bfs_visits_every_node_once(q.drop_first() + q[0].children);
    }
}

/// Every node the breadth-first order yields lies at or below the queue's
/// shallowest level bound.
proof fn lemma_bfs_level_lower_bound<T>(q: Seq<TpnTreeView<T>>, b: nat)
    requires
        forall|i: int| 0 <= i < q.len() ==> (#[trigger] q[i]).wf(),
        forall|i: int| 0 <= i < q.len() ==> b <= (#[trigger] q[i]).level,
    ensures
        forall|i: int| 0 <= i < bfs_seq(q).len() ==> b <= (#[trigger] bfs_seq(q)[i]).level,
    decreases forest_size(q),
{
    if q.len() > 0 {
        let q2 = q.drop_first() + q[0].children;
        assert forall|i: int| 0 <= i < q2.len() implies (#[trigger] q2[i]).wf() && b
            <= q2[i].level by {
            if i < q.drop_first().len() {
                assert(q2[i] == q[i + 1]);
            } else {
                let k: int = i - q.drop_first().len();
                assert(q2[i] == q[0].children[k]);
                assert(q[0].child_geometry_ok(k as nat));
                assert(q[0].children[k].wf());
                assert(q2[i].level == q[0].level + 1);
            }
        }
        lemma_forest_size_drop_first(q);
        lemma_forest_size_concat(q.drop_first(), q[0].children);
        lemma_bfs_level_lower_bound(q2, b);
        assert forall|i: int| 0 <= i < bfs_seq(q).len() implies b <= (#[trigger] bfs_seq(
            q,
        )[i]).level by {
            if i > 0 {
                assert(bfs_seq(q)[i] == bfs_seq(q2)[i - 1]);
            }
        }
    }
}

/// Breadth-first order is level order: over a queue whose levels are
/// non-decreasing and spread over at most two adjacent depths — as the
/// traversal queue always is — the yielded levels never decrease.
proof fn lemma_bfs_is_level_order<T>(q: Seq<TpnTreeView<T>>)
    requires
        forall|i: int| 0 <= i < q.len() ==> (#[trigger] q[i]).wf(),
        forall|i: int, j: int| 0 <= i <= j < q.len() ==> q[i].level <= q[j].level,
        forall|i: int, j: int|
            0 <= i < q.len() && 0 <= j < q.len() ==> q[j].level <= q[i].level + 1,
    ensures
        forall|i: int, j: int|
            0 <= i <= j < bfs_seq(q).len() ==> bfs_seq(q)[i].level <= bfs_seq(q)[j].level,
    decreases forest_size(q),
{
    if q.len() > 0 {
        let q2 = q.drop_first() + q[0].children;
        assert forall|i: int| 0 <= i < q2.len() implies (#[trigger] q2[i]).wf() && q[0].level
            <= q2[i].level <= q[0].level + 1 by {
            if i < q.drop_first().len() {
                assert(q2[i] == q[i + 1]);
            } else {
                let k: int = i - q.drop_first().len();
                assert(q2[i] == q[0].children[k]);
                assert(q[0].child_geometry_ok(k as nat));
                assert(q[0].children[k].wf());
                assert(q2[i].level == q[0].level + 1);
            }
        }
        assert forall|i: int, j: int| 0 <= i <= j < q2.len() implies q2[i].level
            <= q2[j].level by {
            if j < q.drop_first().len() {
                assert(q2[i] == q[i + 1] && q2[j] == q[j + 1]);
            } else {
                let kj: int = j - q.drop_first().len();
                assert(q2[j] == q[0].children[kj]);
                assert(q[0].child_geometry_ok(kj as nat));
                assert(q2[j].level == q[0].level + 1);
                if i < q.drop_first().len() {
                    assert(q2[i] == q[i + 1]);
                    assert(q[i + 1].level <= q[0].level + 1);
                } else {
                    let ki: int = i - q.drop_first().len();
                    assert(q2[i] == q[0].children[ki]);
                    assert(q[0].child_geometry_ok(ki as nat));
                    assert(q2[i].level == q[0].level + 1);
                }
            }
        }
        lemma_forest_size_drop_first(q);
        lemma_forest_size_concat(q.drop_first(), q[0].children);
        lemma_bfs_is_level_order(q2);
        lemma_bfs_level_lower_bound(q2, q[0].level);
        assert forall|i: int, j: int| 0 <= i <= j < bfs_seq(q).len() implies bfs_seq(q)[i].level
            <= bfs_seq(q)[j].level by {
            if 0 < i {
                assert(bfs_seq(q)[i] == bfs_seq(q2)[i - 1]);
                assert(bfs_seq(q)[j] == bfs_seq(q2)[j - 1]);
            } else if 0 < j {
                assert(bfs_seq(q)[i] == q[0]);
                assert(bfs_seq(q)[j] == bfs_seq(q2)[j - 1]);
            }
        }
    }
}

/// The breadth-first traversal of a well-formed tree is level order: every
/// node at one depth is visited before any node one deeper.
pub proof fn lemma_breadth_first_level_order<T>(v: TpnTreeView<T>)
    requires
        v.wf(),
    ensures
        forall|i: int, j: int|
            0 <= i <= j < bfs_seq(seq![v]).len() ==> bfs_seq(seq![v])[i].level <= bfs_seq(
                seq![v],
            )[j].level,
{
    lemma_bfs_is_level_order(seq![v]);
}

impl<T> TpnTree<T> {
    /// Visits the whole tree depth first, starting with the root, and
    /// returns the nodes in visiting order.
    ///
    /// Each step yields one node and stacks its children in enumeration
    /// order, so the most recently enumerated child is visited before its
    /// earlier siblings; this exact order is part of the contract for
    /// reproducibility.
    pub fn depth_first(&self) -> (r: Vec<&Self>)
        ensures
            r@.map_values(|t: &Self| t@) == dfs_seq(self@),
    {
        let mut stack: Vec<&Self> = Vec::new();
        stack.push(self);
        let mut out: Vec<&Self> = Vec::new();
        proof {
            assert(stack@.map_values(|t: &Self| t@) =~= seq![self@]);
            assert(dfs_forest(seq![self@]) =~= dfs_seq(self@)) by {
                assert(seq![self@].drop_last() =~= Seq::<TpnTreeView<T>>::empty());
                assert(dfs_forest(seq![self@]) == dfs_seq(self@) + dfs_forest(
                    Seq::<TpnTreeView<T>>::empty(),
                ));
                assert(dfs_seq(self@) + Seq::<TpnTreeView<T>>::empty() =~= dfs_seq(self@));
            }
            assert(out@.map_values(|t: &Self| t@) + dfs_forest(stack@.map_values(|t: &Self| t@))
                =~= dfs_seq(self@));
        }
        while stack.len() > 0
            invariant
                out@.map_values(|t: &Self| t@) + dfs_forest(stack@.map_values(|t: &Self| t@))
                    == dfs_seq(self@),
            decreases forest_size(stack@.map_values(|t: &Self| t@)),
        {
            let ghost stack_pre = stack@.map_values(|t: &Self| t@);
            let ghost out_pre = out@.map_values(|t: &Self| t@);
            let t = match stack.pop() {
                Some(t) => t,
                None => {
                    proof {
                        assert(false);
                    }
                    self
                },
            };
            out.push(t);
            let cs = t.children();
            let mut i: usize = 0;
            while i < cs.len()
                invariant
                    0 <= i <= cs@.len(),
                    cs@.len() == t@.children.len(),
                    forall|j: int| 0 <= j < cs@.len() ==> (#[trigger] cs@[j])@ == t@.children[j],
                    stack@.map_values(|x: &Self| x@) =~= stack_pre.drop_last() + t@.children
                        .subrange(0, i as int),
                decreases cs@.len() - i,
            {
                let ghost smv = stack@.map_values(|x: &Self| x@);
                stack.push(&cs[i]);
                proof {
                    assert(stack@.map_values(|x: &Self| x@) =~= smv.push(cs@[i as int]@));
                    assert(cs@[i as int]@ == t@.children[i as int]);
                    assert(smv.push(t@.children[i as int]) =~= stack_pre.drop_last() + t@.children
                        .subrange(0, i + 1));
                }
                i = i + 1;
            }
            proof {
                let stack_now = stack@.map_values(|x: &Self| x@);
                let out_now = out@.map_values(|x: &Self| x@);
                assert(t@.children.subrange(0, t@.children.len() as int) =~= t@.children);
                assert(stack_now =~= stack_pre.drop_last() + t@.children);
                assert(out_now =~= out_pre.push(t@));
                assert(t@ == stack_pre.last());
                lemma_dfs_forest_concat(stack_pre.drop_last(), t@.children);
                assert(dfs_forest(stack_now) == dfs_forest(t@.children) + dfs_forest(
                    stack_pre.drop_last(),
                ));
                assert(dfs_forest(stack_pre) == dfs_seq(t@) + dfs_forest(stack_pre.drop_last()));
                assert(dfs_seq(t@) == seq![t@] + dfs_forest(t@.children));
                assert(out_now + dfs_forest(stack_now) =~= out_pre + dfs_forest(stack_pre));
                // The stack lost one node and gained only the children of
                // that node.
                lemma_forest_size_concat(stack_pre.drop_last(), t@.children);
                assert(forest_size(stack_pre) == forest_size(stack_pre.drop_last()) + tree_size(
                    t@,
                )) by {
                    assert(stack_pre.drop_last() =~= stack_pre.drop_last());
                }
            }
        }
        proof {
            assert(stack@.map_values(|t: &Self| t@).len() == 0);
            assert(stack@.map_values(|t: &Self| t@) =~= Seq::<TpnTreeView<T>>::empty());
            assert(out@.map_values(|t: &Self| t@) + Seq::<TpnTreeView<T>>::empty() =~= out@
                .map_values(|t: &Self| t@));
        }
        out
    }

    /// Visits the whole tree breadth first, starting with the root, and
    /// returns the nodes in visiting order.
    ///
    /// Each step yields the node at the front of the queue and enqueues its
    /// children in enumeration order at the back, producing level order:
    /// every node at one depth is visited before any node one deeper.
    pub fn breadth_first(&self) -> (r: Vec<&Self>)
        ensures
            r@.map_values(|t: &Self| t@) == bfs_seq(seq![self@]),
    {
        let mut queue: Vec<&Self> = Vec::new();
        queue.push(self);
        let mut head: usize = 0;
        let mut out: Vec<&Self> = Vec::new();
        proof {
            assert(queue@.map_values(|t: &Self| t@).subrange(0, 1) =~= seq![self@]);
            assert(out@.map_values(|t: &Self| t@) + bfs_seq(seq![self@]) =~= bfs_seq(
                seq![self@],
            ));
        }
        while head < queue.len()
            invariant
                0 <= head <= queue@.len(),
                out@.map_values(|t: &Self| t@) + bfs_seq(
                    queue@.map_values(|t: &Self| t@).subrange(
                        head as int,
                        queue@.len() as int,
                    ),
                ) == bfs_seq(seq![self@]),
            decreases forest_size(
                queue@.map_values(|t: &Self| t@).subrange(head as int, queue@.len() as int),
            ),
        {
            let ghost queue_pre = queue@.map_values(|t: &Self| t@);
            let ghost rest_pre = queue_pre.subrange(head as int, queue_pre.len() as int);
            let ghost out_pre = out@.map_values(|t: &Self| t@);
            let t = queue[head];
            head = head + 1;
            out.push(t);
            let cs = t.children();
            let mut i: usize = 0;
            while i < cs.len()
                invariant
                    0 <= i <= cs@.len(),
                    cs@.len() == t@.children.len(),
                    forall|j: int| 0 <= j < cs@.len() ==> (#[trigger] cs@[j])@ == t@.children[j],
                    queue@.map_values(|x: &Self| x@) =~= queue_pre + t@.children.subrange(
                        0,
                        i as int,
                    ),
                    head <= queue@.len(),
                decreases cs@.len() - i,
            {
                let ghost qmv = queue@.map_values(|x: &Self| x@);
                queue.push(&cs[i]);
                proof {
                    assert(queue@.map_values(|x: &Self| x@) =~= qmv.push(cs@[i as int]@));
                    assert(cs@[i as int]@ == t@.children[i as int]);
                    assert(qmv.push(t@.children[i as int]) =~= queue_pre + t@.children.subrange(
                        0,
                        i + 1,
                    ));
                }
                i = i + 1;
            }
            proof {
                let queue_now = queue@.map_values(|x: &Self| x@);
                let rest_now = queue_now.subrange(head as int, queue_now.len() as int);
                let out_now = out@.map_values(|x: &Self| x@);
                assert(t@.children.subrange(0, t@.children.len() as int) =~= t@.children);
                assert(queue_now =~= queue_pre + t@.children);
                assert(rest_now =~= rest_pre.drop_first() + t@.children);
                assert(out_now =~= out_pre.push(t@));
                assert(t@ == rest_pre[0]);
                assert(bfs_seq(rest_pre) == seq![t@] + bfs_seq(rest_pre.drop_first() + t@.children));
                assert(out_now + bfs_seq(rest_now) =~= out_pre + bfs_seq(rest_pre));
                // The queue's unread part lost its front node and gained
                // only that node's children.
                lemma_forest_size_drop_first(rest_pre);
                lemma_forest_size_concat(rest_pre.drop_first(), t@.children);
            }
        }
        proof {
            let rest = queue@.map_values(|t: &Self| t@).subrange(
                head as int,
                queue@.len() as int,
            );
            assert(rest =~= Seq::<TpnTreeView<T>>::empty());
            assert(out@.map_values(|t: &Self| t@) + bfs_seq(Seq::<TpnTreeView<T>>::empty()) =~= out@
                .map_values(|t: &Self| t@));
        }
        out
    }
}

} // verus!
