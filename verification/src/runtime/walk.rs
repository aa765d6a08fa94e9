//! The depth-first traversal behind the construction order, as ghost state
//! with its invariant, and the proofs that each step keeps it.

use vstd::prelude::*;
use crate::derive_api::MetaView;
use crate::runtime::graph::{
    cycle_through, dependencies_first, depends_on, is_group_of, is_path, lemma_reach_step, lists,
    needed_order, placed, placed_before, reaches, registered, registration_order_kept,
    valid_order,
};

verus! {

/// One pending step of the traversal.
pub enum Visit {
    /// The identity is to be entered: its descriptors are taken out of the
    /// graph and its dependencies queued above it.
    BeforeChildren(u64),
    /// The identity has been entered and these descriptors of it are
    /// appended to the order once everything above has been handled.
    AfterChildren(u64, Vec<usize>),
}

impl Visit {
    pub open spec fn id(self) -> u64 {
        match self {
            Visit::BeforeChildren(id) => id,
            Visit::AfterChildren(id, _) => id,
        }
    }

    pub open spec fn is_after(self) -> bool {
        self is AfterChildren
    }

    pub open spec fn members(self) -> Seq<usize> {
        match self {
            Visit::BeforeChildren(_) => Seq::empty(),
            Visit::AfterChildren(_, members) => members@,
        }
    }
}

/// The state of a traversal.
pub ghost struct Walk {
    /// The groups not entered yet.
    pub remaining: Map<u64, Seq<usize>>,
    /// The pending steps, the next one last.
    pub stack: Seq<Visit>,
    /// For each pending step, the place in `stack` of the entered identity
    /// that queued it, or -1 for the root.
    pub parent: Seq<int>,
    /// The identities entered and not yet finished.
    pub grey: Set<u64>,
    /// The descriptors finished so far.
    pub order: Seq<usize>,
}

/// `id` is registered and all its descriptors are in the order.
pub open spec fn black(metas: Seq<MetaView>, w: Walk, id: u64) -> bool {
    registered(metas, id) && !w.remaining.contains_key(id) && !w.grey.contains(id)
}

/// Nothing is left to do for `id`: it is finished, or nothing provides it.
pub open spec fn settled(metas: Seq<MetaView>, w: Walk, id: u64) -> bool {
    !registered(metas, id) || black(metas, w, id)
}

/// A step for `id` is pending above place `q`.
pub open spec fn above(w: Walk, q: int, id: u64) -> bool {
    exists|q2: int| q < q2 < w.stack.len() && (#[trigger] w.stack[q2]).id() == id
}

/// Every dependency of the identity entered at place `q` is settled or still
/// pending above it.
pub open spec fn children_pending(metas: Seq<MetaView>, w: Walk, q: int) -> bool {
    forall|d: u64| #[trigger]
        depends_on(metas, w.stack[q].id(), d) ==> settled(metas, w, d) || above(w, q, d)
}

/// What holds of an entered identity at place `q`.
pub open spec fn after_ok(metas: Seq<MetaView>, w: Walk, q: int) -> bool {
    let id = w.stack[q].id();
    &&& registered(metas, id)
    &&& !w.remaining.contains_key(id)
    &&& w.grey.contains(id)
    &&& is_group_of(metas, metas.len(), id, w.stack[q].members())
    &&& forall|q2: int|
        0 <= q2 < w.stack.len() && q2 != q && (#[trigger] w.stack[q2]).is_after()
            ==> w.stack[q2].id() != id
    &&& children_pending(metas, w, q)
}

/// What holds of the pending step at place `q`: it was queued by the nearest
/// entered identity below it, which depends on it.
pub open spec fn entry_ok(metas: Seq<MetaView>, w: Walk, q: int) -> bool {
    &&& -1 <= w.parent[q] < q
    &&& w.parent[q] >= 0 ==> w.stack[w.parent[q]].is_after() && depends_on(
        metas,
        w.stack[w.parent[q]].id(),
        w.stack[q].id(),
    )
    &&& forall|p: int| w.parent[q] < p < q ==> !(#[trigger] w.stack[p]).is_after()
    &&& w.stack[q].is_after() ==> after_ok(metas, w, q)
}

/// An entered identity `id` is pending.
pub open spec fn on_stack(w: Walk, id: u64) -> bool {
    exists|q: int|
        0 <= q < w.stack.len() && (#[trigger] w.stack[q]).is_after() && w.stack[q].id() == id
}

/// What holds of the order built so far.
pub open spec fn order_inv(metas: Seq<MetaView>, w: Walk) -> bool {
    &&& forall|k: int| 0 <= k < w.order.len() ==> (#[trigger] w.order[k]) < metas.len()
    &&& forall|k1: int, k2: int|
        0 <= k1 < k2 < w.order.len() ==> #[trigger] w.order[k1] != #[trigger] w.order[k2]
    &&& forall|i: int|
        0 <= i < metas.len() ==> (#[trigger] placed(w.order, i) <==> black(metas, w, metas[i].this))
    &&& dependencies_first(metas, w.order)
    &&& registration_order_kept(metas, w.order)
}

/// The invariant of the traversal.
pub open spec fn walk_inv(metas: Seq<MetaView>, w: Walk) -> bool {
    &&& metas.len() <= usize::MAX
    &&& w.remaining.dom().finite()
    &&& forall|id: u64| #[trigger]
        w.remaining.contains_key(id) ==> registered(metas, id) && is_group_of(
            metas,
            metas.len(),
            id,
            w.remaining[id],
        )
    &&& w.parent.len() == w.stack.len()
    &&& forall|q: int| 0 <= q < w.stack.len() ==> #[trigger] entry_ok(metas, w, q)
    &&& forall|id: u64| #[trigger] w.grey.contains(id) ==> on_stack(w, id)
    &&& order_inv(metas, w)
}

/// The state after the topmost step was dropped without effect.
pub open spec fn skipped(w: Walk) -> Walk {
    Walk { stack: w.stack.drop_last(), parent: w.parent.drop_last(), ..w }
}

/// The state after the topmost step, an entered identity, was finished.
pub open spec fn closed(w: Walk) -> Walk {
    Walk {
        stack: w.stack.drop_last(),
        parent: w.parent.drop_last(),
        grey: w.grey.remove(w.stack.last().id()),
        order: w.order + w.stack.last().members(),
        ..w
    }
}

/// The steps that queue `children`, in their order.
pub open spec fn queued(children: Seq<u64>) -> Seq<Visit> {
    Seq::new(children.len(), |c: int| Visit::BeforeChildren(children[c]))
}

/// The state after the topmost step entered its identity: `entered` takes its
/// place and the identity's dependencies are queued above.
pub open spec fn opened(w: Walk, entered: Visit, children: Seq<u64>) -> Walk {
    Walk {
        remaining: w.remaining.remove(entered.id()),
        stack: w.stack.drop_last().push(entered) + queued(children),
        parent: w.parent + Seq::new(children.len(), |c: int| w.stack.len() - 1),
        grey: w.grey.insert(entered.id()),
        order: w.order,
    }
}

/// Dropping a step for an identity that is neither waiting in the graph nor
/// entered keeps the invariant.
pub proof fn lemma_skip(metas: Seq<MetaView>, w: Walk)
    requires
        walk_inv(metas, w),
        w.stack.len() > 0,
        !w.stack.last().is_after(),
        !w.remaining.contains_key(w.stack.last().id()),
        !w.grey.contains(w.stack.last().id()),
    ensures
        walk_inv(metas, skipped(w)),
{
    let w2 = skipped(w);
    let t = w.stack.len() - 1;
    let d = w.stack[t].id();
    assert forall|q: int| 0 <= q < w2.stack.len() implies #[trigger] entry_ok(metas, w2, q) by {
        assert(entry_ok(metas, w, q));
        assert(w2.stack[q] == w.stack[q]);
        if w.parent[q] >= 0 {
            assert(w2.stack[w.parent[q]] == w.stack[w.parent[q]]);
        }
        assert forall|p: int| w2.parent[q] < p < q implies !(#[trigger] w2.stack[p]).is_after() by {
            assert(w2.stack[p] == w.stack[p]);
        }
        if w.stack[q].is_after() {
            assert(after_ok(metas, w, q));
            assert forall|q2: int|
                0 <= q2 < w2.stack.len() && q2 != q && (#[trigger] w2.stack[q2]).is_after()
                    implies w2.stack[q2].id() != w2.stack[q].id() by {
                assert(w2.stack[q2] == w.stack[q2]);
            }
            assert forall|x: u64| #[trigger]
                depends_on(metas, w2.stack[q].id(), x) implies settled(metas, w2, x) || above(
                w2,
                q,
                x,
            ) by {
                if !settled(metas, w, x) {
                    assert(above(w, q, x));
                    let q2 = choose|q2: int|
                        q < q2 < w.stack.len() && (#[trigger] w.stack[q2]).id() == x;
                    if q2 < t {
                        assert(w2.stack[q2] == w.stack[q2]);
                    }
                }
            }
        }
    }
    assert forall|id: u64| #[trigger] w2.grey.contains(id) implies on_stack(w2, id) by {
        assert(on_stack(w, id));
        let q = choose|q: int|
            0 <= q < w.stack.len() && (#[trigger] w.stack[q]).is_after() && w.stack[q].id() == id;
        assert(w2.stack[q] == w.stack[q]);
    }
    assert forall|i: int| 0 <= i < metas.len() implies (#[trigger] placed(w2.order, i) <==> black(
        metas,
        w2,
        metas[i].this,
    )) by {
        assert(placed(w.order, i) <==> black(metas, w, metas[i].this));
    }
}

/// Finishing the entered identity on top of the stack keeps the invariant.
pub proof fn lemma_close(metas: Seq<MetaView>, w: Walk)
    requires
        walk_inv(metas, w),
        w.stack.len() > 0,
        w.stack.last().is_after(),
    ensures
        walk_inv(metas, closed(w)),
{
    let w2 = closed(w);
    let t = w.stack.len() - 1;
    let d = w.stack[t].id();
    let group = w.stack[t].members();
    let n = metas.len();
    assert(entry_ok(metas, w, t));
    assert(after_ok(metas, w, t));
    assert(black(metas, w2, d));
    assert forall|q: int| 0 <= q < w2.stack.len() implies #[trigger] entry_ok(metas, w2, q) by {
        assert(entry_ok(metas, w, q));
        assert(w2.stack[q] == w.stack[q]);
        if w.parent[q] >= 0 {
            assert(w2.stack[w.parent[q]] == w.stack[w.parent[q]]);
        }
        assert forall|p: int| w2.parent[q] < p < q implies !(#[trigger] w2.stack[p]).is_after() by {
            assert(w2.stack[p] == w.stack[p]);
        }
        if w.stack[q].is_after() {
            assert(after_ok(metas, w, q));
            assert(w.stack[q].id() != d);
            assert forall|q2: int|
                0 <= q2 < w2.stack.len() && q2 != q && (#[trigger] w2.stack[q2]).is_after()
                    implies w2.stack[q2].id() != w2.stack[q].id() by {
                assert(w2.stack[q2] == w.stack[q2]);
            }
            assert forall|x: u64| #[trigger]
                depends_on(metas, w2.stack[q].id(), x) implies settled(metas, w2, x) || above(
                w2,
                q,
                x,
            ) by {
                if !settled(metas, w, x) {
                    assert(above(w, q, x));
                    let q2 = choose|q2: int|
                        q < q2 < w.stack.len() && (#[trigger] w.stack[q2]).id() == x;
                    if q2 < t {
                        assert(w2.stack[q2] == w.stack[q2]);
                    }
                }
            }
        }
    }
    assert forall|id: u64| #[trigger] w2.grey.contains(id) implies on_stack(w2, id) by {
        assert(on_stack(w, id));
        let q = choose|q: int|
            0 <= q < w.stack.len() && (#[trigger] w.stack[q]).is_after() && w.stack[q].id() == id;
        assert(w2.stack[q] == w.stack[q]);
    }
    let old_len = w.order.len() as int;
    // Nothing registered under `d` was placed before.
    assert forall|k: int| 0 <= k < old_len implies metas[(#[trigger] w.order[k]) as int].this
        != d by {
        assert(placed(w.order, w.order[k] as int));
    }
    assert forall|k: int| 0 <= k < w2.order.len() implies (#[trigger] w2.order[k]) < n by {
        if k >= old_len {
            assert(w2.order[k] == group[k - old_len]);
        }
    }
    assert forall|k1: int, k2: int| 0 <= k1 < k2 < w2.order.len() implies #[trigger] w2.order[k1]
        != #[trigger] w2.order[k2] by {
        if k2 >= old_len {
            assert(w2.order[k2] == group[k2 - old_len]);
            if k1 >= old_len {
                assert(w2.order[k1] == group[k1 - old_len]);
            } else {
                assert(w2.order[k1] == w.order[k1]);
            }
        }
    }
    assert forall|i: int| 0 <= i < n implies (#[trigger] placed(w2.order, i) <==> black(
        metas,
        w2,
        metas[i].this,
    )) by {
        assert(placed(w.order, i) <==> black(metas, w, metas[i].this));
        if metas[i].this == d {
            assert(group.contains(i as usize));
            let e = choose|e: int| 0 <= e < group.len() && group[e] == i as usize;
            assert(w2.order[old_len + e] == i);
        } else {
            if placed(w.order, i) {
                let k = choose|k: int| 0 <= k < w.order.len() && #[trigger] w.order[k] == i;
                assert(w2.order[k] == i);
            }
            if placed(w2.order, i) {
                let k = choose|k: int| 0 <= k < w2.order.len() && #[trigger] w2.order[k] == i;
                if k >= old_len {
                    assert(w2.order[k] == group[k - old_len]);
                } else {
                    assert(w.order[k] == i);
                }
            }
        }
    }
    assert forall|k: int, i: int|
        0 <= k < w2.order.len() && 0 <= i < n && #[trigger] lists(
            metas,
            w2.order[k] as int,
            metas[i].this,
        ) implies placed_before(w2.order, i, k) by {
        if k < old_len {
            assert(w2.order[k] == w.order[k]);
            assert(placed_before(w.order, i, k));
            let k2 = choose|k2: int| 0 <= k2 < k && k2 < w.order.len() && #[trigger] w.order[k2] == i;
            assert(w2.order[k2] == i);
        } else {
            assert(w2.order[k] == group[k - old_len]);
            assert(depends_on(metas, d, metas[i].this));
            assert(settled(metas, w, metas[i].this) || above(w, t, metas[i].this));
            assert(black(metas, w, metas[i].this));
            assert(placed(w.order, i));
            let k2 = choose|k2: int| 0 <= k2 < w.order.len() && #[trigger] w.order[k2] == i;
            assert(w2.order[k2] == i);
        }
    }
    assert forall|k1: int, k2: int|
        0 <= k1 < k2 < w2.order.len() && w2.order[k1] < n && w2.order[k2] < n
            && metas[w2.order[k1] as int].this == metas[w2.order[k2] as int].this implies #[trigger] w2.order[k1]
        < #[trigger] w2.order[k2] by {
        if k2 >= old_len {
            assert(w2.order[k2] == group[k2 - old_len]);
            if k1 >= old_len {
                assert(w2.order[k1] == group[k1 - old_len]);
            } else {
                assert(w2.order[k1] == w.order[k1]);
            }
        } else {
            assert(w2.order[k1] == w.order[k1]);
            assert(w2.order[k2] == w.order[k2]);
        }
    }
}

/// Entering the identity of the topmost step keeps the invariant: its group
/// leaves the graph, it becomes an entered identity in the same place, and
/// all it depends on is queued above it.
pub proof fn lemma_open(metas: Seq<MetaView>, w: Walk, entered: Visit, children: Seq<u64>)
    requires
        walk_inv(metas, w),
        w.stack.len() > 0,
        !w.stack.last().is_after(),
        entered.is_after(),
        entered.id() == w.stack.last().id(),
        w.remaining.contains_key(entered.id()),
        entered.members() == w.remaining[entered.id()],
        forall|c: int|
            0 <= c < children.len() ==> depends_on(metas, entered.id(), #[trigger] children[c]),
        forall|x: u64| #[trigger] depends_on(metas, entered.id(), x) ==> children.contains(x),
    ensures
        walk_inv(metas, opened(w, entered, children)),
{
    let w2 = opened(w, entered, children);
    let t = w.stack.len() - 1;
    let d = entered.id();
    assert(entry_ok(metas, w, t));
    assert(w2.stack.len() == t + 1 + children.len());
    assert(w2.stack[t] == entered);
    assert forall|q: int| 0 <= q < t implies #[trigger] w2.stack[q] == w.stack[q] by {}
    assert forall|q: int| 0 <= q <= t implies (#[trigger] w2.stack[q]).id() == w.stack[q].id() by {}
    assert forall|q: int| t < q < w2.stack.len() implies #[trigger] w2.stack[q]
        == Visit::BeforeChildren(children[q - t - 1]) by {}
    assert forall|q: int| 0 <= q < w2.stack.len() implies #[trigger] entry_ok(metas, w2, q) by {
        if q < t {
            assert(entry_ok(metas, w, q));
            assert(w2.stack[q] == w.stack[q]);
            if w.parent[q] >= 0 {
                assert(w2.stack[w.parent[q]] == w.stack[w.parent[q]]);
            }
            assert forall|p: int| w2.parent[q] < p < q implies !(#[trigger] w2.stack[p]).is_after() by {
                assert(w2.stack[p] == w.stack[p]);
            }
            if w.stack[q].is_after() {
                assert(after_ok(metas, w, q));
                assert(w.stack[q].id() != d);
                assert forall|q2: int|
                    0 <= q2 < w2.stack.len() && q2 != q && (#[trigger] w2.stack[q2]).is_after()
                        implies w2.stack[q2].id() != w2.stack[q].id() by {
                    if q2 < t {
                        assert(w2.stack[q2] == w.stack[q2]);
                    }
                }
                assert forall|x: u64| #[trigger]
                    depends_on(metas, w2.stack[q].id(), x) implies settled(metas, w2, x) || above(
                    w2,
                    q,
                    x,
                ) by {
                    if settled(metas, w, x) {
                        assert(x != d);
                    } else {
                        assert(above(w, q, x));
                        let q2 = choose|q2: int|
                            q < q2 < w.stack.len() && (#[trigger] w.stack[q2]).id() == x;
                        assert(w2.stack[q2].id() == x);
                    }
                }
            }
        } else if q == t {
            if w.parent[q] >= 0 {
                assert(w2.stack[w.parent[q]] == w.stack[w.parent[q]]);
            }
            assert forall|p: int| w2.parent[q] < p < q implies !(#[trigger] w2.stack[p]).is_after() by {
                assert(w2.stack[p] == w.stack[p]);
            }
            assert forall|q2: int|
                0 <= q2 < w2.stack.len() && q2 != q && (#[trigger] w2.stack[q2]).is_after()
                    implies w2.stack[q2].id() != d by {
                if q2 < t {
                    assert(w2.stack[q2] == w.stack[q2]);
                    assert(entry_ok(metas, w, q2));
                }
            }
            assert forall|x: u64| #[trigger] depends_on(metas, d, x) implies settled(metas, w2, x)
                || above(w2, q, x) by {
                assert(children.contains(x));
                let c = choose|c: int| 0 <= c < children.len() && children[c] == x;
                assert(w2.stack[t + 1 + c].id() == x);
            }
        } else {
            assert(w2.parent[q] == t);
        }
    }
    assert forall|id: u64| #[trigger] w2.grey.contains(id) implies on_stack(w2, id) by {
        if id == d {
            assert(w2.stack[t].is_after());
        } else {
            assert(on_stack(w, id));
            let q = choose|q: int|
                0 <= q < w.stack.len() && (#[trigger] w.stack[q]).is_after() && w.stack[q].id()
                    == id;
            assert(w2.stack[q] == w.stack[q]);
        }
    }
    assert forall|i: int| 0 <= i < metas.len() implies (#[trigger] placed(w2.order, i) <==> black(
        metas,
        w2,
        metas[i].this,
    )) by {
        assert(placed(w.order, i) <==> black(metas, w, metas[i].this));
    }
}

/// From an entered identity at place `p` a chain of dependencies leads to
/// the step pending at any place `q` above it.
pub proof fn lemma_chain(metas: Seq<MetaView>, w: Walk, p: int, q: int) -> (path: Seq<u64>)
    requires
        walk_inv(metas, w),
        0 <= p < q < w.stack.len(),
        w.stack[p].is_after(),
    ensures
        path.len() >= 2,
        path[0] == w.stack[p].id(),
        path.last() == w.stack[q].id(),
        is_path(metas, path),
    decreases q,
{
    assert(entry_ok(metas, w, q));
    let r = w.parent[q];
    if r < p {
        assert(!w.stack[p].is_after());
    }
    if r == p {
        seq![w.stack[p].id(), w.stack[q].id()]
    } else {
        let shorter = lemma_chain(metas, w, p, r);
        let path = shorter.push(w.stack[q].id());
        assert forall|j: int| 0 <= j < path.len() - 1 implies depends_on(
            metas,
            #[trigger] path[j],
            path[j + 1],
        ) by {
            if j < shorter.len() - 1 {
                assert(depends_on(metas, shorter[j], shorter[j + 1]));
            }
        }
        path
    }
}

/// Meeting a step for an identity that is entered and not finished shows a
/// cycle through that identity.
pub proof fn lemma_cycle(metas: Seq<MetaView>, w: Walk)
    requires
        walk_inv(metas, w),
        w.stack.len() > 0,
        !w.stack.last().is_after(),
        w.grey.contains(w.stack.last().id()),
    ensures
        cycle_through(metas, w.stack.last().id()),
{
    let d = w.stack.last().id();
    assert(on_stack(w, d));
    let p = choose|p: int|
        0 <= p < w.stack.len() && (#[trigger] w.stack[p]).is_after() && w.stack[p].id() == d;
    let path = lemma_chain(metas, w, p, w.stack.len() - 1);
    assert(is_path(metas, path));
}

/// When nothing is pending and the graph is empty, the order is valid.
pub proof fn lemma_done(metas: Seq<MetaView>, w: Walk)
    requires
        walk_inv(metas, w),
        w.stack.len() == 0,
        forall|id: u64| !w.remaining.contains_key(id),
    ensures
        valid_order(metas, w.order),
{
    let n = metas.len() as int;
    assert forall|i: int| 0 <= i < n implies #[trigger] placed(w.order, i) by {
        if w.grey.contains(metas[i].this) {
            assert(on_stack(w, metas[i].this));
        }
        assert(registered(metas, metas[i].this));
        assert(black(metas, w, metas[i].this));
    }
    let as_ints = w.order.map_values(|x: usize| x as int);
    assert(as_ints.no_duplicates());
    as_ints.unique_seq_to_set();
    assert(as_ints.to_set() =~= vstd::set_lib::set_int_range(0, n)) by {
        assert forall|i: int| 0 <= i < n implies as_ints.to_set().contains(i) by {
            assert(placed(w.order, i));
            let k = choose|k: int| 0 <= k < w.order.len() && #[trigger] w.order[k] == i;
            assert(as_ints[k] == i);
        }
        assert forall|i: int| as_ints.to_set().contains(i) implies 0 <= i < n by {
            let k = choose|k: int| 0 <= k < as_ints.len() && as_ints[k] == i;
            assert(w.order[k] < n);
        }
    }
    vstd::set_lib::lemma_int_range(0, n);
    assert(w.order.len() == n);
}

/// Everything pending, and everything finished from place `from` on, is
/// reached from `root`.
pub open spec fn walked_from(metas: Seq<MetaView>, w: Walk, root: u64, from: int) -> bool {
    &&& forall|q: int|
        0 <= q < w.stack.len() ==> reaches(metas, root, (#[trigger] w.stack[q]).id())
    &&& forall|k: int|
        from <= k < w.order.len() ==> reaches(
            metas,
            root,
            metas[(#[trigger] w.order[k]) as int].this,
        )
}

/// Finishing the topmost identity finishes only what is reached.
pub proof fn lemma_close_walked(metas: Seq<MetaView>, w: Walk, root: u64, from: int)
    requires
        walk_inv(metas, w),
        walked_from(metas, w, root, from),
        0 <= from <= w.order.len(),
        w.stack.len() > 0,
        w.stack.last().is_after(),
    ensures
        walked_from(metas, closed(w), root, from),
{
    let w2 = closed(w);
    let t = w.stack.len() - 1;
    let group = w.stack[t].members();
    assert(entry_ok(metas, w, t));
    assert forall|q: int| 0 <= q < w2.stack.len() implies reaches(
        metas,
        root,
        (#[trigger] w2.stack[q]).id(),
    ) by {
        assert(w2.stack[q] == w.stack[q]);
    }
    assert forall|k: int| from <= k < w2.order.len() implies reaches(
        metas,
        root,
        metas[(#[trigger] w2.order[k]) as int].this,
    ) by {
        if k < w.order.len() {
            assert(w2.order[k] == w.order[k]);
        } else {
            assert(w2.order[k] == group[k - w.order.len()]);
        }
    }
}

/// Entering the topmost identity queues only what is reached.
pub proof fn lemma_open_walked(
    metas: Seq<MetaView>,
    w: Walk,
    entered: Visit,
    children: Seq<u64>,
    root: u64,
    from: int,
)
    requires
        walked_from(metas, w, root, from),
        w.stack.len() > 0,
        entered.id() == w.stack.last().id(),
        forall|c: int|
            0 <= c < children.len() ==> depends_on(metas, entered.id(), #[trigger] children[c]),
    ensures
        walked_from(metas, opened(w, entered, children), root, from),
{
    let w2 = opened(w, entered, children);
    let t = w.stack.len() - 1;
    assert forall|q: int| 0 <= q < w2.stack.len() implies reaches(
        metas,
        root,
        (#[trigger] w2.stack[q]).id(),
    ) by {
        if q < t {
            assert(w2.stack[q] == w.stack[q]);
        } else if q == t {
            assert(w2.stack[q].id() == w.stack[t].id());
        } else {
            assert(w2.stack[q] == Visit::BeforeChildren(children[q - t - 1]));
            lemma_reach_step(metas, root, w.stack[t].id(), children[q - t - 1]);
        }
    }
}

/// Every descriptor of an identity at the end of a chain of dependencies that
/// starts at a finished identity is finished too.
pub proof fn lemma_reached_is_placed(metas: Seq<MetaView>, w: Walk, path: Seq<u64>, i: int)
    requires
        walk_inv(metas, w),
        w.stack.len() == 0,
        path.len() >= 1,
        forall|j: int| 0 <= j < path.len() - 1 ==> depends_on(metas, #[trigger] path[j], path[j + 1]),
        !w.remaining.contains_key(path[0]),
        0 <= i < metas.len(),
        metas[i].this == path.last(),
    ensures
        placed(w.order, i),
    decreases path.len(),
{
    if w.grey.contains(metas[i].this) {
        assert(on_stack(w, metas[i].this));
    }
    if path.len() == 1 {
        assert(black(metas, w, metas[i].this));
    } else {
        let shorter = path.drop_last();
        let before = shorter.last();
        assert(depends_on(metas, path[path.len() - 2], path[path.len() - 1]));
        let ib = choose|ib: int| #[trigger] lists(metas, ib, path.last()) && metas[ib].this == before;
        assert forall|j: int| 0 <= j < shorter.len() - 1 implies depends_on(
            metas,
            #[trigger] shorter[j],
            shorter[j + 1],
        ) by {
            assert(depends_on(metas, path[j], path[j + 1]));
        }
        lemma_reached_is_placed(metas, w, shorter, ib);
        let k = choose|k: int| 0 <= k < w.order.len() && #[trigger] w.order[k] == ib;
        assert(lists(metas, w.order[k] as int, metas[i].this));
        assert(placed_before(w.order, i, k));
    }
}

/// When the traversal from `root` has ended, the order is the one in which
/// to construct what `root` needs.
pub proof fn lemma_needed(metas: Seq<MetaView>, w: Walk, root: u64)
    requires
        walk_inv(metas, w),
        w.stack.len() == 0,
        walked_from(metas, w, root, 0),
        !w.remaining.contains_key(root),
    ensures
        needed_order(metas, w.order, root),
{
    assert forall|i: int| 0 <= i < metas.len() implies (#[trigger] placed(w.order, i) <==> reaches(
        metas,
        root,
        metas[i].this,
    )) by {
        if placed(w.order, i) {
            let k = choose|k: int| 0 <= k < w.order.len() && #[trigger] w.order[k] == i;
            assert(reaches(metas, root, metas[w.order[k] as int].this));
        }
        if reaches(metas, root, metas[i].this) {
            if root == metas[i].this {
                lemma_reached_is_placed(metas, w, seq![root], i);
            } else {
                let path = choose|path: Seq<u64>|
                    path.len() >= 2 && path[0] == root && path.last() == metas[i].this
                        && #[trigger] is_path(metas, path);
                lemma_reached_is_placed(metas, w, path, i);
            }
        }
    }
}

} // verus!
