//! The dependency graph of a registration, as a mathematical model: which
//! identity depends on which, what a cycle is, and what makes a construction
//! order valid.

use vstd::prelude::*;
use crate::derive_api::MetaView;
use crate::runtime::groups::{no_groups, with_member};

verus! {

/// Some descriptor is registered under `id`.
pub open spec fn registered(metas: Seq<MetaView>, id: u64) -> bool {
    exists|i: int| 0 <= i < metas.len() && (#[trigger] metas[i]).this == id
}

/// The descriptor at position `i` lists `target` among its dependencies.
pub open spec fn lists(metas: Seq<MetaView>, i: int, target: u64) -> bool {
    0 <= i < metas.len() && metas[i].dependencies.contains(target)
}

/// Some descriptor registered under `source` lists `target` as a dependency.
pub open spec fn depends_on(metas: Seq<MetaView>, source: u64, target: u64) -> bool {
    exists|i: int| #[trigger] lists(metas, i, target) && metas[i].this == source
}

/// Each identity of `path` depends on the next one.
pub open spec fn is_path(metas: Seq<MetaView>, path: Seq<u64>) -> bool {
    forall|j: int| 0 <= j < path.len() - 1 ==> depends_on(metas, #[trigger] path[j], path[j + 1])
}

/// `id` depends on itself, directly or through other identities.
pub open spec fn cycle_through(metas: Seq<MetaView>, id: u64) -> bool {
    exists|path: Seq<u64>|
        path.len() >= 2 && path[0] == id && path.last() == id && #[trigger] is_path(metas, path)
}

/// Some identity depends on itself.
pub open spec fn has_cycle(metas: Seq<MetaView>) -> bool {
    exists|id: u64| #[trigger] cycle_through(metas, id)
}

/// `target` is `source` itself, or `source` depends on it, directly or
/// through other identities.
pub open spec fn reaches(metas: Seq<MetaView>, source: u64, target: u64) -> bool {
    source == target || exists|path: Seq<u64>|
        path.len() >= 2 && path[0] == source && path.last() == target && #[trigger] is_path(
            metas,
            path,
        )
}

/// What is reached stays reached one dependency further.
pub proof fn lemma_reach_step(metas: Seq<MetaView>, source: u64, middle: u64, target: u64)
    requires
        reaches(metas, source, middle),
        depends_on(metas, middle, target),
    ensures
        reaches(metas, source, target),
{
    if source == middle {
        let path = seq![source, target];
        assert(is_path(metas, path));
        assert(path.last() == target);
    } else {
        let shorter = choose|path: Seq<u64>|
            path.len() >= 2 && path[0] == source && path.last() == middle && #[trigger] is_path(
                metas,
                path,
            );
        let path = shorter.push(target);
        assert forall|j: int| 0 <= j < path.len() - 1 implies depends_on(
            metas,
            #[trigger] path[j],
            path[j + 1],
        ) by {
            if j < shorter.len() - 1 {
                assert(depends_on(metas, shorter[j], shorter[j + 1]));
            }
        }
        assert(is_path(metas, path));
        assert(path.last() == target);
    }
}

/// `order` lists the position of every descriptor exactly once.
pub open spec fn is_arrangement(metas: Seq<MetaView>, order: Seq<usize>) -> bool {
    &&& order.len() == metas.len()
    &&& forall|k: int| 0 <= k < order.len() ==> #[trigger] order[k] < metas.len()
    &&& forall|k1: int, k2: int|
        0 <= k1 < k2 < order.len() ==> #[trigger] order[k1] != #[trigger] order[k2]
    &&& forall|i: int| 0 <= i < metas.len() ==> #[trigger] placed(order, i)
}

/// Descriptor `i` has a place in `order`.
pub open spec fn placed(order: Seq<usize>, i: int) -> bool {
    exists|k: int| 0 <= k < order.len() && #[trigger] order[k] == i
}

/// Descriptor `i` has a place in `order` before place `k`.
pub open spec fn placed_before(order: Seq<usize>, i: int, k: int) -> bool {
    exists|k2: int| 0 <= k2 < k && k2 < order.len() && #[trigger] order[k2] == i
}

/// Every descriptor registered under a dependency of the descriptor at place
/// `k` stands before place `k`.
pub open spec fn dependencies_first(metas: Seq<MetaView>, order: Seq<usize>) -> bool {
    forall|k: int, i: int|
        0 <= k < order.len() && 0 <= i < metas.len() && #[trigger] lists(
            metas,
            order[k] as int,
            metas[i].this,
        ) ==> placed_before(order, i, k)
}

/// Descriptors registered under one identity keep their registration order.
pub open spec fn registration_order_kept(metas: Seq<MetaView>, order: Seq<usize>) -> bool {
    forall|k1: int, k2: int|
        0 <= k1 < k2 < order.len() && order[k1] < metas.len() && order[k2] < metas.len()
            && metas[order[k1] as int].this == metas[order[k2] as int].this ==> #[trigger] order[k1]
            < #[trigger] order[k2]
}

/// A valid construction order: every descriptor once, dependencies before
/// their dependents, and the providers of one identity in registration order.
pub open spec fn valid_order(metas: Seq<MetaView>, order: Seq<usize>) -> bool {
    &&& is_arrangement(metas, order)
    &&& dependencies_first(metas, order)
    &&& registration_order_kept(metas, order)
}

/// The order in which to construct what `root` needs: the descriptors of
/// `root` and of everything it depends on, directly or through others, each
/// once and no others, dependencies before their dependents, and the
/// providers of one identity in registration order.
pub open spec fn needed_order(metas: Seq<MetaView>, order: Seq<usize>, root: u64) -> bool {
    &&& forall|k: int| 0 <= k < order.len() ==> #[trigger] order[k] < metas.len()
    &&& forall|k1: int, k2: int|
        0 <= k1 < k2 < order.len() ==> #[trigger] order[k1] != #[trigger] order[k2]
    &&& forall|i: int|
        0 <= i < metas.len() ==> (#[trigger] placed(order, i) <==> reaches(
            metas,
            root,
            metas[i].this,
        ))
    &&& dependencies_first(metas, order)
    &&& registration_order_kept(metas, order)
}

/// `group` lists, in ascending order, exactly the positions below `n` of the
/// descriptors registered under `id`, and there is at least one.
pub open spec fn is_group_of(metas: Seq<MetaView>, n: nat, id: u64, group: Seq<usize>) -> bool {
    &&& group.len() > 0
    &&& forall|e: int|
        0 <= e < group.len() ==> (#[trigger] group[e]) < n && metas[group[e] as int].this == id
    &&& forall|a: int, b: int|
        0 <= a < b < group.len() ==> (#[trigger] group[a]) < (#[trigger] group[b])
    &&& forall|i: int|
        0 <= i < n && (#[trigger] metas[i]).this == id ==> group.contains(i as usize)
}

/// The first `n` descriptor positions, grouped by identity in registration
/// order.
pub open spec fn grouped(metas: Seq<MetaView>, n: nat) -> Map<u64, Seq<usize>>
    decreases n,
{
    if n == 0 {
        no_groups()
    } else {
        with_member(grouped(metas, (n - 1) as nat), metas[n - 1].this, (n - 1) as usize)
    }
}

/// Grouping keeps, for every identity that occurs, its positions in ascending
/// order, and has no other key.
pub proof fn lemma_grouped(metas: Seq<MetaView>, n: nat)
    requires
        n <= metas.len(),
        n <= usize::MAX,
    ensures
        grouped(metas, n).dom().finite(),
        forall|id: u64| #[trigger]
            grouped(metas, n).contains_key(id) ==> is_group_of(
                metas,
                n,
                id,
                grouped(metas, n)[id],
            ),
        forall|i: int|
            0 <= i < n ==> grouped(metas, n).contains_key((#[trigger] metas[i]).this),
    decreases n,
{
    if n > 0 {
        let m = (n - 1) as nat;
        lemma_grouped(metas, m);
        let before = grouped(metas, m);
        let after = grouped(metas, n);
        let key = metas[m as int].this;
        assert forall|id: u64| #[trigger] after.contains_key(id) implies is_group_of(
            metas,
            n,
            id,
            after[id],
        ) by {
            if id == key {
                if before.contains_key(key) {
                    let old_group = before[key];
                    let group = after[key];
                    assert(is_group_of(metas, m, key, old_group));
                    assert(group == old_group.push(m as usize));
                    assert forall|i: int| 0 <= i < n && (#[trigger] metas[i]).this == id implies group.contains(
                        i as usize,
                    ) by {
                        if i < m {
                            assert(old_group.contains(i as usize));
                            let e = choose|e: int| 0 <= e < old_group.len() && old_group[e] == i as usize;
                            assert(group[e] == i as usize);
                        } else {
                            assert(group[old_group.len() as int] == i as usize);
                        }
                    }
                } else {
                    let group = after[key];
                    assert(group == seq![m as usize]);
                    assert forall|i: int| 0 <= i < n && (#[trigger] metas[i]).this == id implies group.contains(
                        i as usize,
                    ) by {
                        if i < m {
                            assert(before.contains_key(metas[i].this));
                        } else {
                            assert(group[0] == i as usize);
                        }
                    }
                }
            } else {
                assert(before.contains_key(id));
                let group = after[id];
                assert(is_group_of(metas, m, id, group));
                assert forall|i: int| 0 <= i < n && (#[trigger] metas[i]).this == id implies group.contains(
                    i as usize,
                ) by {
                    assert(i < m);
                }
            }
        }
        assert forall|i: int| 0 <= i < n implies after.contains_key((#[trigger] metas[i]).this) by {
            if i < m {
                assert(before.contains_key(metas[i].this));
            }
        }
    }
}

/// Along a chain of dependencies, a descriptor of the first identity stands
/// later in a valid order than any descriptor of the last.
pub proof fn lemma_later_place(metas: Seq<MetaView>, order: Seq<usize>, path: Seq<u64>, kb: int) -> (ka:
    int)
    requires
        valid_order(metas, order),
        is_path(metas, path),
        path.len() >= 2,
        0 <= kb < order.len(),
        metas[order[kb] as int].this == path.last(),
    ensures
        kb < ka < order.len(),
        metas[order[ka] as int].this == path[0],
    decreases path.len(),
{
    let k1 = if path.len() == 2 {
        kb
    } else {
        let rest = path.subrange(1, path.len() as int);
        assert forall|j: int| 0 <= j < rest.len() - 1 implies depends_on(
            metas,
            #[trigger] rest[j],
            rest[j + 1],
        ) by {
            assert(depends_on(metas, path[j + 1], path[j + 2]));
        }
        lemma_later_place(metas, order, rest, kb)
    };
    assert(metas[order[k1] as int].this == path[1]);
    assert(depends_on(metas, path[0], path[1]));
    let i = choose|i: int| #[trigger] lists(metas, i, path[1]) && metas[i].this == path[0];
    assert(placed(order, i));
    let ka = choose|ka: int| 0 <= ka < order.len() && #[trigger] order[ka] == i;
    assert(lists(metas, order[ka] as int, metas[order[k1] as int].this));
    assert(placed_before(order, order[k1] as int, ka));
    let k2 = choose|k2: int| 0 <= k2 < ka && k2 < order.len() && #[trigger] order[k2] == order[k1];
    assert(k2 == k1);
    ka
}

/// The last place in `order`, from `k` on, of a descriptor registered under
/// the identity of the descriptor at place `k`.
pub proof fn lemma_last_place(metas: Seq<MetaView>, order: Seq<usize>, k: int) -> (last: int)
    requires
        0 <= k < order.len(),
    ensures
        k <= last < order.len(),
        metas[order[last] as int].this == metas[order[k] as int].this,
        forall|k2: int|
            last < k2 < order.len() ==> metas[(#[trigger] order[k2]) as int].this
                != metas[order[k] as int].this,
    decreases order.len() - k,
{
    let id = metas[order[k] as int].this;
    if exists|k2: int| k < k2 < order.len() && metas[(#[trigger] order[k2]) as int].this == id {
        let k2 = choose|k2: int|
            k < k2 < order.len() && metas[(#[trigger] order[k2]) as int].this == id;
        lemma_last_place(metas, order, k2)
    } else {
        k
    }
}

/// A registration that has a valid construction order has no cycle.
pub proof fn lemma_valid_order_is_acyclic(metas: Seq<MetaView>, order: Seq<usize>)
    requires
        valid_order(metas, order),
    ensures
        !has_cycle(metas),
{
    if has_cycle(metas) {
        let id = choose|id: u64| #[trigger] cycle_through(metas, id);
        let path = choose|path: Seq<u64>|
            path.len() >= 2 && path[0] == id && path.last() == id && #[trigger] is_path(
                metas,
                path,
            );
        assert(depends_on(metas, path[0], path[1]));
        let i = choose|i: int| #[trigger] lists(metas, i, path[1]) && metas[i].this == path[0];
        assert(placed(order, i));
        let k = choose|k: int| 0 <= k < order.len() && #[trigger] order[k] == i;
        let last = lemma_last_place(metas, order, k);
        let later = lemma_later_place(metas, order, path, last);
        assert(metas[order[later] as int].this == id);
    }
}

} // verus!
