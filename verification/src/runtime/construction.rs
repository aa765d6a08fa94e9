//! What a build amounts to, as a mathematical model: the contents that
//! constructing descriptors in a given order leaves behind, and the
//! conditions under which a build ends in each of its faults.

use vstd::prelude::*;
use crate::derive_api::{BindingMeta, InjectError, InjectMeta, InjectableStatic, MetaView};
use crate::runtime::graph::{
    cycle_through, has_cycle, lists, needed_order, placed, placed_before, reaches, registered,
    valid_order,
};
use crate::runtime::injector::{Injector, InjectorView};

verus! {

/// The factories of a registration, by position.
pub open spec fn factories<F>(metas: Seq<InjectMeta<F>>) -> Seq<F> {
    Seq::new(metas.len(), |i: int| metas[i].create)
}

/// The bindings of a registration read as descriptors, by position.
pub open spec fn binding_views<F>(bindings: Seq<BindingMeta<F>>) -> Seq<MetaView> {
    Seq::new(bindings.len(), |i: int| bindings[i]@)
}

/// The factories of the bindings of a registration, by position.
pub open spec fn binding_factories<F>(bindings: Seq<BindingMeta<F>>) -> Seq<F> {
    Seq::new(bindings.len(), |i: int| bindings[i].create)
}

/// The contents after the descriptors at the first `k` places of `order`
/// were constructed on top of `base`, the value made at place `k2` being the
/// one that `items` holds in the slot that it was given.
pub open spec fn replay<V: ?Sized>(
    base: InjectorView<V>,
    metas: Seq<MetaView>,
    order: Seq<usize>,
    items: Seq<Box<V>>,
    k: nat,
) -> InjectorView<V>
    decreases k,
{
    if k == 0 {
        base
    } else {
        let meta = metas[order[k - 1] as int];
        replay(base, metas, order, items, (k - 1) as nat).record(
            meta.this,
            meta.multi,
            items[base.items.len() + k - 1],
        )
    }
}

/// The value in the slot of place `k` is of the identity that its descriptor
/// declares, and it is what the descriptor's factory returned when it ran on
/// an injector that held exactly what the places before `k` had left behind,
/// in which every dependency of the descriptor could be looked up.
pub open spec fn made_in_turn<V: InjectableStatic + ?Sized, F: Fn(&Injector<V>) -> Box<V>>(
    base: InjectorView<V>,
    metas: Seq<MetaView>,
    makers: Seq<F>,
    order: Seq<usize>,
    items: Seq<Box<V>>,
    k: int,
) -> bool {
    let before = replay(base, metas, order, items, k as nat);
    let item = items[base.items.len() + k];
    &&& item.identity_spec() == metas[order[k] as int].this
    &&& before.all_available(metas[order[k] as int].dependencies)
    &&& exists|injector: Injector<V>|
        injector@ == before && injector.wf() && #[trigger] call_ensures(
            makers[order[k] as int],
            (&injector,),
            item,
        )
}

/// `result` is what constructing all descriptors in `order` on top of `base`
/// leaves behind: one value for each place of the order, in the slots after
/// those of `base`, each made in its turn, and the index as the recordings
/// leave it.
pub open spec fn constructed_in<V: InjectableStatic + ?Sized, F: Fn(&Injector<V>) -> Box<V>>(
    base: InjectorView<V>,
    metas: Seq<MetaView>,
    makers: Seq<F>,
    order: Seq<usize>,
    result: InjectorView<V>,
) -> bool {
    &&& result.items.len() == base.items.len() + order.len()
    &&& result == replay(base, metas, order, result.items, order.len())
    &&& forall|k: int|
        0 <= k < order.len() ==> #[trigger] made_in_turn(base, metas, makers, order, result.items, k)
}

/// Every dependency of descriptor `i` is registered or held by `base`.
pub open spec fn provided<V: ?Sized>(metas: Seq<MetaView>, base: InjectorView<V>, i: int) -> bool {
    forall|j: int|
        0 <= j < metas[i].dependencies.len() ==> registered(
            metas,
            #[trigger] metas[i].dependencies[j],
        ) || base.available(metas[i].dependencies[j])
}

/// Every dependency of every descriptor is registered or held by `base`.
pub open spec fn all_provided<V: ?Sized>(metas: Seq<MetaView>, base: InjectorView<V>) -> bool {
    forall|i: int| 0 <= i < metas.len() ==> #[trigger] provided(metas, base, i)
}

/// Some descriptor registered under `id` has a dependency that is neither
/// registered nor held by `base`.
pub open spec fn missing_dependency<V: ?Sized>(
    metas: Seq<MetaView>,
    base: InjectorView<V>,
    id: u64,
) -> bool {
    exists|i: int| 0 <= i < metas.len() && metas[i].this == id && !#[trigger] provided(metas, base, i)
}

/// Every factory can be run on any well-formed injector in which the
/// dependencies of its descriptor can be looked up.
pub open spec fn callable<V: InjectableStatic + ?Sized, F: Fn(&Injector<V>) -> Box<V>>(
    metas: Seq<MetaView>,
    makers: Seq<F>,
) -> bool {
    forall|i: int, injector: Injector<V>|
        0 <= i < metas.len() && injector.wf() && injector@.all_available(metas[i].dependencies)
            ==> #[trigger] call_requires(makers[i], (&injector,))
}

/// The factory may return a value that does not report the identity `id`.
pub open spec fn unfaithful<V: InjectableStatic + ?Sized, F: Fn(&Injector<V>) -> Box<V>>(
    id: u64,
    maker: F,
) -> bool {
    exists|injector: Injector<V>, item: Box<V>| #[trigger]
        call_ensures(maker, (&injector,), item) && item.identity_spec() != id
}

/// Some factory registered under `id` may return a value of another
/// identity.
pub open spec fn betrayed<V: InjectableStatic + ?Sized, F: Fn(&Injector<V>) -> Box<V>>(
    metas: Seq<MetaView>,
    makers: Seq<F>,
    id: u64,
) -> bool {
    exists|i: int|
        0 <= i < metas.len() && metas[i].this == id && #[trigger] unfaithful::<V, F>(
            metas[i].this,
            makers[i],
        )
}

/// No factory ever returns a value of another identity than its descriptor
/// declares.
pub open spec fn faithful<V: InjectableStatic + ?Sized, F: Fn(&Injector<V>) -> Box<V>>(
    metas: Seq<MetaView>,
    makers: Seq<F>,
) -> bool {
    forall|i: int|
        0 <= i < metas.len() ==> !#[trigger] unfaithful::<V, F>(metas[i].this, makers[i])
}

/// `result` is what constructing the first `k` places of `order` on top of
/// `base` leaves behind.
pub open spec fn built_upto<V: InjectableStatic + ?Sized, F: Fn(&Injector<V>) -> Box<V>>(
    base: InjectorView<V>,
    metas: Seq<MetaView>,
    makers: Seq<F>,
    order: Seq<usize>,
    result: InjectorView<V>,
    k: int,
) -> bool {
    &&& 0 <= k <= order.len()
    &&& result.items.len() == base.items.len() + k
    &&& result == replay(base, metas, order, result.items, k as nat)
    &&& forall|k2: int|
        0 <= k2 < k ==> #[trigger] made_in_turn(base, metas, makers, order, result.items, k2)
}

/// The factory, run on an injector that holds `state`, may return a value
/// that does not report the identity `id`.
pub open spec fn unfaithful_on<V: InjectableStatic + ?Sized, F: Fn(&Injector<V>) -> Box<V>>(
    id: u64,
    maker: F,
    state: InjectorView<V>,
) -> bool {
    exists|injector: Injector<V>, item: Box<V>|
        injector@ == state && #[trigger] call_ensures(maker, (&injector,), item)
            && item.identity_spec() != id
}

/// Construction stopped at place `k` of `order` with `fault`: the places
/// before it were constructed and `result` is what they left behind; the
/// fault names the identity of place `k`, of which either a dependency could
/// not be looked up, being neither registered nor held by `base`, or the
/// factory returned a value of another identity.
pub open spec fn stopped_at<V: InjectableStatic + ?Sized, F: Fn(&Injector<V>) -> Box<V>>(
    base: InjectorView<V>,
    metas: Seq<MetaView>,
    makers: Seq<F>,
    order: Seq<usize>,
    result: InjectorView<V>,
    k: int,
    fault: InjectError,
) -> bool {
    &&& 0 <= k < order.len()
    &&& built_upto(base, metas, makers, order, result, k)
    &&& match fault {
        InjectError::UnregisteredDependency(id) => {
            &&& id == metas[order[k] as int].this
            &&& !result.all_available(metas[order[k] as int].dependencies)
            &&& !provided(metas, base, order[k] as int)
        },
        InjectError::TypeMismatch(id) => {
            &&& id == metas[order[k] as int].this
            &&& result.all_available(metas[order[k] as int].dependencies)
            &&& unfaithful_on::<V, F>(id, makers[order[k] as int], result)
        },
        _ => false,
    }
}

/// How constructing the descriptors in `order` on top of `base` can end, the
/// injector holding `result` afterwards.
///
/// On success every place has its value, made in its turn, and every
/// dependency was registered or held by `base`. Otherwise construction
/// stopped at the first place that could not be constructed. Whatever could
/// be looked up in `base` still can.
pub open spec fn construct_outcome<V: InjectableStatic + ?Sized, F: Fn(&Injector<V>) -> Box<V>>(
    base: InjectorView<V>,
    metas: Seq<MetaView>,
    makers: Seq<F>,
    order: Seq<usize>,
    result: InjectorView<V>,
    built: Result<(), InjectError>,
) -> bool {
    &&& forall|id: u64| base.available(id) ==> result.available(id)
    &&& match built {
        Ok(_) => {
            &&& constructed_in(base, metas, makers, order, result)
            &&& forall|k: int|
                0 <= k < order.len() ==> provided(metas, base, (#[trigger] order[k]) as int)
        },
        Err(fault) => exists|k: int| #[trigger]
            stopped_at(base, metas, makers, order, result, k, fault),
    }
}

/// How building what `root` needs on top of `base` can end, the injector
/// holding `result` afterwards.
///
/// It succeeds only when something is registered under `root`; the injector
/// then holds, beyond `base`, what constructing the needed descriptors in
/// their order leaves behind. When nothing is registered under `root`, or an
/// identity that `root` reaches depends on itself, nothing is constructed.
/// Otherwise construction stopped at the first needed descriptor that could
/// not be constructed, and the fault names its identity, which `root`
/// reaches.
pub open spec fn prebuild_outcome<V: InjectableStatic + ?Sized, F: Fn(&Injector<V>) -> Box<V>>(
    base: InjectorView<V>,
    metas: Seq<MetaView>,
    makers: Seq<F>,
    root: u64,
    result: InjectorView<V>,
    built: Result<(), InjectError>,
) -> bool {
    &&& forall|id: u64| base.available(id) ==> result.available(id)
    &&& match built {
        Ok(_) => {
            &&& registered(metas, root)
            &&& exists|order: Seq<usize>|
                needed_order(metas, order, root) && #[trigger] constructed_in(
                    base,
                    metas,
                    makers,
                    order,
                    result,
                )
        },
        Err(InjectError::LookupMiss(id)) => id == root && !registered(metas, root) && result
            == base,
        Err(InjectError::CycleDetected(id)) => cycle_through(metas, id) && reaches(
            metas,
            root,
            id,
        ) && result == base,
        Err(InjectError::UnregisteredDependency(id)) => {
            &&& reaches(metas, root, id)
            &&& missing_dependency(metas, base, id)
            &&& exists|order: Seq<usize>, k: int|
                needed_order(metas, order, root) && #[trigger] stopped_at(
                    base,
                    metas,
                    makers,
                    order,
                    result,
                    k,
                    InjectError::UnregisteredDependency(id),
                )
        },
        Err(InjectError::TypeMismatch(id)) => {
            &&& reaches(metas, root, id)
            &&& betrayed::<V, F>(metas, makers, id)
            &&& exists|order: Seq<usize>, k: int|
                needed_order(metas, order, root) && #[trigger] stopped_at(
                    base,
                    metas,
                    makers,
                    order,
                    result,
                    k,
                    InjectError::TypeMismatch(id),
                )
        },
        Err(_) => false,
    }
}

/// How a build of the descriptors `metas` on top of `base` can end.
///
/// It succeeds only when no identity depends on itself and every dependency
/// is registered or held by `base`; the injector then holds what
/// constructing the descriptors in some valid order leaves behind. A cycle
/// always ends in the fault that names an identity on it. Without a cycle,
/// the other faults name a descriptor with a dependency that nothing
/// provides, or one whose factory returned a value of another identity.
pub open spec fn build_outcome<V: InjectableStatic + ?Sized, F: Fn(&Injector<V>) -> Box<V>>(
    base: InjectorView<V>,
    metas: Seq<MetaView>,
    makers: Seq<F>,
    built: Result<Injector<V>, InjectError>,
) -> bool {
    match built {
        Ok(injector) => {
            &&& injector.wf()
            &&& !has_cycle(metas)
            &&& all_provided(metas, base)
            &&& exists|order: Seq<usize>|
                valid_order(metas, order) && #[trigger] constructed_in(
                    base,
                    metas,
                    makers,
                    order,
                    injector@,
                )
        },
        Err(InjectError::CycleDetected(id)) => cycle_through(metas, id),
        Err(InjectError::UnregisteredDependency(id)) => !has_cycle(metas) && missing_dependency(
            metas,
            base,
            id,
        ),
        Err(InjectError::TypeMismatch(id)) => !has_cycle(metas) && betrayed::<V, F>(
            metas,
            makers,
            id,
        ),
        Err(_) => false,
    }
}

/// Replaying the first `k` places reads only the slots that those places
/// were given.
pub proof fn lemma_replay_reads_prefix<V: ?Sized>(
    base: InjectorView<V>,
    metas: Seq<MetaView>,
    order: Seq<usize>,
    items: Seq<Box<V>>,
    longer: Seq<Box<V>>,
    k: nat,
)
    requires
        forall|x: int| 0 <= x < base.items.len() + k ==> #[trigger] items[x] == longer[x],
    ensures
        replay(base, metas, order, items, k) == replay(base, metas, order, longer, k),
    decreases k,
{
    if k > 0 {
        lemma_replay_reads_prefix(base, metas, order, items, longer, (k - 1) as nat);
        assert(items[base.items.len() + k - 1] == longer[base.items.len() + k - 1]);
    }
}

/// What was made in its turn stays so when further slots are filled.
pub proof fn lemma_made_in_turn_stays<V: InjectableStatic + ?Sized, F: Fn(&Injector<V>) -> Box<V>>(
    base: InjectorView<V>,
    metas: Seq<MetaView>,
    makers: Seq<F>,
    order: Seq<usize>,
    items: Seq<Box<V>>,
    longer: Seq<Box<V>>,
    k: int,
)
    requires
        0 <= k,
        forall|x: int| 0 <= x <= base.items.len() + k ==> #[trigger] items[x] == longer[x],
        made_in_turn(base, metas, makers, order, items, k),
    ensures
        made_in_turn(base, metas, makers, order, longer, k),
{
    lemma_replay_reads_prefix(base, metas, order, items, longer, k as nat);
    assert(items[base.items.len() + k] == longer[base.items.len() + k]);
}

/// A build succeeds whenever nothing stands in its way: no identity depends
/// on itself, every dependency is registered or already held, and no factory
/// returns a value of another identity than its descriptor declares.
pub proof fn lemma_success_is_owed<V: InjectableStatic + ?Sized, F: Fn(&Injector<V>) -> Box<V>>(
    base: InjectorView<V>,
    metas: Seq<MetaView>,
    makers: Seq<F>,
    built: Result<Injector<V>, InjectError>,
)
    requires
        build_outcome(base, metas, makers, built),
        !has_cycle(metas),
        all_provided(metas, base),
        faithful::<V, F>(metas, makers),
    ensures
        built.is_ok(),
{
}

/// A registration with a cycle never builds: the build ends in the fault
/// that names an identity on a cycle, and in that fault only when there is a
/// cycle.
pub proof fn lemma_cycle_is_reported<V: InjectableStatic + ?Sized, F: Fn(&Injector<V>) -> Box<V>>(
    base: InjectorView<V>,
    metas: Seq<MetaView>,
    makers: Seq<F>,
    built: Result<Injector<V>, InjectError>,
)
    requires
        build_outcome(base, metas, makers, built),
    ensures
        has_cycle(metas) <==> (built matches Err(InjectError::CycleDetected(_))),
        built matches Err(InjectError::CycleDetected(id)) ==> cycle_through(metas, id),
{
}

/// The last place before `k` that constructs a single-valued object under
/// `id`, or -1 when there is none.
pub open spec fn last_single(metas: Seq<MetaView>, order: Seq<usize>, k: nat, id: u64) -> int
    decreases k,
{
    if k == 0 {
        -1
    } else if metas[order[k - 1] as int].this == id && !metas[order[k - 1] as int].multi {
        k - 1
    } else {
        last_single(metas, order, (k - 1) as nat, id)
    }
}

/// The slots, in ascending order, of the places before `k` that construct a
/// multi-valued object under `id`, the first place having the slot `start`.
pub open spec fn multi_slots(
    metas: Seq<MetaView>,
    order: Seq<usize>,
    start: nat,
    k: nat,
    id: u64,
) -> Seq<usize>
    decreases k,
{
    if k == 0 {
        Seq::empty()
    } else if metas[order[k - 1] as int].this == id && metas[order[k - 1] as int].multi {
        multi_slots(metas, order, start, (k - 1) as nat, id).push((start + k - 1) as usize)
    } else {
        multi_slots(metas, order, start, (k - 1) as nat, id)
    }
}

/// `last_single` finds a place that constructs a single-valued object under
/// `id`, and no later place before `k` does.
pub proof fn lemma_last_single(metas: Seq<MetaView>, order: Seq<usize>, k: nat, id: u64)
    ensures
        -1 <= last_single(metas, order, k, id) < k,
        last_single(metas, order, k, id) >= 0 ==> metas[order[last_single(
            metas,
            order,
            k,
            id,
        )] as int].this == id && !metas[order[last_single(metas, order, k, id)] as int].multi,
        forall|k2: int|
            last_single(metas, order, k, id) < k2 < k ==> !(metas[(#[trigger] order[k2]) as int].this
                == id && !metas[order[k2] as int].multi),
    decreases k,
{
    if k > 0 {
        lemma_last_single(metas, order, (k - 1) as nat, id);
    }
}

/// The slots of `multi_slots` ascend, each belongs to a place that constructs
/// a multi-valued object under `id`, and every such place has its slot there.
pub proof fn lemma_multi_slots(
    metas: Seq<MetaView>,
    order: Seq<usize>,
    start: nat,
    k: nat,
    id: u64,
)
    requires
        start + k <= usize::MAX,
    ensures
        forall|e: int|
            0 <= e < multi_slots(metas, order, start, k, id).len() ==> {
                let slot = #[trigger] multi_slots(metas, order, start, k, id)[e];
                &&& start <= slot < start + k
                &&& metas[order[slot - start] as int].this == id
                &&& metas[order[slot - start] as int].multi
            },
        forall|e1: int, e2: int|
            0 <= e1 < e2 < multi_slots(metas, order, start, k, id).len() ==> (#[trigger] multi_slots(
                metas,
                order,
                start,
                k,
                id,
            )[e1]) < (#[trigger] multi_slots(metas, order, start, k, id)[e2]),
        forall|k2: int|
            0 <= k2 < k && metas[(#[trigger] order[k2]) as int].this == id
                && metas[order[k2] as int].multi ==> multi_slots(
                metas,
                order,
                start,
                k,
                id,
            ).contains((start + k2) as usize),
    decreases k,
{
    if k > 0 {
        let shorter = multi_slots(metas, order, start, (k - 1) as nat, id);
        let slots = multi_slots(metas, order, start, k, id);
        lemma_multi_slots(metas, order, start, (k - 1) as nat, id);
        assert forall|k2: int|
            0 <= k2 < k && metas[(#[trigger] order[k2]) as int].this == id
                && metas[order[k2] as int].multi implies slots.contains((start + k2) as usize) by {
            if k2 < k - 1 {
                assert(shorter.contains((start + k2) as usize));
                let e = choose|e: int| 0 <= e < shorter.len() && shorter[e] == (start + k2) as usize;
                assert(slots[e] == (start + k2) as usize);
            } else {
                assert(slots[shorter.len() as int] == (start + k2) as usize);
            }
        }
    }
}

/// What replaying `k` places leaves in the index: a single-valued identity
/// is indexed to the slot of the last place that constructed it, or as
/// `base` had it; a multi-valued identity lists what `base` listed, then the
/// slots of the places that constructed it.
pub proof fn lemma_replay_index<V: ?Sized>(
    base: InjectorView<V>,
    metas: Seq<MetaView>,
    order: Seq<usize>,
    items: Seq<Box<V>>,
    k: nat,
    id: u64,
)
    requires
        base.items.len() + k <= usize::MAX,
    ensures
        ({
            let after = replay(base, metas, order, items, k);
            let last = last_single(metas, order, k, id);
            let slots = multi_slots(metas, order, base.items.len(), k, id);
            &&& after.items.len() == base.items.len() + k
            &&& last >= 0 ==> after.index.contains_key(id) && after.index[id] == base.items.len()
                + last
            &&& last < 0 ==> (after.index.contains_key(id) <==> base.index.contains_key(id))
                && after.index[id] == base.index[id]
            &&& base.multi.contains_key(id) ==> after.multi.contains_key(id) && after.multi[id]
                == base.multi[id] + slots
            &&& !base.multi.contains_key(id) ==> (after.multi.contains_key(id) <==> slots.len()
                > 0) && (slots.len() > 0 ==> after.multi[id] == slots)
        }),
    decreases k,
{
    if k > 0 {
        lemma_replay_index(base, metas, order, items, (k - 1) as nat, id);
        let before = replay(base, metas, order, items, (k - 1) as nat);
        let shorter = multi_slots(metas, order, base.items.len(), (k - 1) as nat, id);
        let slots = multi_slots(metas, order, base.items.len(), k, id);
        let meta = metas[order[k - 1] as int];
        let after = replay(base, metas, order, items, k);
        assert(after == before.record(meta.this, meta.multi, items[base.items.len() + k - 1]));
        if meta.this == id && meta.multi {
            if base.multi.contains_key(id) {
                assert(after.multi[id] =~= base.multi[id] + slots);
            } else if shorter.len() > 0 {
                assert(after.multi[id] =~= slots);
            } else {
                assert(after.multi[id] =~= slots);
            }
        }
    } else {
        let slots = multi_slots(metas, order, base.items.len(), k, id);
        assert(base.multi[id] + slots =~= base.multi[id]);
    }
}

/// Every descriptor is constructed exactly once: it has one place in the
/// order of a finished build, and the build stores one value for each place.
pub proof fn lemma_constructed_once<V: InjectableStatic + ?Sized, F: Fn(&Injector<V>) -> Box<V>>(
    base: InjectorView<V>,
    metas: Seq<MetaView>,
    makers: Seq<F>,
    order: Seq<usize>,
    result: InjectorView<V>,
    i: int,
)
    requires
        valid_order(metas, order),
        constructed_in(base, metas, makers, order, result),
        0 <= i < metas.len(),
    ensures
        result.items.len() == base.items.len() + metas.len(),
        exists|k: int|
            0 <= k < order.len() && #[trigger] order[k] == i && forall|k2: int|
                0 <= k2 < order.len() && #[trigger] order[k2] == i ==> k2 == k,
{
    assert(placed(order, i));
    let k = choose|k: int| 0 <= k < order.len() && #[trigger] order[k] == i;
    assert forall|k2: int| 0 <= k2 < order.len() && #[trigger] order[k2] == i implies k2 == k by {
        if k2 < k {
            assert(order[k2] != order[k]);
        } else if k < k2 {
            assert(order[k] != order[k2]);
        }
    }
}

/// The last registration wins: in a finished build, an identity with a
/// single-valued descriptor is indexed to a slot that the build filled, the
/// value there is of that identity, and it was made for the single-valued
/// descriptor of the identity that was registered last.
pub proof fn lemma_last_registration_wins<V: InjectableStatic + ?Sized, F: Fn(&Injector<V>) -> Box<V>>(
    base: InjectorView<V>,
    metas: Seq<MetaView>,
    makers: Seq<F>,
    order: Seq<usize>,
    result: InjectorView<V>,
    i: int,
)
    requires
        valid_order(metas, order),
        constructed_in(base, metas, makers, order, result),
        result.items.len() <= usize::MAX,
        0 <= i < metas.len(),
        !metas[i].multi,
    ensures
        result.index.contains_key(metas[i].this),
        base.items.len() <= result.index[metas[i].this] < result.items.len(),
        result.items[result.index[metas[i].this] as int].identity_spec() == metas[i].this,
        ({
            let winner = order[result.index[metas[i].this] - base.items.len()] as int;
            &&& metas[winner].this == metas[i].this
            &&& !metas[winner].multi
            &&& i <= winner
        }),
{
    let n = order.len();
    let id = metas[i].this;
    lemma_replay_index(base, metas, order, result.items, n, id);
    lemma_last_single(metas, order, n, id);
    let last = last_single(metas, order, n, id);
    assert(placed(order, i));
    let k = choose|k: int| 0 <= k < order.len() && #[trigger] order[k] == i;
    if last < k {
        assert(!(metas[order[k] as int].this == id && !metas[order[k] as int].multi));
    }
    assert(made_in_turn(base, metas, makers, order, result.items, last));
    if k < last {
        assert(order[k] < order[last]);
    }
}

/// Dependencies are constructed first: in a finished build, the slot that a
/// registered single-valued dependency is indexed to lies before the slot of
/// every object that lists it.
pub proof fn lemma_dependency_slot_precedes<V: InjectableStatic + ?Sized, F: Fn(&Injector<V>) -> Box<V>>(
    base: InjectorView<V>,
    metas: Seq<MetaView>,
    makers: Seq<F>,
    order: Seq<usize>,
    result: InjectorView<V>,
    k: int,
    dependency: u64,
)
    requires
        valid_order(metas, order),
        constructed_in(base, metas, makers, order, result),
        result.items.len() <= usize::MAX,
        0 <= k < order.len(),
        metas[order[k] as int].dependencies.contains(dependency),
        registered(metas, dependency),
        forall|i: int|
            0 <= i < metas.len() && (#[trigger] metas[i]).this == dependency ==> !metas[i].multi,
    ensures
        result.index.contains_key(dependency),
        base.items.len() <= result.index[dependency] < base.items.len() + k,
{
    let n = order.len();
    lemma_replay_index(base, metas, order, result.items, n, dependency);
    lemma_last_single(metas, order, n, dependency);
    let last = last_single(metas, order, n, dependency);
    let i = choose|i: int| 0 <= i < metas.len() && (#[trigger] metas[i]).this == dependency;
    assert(placed(order, i));
    let ki = choose|ki: int| 0 <= ki < order.len() && #[trigger] order[ki] == i;
    if last < ki {
        assert(!(metas[order[ki] as int].this == dependency && !metas[order[ki] as int].multi));
    }
    assert(lists(metas, order[k] as int, metas[order[last] as int].this));
    assert(placed_before(order, order[last] as int, k));
    let k2 = choose|k2: int| 0 <= k2 < k && k2 < order.len() && #[trigger] order[k2] == order[last];
    assert(k2 == last);
}

/// Providers come in registration order: in a build on top of a base that
/// lists nothing under `capability`, the slots listed under it ascend, each
/// holds the object of a multi-valued descriptor registered under it, and a
/// provider registered earlier is listed earlier.
pub proof fn lemma_providers_in_registration_order<
    V: InjectableStatic + ?Sized,
    F: Fn(&Injector<V>) -> Box<V>,
>(
    base: InjectorView<V>,
    metas: Seq<MetaView>,
    makers: Seq<F>,
    order: Seq<usize>,
    result: InjectorView<V>,
    capability: u64,
    e1: int,
    e2: int,
)
    requires
        valid_order(metas, order),
        constructed_in(base, metas, makers, order, result),
        result.items.len() <= usize::MAX,
        !base.multi.contains_key(capability),
        result.multi.contains_key(capability),
        0 <= e1 < e2 < result.multi[capability].len(),
    ensures
        base.items.len() <= result.multi[capability][e1] < result.multi[capability][e2]
            < result.items.len(),
        ({
            let first = order[result.multi[capability][e1] - base.items.len()] as int;
            let second = order[result.multi[capability][e2] - base.items.len()] as int;
            &&& metas[first].this == capability && metas[first].multi
            &&& metas[second].this == capability && metas[second].multi
            &&& first < second
        }),
{
    let n = order.len();
    let start = base.items.len();
    lemma_replay_index(base, metas, order, result.items, n, capability);
    lemma_multi_slots(metas, order, start, n, capability);
    let slots = multi_slots(metas, order, start, n, capability);
    assert(result.multi[capability] == slots);
    let s1 = slots[e1];
    let s2 = slots[e2];
    assert(s1 < s2);
    assert(order[s1 - start] < order[s2 - start]);
}

/// Every provider is listed: in a finished build, each multi-valued
/// descriptor registered under a capability has the slot of its object in
/// the capability's list.
pub proof fn lemma_every_provider_is_listed<V: InjectableStatic + ?Sized, F: Fn(&Injector<V>) -> Box<V>>(
    base: InjectorView<V>,
    metas: Seq<MetaView>,
    makers: Seq<F>,
    order: Seq<usize>,
    result: InjectorView<V>,
    k: int,
)
    requires
        valid_order(metas, order),
        constructed_in(base, metas, makers, order, result),
        result.items.len() <= usize::MAX,
        0 <= k < order.len(),
        metas[order[k] as int].multi,
    ensures
        result.multi.contains_key(metas[order[k] as int].this),
        result.multi[metas[order[k] as int].this].contains((base.items.len() + k) as usize),
{
    let n = order.len();
    let start = base.items.len();
    let id = metas[order[k] as int].this;
    lemma_replay_index(base, metas, order, result.items, n, id);
    lemma_multi_slots(metas, order, start, n, id);
    let slots = multi_slots(metas, order, start, n, id);
    assert(slots.contains((start + k) as usize));
    let e = choose|e: int| 0 <= e < slots.len() && slots[e] == (start + k) as usize;
    if base.multi.contains_key(id) {
        assert(result.multi[id][base.multi[id].len() + e] == slots[e]);
    }
}

} // verus!
