//! The graph builder: it orders the descriptors of a registration so that
//! dependencies come first, and constructs them in that order.

use multimap::MultiMap;
use std::collections::HashSet;
use vstd::prelude::*;
use crate::derive_api::{
    views, BindingMeta, InjectError, InjectMeta, Injectable, InjectableStatic, MetaView,
};
use crate::runtime::construction::{
    all_provided, betrayed, binding_factories, binding_views, build_outcome, built_upto,
    callable, construct_outcome, constructed_in, factories, lemma_made_in_turn_stays,
    lemma_replay_reads_prefix, made_in_turn, missing_dependency, provided, replay, stopped_at,
    unfaithful, unfaithful_on,
};
use crate::runtime::graph::{
    cycle_through, dependencies_first, depends_on, grouped, has_cycle, is_group_of,
    lemma_grouped, lemma_valid_order_is_acyclic, lists, needed_order, placed, placed_before,
    reaches, registered, valid_order,
};
use crate::runtime::groups::{add_member, any_key, groups, new_groups, take_group};
use crate::runtime::injector::{lemma_record, Injector, InjectorView};
use crate::runtime::walk::{
    closed, lemma_close, lemma_close_walked, lemma_cycle, lemma_done, lemma_needed, lemma_open,
    lemma_open_walked, lemma_skip, on_stack, opened, queued, skipped, walk_inv, walked_from,
    Visit, Walk,
};

verus! {

/// Groups the positions of `metas` by the identity they are registered under.
fn group_by_identity<F>(metas: &Vec<InjectMeta<F>>) -> (graph: MultiMap<u64, usize>)
    ensures
        groups(graph) == grouped(views(metas@), metas@.len()),
{
    let mut graph = new_groups();
    let mut i: usize = 0;
    while i < metas.len()
        invariant
            i <= metas.len(),
            groups(graph) == grouped(views(metas@), i as nat),
        decreases metas.len() - i,
    {
        add_member(&mut graph, metas[i].this, i);
        i += 1;
    }
    graph
}

/// Every dependency of descriptor `i` occurs in `children`.
spec fn covers(metas: Seq<MetaView>, children: Seq<u64>, i: int) -> bool {
    forall|j: int|
        0 <= j < metas[i].dependencies.len() ==> children.contains(
            #[trigger] metas[i].dependencies[j],
        )
}

/// Every dependency of descriptor `i` before place `j` occurs in `children`.
spec fn covers_upto(metas: Seq<MetaView>, children: Seq<u64>, i: int, upto: int) -> bool {
    forall|j: int| 0 <= j < upto ==> children.contains(#[trigger] metas[i].dependencies[j])
}

proof fn lemma_push_keeps(children: Seq<u64>, value: u64)
    ensures
        children.push(value).contains(value),
        forall|x: u64| children.contains(x) ==> #[trigger] children.push(value).contains(x),
{
    assert(children.push(value)[children.len() as int] == value);
    assert forall|x: u64| children.contains(x) implies #[trigger] children.push(value).contains(
        x,
    ) by {
        let c = choose|c: int| 0 <= c < children.len() && children[c] == x;
        assert(children.push(value)[c] == x);
    }
}

/// The dependencies of the descriptors of one group, group member by group
/// member, each member's in the order in which it lists them.
fn children_of<F>(
    metas: &Vec<InjectMeta<F>>,
    members: &Vec<usize>,
    Ghost(id): Ghost<u64>,
) -> (children: Vec<u64>)
    requires
        is_group_of(views(metas@), metas@.len(), id, members@),
    ensures
        forall|c: int|
            0 <= c < children@.len() ==> depends_on(views(metas@), id, #[trigger] children@[c]),
        forall|x: u64| #[trigger] depends_on(views(metas@), id, x) ==> children@.contains(x),
{
    let ghost ms = views(metas@);
    let mut children: Vec<u64> = Vec::new();
    let mut e: usize = 0;
    while e < members.len()
        invariant
            e <= members.len(),
            ms == views(metas@),
            is_group_of(ms, metas@.len(), id, members@),
            forall|c: int| 0 <= c < children@.len() ==> depends_on(ms, id, #[trigger] children@[c]),
            forall|e2: int| 0 <= e2 < e ==> covers(ms, children@, #[trigger] members@[e2] as int),
        decreases members.len() - e,
    {
        let i = members[e];
        let mut j: usize = 0;
        while j < metas[i].dependencies.len()
            invariant
                e < members.len(),
                i == members@[e as int],
                i < metas@.len(),
                ms == views(metas@),
                ms[i as int].this == id,
                j <= metas@[i as int].dependencies@.len(),
                forall|c: int|
                    0 <= c < children@.len() ==> depends_on(ms, id, #[trigger] children@[c]),
                forall|e2: int|
                    0 <= e2 < e ==> covers(ms, children@, #[trigger] members@[e2] as int),
                covers_upto(ms, children@, i as int, j as int),
            decreases metas@[i as int].dependencies@.len() - j,
        {
            let child = metas[i].dependencies[j];
            proof {
                lemma_push_keeps(children@, child);
                assert(ms[i as int].dependencies[j as int] == child);
                assert(lists(ms, i as int, child));
                assert(depends_on(ms, id, child));
            }
            children.push(child);
            j += 1;
        }
        e += 1;
    }
    proof {
        assert(ms.len() == metas.len());
        assert forall|x: u64| #[trigger] depends_on(ms, id, x) implies children@.contains(x) by {
            let i = choose|i: int| #[trigger] lists(ms, i, x) && ms[i].this == id;
            assert(members@.contains(i as usize));
            let e2 = choose|e2: int| 0 <= e2 < members@.len() && members@[e2] == i as usize;
            assert(covers(ms, children@, members@[e2] as int));
            let j = choose|j: int|
                0 <= j < ms[i].dependencies.len() && ms[i].dependencies[j] == x;
            assert(children@.contains(ms[i].dependencies[j]));
        }
    }
    children
}

/// Walks depth-first from `start` through the groups left in `graph`, takes
/// out each group it enters, and appends a group to `creation_order` once all
/// that the group depends on has been appended.
fn visit_from<F>(
    metas: &Vec<InjectMeta<F>>,
    graph: &mut MultiMap<u64, usize>,
    creation_order: &mut Vec<usize>,
    start: u64,
    Ghost(given): Ghost<Walk>,
) -> (walked: Result<Ghost<Walk>, InjectError>)
    requires
        walk_inv(views(metas@), given),
        given.stack.len() == 0,
        given.remaining == groups(*old(graph)),
        given.order == old(creation_order)@,
    ensures
        match walked {
            Ok(left) => {
                &&& walk_inv(views(metas@), left@)
                &&& left@.stack.len() == 0
                &&& left@.remaining == groups(*final(graph))
                &&& left@.order == final(creation_order)@
                &&& !left@.remaining.contains_key(start)
                &&& left@.remaining.dom().subset_of(given.remaining.dom())
                &&& walked_from(views(metas@), left@, start, given.order.len() as int)
            },
            Err(fault) => exists|id: u64|
                fault == InjectError::CycleDetected(id) && #[trigger] cycle_through(
                    views(metas@),
                    id,
                ) && reaches(views(metas@), start, id),
        },
{
    broadcast use vstd::std_specs::hash::group_hash_axioms;

    let ghost ms = views(metas@);
    let ghost from = given.order.len() as int;
    let ghost mut w = given;
    let mut in_progress: HashSet<u64> = HashSet::new();
    let mut dfs_queue: Vec<Visit> = Vec::new();
    dfs_queue.push(Visit::BeforeChildren(start));
    proof {
        assert forall|id: u64| !given.grey.contains(id) by {
            if given.grey.contains(id) {
                assert(on_stack(given, id));
            }
        }
        assert(given.grey =~= in_progress@);
        w.stack = dfs_queue@;
        w.parent = seq![-1int];
        assert(walk_inv(ms, w));
    }
    while dfs_queue.len() > 0
        invariant
            ms == views(metas@),
            walk_inv(ms, w),
            walked_from(ms, w, start, from),
            0 <= from <= w.order.len(),
            w.stack == dfs_queue@,
            w.remaining == groups(*graph),
            w.grey == in_progress@,
            w.order == creation_order@,
            groups(*graph).dom().subset_of(given.remaining.dom()),
            groups(*graph).contains_key(start) ==> dfs_queue@ =~= seq![Visit::BeforeChildren(start)],
        decreases groups(*graph).dom().len(), dfs_queue@.len(),
    {
        let ghost entry = w;
        let to_visit = dfs_queue.pop().unwrap();
        match to_visit {
            Visit::BeforeChildren(this_type) => {
                match take_group(graph, this_type) {
                    None => {
                        if in_progress.contains(&this_type) {
                            proof {
                                lemma_cycle(ms, w);
                            }
                            return Err(InjectError::CycleDetected(this_type));
                        }
                        proof {
                            lemma_skip(ms, w);
                            w = skipped(w);
                            assert(groups(*graph) =~= entry.remaining);
                        }
                    },
                    Some(members) => {
                        let children = children_of(metas, &members, Ghost(this_type));
                        in_progress.insert(this_type);
                        let entered = Visit::AfterChildren(this_type, members);
                        dfs_queue.push(entered);
                        let ghost base = dfs_queue@;
                        let mut c: usize = 0;
                        while c < children.len()
                            invariant
                                c <= children.len(),
                                dfs_queue@ =~= base + queued(children@.take(c as int)),
                            decreases children.len() - c,
                        {
                            dfs_queue.push(Visit::BeforeChildren(children[c]));
                            c += 1;
                            proof {
                                assert(queued(children@.take(c as int)) =~= queued(
                                    children@.take(c - 1),
                                ).push(Visit::BeforeChildren(children@[c - 1])));
                            }
                        }
                        proof {
                            assert(children@.take(children@.len() as int) =~= children@);
                            lemma_open(ms, w, entered, children@);
                            lemma_open_walked(ms, w, entered, children@, start, from);
                            w = opened(w, entered, children@);
                            assert(w.stack =~= dfs_queue@);
                        }
                    },
                }
            },
            Visit::AfterChildren(this_type, members) => {
                let mut members = members;
                creation_order.append(&mut members);
                in_progress.remove(&this_type);
                proof {
                    lemma_close(ms, w);
                    lemma_close_walked(ms, w, start, from);
                    w = closed(w);
                    assert(w.grey =~= in_progress@);
                }
            },
        }
    }
    Ok(Ghost(w))
}

/// The traversal state before anything was entered.
proof fn lemma_fresh_walk(metas: Seq<MetaView>) -> (w: Walk)
    requires
        metas.len() <= usize::MAX,
    ensures
        walk_inv(metas, w),
        w.remaining == grouped(metas, metas.len()),
        w.stack.len() == 0,
        w.order == Seq::<usize>::empty(),
{
    let w = Walk {
        remaining: grouped(metas, metas.len()),
        stack: Seq::empty(),
        parent: Seq::empty(),
        grey: Set::empty(),
        order: Seq::empty(),
    };
    lemma_grouped(metas, metas.len());
    assert forall|id: u64| #[trigger] w.remaining.contains_key(id) implies registered(metas, id) by {
        assert(is_group_of(metas, metas.len(), id, w.remaining[id]));
        assert(w.remaining[id][0] < metas.len());
    }
    w
}

/// Orders the descriptors for construction.
///
/// The result lists every position of `metas` once, every descriptor after
/// all descriptors registered under its dependencies, and the descriptors of
/// one identity in their registration order. A dependency that nothing is
/// registered under constrains nothing. Which of several valid orders comes
/// out is not fixed. When some identity depends on itself, directly or
/// through others, there is no such order, and the fault names an identity
/// on such a cycle.
pub fn topological_sort<F>(metas: &Vec<InjectMeta<F>>) -> (sorted: Result<Vec<usize>, InjectError>)
    ensures
        match sorted {
            Ok(order) => valid_order(views(metas@), order@),
            Err(fault) => exists|id: u64|
                fault == InjectError::CycleDetected(id) && #[trigger] cycle_through(
                    views(metas@),
                    id,
                ),
        },
        sorted.is_err() <==> has_cycle(views(metas@)),
{
    let ghost ms = views(metas@);
    let mut graph = group_by_identity(metas);
    let mut creation_order: Vec<usize> = Vec::new();
    proof {
        assert(ms.len() == metas.len());
    }
    let ghost mut w = lemma_fresh_walk(ms);
    loop
        invariant
            ms == views(metas@),
            walk_inv(ms, w),
            w.stack.len() == 0,
            w.remaining == groups(graph),
            w.order == creation_order@,
        ensures
            forall|id: u64| !groups(graph).contains_key(id),
        decreases groups(graph).dom().len(),
    {
        let start = match any_key(&graph) {
            Some(key) => key,
            None => {
                break ;
            },
        };
        let ghost before = groups(graph);
        match visit_from(metas, &mut graph, &mut creation_order, start, Ghost(w)) {
            Ok(left) => {
                proof {
                    w = left@;
                    vstd::set_lib::lemma_len_subset(groups(graph).dom(), before.dom().remove(start));
                }
            },
            Err(fault) => {
                return Err(fault);
            },
        }
    }
    proof {
        lemma_done(ms, w);
        lemma_valid_order_is_acyclic(ms, w.order);
    }
    Ok(creation_order)
}

/// Orders, for construction, the descriptors that `root` needs: those
/// registered under `root` and under everything it depends on, directly or
/// through others. The fault names an identity that `root` reaches and that
/// depends on itself.
pub fn dependency_order<F>(metas: &Vec<InjectMeta<F>>, root: u64) -> (sorted: Result<
    Vec<usize>,
    InjectError,
>)
    ensures
        match sorted {
            Ok(order) => needed_order(views(metas@), order@, root),
            Err(fault) => exists|id: u64|
                fault == InjectError::CycleDetected(id) && #[trigger] cycle_through(
                    views(metas@),
                    id,
                ) && reaches(views(metas@), root, id),
        },
{
    let ghost ms = views(metas@);
    let mut graph = group_by_identity(metas);
    let mut creation_order: Vec<usize> = Vec::new();
    proof {
        assert(ms.len() == metas.len());
    }
    let ghost w = lemma_fresh_walk(ms);
    match visit_from(metas, &mut graph, &mut creation_order, root, Ghost(w)) {
        Ok(left) => {
            proof {
                lemma_needed(ms, left@, root);
            }
            Ok(creation_order)
        },
        Err(fault) => Err(fault),
    }
}

/// No capability has several providers of which one is single-valued.
pub open spec fn bindings_consistent(bindings: Seq<MetaView>) -> bool {
    forall|i: int| 0 <= i < bindings.len() ==> #[trigger] unmixed(bindings, i)
}

/// Binding `i` is multi-valued, or the only binding of its capability.
pub open spec fn unmixed(bindings: Seq<MetaView>, i: int) -> bool {
    forall|j: int|
        0 <= j < bindings.len() && j != i && (#[trigger] bindings[j]).this == bindings[i].this
            ==> bindings[i].multi
}

/// The capability has several providers of which one is single-valued.
pub open spec fn mixed_at(bindings: Seq<MetaView>, capability: u64) -> bool {
    exists|i: int|
        0 <= i < bindings.len() && bindings[i].this == capability && !#[trigger] unmixed(
            bindings,
            i,
        )
}

/// Checks that the bindings of each capability agree: a capability with more
/// than one provider must have multi-valued providers only. The fault names a
/// capability for which that fails.
pub fn validate_bindings<F>(bindings: &Vec<InjectMeta<F>>) -> (checked: Result<(), InjectError>)
    ensures
        match checked {
            Ok(_) => bindings_consistent(views(bindings@)),
            Err(fault) => exists|capability: u64|
                fault == InjectError::InconsistentBinding(capability) && #[trigger] mixed_at(
                    views(bindings@),
                    capability,
                ),
        },
        checked.is_ok() <==> bindings_consistent(views(bindings@)),
{
    let ghost bs = views(bindings@);
    let mut by_capability = group_by_identity(bindings);
    proof {
        assert(bs.len() == bindings.len());
        lemma_grouped(bs, bs.len());
    }
    loop
        invariant
            bs == views(bindings@),
            bs.len() <= usize::MAX,
            groups(by_capability).dom().finite(),
            forall|id: u64| #[trigger]
                groups(by_capability).contains_key(id) ==> is_group_of(
                    bs,
                    bs.len(),
                    id,
                    groups(by_capability)[id],
                ),
            forall|i: int|
                0 <= i < bs.len() && !groups(by_capability).contains_key((#[trigger] bs[i]).this)
                    ==> unmixed(bs, i),
        ensures
            forall|id: u64| !groups(by_capability).contains_key(id),
        decreases groups(by_capability).dom().len(),
    {
        let capability = match any_key(&by_capability) {
            Some(key) => key,
            None => {
                break ;
            },
        };
        // The key was just found, so its group is there.
        let members = match take_group(&mut by_capability, capability) {
            Some(members) => members,
            None => {
                break ;
            },
        };
        if members.len() > 1 {
            let mut e: usize = 0;
            while e < members.len()
                invariant
                    bs == views(bindings@),
                    is_group_of(bs, bs.len(), capability, members@),
                    members@.len() > 1,
                    e <= members.len(),
                    forall|e2: int| 0 <= e2 < e ==> bs[(#[trigger] members@[e2]) as int].multi,
                decreases members.len() - e,
            {
                if !bindings[members[e]].is_multi_binding {
                    proof {
                        let i = members@[e as int] as int;
                        let other: int = if e == 0 {
                            1
                        } else {
                            0
                        };
                        let j = members@[other] as int;
                        assert(bs[j].this == bs[i].this && j != i);
                        assert(!unmixed(bs, i));
                        assert(mixed_at(bs, capability));
                    }
                    return Err(InjectError::InconsistentBinding(capability));
                }
                e += 1;
            }
        }
        proof {
            assert forall|i: int|
                0 <= i < bs.len() && !groups(by_capability).contains_key(
                    (#[trigger] bs[i]).this,
                ) implies unmixed(bs, i) by {
                if bs[i].this == capability {
                    assert(members@.contains(i as usize));
                    let e1 = choose|e1: int| 0 <= e1 < members@.len() && members@[e1] == i as usize;
                    assert forall|j: int|
                        0 <= j < bs.len() && j != i && (#[trigger] bs[j]).this
                            == bs[i].this implies bs[i].multi by {
                        assert(members@.contains(j as usize));
                        let e2 = choose|e2: int|
                            0 <= e2 < members@.len() && members@[e2] == j as usize;
                        assert(e1 != e2);
                        assert(bs[members@[e1] as int].multi);
                    }
                }
            }
        }
    }
    Ok(())
}

/// Turns bindings into the descriptors that the graph is built from, in
/// their registration order.
pub fn materialise<F>(bindings: Vec<BindingMeta<F>>) -> (metas: Vec<InjectMeta<F>>)
    ensures
        views(metas@) == binding_views(bindings@),
        factories(metas@) == binding_factories(bindings@),
{
    let ghost given = bindings@;
    let mut bindings = bindings;
    let mut reversed: Vec<InjectMeta<F>> = Vec::new();
    while bindings.len() > 0
        invariant
            bindings@ == given.take(bindings@.len() as int),
            bindings@.len() <= given.len(),
            reversed@.len() == given.len() - bindings@.len(),
            forall|r: int|
                0 <= r < reversed@.len() ==> (#[trigger] reversed@[r])@ == given[given.len() - 1
                    - r]@ && reversed@[r].create == given[given.len() - 1 - r].create,
        decreases bindings@.len(),
    {
        let binding = bindings.pop().unwrap();
        reversed.push(binding.into_inject_meta());
    }
    let ghost turned = reversed@;
    let mut metas: Vec<InjectMeta<F>> = Vec::new();
    while reversed.len() > 0
        invariant
            turned.len() == given.len(),
            reversed@ == turned.take(reversed@.len() as int),
            reversed@.len() <= turned.len(),
            metas@.len() == turned.len() - reversed@.len(),
            forall|r: int|
                0 <= r < turned.len() ==> (#[trigger] turned[r])@ == given[given.len() - 1 - r]@
                    && turned[r].create == given[given.len() - 1 - r].create,
            forall|b: int|
                0 <= b < metas@.len() ==> #[trigger] metas@[b] == turned[turned.len() - 1 - b],
        decreases reversed@.len(),
    {
        let meta = reversed.pop().unwrap();
        metas.push(meta);
    }
    proof {
        assert(views(metas@) =~= binding_views(given));
        assert(factories(metas@) =~= binding_factories(given));
    }
    metas
}

/// Collects registrations and builds the injector from them.
pub struct InjectorBuilder<V: ?Sized> {
    injector: Injector<V>,
}

impl<V: ?Sized> View for InjectorBuilder<V> {
    type V = InjectorView<V>;

    /// What the injector under construction holds so far.
    closed spec fn view(&self) -> InjectorView<V> {
        self.injector@
    }
}

impl<V: InjectableStatic + ?Sized> InjectorBuilder<V> {
    /// The injector under construction is well-formed.
    pub open spec fn wf(&self) -> bool {
        self@.wf()
    }

    /// A builder that continues from `injector`.
    pub fn new(injector: Injector<V>) -> (builder: Self)
        ensures
            builder@ == injector@,
    {
        InjectorBuilder { injector }
    }

    /// Stores a value that was made outside, before anything is built, so
    /// that descriptors may depend on it. The value is stored in the form
    /// that its type converts it into, as single-valued, under the identity
    /// that this form reports.
    pub fn inject_value<I: Injectable<Static = V>>(self, value: I) -> (builder: Self)
        requires
            self.wf(),
        ensures
            builder.wf(),
            builder@.items.len() == self@.items.len() + 1,
            builder@ == self@.record(
                builder@.items.last().identity_spec(),
                false,
                builder@.items.last(),
            ),
    {
        let static_item = value.upcast();
        self.inject_stored(static_item)
    }

    /// Stores a value that is in its stored form already, before anything is
    /// built: as single-valued, in the next slot, under the identity that it
    /// reports.
    pub fn inject_stored(self, static_item: Box<V>) -> (builder: Self)
        requires
            self.wf(),
        ensures
            builder.wf(),
            builder@ == self@.record(static_item.identity_spec(), false, static_item),
    {
        let mut injector = self.injector;
        injector.store(static_item);
        InjectorBuilder { injector }
    }

    /// Builds every registered object and every binding.
    ///
    /// The bindings are checked first: when a capability has several
    /// providers and one of them is single-valued, nothing is built and the
    /// fault names such a capability. Otherwise the bindings are read as
    /// descriptors, which follow the objects' descriptors in the
    /// registration, and the whole registration is built.
    pub fn build_the_world<F: Fn(&Injector<V>) -> Box<V>>(
        self,
        injections: Vec<InjectMeta<F>>,
        bindings: Vec<BindingMeta<F>>,
    ) -> (built: Result<Injector<V>, InjectError>)
        requires
            self.wf(),
            callable::<V, F>(
                views(injections@) + binding_views(bindings@),
                factories(injections@) + binding_factories(bindings@),
            ),
        ensures
            !bindings_consistent(binding_views(bindings@)) <==> (built matches Err(
                InjectError::InconsistentBinding(_),
            )),
            built matches Err(InjectError::InconsistentBinding(capability)) ==> mixed_at(
                binding_views(bindings@),
                capability,
            ),
            bindings_consistent(binding_views(bindings@)) ==> build_outcome(
                self@,
                views(injections@) + binding_views(bindings@),
                factories(injections@) + binding_factories(bindings@),
                built,
            ),
    {
        let mut bound = materialise(bindings);
        match validate_bindings(&bound) {
            Ok(_) => {},
            Err(fault) => {
                return Err(fault);
            },
        }
        let mut metas = injections;
        metas.append(&mut bound);
        proof {
            assert(views(metas@) =~= views(injections@) + binding_views(bindings@));
            assert(factories(metas@) =~= factories(injections@) + binding_factories(bindings@));
        }
        self.build_from_metadata(metas)
    }

    /// Builds the objects of `metas` on top of what the builder holds: orders
    /// them so that dependencies come first, then constructs and stores them
    /// one by one in that order, stopping at the first fault.
    pub fn build_from_metadata<F: Fn(&Injector<V>) -> Box<V>>(
        self,
        metas: Vec<InjectMeta<F>>,
    ) -> (built: Result<Injector<V>, InjectError>)
        requires
            self.wf(),
            callable::<V, F>(views(metas@), factories(metas@)),
        ensures
            build_outcome(self@, views(metas@), factories(metas@), built),
    {
        let ghost ms = views(metas@);
        let ghost base = self@;
        let sorted = match topological_sort(&metas) {
            Ok(sorted) => sorted,
            Err(fault) => {
                return Err(fault);
            },
        };
        let mut injector = self.injector;
        match construct_in_order(&mut injector, &metas, &sorted) {
            Ok(_) => {
                proof {
                    assert forall|i: int| 0 <= i < ms.len() implies #[trigger] provided(
                        ms,
                        base,
                        i,
                    ) by {
                        assert(placed(sorted@, i));
                        let k = choose|k: int| 0 <= k < sorted@.len() && #[trigger] sorted@[k] == i;
                        assert(provided(ms, base, sorted@[k] as int));
                    }
                    assert(all_provided(ms, base));
                    assert(constructed_in(base, ms, factories(metas@), sorted@, injector@));
                }
                Ok(injector)
            },
            Err(fault) => {
                proof {
                    let k = choose|k: int| #[trigger]
                        stopped_at(base, ms, factories(metas@), sorted@, injector@, k, fault);
                    let i = sorted@[k] as int;
                    match fault {
                        InjectError::UnregisteredDependency(id) => {
                            assert(missing_dependency(ms, base, id));
                        },
                        InjectError::TypeMismatch(id) => {
                            assert(unfaithful::<V, F>(ms[i].this, factories(metas@)[i]));
                            assert(betrayed::<V, F>(ms, factories(metas@), id));
                        },
                        _ => {},
                    }
                    assert(build_outcome::<V, F>(base, ms, factories(metas@), Err(fault)));
                }
                Err(fault)
            },
        }
    }
}

/// Constructs the descriptors at the places of `sorted`, one by one, and
/// stores what they make, stopping at the first fault.
pub(crate) fn construct_in_order<V: InjectableStatic + ?Sized, F: Fn(&Injector<V>) -> Box<V>>(
    injector: &mut Injector<V>,
    metas: &Vec<InjectMeta<F>>,
    sorted: &Vec<usize>,
) -> (built: Result<(), InjectError>)
    requires
        old(injector).wf(),
        callable::<V, F>(views(metas@), factories(metas@)),
        forall|k: int| 0 <= k < sorted@.len() ==> (#[trigger] sorted@[k]) < metas@.len(),
        dependencies_first(views(metas@), sorted@),
    ensures
        final(injector).wf(),
        construct_outcome(
            old(injector)@,
            views(metas@),
            factories(metas@),
            sorted@,
            final(injector)@,
            built,
        ),
{
    let ghost ms = views(metas@);
    let ghost fs = factories(metas@);
    let ghost base = injector@;
    let ghost start = base.items.len();
    let mut k: usize = 0;
    while k < sorted.len()
        invariant
            ms == views(metas@),
            fs == factories(metas@),
            callable::<V, F>(ms, fs),
            forall|k2: int| 0 <= k2 < sorted@.len() ==> (#[trigger] sorted@[k2]) < metas@.len(),
            dependencies_first(ms, sorted@),
            base == old(injector)@,
            base.wf(),
            start == base.items.len(),
            k <= sorted@.len(),
            injector.wf(),
            injector@.items.len() == start + k,
            injector@ == replay(base, ms, sorted@, injector@.items, k as nat),
            forall|k2: int|
                0 <= k2 < k ==> #[trigger] made_in_turn(base, ms, fs, sorted@, injector@.items, k2),
            forall|id: u64| base.available(id) ==> injector@.available(id),
            forall|id: u64| injector@.available(id) ==> base.available(id) || registered(ms, id),
            forall|k2: int|
                0 <= k2 < k ==> injector@.available(ms[(#[trigger] sorted@[k2]) as int].this),
            forall|k2: int| 0 <= k2 < k ==> provided(ms, base, (#[trigger] sorted@[k2]) as int),
        decreases sorted@.len() - k,
    {
        let i = sorted[k];
        let ghost before = injector@;
        let ghost held = *injector;
        proof {
            assert(metas@[i as int]@ == ms[i as int]);
            assert(metas@[i as int].create == fs[i as int]);
            if held@.all_available(ms[i as int].dependencies) {
                assert(call_requires(fs[i as int], (&held,)));
            }
        }
        match injector.build_and_store(&metas[i]) {
            Ok(_) => {},
            Err(fault) => {
                proof {
                    if before.all_available(ms[i as int].dependencies) {
                        let item = choose|item: Box<V>| #[trigger]
                            call_ensures(fs[i as int], (&held,), item) && item.identity_spec()
                                != ms[i as int].this;
                        assert(call_ensures(fs[i as int], (&held,), item));
                        assert(unfaithful_on::<V, F>(ms[i as int].this, fs[i as int], before));
                    } else {
                        let j = choose|j: int|
                            0 <= j < ms[i as int].dependencies.len() && !before.available(
                                #[trigger] ms[i as int].dependencies[j],
                            );
                        let d = ms[i as int].dependencies[j];
                        if registered(ms, d) {
                            let i2 = choose|i2: int|
                                0 <= i2 < ms.len() && (#[trigger] ms[i2]).this == d;
                            assert(lists(ms, sorted@[k as int] as int, ms[i2].this));
                            assert(placed_before(sorted@, i2, k as int));
                            let k2 = choose|k2: int|
                                0 <= k2 < k && k2 < sorted@.len() && #[trigger] sorted@[k2] == i2;
                            assert(before.available(ms[sorted@[k2] as int].this));
                        }
                        assert(!registered(ms, d));
                        assert(!base.available(d));
                        assert(!provided(ms, base, i as int));
                    }
                    assert(built_upto(base, ms, fs, sorted@, injector@, k as int));
                    assert(stopped_at(base, ms, fs, sorted@, injector@, k as int, fault));
                }
                return Err(fault);
            },
        }
        proof {
            let item = injector@.items.last();
            lemma_record(before, ms[i as int].this, ms[i as int].multi, item);
            lemma_replay_reads_prefix(base, ms, sorted@, before.items, injector@.items, k as nat);
            assert(injector@.items[start + k] == item);
            assert forall|k2: int| 0 <= k2 < k + 1 implies #[trigger] made_in_turn(
                base,
                ms,
                fs,
                sorted@,
                injector@.items,
                k2,
            ) by {
                if k2 < k {
                    lemma_made_in_turn_stays(
                        base,
                        ms,
                        fs,
                        sorted@,
                        before.items,
                        injector@.items,
                        k2,
                    );
                } else {
                    assert(replay(base, ms, sorted@, injector@.items, k as nat) == before);
                    assert(held@ == before && held.wf());
                    assert(call_ensures(fs[sorted@[k2] as int], (&held,), item));
                }
            }
            assert(registered(ms, ms[i as int].this));
            assert forall|j: int| 0 <= j < ms[i as int].dependencies.len() implies registered(
                ms,
                #[trigger] ms[i as int].dependencies[j],
            ) || base.available(ms[i as int].dependencies[j]) by {
                assert(before.available(ms[i as int].dependencies[j]));
            }
        }
        k += 1;
    }
    Ok(())
}

} // verus!
