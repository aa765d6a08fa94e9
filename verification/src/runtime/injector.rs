//! The injector: the store of constructed values and the index over it.

use std::collections::HashMap;
use vstd::prelude::*;
use crate::derive_api::{
    views, BindingMeta, InjectError, InjectMeta, InjectableStatic, MetaView,
};
use crate::runtime::builder::{
    bindings_consistent, construct_in_order, dependency_order, mixed_at, InjectorBuilder,
};
use crate::runtime::construction::{
    betrayed, binding_factories, binding_views, build_outcome, callable, factories,
    missing_dependency, prebuild_outcome, stopped_at, unfaithful,
};
use crate::runtime::graph::{depends_on, is_path, needed_order, placed, reaches, registered};
use crate::runtime::groups::with_member;
use crate::runtime::unsafe_storage::UnsafeStore;

verus! {

/// The runtime that manages the injections. All construction happens while
/// it is built; afterwards every lookup is a read of the index.
pub struct Injector<V: ?Sized> {
    items: UnsafeStore<V>,
    index: HashMap<u64, usize>,
    multi_bindings_index: HashMap<u64, Vec<usize>>,
}

/// What an injector holds: the stored values by slot, the slot of each
/// single-valued identity, and the slots of each multi-valued identity in the
/// order of their construction.
pub ghost struct InjectorView<V: ?Sized> {
    pub items: Seq<Box<V>>,
    pub index: Map<u64, usize>,
    pub multi: Map<u64, Seq<usize>>,
}

impl<V: ?Sized> InjectorView<V> {
    /// Every indexed slot holds a value, and no multi-valued identity is
    /// indexed without a slot.
    pub open spec fn wf(self) -> bool {
        &&& self.items.len() <= usize::MAX
        &&& forall|id: u64| #[trigger]
            self.index.contains_key(id) ==> self.index[id] < self.items.len()
        &&& forall|id: u64| #[trigger] self.multi.contains_key(id) ==> self.multi[id].len() > 0
        &&& forall|id: u64, e: int|
            self.multi.contains_key(id) && 0 <= e < self.multi[id].len() ==> (
            #[trigger] self.multi[id][e]) < self.items.len()
    }

    /// A lookup of `id`, single-valued or multi-valued, finds something.
    pub open spec fn available(self, id: u64) -> bool {
        self.index.contains_key(id) || self.multi.contains_key(id)
    }

    /// Every identity of `dependencies` can be looked up.
    pub open spec fn all_available(self, dependencies: Seq<u64>) -> bool {
        forall|j: int| 0 <= j < dependencies.len() ==> self.available(#[trigger] dependencies[j])
    }

    /// The contents after `item` was stored under `id`. It takes the next
    /// slot. A single-valued identity is indexed to that slot, in place of
    /// any slot it was indexed to before; a multi-valued identity has the
    /// slot added to the end of its list.
    pub open spec fn record(self, id: u64, multi: bool, item: Box<V>) -> InjectorView<V> {
        let slot = self.items.len() as usize;
        if multi {
            InjectorView {
                items: self.items.push(item),
                index: self.index,
                multi: with_member(self.multi, id, slot),
            }
        } else {
            InjectorView {
                items: self.items.push(item),
                index: self.index.insert(id, slot),
                multi: self.multi,
            }
        }
    }

    /// No value is stored and no identity indexed.
    pub open spec fn is_empty(self) -> bool {
        &&& self.items.len() == 0
        &&& forall|id: u64| !self.available(id)
    }
}

/// Storing a value keeps the contents well-formed and everything that could
/// be looked up before, and makes the identity it is stored under available.
pub proof fn lemma_record<V: ?Sized>(state: InjectorView<V>, id: u64, multi: bool, item: Box<V>)
    requires
        state.wf(),
        state.items.len() < usize::MAX,
    ensures
        state.record(id, multi, item).wf(),
        state.record(id, multi, item).available(id),
        forall|other: u64| state.available(other) ==> state.record(id, multi, item).available(other),
        forall|other: u64|
            state.record(id, multi, item).available(other) ==> other == id || state.available(
                other,
            ),
{
    let after = state.record(id, multi, item);
    assert forall|key: u64, e: int|
        after.multi.contains_key(key) && 0 <= e < after.multi[key].len() implies (
    #[trigger] after.multi[key][e]) < after.items.len() by {
        if multi && key == id {
            if state.multi.contains_key(id) {
                if e < state.multi[id].len() {
                    assert(after.multi[key][e] == state.multi[id][e]);
                }
            }
        } else {
            assert(after.multi[key][e] == state.multi[key][e]);
        }
    }
}

impl<V: ?Sized> View for Injector<V> {
    type V = InjectorView<V>;

    closed spec fn view(&self) -> InjectorView<V> {
        InjectorView {
            items: self.items@,
            index: self.index@,
            multi: self.multi_bindings_index@.map_values(|slots: Vec<usize>| slots@),
        }
    }
}

impl<V: InjectableStatic + ?Sized> Injector<V> {
    /// The contents are well-formed.
    pub open spec fn wf(&self) -> bool {
        self@.wf()
    }

    /// Builds every registered object and every binding into a new
    /// injector, which can then supply any of them.
    pub fn new<F: Fn(&Injector<V>) -> Box<V>>(
        injections: Vec<InjectMeta<F>>,
        bindings: Vec<BindingMeta<F>>,
    ) -> (built: Result<Self, InjectError>)
        requires
            callable::<V, F>(
                views(injections@) + binding_views(bindings@),
                factories(injections@) + binding_factories(bindings@),
            ),
        ensures
            !bindings_consistent(binding_views(bindings@)) <==> (built matches Err(
                InjectError::InconsistentBinding(_),
            )),
            built matches Err(InjectError::InconsistentBinding(capability)) ==> mixed_at(
                binding_views(bindings@),
                capability,
            ),
            bindings_consistent(binding_views(bindings@)) ==> exists|base: InjectorView<V>|
                base.is_empty() && #[trigger] build_outcome(
                    base,
                    views(injections@) + binding_views(bindings@),
                    factories(injections@) + binding_factories(bindings@),
                    built,
                ),
    {
        let builder = Self::builder();
        let ghost base = builder@;
        let built = builder.build_the_world(injections, bindings);
        proof {
            if bindings_consistent(binding_views(bindings@)) {
                assert(build_outcome(
                    base,
                    views(injections@) + binding_views(bindings@),
                    factories(injections@) + binding_factories(bindings@),
                    built,
                ));
            }
        }
        built
    }

    /// A builder that starts from an injector that holds nothing.
    pub fn builder() -> (builder: InjectorBuilder<V>)
        ensures
            builder.wf(),
            builder@.is_empty(),
    {
        broadcast use vstd::std_specs::hash::group_hash_axioms;

        let injector = Injector {
            items: UnsafeStore::new(),
            index: HashMap::new(),
            multi_bindings_index: HashMap::new(),
        };
        InjectorBuilder::new(injector)
    }

    /// Fetches the value stored under a single-valued identity. Nothing is
    /// constructed here. The lookup misses exactly when the identity is not
    /// indexed as single-valued.
    pub fn get(&self, identity: u64) -> (found: Result<&V, InjectError>)
        requires
            self.wf(),
        ensures
            match found {
                Ok(item) => {
                    &&& self@.index.contains_key(identity)
                    &&& item == &*self@.items[self@.index[identity] as int]
                },
                Err(fault) => !self@.index.contains_key(identity) && fault
                    == InjectError::LookupMiss(identity),
            },
    {
        broadcast use vstd::std_specs::hash::group_hash_axioms;

        match self.index.get(&identity) {
            Some(position) => {
                match UnsafeStore::get(&self.items, *position) {
                    Some(item) => Ok(item),
                    None => Err(InjectError::LookupMiss(identity)),
                }
            },
            None => Err(InjectError::LookupMiss(identity)),
        }
    }

    /// Fetches the value bound to a single-valued capability. The lookup
    /// misses exactly when no single-valued binding of it was constructed.
    pub fn get_trait_object(&self, capability: u64) -> (found: Result<&V, InjectError>)
        requires
            self.wf(),
        ensures
            match found {
                Ok(item) => {
                    &&& self@.index.contains_key(capability)
                    &&& item == &*self@.items[self@.index[capability] as int]
                },
                Err(fault) => !self@.index.contains_key(capability) && fault
                    == InjectError::LookupMiss(capability),
            },
    {
        self.get(capability)
    }

    /// Fetches every value bound to a multi-valued capability, in the order
    /// of construction. The lookup misses exactly when no multi-valued
    /// binding of it was constructed.
    pub fn get_all_trait_objects(&self, capability: u64) -> (found: Result<Vec<&V>, InjectError>)
        requires
            self.wf(),
        ensures
            match found {
                Ok(list) => {
                    &&& self@.multi.contains_key(capability)
                    &&& list@.len() == self@.multi[capability].len()
                    &&& forall|e: int|
                        0 <= e < list@.len() ==> #[trigger] list@[e]
                            == &*self@.items[self@.multi[capability][e] as int]
                },
                Err(fault) => !self@.multi.contains_key(capability) && fault
                    == InjectError::LookupMiss(capability),
            },
    {
        broadcast use vstd::std_specs::hash::group_hash_axioms;

        match self.multi_bindings_index.get(&capability) {
            Some(positions) => {
                let mut list: Vec<&V> = Vec::new();
                let mut e: usize = 0;
                while e < positions.len()
                    invariant
                        self.wf(),
                        self@.multi.contains_key(capability),
                        positions@ == self@.multi[capability],
                        e <= positions.len(),
                        list@.len() == e,
                        forall|e2: int|
                            0 <= e2 < e ==> #[trigger] list@[e2]
                                == &*self@.items[positions@[e2] as int],
                    decreases positions.len() - e,
                {
                    match UnsafeStore::get(&self.items, positions[e]) {
                        Some(item) => {
                            list.push(item);
                        },
                        None => {
                            return Err(InjectError::LookupMiss(capability));
                        },
                    }
                    e += 1;
                }
                Ok(list)
            },
            None => Err(InjectError::LookupMiss(capability)),
        }
    }

    /// The slot of the value stored under a single-valued identity. A value
    /// that refers to another keeps that slot: slots never change, and a
    /// factory can only learn slots that were filled before its own.
    pub fn position(&self, identity: u64) -> (found: Result<usize, InjectError>)
        requires
            self.wf(),
        ensures
            match found {
                Ok(slot) => self@.index.contains_key(identity) && slot == self@.index[identity]
                    && slot < self@.items.len(),
                Err(fault) => !self@.index.contains_key(identity) && fault
                    == InjectError::LookupMiss(identity),
            },
    {
        broadcast use vstd::std_specs::hash::group_hash_axioms;

        match self.index.get(&identity) {
            Some(position) => Ok(*position),
            None => Err(InjectError::LookupMiss(identity)),
        }
    }

    /// The value in `slot`, or `None` when that slot was never filled.
    pub fn item_at(&self, slot: usize) -> (found: Option<&V>)
        ensures
            slot < self@.items.len() ==> found == Some(&*self@.items[slot as int]),
            slot >= self@.items.len() ==> found.is_none(),
    {
        UnsafeStore::get(&self.items, slot)
    }

    /// Whether a lookup of `identity`, single-valued or multi-valued, would
    /// find something.
    pub fn provides(&self, identity: u64) -> (found: bool)
        ensures
            found == self@.available(identity),
    {
        broadcast use vstd::std_specs::hash::group_hash_axioms;

        self.index.contains_key(&identity) || self.multi_bindings_index.contains_key(&identity)
    }

    /// Records `item` in the next slot under `this`.
    fn record(&mut self, this: u64, is_multi_binding: bool, item: Box<V>)
        requires
            old(self).wf(),
        ensures
            final(self).wf(),
            final(self)@ == old(self)@.record(this, is_multi_binding, item),
    {
        broadcast use vstd::std_specs::hash::group_hash_axioms;

        let ghost before = self@;
        let position = UnsafeStore::push(&mut self.items, item);
        if is_multi_binding {
            let mut slots = match self.multi_bindings_index.remove(&this) {
                Some(slots) => slots,
                None => Vec::new(),
            };
            slots.push(position);
            self.multi_bindings_index.insert(this, slots);
            proof {
                assert(self@.multi =~= with_member(before.multi, this, position));
            }
        } else {
            self.index.insert(this, position);
        }
        proof {
            lemma_record(before, this, is_multi_binding, item);
        }
    }

    /// Stores a value that was made outside, as single-valued, under the
    /// identity that the value reports.
    pub fn store(&mut self, static_item: Box<V>)
        requires
            old(self).wf(),
        ensures
            final(self).wf(),
            final(self)@ == old(self)@.record(static_item.identity_spec(), false, static_item),
    {
        let this = static_item.identity();
        self.record(this, false, static_item)
    }

    /// Takes over what a factory made for the descriptor `this`: the value is
    /// stored exactly when it reports the identity that the descriptor
    /// declared, and otherwise nothing changes.
    pub fn store_as(&mut self, this: u64, is_multi_binding: bool, item: Box<V>) -> (stored: Result<
        (),
        InjectError,
    >)
        requires
            old(self).wf(),
        ensures
            final(self).wf(),
            match stored {
                Ok(_) => item.identity_spec() == this && final(self)@ == old(self)@.record(
                    this,
                    is_multi_binding,
                    item,
                ),
                Err(fault) => item.identity_spec() != this && fault == InjectError::TypeMismatch(
                    this,
                ) && final(self)@ == old(self)@,
            },
    {
        if item.identity() != this {
            return Err(InjectError::TypeMismatch(this));
        }
        self.record(this, is_multi_binding, item);
        Ok(())
    }

    /// Constructs the object of one descriptor and stores it.
    ///
    /// When some dependency of the descriptor cannot be looked up, the
    /// factory is not run and the fault names the descriptor. Otherwise the
    /// factory runs on the injector as it stands, and its value is stored
    /// exactly when it reports the identity that the descriptor declares.
    /// After a fault the injector is unchanged.
    pub fn build_and_store<F: Fn(&Injector<V>) -> Box<V>>(
        &mut self,
        metadata: &InjectMeta<F>,
    ) -> (built: Result<(), InjectError>)
        requires
            old(self).wf(),
            old(self)@.all_available(metadata@.dependencies) ==> call_requires(
                metadata.create,
                (&*old(self),),
            ),
        ensures
            final(self).wf(),
            match built {
                Ok(_) => {
                    &&& old(self)@.all_available(metadata@.dependencies)
                    &&& final(self)@ == old(self)@.record(
                        metadata.this,
                        metadata.is_multi_binding,
                        final(self)@.items.last(),
                    )
                    &&& final(self)@.items.last().identity_spec() == metadata.this
                    &&& call_ensures(metadata.create, (&*old(self),), final(self)@.items.last())
                },
                Err(fault) => {
                    &&& final(self)@ == old(self)@
                    &&& if old(self)@.all_available(metadata@.dependencies) {
                        &&& fault == InjectError::TypeMismatch(metadata.this)
                        &&& exists|item: Box<V>| #[trigger]
                            call_ensures(metadata.create, (&*old(self),), item)
                                && item.identity_spec() != metadata.this
                    } else {
                        fault == InjectError::UnregisteredDependency(metadata.this)
                    }
                },
            },
    {
        let mut j: usize = 0;
        while j < metadata.dependencies.len()
            invariant
                *self == *old(self),
                self.wf(),
                j <= metadata.dependencies@.len(),
                forall|j2: int|
                    0 <= j2 < j ==> self@.available(#[trigger] metadata.dependencies@[j2]),
            decreases metadata.dependencies@.len() - j,
        {
            if !self.provides(metadata.dependencies[j]) {
                return Err(InjectError::UnregisteredDependency(metadata.this));
            }
            j += 1;
        }
        let static_item = (metadata.create)(&*self);
        self.store_as(metadata.this, metadata.is_multi_binding, static_item)
    }

    /// Creates the objects registered under `root` and under everything it
    /// depends on, dependencies first, so that `get` finds them. Nothing else
    /// of `metas` is constructed.
    pub fn prebuild<F: Fn(&Injector<V>) -> Box<V>>(
        &mut self,
        metas: &Vec<InjectMeta<F>>,
        root: u64,
    ) -> (built: Result<(), InjectError>)
        requires
            old(self).wf(),
            callable::<V, F>(views(metas@), factories(metas@)),
        ensures
            final(self).wf(),
            prebuild_outcome(
                old(self)@,
                views(metas@),
                factories(metas@),
                root,
                final(self)@,
                built,
            ),
    {
        let ghost ms = views(metas@);
        let sorted = match dependency_order(metas, root) {
            Ok(sorted) => sorted,
            Err(fault) => {
                return Err(fault);
            },
        };
        if sorted.len() == 0 {
            proof {
                if registered(ms, root) {
                    let i = choose|i: int| 0 <= i < ms.len() && (#[trigger] ms[i]).this == root;
                    assert(placed(sorted@, i));
                }
            }
            return Err(InjectError::LookupMiss(root));
        }
        proof {
            assert(placed(sorted@, sorted@[0] as int));
            assert(reaches(ms, root, ms[sorted@[0] as int].this));
        }
        let built = construct_in_order(self, metas, &sorted);
        proof {
            lemma_needed_is_registered(ms, sorted@, root);
            match built {
                Ok(_) => {},
                Err(fault) => {
                    let k = choose|k: int| #[trigger]
                        stopped_at(
                            old(self)@,
                            ms,
                            factories(metas@),
                            sorted@,
                            final(self)@,
                            k,
                            fault,
                        );
                    let i = sorted@[k] as int;
                    assert(placed(sorted@, i));
                    match fault {
                        InjectError::UnregisteredDependency(id) => {
                            assert(missing_dependency(ms, old(self)@, id));
                        },
                        InjectError::TypeMismatch(id) => {
                            assert(unfaithful::<V, F>(ms[i].this, factories(metas@)[i]));
                            assert(betrayed::<V, F>(ms, factories(metas@), id));
                        },
                        _ => {},
                    }
                },
            }
        }
        built
    }
}

/// Where `root` needs anything, something is registered under `root`.
proof fn lemma_needed_is_registered(metas: Seq<MetaView>, order: Seq<usize>, root: u64)
    requires
        needed_order(metas, order, root),
        order.len() > 0,
    ensures
        registered(metas, root),
{
    let i = order[0] as int;
    assert(placed(order, i));
    assert(reaches(metas, root, metas[i].this));
    if root != metas[i].this {
        let path = choose|path: Seq<u64>|
            path.len() >= 2 && path[0] == root && path.last() == metas[i].this && #[trigger] is_path(
                metas,
                path,
            );
        assert(depends_on(metas, path[0], path[1]));
    }
}

} // verus!
