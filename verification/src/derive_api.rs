//! What a registration hands to the runtime: descriptors of constructible
//! objects, descriptors of capability bindings, and the faults a build or a
//! lookup can end in.

use vstd::prelude::*;

verus! {

/// A value that the injector can hold. Every stored value reports the
/// identity of the shape it has, which the injector compares with the
/// identity its descriptor declared.
///
/// The injector's contracts rest on `identity` returning what
/// `identity_spec` says. For a verified implementation that is proved; for
/// any other it is taken on trust.
pub trait InjectableStatic {
    /// The identity of this value's shape. An implementation that is
    /// verified says here what `identity` returns.
    open spec fn identity_spec(&self) -> u64 {
        arbitrary()
    }

    /// Reports the identity of this value's shape.
    fn identity(&self) -> (id: u64)
        ensures
            id == self.identity_spec(),
    ;
}

/// A type that the injector can manage: a value of it has a stored form, in
/// which the injector keeps it.
pub trait Injectable: Sized {
    /// The form in which the injector stores values of this type.
    type Static: InjectableStatic + ?Sized;

    /// Converts the value into its stored form.
    fn upcast(self) -> Box<Self::Static>;
}

/// Runtime metadata about one constructible object.
pub struct InjectMeta<F> {
    /// The identity under which the object is stored and looked up.
    pub this: u64,
    /// The name of the object's type, for diagnostics only.
    pub name: &'static str,
    /// The identities that must be stored before `create` runs.
    pub dependencies: Vec<u64>,
    /// Creates the object. It is handed the injector as built so far and may
    /// look up what `dependencies` lists.
    pub create: F,
    /// Whether further objects may be registered under the same identity.
    pub is_multi_binding: bool,
}

/// Runtime metadata about one binding of a capability to a provider.
pub struct BindingMeta<F> {
    /// The identity of the capability.
    pub trait_object: u64,
    /// The name of the capability, for diagnostics only.
    pub name: &'static str,
    /// The identity of the concrete provider.
    pub impl_type: u64,
    /// Whether the capability collects several providers.
    pub is_multi_binding: bool,
    /// Creates the value that exposes the provider through the capability.
    pub create: F,
}

/// What the graph algorithms read of a descriptor.
pub struct MetaView {
    pub this: u64,
    pub dependencies: Seq<u64>,
    pub multi: bool,
}

impl<F> View for InjectMeta<F> {
    type V = MetaView;

    open spec fn view(&self) -> MetaView {
        MetaView {
            this: self.this,
            dependencies: self.dependencies@,
            multi: self.is_multi_binding,
        }
    }
}

impl<F> View for BindingMeta<F> {
    type V = MetaView;

    /// A binding read as a descriptor: it is stored under the capability's
    /// identity and depends on its provider alone.
    open spec fn view(&self) -> MetaView {
        MetaView {
            this: self.trait_object,
            dependencies: seq![self.impl_type],
            multi: self.is_multi_binding,
        }
    }
}

impl<F> BindingMeta<F> {
    /// Turns the binding into the descriptor that the graph is built from.
    pub fn into_inject_meta(self) -> (meta: InjectMeta<F>)
        ensures
            meta@ == self@,
            meta.create == self.create,
            meta.name == self.name,
    {
        let mut dependencies: Vec<u64> = Vec::new();
        dependencies.push(self.impl_type);
        proof {
            assert(dependencies@ =~= seq![self.impl_type]);
        }
        InjectMeta {
            this: self.trait_object,
            name: self.name,
            dependencies,
            create: self.create,
            is_multi_binding: self.is_multi_binding,
        }
    }
}

/// The faults of a build or a lookup, each with the identity it names.
#[derive(Clone, Copy, Debug, PartialEq, Eq, Structural)]
pub enum InjectError {
    /// The identity depends on itself, directly or through others.
    CycleDetected(u64),
    /// The descriptor of this identity lists a dependency that nothing
    /// provides.
    UnregisteredDependency(u64),
    /// The capability has more than one provider and not all of them are
    /// multi-valued.
    InconsistentBinding(u64),
    /// A factory registered for this identity returned a value of another
    /// identity.
    TypeMismatch(u64),
    /// A lookup asked for an identity that the injector does not hold.
    LookupMiss(u64),
}

/// The descriptors of a registration as the graph algorithms read them.
pub open spec fn views<F>(metas: Seq<InjectMeta<F>>) -> Seq<MetaView> {
    Seq::new(metas.len(), |i: int| metas[i]@)
}

} // verus!
