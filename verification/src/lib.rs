//! A dependency-injection runtime: descriptors name an identity, the
//! identities it depends on and a factory; the runtime constructs every object
//! once, dependencies first, and then answers lookups from a fixed index.

pub mod derive_api;
pub mod runtime;

pub use derive_api::{
    BindingMeta, InjectError, InjectMeta, Injectable, InjectableStatic, MetaView,
};
pub use runtime::builder::InjectorBuilder;
pub use runtime::injector::Injector;
pub use runtime::unsafe_storage::UnsafeStore;
