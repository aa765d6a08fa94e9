use std::cell::RefCell;
use std::rc::Rc;

use injector::{
    BindingMeta, InjectError, InjectMeta, Injectable, InjectableStatic, Injector, InjectorBuilder,
};

/// A stored object: what it is, and the slots of the objects it refers to.
#[derive(Debug, PartialEq)]
struct Object {
    identity: u64,
    label: &'static str,
    uses: Vec<usize>,
}

impl InjectableStatic for Object {
    fn identity(&self) -> u64 {
        self.identity
    }
}

type Maker = Box<dyn Fn(&Injector<Object>) -> Box<Object>>;
type Log = Rc<RefCell<Vec<&'static str>>>;

fn maker(identity: u64, label: &'static str, dependencies: &[u64], log: &Log) -> Maker {
    let dependencies = dependencies.to_vec();
    let log = log.clone();
    Box::new(move |injector: &Injector<Object>| {
        log.borrow_mut().push(label);
        let uses = dependencies.iter().map(|d| injector.position(*d).unwrap()).collect();
        Box::new(Object { identity, label, uses })
    })
}

fn object(this: u64, label: &'static str, dependencies: &[u64], log: &Log) -> InjectMeta<Maker> {
    InjectMeta {
        this,
        name: label,
        dependencies: dependencies.to_vec(),
        create: maker(this, label, dependencies, log),
        is_multi_binding: false,
    }
}

fn bound(
    trait_object: u64,
    label: &'static str,
    impl_type: u64,
    is_multi_binding: bool,
    log: &Log,
) -> BindingMeta<Maker> {
    BindingMeta {
        trait_object,
        name: label,
        impl_type,
        is_multi_binding,
        create: maker(trait_object, label, &[impl_type], log),
    }
}

fn new_log() -> Log {
    Rc::new(RefCell::new(Vec::new()))
}

const EMPTY: u64 = 1;
const HOLDER: u64 = 2;
const LEAF: u64 = 3;
const MID: u64 = 4;
const IMPL_A: u64 = 10;
const IMPL_B: u64 = 11;
const IMPL_C: u64 = 12;
const GREETER: u64 = 100;
const LOGGER: u64 = 101;

#[test]
fn holder_refers_to_the_one_empty() {
    let log = new_log();
    let injections =
        vec![object(HOLDER, "Holder", &[EMPTY], &log), object(EMPTY, "Empty", &[], &log)];
    let injector = Injector::new(injections, Vec::new()).unwrap();
    let empty = injector.get(EMPTY).unwrap();
    let holder = injector.get(HOLDER).unwrap();
    assert_eq!(holder.uses.len(), 1);
    let held = injector.item_at(holder.uses[0]).unwrap();
    assert!(std::ptr::eq(held, empty));
    assert_eq!(held.label, "Empty");
    assert_eq!(injector.position(EMPTY), Ok(0));
    assert_eq!(injector.position(HOLDER), Ok(1));
}

#[test]
fn every_factory_runs_once_and_after_its_dependencies() {
    let log = new_log();
    let injections = vec![
        object(5, "e", &[1, 4], &log),
        object(4, "d", &[2, 3], &log),
        object(3, "c", &[1], &log),
        object(2, "b", &[1], &log),
        object(1, "a", &[], &log),
    ];
    let injector = Injector::new(injections, Vec::new()).unwrap();
    let mut ran = log.borrow().clone();
    assert_eq!(ran.len(), 5);
    assert_eq!(ran[0], "a");
    assert_eq!(ran[3], "d");
    assert_eq!(ran[4], "e");
    ran.sort();
    assert_eq!(ran, vec!["a", "b", "c", "d", "e"]);
    for identity in 1..=5u64 {
        let slot = injector.position(identity).unwrap();
        let item = injector.get(identity).unwrap();
        assert_eq!(item.identity, identity);
        for used in &item.uses {
            assert!(*used < slot);
        }
    }
}

#[test]
fn second_registration_of_a_single_identity_overwrites_the_index() {
    let log = new_log();
    let injections = vec![
        object(LEAF, "Leaf", &[], &log),
        object(MID, "first Mid", &[LEAF], &log),
        object(MID, "second Mid", &[LEAF], &log),
    ];
    let injector = Injector::new(injections, Vec::new()).unwrap();
    assert_eq!(*log.borrow(), vec!["Leaf", "first Mid", "second Mid"]);
    assert_eq!(injector.get(MID).unwrap().label, "second Mid");
    assert_eq!(injector.position(MID), Ok(2));
    assert_eq!(injector.item_at(1).unwrap().label, "first Mid");
}

#[test]
fn single_binding_exposes_its_provider() {
    let log = new_log();
    let injections = vec![object(IMPL_A, "ImplA", &[], &log)];
    let bindings = vec![bound(GREETER, "Greeter", IMPL_A, false, &log)];
    let injector = Injector::new(injections, bindings).unwrap();
    let greeter = injector.get_trait_object(GREETER).unwrap();
    assert_eq!(greeter.identity, GREETER);
    let provider = injector.item_at(greeter.uses[0]).unwrap();
    assert_eq!(provider.label, "ImplA");
    assert!(std::ptr::eq(provider, injector.get(IMPL_A).unwrap()));
    assert_eq!(
        injector.get_all_trait_objects(GREETER).err(),
        Some(InjectError::LookupMiss(GREETER))
    );
}

#[test]
fn multi_binding_yields_providers_in_registration_order() {
    let log = new_log();
    let injections =
        vec![object(IMPL_B, "ImplB", &[], &log), object(IMPL_A, "ImplA", &[], &log)];
    let bindings = vec![
        bound(LOGGER, "Logger by A", IMPL_A, true, &log),
        bound(LOGGER, "Logger by B", IMPL_B, true, &log),
    ];
    let injector = Injector::new(injections, bindings).unwrap();
    let loggers = injector.get_all_trait_objects(LOGGER).unwrap();
    assert_eq!(loggers.len(), 2);
    assert_eq!(loggers[0].label, "Logger by A");
    assert_eq!(loggers[1].label, "Logger by B");
    assert_eq!(injector.item_at(loggers[0].uses[0]).unwrap().label, "ImplA");
    assert_eq!(injector.item_at(loggers[1].uses[0]).unwrap().label, "ImplB");
    assert_eq!(injector.get_trait_object(LOGGER).err(), Some(InjectError::LookupMiss(LOGGER)));
}

#[test]
fn three_multi_providers_come_in_registration_order() {
    let log = new_log();
    let injections = vec![
        object(IMPL_C, "ImplC", &[], &log),
        object(IMPL_A, "ImplA", &[], &log),
        object(IMPL_B, "ImplB", &[], &log),
    ];
    let bindings = vec![
        bound(LOGGER, "first", IMPL_B, true, &log),
        bound(LOGGER, "second", IMPL_C, true, &log),
        bound(LOGGER, "third", IMPL_A, true, &log),
    ];
    let injector = Injector::new(injections, bindings).unwrap();
    let labels: Vec<&str> =
        injector.get_all_trait_objects(LOGGER).unwrap().iter().map(|o| o.label).collect();
    assert_eq!(labels, vec!["first", "second", "third"]);
}

#[test]
fn one_multi_provider_is_a_list_of_one() {
    let log = new_log();
    let injections = vec![object(IMPL_A, "ImplA", &[], &log)];
    let bindings = vec![bound(LOGGER, "only", IMPL_A, true, &log)];
    let injector = Injector::new(injections, bindings).unwrap();
    let loggers = injector.get_all_trait_objects(LOGGER).unwrap();
    assert_eq!(loggers.len(), 1);
    assert_eq!(loggers[0].label, "only");
}

#[test]
fn mixed_providers_fail_the_build() {
    let log = new_log();
    let injections =
        vec![object(IMPL_A, "ImplA", &[], &log), object(IMPL_B, "ImplB", &[], &log)];
    let bindings = vec![
        bound(LOGGER, "single", IMPL_A, false, &log),
        bound(LOGGER, "multi", IMPL_B, true, &log),
    ];
    let built = Injector::new(injections, bindings);
    assert_eq!(built.err(), Some(InjectError::InconsistentBinding(LOGGER)));
    assert!(log.borrow().is_empty());
}

#[test]
fn cycle_fails_the_build_before_anything_is_made() {
    let log = new_log();
    let injections = vec![
        object(1, "A", &[2], &log),
        object(2, "B", &[3], &log),
        object(3, "C", &[1], &log),
        object(4, "D", &[], &log),
    ];
    match Injector::new(injections, Vec::new()) {
        Err(InjectError::CycleDetected(id)) => assert!(id == 1 || id == 2 || id == 3),
        Err(other) => panic!("expected a cycle, got {:?}", other),
        Ok(_) => panic!("expected a cycle, got an injector"),
    }
    assert!(log.borrow().is_empty());
}

#[test]
fn unregistered_dependency_names_the_dependent() {
    let log = new_log();
    let injections = vec![object(EMPTY, "Empty", &[], &log), object(HOLDER, "Holder", &[77], &log)];
    let built = Injector::new(injections, Vec::new());
    assert_eq!(built.err(), Some(InjectError::UnregisteredDependency(HOLDER)));
    assert!(!log.borrow().contains(&"Holder"));
}

#[test]
fn binding_without_provider_names_the_capability() {
    let log = new_log();
    let bindings = vec![bound(GREETER, "Greeter", IMPL_A, false, &log)];
    let built = Injector::new(Vec::new(), bindings);
    assert_eq!(built.err(), Some(InjectError::UnregisteredDependency(GREETER)));
}

#[test]
fn factory_of_another_identity_is_a_type_mismatch() {
    let log = new_log();
    let wrong = InjectMeta {
        this: HOLDER,
        name: "Holder",
        dependencies: vec![EMPTY],
        create: maker(LEAF, "Leaf", &[], &log),
        is_multi_binding: false,
    };
    let injections = vec![object(EMPTY, "Empty", &[], &log), wrong];
    let built = Injector::new(injections, Vec::new());
    assert_eq!(built.err(), Some(InjectError::TypeMismatch(HOLDER)));
}

#[test]
fn lookup_of_an_unknown_identity_misses() {
    let log = new_log();
    let injector = Injector::new(vec![object(EMPTY, "Empty", &[], &log)], Vec::new()).unwrap();
    assert_eq!(injector.get(HOLDER).err(), Some(InjectError::LookupMiss(HOLDER)));
    assert_eq!(injector.get_trait_object(GREETER).err(), Some(InjectError::LookupMiss(GREETER)));
    assert_eq!(
        injector.get_all_trait_objects(LOGGER).err(),
        Some(InjectError::LookupMiss(LOGGER))
    );
    assert_eq!(injector.position(HOLDER), Err(InjectError::LookupMiss(HOLDER)));
    assert!(injector.item_at(1).is_none());
    assert!(injector.provides(EMPTY));
    assert!(!injector.provides(HOLDER));
}

#[test]
fn empty_registration_builds_an_empty_injector() {
    let injector: Injector<Object> =
        Injector::new(Vec::<InjectMeta<Maker>>::new(), Vec::new()).unwrap();
    assert!(injector.item_at(0).is_none());
    assert!(!injector.provides(EMPTY));
}

/// A value made by hand, before the build.
struct Settings {
    label: &'static str,
}

impl Injectable for Settings {
    type Static = Object;

    fn upcast(self) -> Box<Object> {
        Box::new(Object { identity: EMPTY, label: self.label, uses: Vec::new() })
    }
}

#[test]
fn injected_value_serves_as_a_dependency() {
    let log = new_log();
    let builder: InjectorBuilder<Object> =
        Injector::builder().inject_value(Settings { label: "seeded" });
    let injector = builder
        .build_the_world(vec![object(HOLDER, "Holder", &[EMPTY], &log)], Vec::new())
        .unwrap();
    assert_eq!(injector.position(EMPTY), Ok(0));
    assert_eq!(injector.get(EMPTY).unwrap().label, "seeded");
    assert_eq!(injector.get(HOLDER).unwrap().uses, vec![0]);
    assert_eq!(*log.borrow(), vec!["Holder"]);
}

#[test]
fn stored_values_are_injected_in_turn() {
    let log = new_log();
    let first = Box::new(Object { identity: LEAF, label: "first", uses: Vec::new() });
    let second = Box::new(Object { identity: MID, label: "second", uses: Vec::new() });
    let builder: InjectorBuilder<Object> =
        Injector::builder().inject_stored(first).inject_stored(second);
    let injector = builder
        .build_from_metadata(vec![object(HOLDER, "Holder", &[MID, LEAF], &log)])
        .unwrap();
    assert_eq!(injector.position(LEAF), Ok(0));
    assert_eq!(injector.position(MID), Ok(1));
    assert_eq!(injector.position(HOLDER), Ok(2));
    assert_eq!(injector.get(HOLDER).unwrap().uses, vec![1, 0]);
}

#[test]
fn build_and_store_leaves_the_injector_unchanged_on_a_fault() {
    let log = new_log();
    let mut injector: Injector<Object> = Injector::builder().build_the_world(
        vec![object(EMPTY, "Empty", &[], &log)],
        Vec::new(),
    ).unwrap();
    let missing = object(HOLDER, "Holder", &[LEAF], &log);
    assert_eq!(
        injector.build_and_store(&missing),
        Err(InjectError::UnregisteredDependency(HOLDER))
    );
    assert!(!injector.provides(HOLDER));
    assert!(injector.item_at(1).is_none());
    let holder = object(HOLDER, "Holder", &[EMPTY], &log);
    assert_eq!(injector.build_and_store(&holder), Ok(()));
    assert_eq!(injector.position(HOLDER), Ok(1));
}

#[test]
fn store_as_checks_the_reported_identity() {
    let mut injector: Injector<Object> =
        Injector::new(Vec::<InjectMeta<Maker>>::new(), Vec::new()).unwrap();
    let leaf = Box::new(Object { identity: LEAF, label: "Leaf", uses: Vec::new() });
    assert_eq!(injector.store_as(MID, false, leaf), Err(InjectError::TypeMismatch(MID)));
    assert!(injector.item_at(0).is_none());
    let leaf = Box::new(Object { identity: LEAF, label: "Leaf", uses: Vec::new() });
    assert_eq!(injector.store_as(LEAF, true, leaf), Ok(()));
    let again = Box::new(Object { identity: LEAF, label: "again", uses: Vec::new() });
    assert_eq!(injector.store_as(LEAF, true, again), Ok(()));
    let found = injector.get_all_trait_objects(LEAF).unwrap();
    assert_eq!(found.len(), 2);
    assert_eq!(found[0].label, "Leaf");
    assert_eq!(found[1].label, "again");
    let single = Box::new(Object { identity: MID, label: "Mid", uses: Vec::new() });
    injector.store(single);
    assert_eq!(injector.position(MID), Ok(2));
}

fn nothing_built() -> Injector<Object> {
    Injector::new(Vec::<InjectMeta<Maker>>::new(), Vec::new()).unwrap()
}

#[test]
fn prebuild_constructs_the_root_and_what_it_needs() {
    let log = new_log();
    let metas = vec![
        object(1, "a", &[], &log),
        object(2, "b", &[1], &log),
        object(3, "c", &[2], &log),
        object(4, "d", &[1], &log),
    ];
    let mut injector = nothing_built();
    assert_eq!(injector.prebuild(&metas, 3), Ok(()));
    assert_eq!(*log.borrow(), vec!["a", "b", "c"]);
    assert_eq!(injector.position(1), Ok(0));
    assert_eq!(injector.position(2), Ok(1));
    assert_eq!(injector.position(3), Ok(2));
    assert_eq!(injector.get(3).unwrap().uses, vec![1]);
    assert_eq!(injector.get(4).err(), Some(InjectError::LookupMiss(4)));
    assert!(injector.item_at(3).is_none());
}

#[test]
fn prebuild_of_an_unregistered_root_misses() {
    let log = new_log();
    let metas = vec![object(1, "a", &[], &log)];
    let mut injector = nothing_built();
    assert_eq!(injector.prebuild(&metas, 7), Err(InjectError::LookupMiss(7)));
    assert!(log.borrow().is_empty());
    assert!(injector.item_at(0).is_none());
}

#[test]
fn prebuild_reports_a_cycle_that_the_root_reaches() {
    let log = new_log();
    let metas = vec![
        object(1, "a", &[2], &log),
        object(2, "b", &[3], &log),
        object(3, "c", &[2], &log),
        object(4, "d", &[], &log),
    ];
    let mut injector = nothing_built();
    match injector.prebuild(&metas, 1) {
        Err(InjectError::CycleDetected(id)) => assert!(id == 2 || id == 3),
        other => panic!("expected a cycle, got {:?}", other),
    }
    assert!(log.borrow().is_empty());
    assert_eq!(injector.prebuild(&metas, 4), Ok(()));
    assert_eq!(injector.position(4), Ok(0));
}

#[test]
fn prebuild_names_the_dependent_of_a_missing_dependency() {
    let log = new_log();
    let metas = vec![object(1, "a", &[], &log), object(2, "b", &[1, 8], &log)];
    let mut injector = nothing_built();
    assert_eq!(injector.prebuild(&metas, 2), Err(InjectError::UnregisteredDependency(2)));
    assert_eq!(*log.borrow(), vec!["a"]);
    assert!(injector.provides(1));
    assert!(!injector.provides(2));
}
