use injector::runtime::builder::{
    dependency_order, materialise, topological_sort, validate_bindings,
};
use injector::{BindingMeta, InjectError, InjectMeta};

fn meta(this: u64, dependencies: Vec<u64>) -> InjectMeta<()> {
    InjectMeta { this, name: "object", dependencies, create: (), is_multi_binding: false }
}

fn multi(this: u64, dependencies: Vec<u64>) -> InjectMeta<()> {
    InjectMeta { this, name: "object", dependencies, create: (), is_multi_binding: true }
}

fn binding(trait_object: u64, impl_type: u64, is_multi_binding: bool) -> BindingMeta<()> {
    BindingMeta { trait_object, name: "capability", impl_type, is_multi_binding, create: () }
}

fn place_of(order: &[usize], position: usize) -> usize {
    order.iter().position(|&p| p == position).unwrap()
}

fn assert_valid(metas: &[InjectMeta<()>], order: &[usize]) {
    let mut seen = order.to_vec();
    seen.sort();
    assert_eq!(seen, (0..metas.len()).collect::<Vec<usize>>());
    for (place, &position) in order.iter().enumerate() {
        for dependency in &metas[position].dependencies {
            for (other, candidate) in metas.iter().enumerate() {
                if candidate.this == *dependency {
                    assert!(place_of(order, other) < place);
                }
            }
        }
    }
    for (earlier, later) in order.iter().zip(order.iter().skip(1)) {
        if metas[*earlier].this == metas[*later].this {
            assert!(earlier < later);
        }
    }
}

#[test]
fn empty_registration_has_empty_order() {
    let metas: Vec<InjectMeta<()>> = Vec::new();
    assert_eq!(topological_sort(&metas), Ok(Vec::new()));
}

#[test]
fn single_descriptor_is_its_own_order() {
    let metas = vec![meta(7, vec![])];
    assert_eq!(topological_sort(&metas), Ok(vec![0]));
}

#[test]
fn chain_is_ordered_leaf_first() {
    let metas = vec![meta(3, vec![2]), meta(2, vec![1]), meta(1, vec![])];
    assert_eq!(topological_sort(&metas), Ok(vec![2, 1, 0]));
}

#[test]
fn dependencies_precede_dependents_in_a_diamond() {
    let metas = vec![
        meta(40, vec![20, 30]),
        meta(20, vec![10]),
        meta(30, vec![10]),
        meta(10, vec![]),
        meta(50, vec![40, 10]),
    ];
    let order = topological_sort(&metas).unwrap();
    assert_valid(&metas, &order);
    assert_eq!(place_of(&order, 3), 0);
    assert_eq!(place_of(&order, 0), 3);
    assert_eq!(place_of(&order, 4), 4);
}

#[test]
fn every_descriptor_is_ordered_exactly_once() {
    let metas = vec![
        meta(1, vec![]),
        meta(2, vec![1]),
        meta(3, vec![1]),
        meta(4, vec![1, 2, 3]),
        meta(5, vec![1, 4]),
        meta(6, vec![]),
    ];
    let order = topological_sort(&metas).unwrap();
    assert_eq!(order.len(), 6);
    assert_valid(&metas, &order);
}

#[test]
fn providers_of_one_identity_keep_registration_order() {
    let metas = vec![
        multi(9, vec![1]),
        meta(1, vec![]),
        multi(9, vec![2]),
        meta(2, vec![]),
        multi(9, vec![1]),
    ];
    let order = topological_sort(&metas).unwrap();
    assert_valid(&metas, &order);
    assert!(place_of(&order, 0) < place_of(&order, 2));
    assert!(place_of(&order, 2) < place_of(&order, 4));
}

#[test]
fn unregistered_dependency_does_not_disturb_the_order() {
    let metas = vec![meta(2, vec![1, 99]), meta(1, vec![98])];
    assert_eq!(topological_sort(&metas), Ok(vec![1, 0]));
}

#[test]
fn three_cycle_is_detected() {
    let metas = vec![meta(1, vec![2]), meta(2, vec![3]), meta(3, vec![1])];
    match topological_sort(&metas) {
        Err(InjectError::CycleDetected(id)) => assert!(id == 1 || id == 2 || id == 3),
        other => panic!("expected a cycle, got {:?}", other),
    }
}

#[test]
fn self_dependency_is_a_cycle() {
    let metas = vec![meta(5, vec![5])];
    assert_eq!(topological_sort(&metas), Err(InjectError::CycleDetected(5)));
}

#[test]
fn cycle_behind_an_acyclic_part_is_detected() {
    let metas = vec![meta(1, vec![]), meta(2, vec![1, 3]), meta(3, vec![4]), meta(4, vec![3])];
    match topological_sort(&metas) {
        Err(InjectError::CycleDetected(id)) => assert!(id == 3 || id == 4),
        other => panic!("expected a cycle, got {:?}", other),
    }
}

#[test]
fn repeated_dependency_is_no_cycle() {
    let metas = vec![meta(2, vec![1, 1]), meta(1, vec![]), meta(3, vec![1, 2, 1])];
    let order = topological_sort(&metas).unwrap();
    assert_eq!(order, vec![1, 0, 2]);
}

#[test]
fn materialised_binding_depends_on_its_provider() {
    let metas = materialise(vec![binding(100, 1, false), binding(200, 2, true)]);
    assert_eq!(metas.len(), 2);
    assert_eq!(metas[0].this, 100);
    assert_eq!(metas[0].dependencies, vec![1]);
    assert!(!metas[0].is_multi_binding);
    assert_eq!(metas[0].name, "capability");
    assert_eq!(metas[1].this, 200);
    assert_eq!(metas[1].dependencies, vec![2]);
    assert!(metas[1].is_multi_binding);
}

#[test]
fn single_binding_alone_is_consistent() {
    let metas = materialise(vec![binding(100, 1, false), binding(200, 2, false)]);
    assert_eq!(validate_bindings(&metas), Ok(()));
}

#[test]
fn several_multi_bindings_are_consistent() {
    let metas = materialise(vec![
        binding(100, 1, true),
        binding(100, 2, true),
        binding(100, 3, true),
        binding(200, 1, true),
    ]);
    assert_eq!(validate_bindings(&metas), Ok(()));
}

#[test]
fn mixed_bindings_are_inconsistent() {
    let metas = materialise(vec![binding(100, 1, false), binding(100, 2, true)]);
    assert_eq!(validate_bindings(&metas), Err(InjectError::InconsistentBinding(100)));
    let metas = materialise(vec![binding(100, 1, true), binding(100, 2, false)]);
    assert_eq!(validate_bindings(&metas), Err(InjectError::InconsistentBinding(100)));
}

#[test]
fn two_single_bindings_of_one_capability_are_inconsistent() {
    let metas = materialise(vec![
        binding(300, 5, true),
        binding(100, 1, false),
        binding(100, 2, false),
    ]);
    assert_eq!(validate_bindings(&metas), Err(InjectError::InconsistentBinding(100)));
}

#[test]
fn dependency_order_lists_only_what_the_root_needs() {
    let metas = vec![
        meta(1, vec![]),
        meta(2, vec![1]),
        meta(3, vec![2]),
        meta(4, vec![1]),
        meta(5, vec![4, 3]),
    ];
    assert_eq!(dependency_order(&metas, 3), Ok(vec![0, 1, 2]));
    assert_eq!(dependency_order(&metas, 4), Ok(vec![0, 3]));
    assert_eq!(dependency_order(&metas, 1), Ok(vec![0]));
    let all = dependency_order(&metas, 5).unwrap();
    assert_eq!(all.len(), 5);
    assert_valid(&metas, &all);
}

#[test]
fn dependency_order_of_an_unregistered_root_is_empty() {
    let metas = vec![meta(1, vec![]), meta(2, vec![1])];
    assert_eq!(dependency_order(&metas, 9), Ok(Vec::new()));
}

#[test]
fn dependency_order_ignores_a_cycle_out_of_reach() {
    let metas = vec![meta(1, vec![]), meta(2, vec![1]), meta(3, vec![4]), meta(4, vec![3])];
    assert_eq!(dependency_order(&metas, 2), Ok(vec![0, 1]));
    match dependency_order(&metas, 3) {
        Err(InjectError::CycleDetected(id)) => assert!(id == 3 || id == 4),
        other => panic!("expected a cycle, got {:?}", other),
    }
}

#[test]
fn dependency_order_takes_every_provider_of_an_identity() {
    let metas = vec![multi(9, vec![1]), meta(1, vec![]), multi(9, vec![2]), meta(2, vec![])];
    let order = dependency_order(&metas, 9).unwrap();
    assert_eq!(order.len(), 4);
    assert_valid(&metas, &order);
    assert!(place_of(&order, 0) < place_of(&order, 2));
}
