use std::any::Any;
use std::sync::mpsc;

use injector::UnsafeStore;

struct DropObserver {
    id: usize,
    sender: mpsc::Sender<usize>,
}

impl DropObserver {
    fn new(id: usize, sender: &mpsc::Sender<usize>) -> Box<dyn Any> {
        Box::new(DropObserver { id, sender: sender.clone() })
    }
}

impl Drop for DropObserver {
    fn drop(&mut self) {
        self.sender.send(self.id).unwrap()
    }
}

#[test]
fn drop_in_reverse_order() {
    let (send, recv) = mpsc::channel();

    let mut store: UnsafeStore<dyn Any> = UnsafeStore::new();
    UnsafeStore::push(&mut store, DropObserver::new(0, &send));
    UnsafeStore::push(&mut store, DropObserver::new(1, &send));
    UnsafeStore::push(&mut store, DropObserver::new(2, &send));
    UnsafeStore::push(&mut store, DropObserver::new(3, &send));
    UnsafeStore::push(&mut store, DropObserver::new(4, &send));
    drop(store);
    drop(send);

    assert_eq!(recv.recv(), Ok(4));
    assert_eq!(recv.recv(), Ok(3));
    assert_eq!(recv.recv(), Ok(2));
    assert_eq!(recv.recv(), Ok(1));
    assert_eq!(recv.recv(), Ok(0));
    assert_eq!(recv.recv(), Err(mpsc::RecvError));
}

#[test]
fn pointers_are_stable() {
    let mut store: UnsafeStore<dyn Any> = UnsafeStore::new();
    let index = UnsafeStore::push(&mut store, Box::new(42i32));
    let reference = UnsafeStore::get(&store, index).unwrap();
    let address = format!("{:p}", reference);

    for _ in 0..5000 {
        UnsafeStore::push(&mut store, Box::new("garbage"));
    }

    let reference = UnsafeStore::get(&store, index).unwrap();
    assert_eq!(format!("{:p}", reference), address);
    assert_eq!(reference.downcast_ref::<i32>(), Some(&42i32));
}

#[test]
fn slots_count_up_from_zero() {
    let mut store: UnsafeStore<dyn Any> = UnsafeStore::new();
    assert_eq!(UnsafeStore::push(&mut store, Box::new(7u8)), 0);
    assert_eq!(UnsafeStore::push(&mut store, Box::new("seven")), 1);
    assert_eq!(UnsafeStore::push(&mut store, Box::new(7.5f64)), 2);
    assert_eq!(UnsafeStore::get(&store, 0).unwrap().downcast_ref::<u8>(), Some(&7u8));
    assert_eq!(UnsafeStore::get(&store, 1).unwrap().downcast_ref::<&str>(), Some(&"seven"));
    assert_eq!(UnsafeStore::get(&store, 2).unwrap().downcast_ref::<f64>(), Some(&7.5f64));
}

#[test]
fn get_out_of_range_is_absent() {
    let mut store: UnsafeStore<dyn Any> = UnsafeStore::new();
    assert!(UnsafeStore::get(&store, 0).is_none());
    UnsafeStore::push(&mut store, Box::new(1u8));
    assert!(UnsafeStore::get(&store, 0).is_some());
    assert!(UnsafeStore::get(&store, 1).is_none());
    assert!(UnsafeStore::get(&store, usize::MAX).is_none());
}

#[test]
fn empty_store_drops_nothing() {
    let (send, recv) = mpsc::channel::<usize>();
    let store: UnsafeStore<dyn Any> = UnsafeStore::new();
    drop(store);
    drop(send);
    assert_eq!(recv.recv(), Err(mpsc::RecvError));
}
