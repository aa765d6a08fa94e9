//! An append-only store of individually boxed values.

use vstd::prelude::*;

verus! {

/// A list of owned values in which later values may refer to earlier ones by
/// slot. Slots are handed out in increasing order starting at zero, a value is
/// never moved or replaced once stored, and on teardown the values are
/// released from the highest slot down to slot zero.
pub struct UnsafeStore<V: ?Sized> {
    items: Vec<Box<V>>,
}

impl<V: ?Sized> View for UnsafeStore<V> {
    type V = Seq<Box<V>>;

    closed spec fn view(&self) -> Seq<Box<V>> {
        self.items@
    }
}

/// `Vec::pop`: takes the last element off, if there is one. The standard
/// library documents no panic for it, which is what `no_unwind` records.
#[verifier::external_body]
fn take_last<V: ?Sized>(items: &mut Vec<Box<V>>) -> (last: Option<Box<V>>)
    ensures
        old(items)@.len() > 0 ==> last == Some(old(items)@.last()) && final(items)@
            == old(items)@.drop_last(),
        old(items)@.len() == 0 ==> last.is_none() && final(items)@ == old(items)@,
    opens_invariants none
    no_unwind
{
    items.pop()
}

impl<V: ?Sized> UnsafeStore<V> {
    /// An empty store.
    pub fn new() -> (store: Self)
        ensures
            store@ == Seq::<Box<V>>::empty(),
    {
        UnsafeStore { items: Vec::new() }
    }

    /// The value at `item`, or `None` when no such slot has been handed out.
    pub fn get(store: &Self, item: usize) -> (found: Option<&V>)
        ensures
            item < store@.len() ==> found == Some(&*store@[item as int]),
            item >= store@.len() ==> found.is_none(),
    {
        if item < store.items.len() {
            Some(&*store.items[item])
        } else {
            None
        }
    }

    /// Appends `item` and returns its slot, which is the number of values
    /// stored before the call. Earlier slots keep their values.
    pub fn push(store: &mut Self, item: Box<V>) -> (slot: usize)
        ensures
            slot == old(store)@.len(),
            slot < usize::MAX,
            final(store)@ == old(store)@.push(item),
    {
        let output = store.items.len();
        store.items.push(item);
        proof {
            assert(store.items@.len() == store.items.len());
        }
        output
    }

    /// Releases every value, last slot first. The ghost result lists the
    /// values in the order in which they left the store.
    fn release_all(&mut self) -> (released: Ghost<Seq<Box<V>>>)
        ensures
            final(self)@.len() == 0,
            released@ == old(self)@.reverse(),
        opens_invariants none
        no_unwind
    {
        let ghost mut released: Seq<Box<V>> = Seq::empty();
        loop
            invariant
                self@.len() <= old(self)@.len(),
                self@ == old(self)@.take(self@.len() as int),
                released.len() == old(self)@.len() - self@.len(),
                forall|k: int|
                    0 <= k < released.len() ==> released[k] == old(self)@[old(self)@.len() - 1
                        - k],
            ensures
                self@.len() == 0,
            decreases self@.len(),
        {
            match take_last(&mut self.items) {
                Some(item) => {
                    proof {
                        released = released.push(item);
                    }
                },
                None => {
                    break ;
                },
            }
        }
        assert(released =~= old(self)@.reverse());
        Ghost(released)
    }
}

impl<V: ?Sized> Drop for UnsafeStore<V> {
    fn drop(&mut self)
        opens_invariants none
        no_unwind
    {
        let _ = self.release_all();
    }
}

} // verus!
