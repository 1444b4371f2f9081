//! Two small additions to `Vec`.
use vstd::prelude::*;

verus! {

/// Growing a list of lists so that it has a place for a key.
pub trait SetWithResizeDefault {
    type Key;

    type Value;

    /// Whether the list can grow to hold the key.
    spec fn key_fits(key: Self::Key) -> bool;

    /// The entry at the key, after empty entries have been added at the
    /// end for as long as the key had none.
    fn get_mut_or_resize_default(&mut self, key: Self::Key) -> &mut Self::Value
        requires
            Self::key_fits(key),
    ;
}

/// Pushing a value and learning where it went.
pub trait PushAndReturnOffset {
    type Key;

    type Value;

    /// Adds the value at the end and says at which offset it stands.
    fn push_and_get_offset(&mut self, value: Self::Value) -> Self::Key;
}

impl<T> PushAndReturnOffset for Vec<T> {
    type Key = usize;

    type Value = T;

    fn push_and_get_offset(&mut self, value: T) -> (offset: usize)
        ensures
            offset == old(self)@.len(),
            final(self)@ == old(self)@.push(value),
    {
        let offset = self.len();
        self.push(value);
        offset
    }
}

impl<T> SetWithResizeDefault for Vec<Vec<T>> {
    type Key = usize;

    type Value = Vec<T>;

    open spec fn key_fits(key: usize) -> bool {
        key < usize::MAX
    }

    fn get_mut_or_resize_default(&mut self, key: usize) -> (entry: &mut Vec<T>)
        ensures
            entry@ == if key < old(self)@.len() {
                old(self)@[key as int]@
            } else {
                Seq::<T>::empty()
            },
            final(self)@.len() == if key < old(self)@.len() {
                old(self)@.len()
            } else {
                (key + 1) as nat
            },
            final(self)@[key as int] == *final(entry),
            forall|i: int|
                0 <= i < old(self)@.len() && i != key ==> final(self)@[i] == old(self)@[i],
            forall|i: int|
                old(self)@.len() <= i < final(self)@.len() && i != key ==> final(self)@[i]@
                    == Seq::<T>::empty(),
    {
        while self.len() <= key
            invariant
                key < usize::MAX,
                self@.len() >= old(self)@.len(),
                self@.len() <= key + 1 || self@.len() == old(self)@.len(),
                forall|i: int| 0 <= i < old(self)@.len() ==> self@[i] == old(self)@[i],
                forall|i: int| old(self)@.len() <= i < self@.len() ==> self@[i]@ == Seq::<T>::empty(),
            decreases key + 1 - self.len(),
        {
            self.push(Vec::new());
        }
        &mut self[key]
    }
}

} // verus!
