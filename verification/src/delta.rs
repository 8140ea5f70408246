//! Signed changes and the items of streams of changes.

use vstd::prelude::*;

verus! {

/// A value that was added to a collection or deleted from it.
#[derive(Clone)]
pub enum Delta<T> {
    Addition(T),
    Deletion(T),
}

/// Whether a [`Delta`] adds or deletes its value.
#[derive(Clone, Copy, PartialEq, Eq, Structural, Debug)]
pub enum DeltaKind {
    Addition,
    Deletion,
}

impl<T> Delta<T> {
    /// The kind of the change.
    pub open spec fn kind_of(self) -> DeltaKind {
        match self {
            Delta::Addition(_) => DeltaKind::Addition,
            Delta::Deletion(_) => DeltaKind::Deletion,
        }
    }

    /// The value that was added or deleted.
    pub open spec fn value_of(self) -> T {
        match self {
            Delta::Addition(value) => value,
            Delta::Deletion(value) => value,
        }
    }

    /// The change of the given kind and value.
    pub open spec fn made(kind: DeltaKind, value: T) -> Delta<T> {
        match kind {
            DeltaKind::Addition => Delta::Addition(value),
            DeltaKind::Deletion => Delta::Deletion(value),
        }
    }

    pub fn addition(value: T) -> (delta: Self)
        ensures
            delta == Delta::Addition(value),
    {
        Delta::Addition(value)
    }

    pub fn deletion(value: T) -> (delta: Self)
        ensures
            delta == Delta::Deletion(value),
    {
        Delta::Deletion(value)
    }

    pub fn with_kind(kind: DeltaKind, value: T) -> (delta: Self)
        ensures
            delta == Self::made(kind, value),
            delta.kind_of() == kind,
            delta.value_of() == value,
    {
        match kind {
            DeltaKind::Addition => Delta::Addition(value),
            DeltaKind::Deletion => Delta::Deletion(value),
        }
    }

    pub fn kind(&self) -> (kind: DeltaKind)
        ensures
            kind == self.kind_of(),
    {
        match self {
            Delta::Addition(_) => DeltaKind::Addition,
            Delta::Deletion(_) => DeltaKind::Deletion,
        }
    }

    pub fn value(&self) -> (value: &T)
        ensures
            *value == self.value_of(),
    {
        match self {
            Delta::Addition(value) => value,
            Delta::Deletion(value) => value,
        }
    }

    /// Access to the value; the kind of the change stays what it is.
    pub fn value_mut(&mut self) -> (value: &mut T)
        ensures
            *value == old(self).value_of(),
            *final(self) == Self::made(old(self).kind_of(), *final(value)),
    {
        match self {
            Delta::Addition(value) => value,
            Delta::Deletion(value) => value,
        }
    }

    pub fn into_value(self) -> (value: T)
        ensures
            value == self.value_of(),
    {
        match self {
            Delta::Addition(value) => value,
            Delta::Deletion(value) => value,
        }
    }

    pub fn into_parts(self) -> (parts: (DeltaKind, T))
        ensures
            parts.0 == self.kind_of(),
            parts.1 == self.value_of(),
    {
        match self {
            Delta::Addition(value) => (DeltaKind::Addition, value),
            Delta::Deletion(value) => (DeltaKind::Deletion, value),
        }
    }

    /// Applies `f` to the value; the kind of the change stays what it is.
    pub fn map<U, F: FnOnce(T) -> U>(self, f: F) -> (delta: Delta<U>)
        requires
            f.requires((self.value_of(),)),
        ensures
            delta.kind_of() == self.kind_of(),
            f.ensures((self.value_of(),), delta.value_of()),
    {
        match self {
            Delta::Addition(value) => Delta::Addition(f(value)),
            Delta::Deletion(value) => Delta::Deletion(f(value)),
        }
    }
}

/// Item of a stream of changes.
///
/// `Pending` means that the stream is live but has no item available right now. A
/// stream that hands out no item at all any more is exhausted.
pub enum StreamingItem<T> {
    Item(T),
    Pending,
}

/// What one poll of a query driver found.
pub enum IncrementalDriverState<T> {
    Item(T),
    Pending,
    Done,
}

/// Taking a change apart and putting it together again gives the same change.
pub proof fn law_parts_round_trip<T>(delta: Delta<T>)
    ensures
        Delta::made(delta.kind_of(), delta.value_of()) == delta,
{
}

} // verus!
