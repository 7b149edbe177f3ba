//! The slots in which the hooks live: a `stable_vec::StableVec`, whose
//! indices stay where they are when an element leaves.
//!
//! Verus cannot look into the collection, so this file says what it holds:
//! [`slots`] is the map from each filled index to its hook, and
//! [`next_slot`] the index that the next push fills. Each function below
//! makes one call into the collection and states, over these two, what the
//! collection's documentation says of that call.

use vstd::prelude::*;
use crate::hooks::Hook;

verus! {

/// The most hooks that may ever be put into one collection. Growing
/// doubles the memory of the slots, which must stay below `isize::MAX` bytes
/// or the collection panics; a hook takes well under a kilobyte, so this
/// many slots stay below that limit on machines of 32 and of 64 bits.
pub const SLOT_LIMIT: usize = 0x10_0000;

/// The hooks of a registry, each in a slot of its own: a
/// `stable_vec::StableVec` of hooks, into which Verus does not look.
#[verifier::external_body]
pub struct HookSlots {
    inner: stable_vec::StableVec<Hook>,
}

/// The filled slots of the collection: index and hook.
pub uninterp spec fn slots(collection: HookSlots) -> Map<usize, Hook>;

/// The index of the first slot that was never filled, which is the index
/// that the next push fills.
pub uninterp spec fn next_slot(collection: HookSlots) -> nat;

/// A strictly ascending sequence of indices.
pub open spec fn ascending(ids: Seq<usize>) -> bool {
    forall|i: int, j: int| 0 <= i < j < ids.len() ==> ids[i] < ids[j]
}

impl HookSlots {
    /// `StableVec::new`: a collection without slots.
    #[verifier::external_body]
    pub(crate) fn new() -> (created: HookSlots)
        ensures
            forall|index: usize| !slots(created).contains_key(index),
            next_slot(created) == 0,
    {
        HookSlots { inner: stable_vec::StableVec::new() }
    }

    /// `StableVec::push`: fills the slot at the next push index with `hook`
    /// and returns that index; the next push index moves up by one. No
    /// other slot changes.
    #[verifier::external_body]
    pub(crate) fn push(&mut self, hook: Hook) -> (index: usize)
        requires
            next_slot(*old(self)) < SLOT_LIMIT,
        ensures
            index == next_slot(*old(self)),
            next_slot(*final(self)) == next_slot(*old(self)) + 1,
            slots(*final(self)) == slots(*old(self)).insert(index, hook),
    {
        self.inner.push(hook)
    }

    /// `StableVec::has_element_at`: whether the slot at `index` is filled.
    #[verifier::external_body]
    pub(crate) fn has(&self, index: usize) -> (filled: bool)
        ensures
            filled == slots(*self).contains_key(index),
    {
        self.inner.has_element_at(index)
    }

    /// `StableVec::remove` on a filled slot: empties the slot and returns
    /// what was in it. The other slots and the next push index stay.
    #[verifier::external_body]
    pub(crate) fn remove(&mut self, index: usize) -> (removed: Option<Hook>)
        requires
            slots(*old(self)).contains_key(index),
        ensures
            removed == Some(slots(*old(self))[index]),
            slots(*final(self)) == slots(*old(self)).remove(index),
            next_slot(*final(self)) == next_slot(*old(self)),
    {
        self.inner.remove(index)
    }

    /// `StableVec::get`: the hook in the slot at `index`, if it is filled.
    #[verifier::external_body]
    pub(crate) fn get(&self, index: usize) -> (found: Option<&Hook>)
        ensures
            match found {
                Some(hook) => slots(*self).contains_key(index) && *hook == slots(*self)[index],
                None => !slots(*self).contains_key(index),
            },
    {
        self.inner.get(index)
    }

    /// `StableVec::get_mut`: the hook in the slot at `index`, if it is
    /// filled, to be changed in place. What the caller leaves there is what
    /// the slot holds afterwards; nothing else changes.
    #[verifier::external_body]
    pub(crate) fn get_mut(&mut self, index: usize) -> (found: Option<&mut Hook>)
        ensures
            next_slot(*final(self)) == next_slot(*old(self)),
            match found {
                Some(hook) => slots(*old(self)).contains_key(index) && *hook == slots(
                    *old(self),
                )[index] && slots(*final(self)) == slots(*old(self)).insert(index, *final(hook)),
                None => !slots(*old(self)).contains_key(index) && slots(*final(self)) == slots(
                    *old(self),
                ),
            },
    {
        self.inner.get_mut(index)
    }

    /// `StableVec::indices`, collected: the indices of the filled slots, in
    /// ascending order, each once.
    #[verifier::external_body]
    pub(crate) fn ids(&self) -> (ids: Vec<usize>)
        ensures
            ascending(ids@),
            forall|index: usize| #[trigger] ids@.contains(index) ==> slots(*self).contains_key(index),
            forall|index: usize| #[trigger] slots(*self).contains_key(index) ==> ids@.contains(index),
    {
        self.inner.indices().collect()
    }

    /// `StableVec::next_push_index`: the index that the next push fills.
    #[verifier::external_body]
    pub(crate) fn next_index(&self) -> (index: usize)
        ensures
            index == next_slot(*self),
    {
        self.inner.next_push_index()
    }
}

} // verus!
