//! Hash collections over positions and labels.

use vstd::prelude::*;

verus! {

/// A set of positions, kept in a `hashbrown::HashSet`.
#[verifier::external_body]
pub struct IndexSet {
    inner: hashbrown::HashSet<usize>,
}

/// The positions that a set holds.
pub uninterp spec fn index_set_view(set: IndexSet) -> Set<usize>;

impl IndexSet {
    /// `hashbrown::HashSet::new`: an empty set.
    #[verifier::external_body]
    pub(crate) fn new() -> (set: IndexSet)
        ensures
            index_set_view(set) == Set::<usize>::empty(),
    {
        IndexSet { inner: hashbrown::HashSet::new() }
    }

    /// `hashbrown::HashSet::insert`: adds a position to the set, and returns
    /// whether the set did not hold it before.
    #[verifier::external_body]
    pub(crate) fn insert(&mut self, value: usize) -> (fresh: bool)
        ensures
            index_set_view(*final(self)) == index_set_view(*old(self)).insert(value),
            fresh == !index_set_view(*old(self)).contains(value),
    {
        self.inner.insert(value)
    }
}

/// The place of each label in a list of totals, kept in a
/// `hashbrown::HashMap`.
#[verifier::external_body]
pub struct LabelSlots {
    inner: hashbrown::HashMap<u32, usize>,
}

/// The places that a map holds, by label.
pub uninterp spec fn label_slots_view(slots: LabelSlots) -> Map<u32, usize>;

impl LabelSlots {
    /// `hashbrown::HashMap::new`: an empty map.
    #[verifier::external_body]
    pub(crate) fn new() -> (slots: LabelSlots)
        ensures
            label_slots_view(slots).dom() == Set::<u32>::empty(),
    {
        LabelSlots { inner: hashbrown::HashMap::new() }
    }

    /// `hashbrown::HashMap::get`: the place stored for a label, if there is
    /// one.
    #[verifier::external_body]
    pub(crate) fn get(&self, label: u32) -> (slot: Option<usize>)
        ensures
            slot == if label_slots_view(*self).contains_key(label) {
                Some(label_slots_view(*self)[label])
            } else {
                None::<usize>
            },
    {
        self.inner.get(&label).copied()
    }

    /// `hashbrown::HashMap::insert`: stores a place for a label, in place of
    /// the one stored before if there was one, and returns that one.
    #[verifier::external_body]
    pub(crate) fn insert(&mut self, label: u32, slot: usize) -> (before: Option<usize>)
        ensures
            label_slots_view(*final(self)) == label_slots_view(*old(self)).insert(label, slot),
            before == if label_slots_view(*old(self)).contains_key(label) {
                Some(label_slots_view(*old(self))[label])
            } else {
                None::<usize>
            },
    {
        self.inner.insert(label, slot)
    }
}

} // verus!
