use vstd::prelude::*;

verus! {

/// The set of expedition ids whose deltas have already been written into the
/// ledger. It holds a `bit_set::BitSet`, which Verus cannot read;
/// `id_set_contents` names what the set holds.
#[verifier::external_body]
pub struct IdSet {
    inner: bit_set::BitSet,
}

/// The ids an `IdSet` holds.
pub uninterp spec fn id_set_contents(s: IdSet) -> Set<usize>;

impl IdSet {
    /// Relies on `bit_set::BitSet::new`: a new set holds nothing.
    #[verifier::external_body]
    pub fn new() -> (r: IdSet)
        ensures
            id_set_contents(r) == Set::<usize>::empty(),
    {
        IdSet { inner: bit_set::BitSet::new() }
    }

    /// Relies on `bit_set::BitSet::contains`: whether the value is in the set.
    #[verifier::external_body]
    pub fn contains(&self, id: usize) -> (r: bool)
        ensures
            r == id_set_contents(*self).contains(id),
    {
        self.inner.contains(id)
    }

    /// Relies on `bit_set::BitSet::insert`: afterwards the value is in the
    /// set, and nothing else changed. The backing bit vector grows to cover
    /// `id`, so callers keep ids small.
    #[verifier::external_body]
    pub fn insert(&mut self, id: usize)
        requires
            id < 0x1000000,
        ensures
            id_set_contents(*final(self)) == id_set_contents(*old(self)).insert(id),
    {
        self.inner.insert(id);
    }
}

} // verus!
