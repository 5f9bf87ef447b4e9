use vstd::prelude::*;
use bitvec::array::BitArray;
use bitvec::order::Lsb0;

verus! {

/// The set of client ids seen during ingestion, one bit per possible id.
/// The bit array spans 4096 words of 16 bits: the whole `u16` domain.
#[verifier::external_body]
pub struct ClientRegistry {
    bits: BitArray<[u16; 4096], Lsb0>,
}

/// The client ids whose bits are set in the registry.
pub uninterp spec fn registered_ids(r: ClientRegistry) -> Set<u16>;

/// Whether a sequence of ids is in strictly ascending order.
pub open spec fn strictly_ascending(s: Seq<u16>) -> bool {
    forall|i: int, j: int| 0 <= i < j < s.len() ==> s[i] < s[j]
}

/// Relies on bitvec's `BitArray::ZERO`: a bit array with every bit cleared.
#[verifier::external_body]
fn empty_bits() -> (r: ClientRegistry)
    ensures
        registered_ids(r) == Set::<u16>::empty(),
{
    ClientRegistry { bits: BitArray::ZERO }
}

/// Relies on bitvec's `BitSlice::set`: writes one bit and leaves the others;
/// the index is below 65536, the array's length, so it does not panic.
#[verifier::external_body]
fn set_bit(r: &mut ClientRegistry, id: u16)
    ensures
        registered_ids(*final(r)) == registered_ids(*old(r)).insert(id),
{
    r.bits.set(id as usize, true)
}

/// Relies on bitvec's `BitSlice::iter_ones`: the index of each set bit, in
/// ascending order, each once.
#[verifier::external_body]
fn set_bits(r: &ClientRegistry) -> (ids: Vec<u16>)
    ensures
        strictly_ascending(ids@),
        forall|id: u16| ids@.contains(id) <==> registered_ids(*r).contains(id),
{
    r.bits.iter_ones().map(|i| i as u16).collect()
}

impl ClientRegistry {
    /// A registry with no client marked.
    pub fn new() -> (r: ClientRegistry)
        ensures
            registered_ids(r) == Set::<u16>::empty(),
    {
        empty_bits()
    }

    /// Marks a client id as seen; marking it again changes nothing.
    pub fn mark(&mut self, id: u16)
        ensures
            registered_ids(*final(self)) == registered_ids(*old(self)).insert(id),
    {
        set_bit(self, id)
    }

    /// Every marked client id, in ascending order.
    pub fn iter_marked(&self) -> (ids: Vec<u16>)
        ensures
            strictly_ascending(ids@),
            forall|id: u16| ids@.contains(id) <==> registered_ids(*self).contains(id),
    {
        set_bits(self)
    }
}

} // verus!
