//! Indices: the handles that an arena gives out for the values it holds.

use vstd::prelude::*;
use crate::generation::Generation;

verus! {

/// What an [`Index`] stands for: a slot number and the generation of the
/// occupant that the index was made for.
pub struct IndexView {
    pub slot: u32,
    pub generation: u32,
}

impl IndexView {
    /// The index as 64 bits: the generation in the high half, the slot in the
    /// low half.
    pub open spec fn bits(self) -> u64 {
        (self.generation as u64 * 0x1_0000_0000 + self.slot as u64) as u64
    }

    /// The index that given bits stand for. There is none where the high half
    /// is zero, since zero is no generation.
    pub open spec fn from_bits(bits: u64) -> Option<IndexView> {
        if bits / 0x1_0000_0000 == 0 {
            None
        } else {
            Some(
                IndexView {
                    slot: (bits % 0x1_0000_0000) as u32,
                    generation: (bits / 0x1_0000_0000) as u32,
                },
            )
        }
    }

    /// Packing an index and unpacking the bits gives the index back.
    pub proof fn lemma_from_bits_of_bits(self)
        requires
            self.generation != 0,
        ensures
            IndexView::from_bits(self.bits()) == Some(self),
    {
        let g = self.generation as u64;
        let s = self.slot as u64;
        assert(g * 0x1_0000_0000 + s <= u64::MAX) by (nonlinear_arith)
            requires
                g <= 0xffff_ffff,
                s <= 0xffff_ffff,
        ;
        assert((g * 0x1_0000_0000 + s) / 0x1_0000_0000 == g && (g * 0x1_0000_0000 + s)
            % 0x1_0000_0000 == s) by (nonlinear_arith)
            requires
                s < 0x1_0000_0000,
                0 <= g,
                0 <= s,
        ;
    }

    /// Unpacking bits whose high half is not zero and packing the index again
    /// gives the bits back.
    pub proof fn lemma_bits_of_from_bits(bits: u64)
        requires
            bits / 0x1_0000_0000 != 0,
        ensures
            IndexView::from_bits(bits) is Some,
            IndexView::from_bits(bits).unwrap().bits() == bits,
    {
        assert((bits / 0x1_0000_0000) * 0x1_0000_0000 + bits % 0x1_0000_0000 == bits)
            by (nonlinear_arith);
        assert(bits / 0x1_0000_0000 <= 0xffff_ffff) by (nonlinear_arith)
            requires
                bits <= u64::MAX,
        ;
    }

    /// Bits whose high half is zero stand for no index.
    pub proof fn lemma_from_bits_rejects(bits: u64)
        requires
            bits / 0x1_0000_0000 == 0,
        ensures
            IndexView::from_bits(bits) is None,
    {
    }
}

/// Index type for an arena, with the generation of its value attached.
///
/// Two indices are equal when they have the same slot and the same
/// generation.
#[derive(Debug, Clone, Copy, Eq, Hash, PartialOrd, Ord)]
pub struct Index {
    pub(crate) slot: u32,
    pub(crate) generation: Generation,
}

impl View for Index {
    type V = IndexView;

    closed spec fn view(&self) -> IndexView {
        IndexView { slot: self.slot, generation: self.generation@ }
    }
}

impl PartialEq for Index {
    fn eq(&self, other: &Self) -> (equal: bool) {
        self.slot == other.slot && self.generation == other.generation
    }
}

impl vstd::std_specs::cmp::PartialEqSpecImpl for Index {
    open spec fn obeys_eq_spec() -> bool {
        true
    }

    open spec fn eq_spec(&self, other: &Self) -> bool {
        self@ == other@
    }
}

impl Index {
    /// The index that stands for the given slot and generation.
    pub(crate) fn new(slot: u32, generation: Generation) -> (index: Self)
        ensures
            index@ == (IndexView { slot, generation: generation@ }),
    {
        Index { slot, generation }
    }

    /// The generation of this index.
    pub(crate) fn generation_of(self) -> (generation: Generation)
        ensures
            generation@ == self@.generation,
    {
        self.generation
    }

    /// Convert this `Index` to an equivalent `u64` representation. Mostly
    /// useful for passing to code outside of Rust.
    pub fn to_bits(self) -> (bits: u64)
        ensures
            bits == self@.bits(),
            IndexView::from_bits(bits) == Some(self@),
    {
        let generation: u32 = self.generation.to_u32();
        let slot: u32 = self.slot;
        proof {
            self@.lemma_from_bits_of_bits();
            assert(((generation as u64) << 32) | (slot as u64) == (generation as u64
                * 0x1_0000_0000 + slot as u64) as u64) by (bit_vector);
        }
        ((generation as u64) << 32) | (slot as u64)
    }

    /// Create an `Index` from bits created with [`Index::to_bits`].
    ///
    /// Returns `None` for bits that are not valid for an `Index`: those whose
    /// high 32 bits, the generation, are zero.
    pub fn from_bits(bits: u64) -> (index: Option<Self>)
        ensures
            index.is_some() <==> bits >> 32 != 0,
            match index {
                Some(i) => IndexView::from_bits(bits) == Some(i@) && i@.bits() == bits,
                None => IndexView::from_bits(bits) is None,
            },
    {
        proof {
            assert(bits >> 32 == bits / 0x1_0000_0000) by (bit_vector);
            assert((bits >> 32) as u32 == bits / 0x1_0000_0000) by (bit_vector);
            assert(bits as u32 == bits % 0x1_0000_0000) by (bit_vector);
            if bits / 0x1_0000_0000 != 0 {
                IndexView::lemma_bits_of_from_bits(bits);
            }
        }
        match Generation::from_u32((bits >> 32) as u32) {
            Some(generation) => {
                let slot: u32 = bits as u32;
                Some(Index { generation, slot })
            },
            None => None,
        }
    }

    /// Convert this `Index` into a generation, discarding its slot.
    pub fn generation(self) -> (generation: u32)
        ensures
            generation == self@.generation,
            generation != 0,
    {
        self.generation.to_u32()
    }

    /// Convert this `Index` into a slot, discarding its generation. Slots
    /// describe a location in an arena and are reused when entries are
    /// removed.
    pub fn slot(self) -> (slot: u32)
        ensures
            slot == self@.slot,
    {
        self.slot
    }
}

} // verus!
