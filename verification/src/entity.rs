//! Entity handles and the ordered identity wrapper around them.
//!
//! An entity is an opaque generation-stamped handle: a slot index plus the
//! generation the slot had when the entity was spawned. A stale handle is
//! detectably invalid because the slot's generation has moved on.
//!
//! `SoulID` wraps a handle wherever one must serve as an ordered map key. Its
//! order and equality are a pure function of the handle's packed bit pattern.

use vstd::prelude::*;
use vstd::std_specs::cmp::PartialOrdSpec;

verus! {

/// An opaque handle to a simulated object. Carries no data itself.
#[derive(Copy, Clone, Debug, PartialEq, Eq, Hash, PartialOrd, Ord, Structural)]
pub struct Entity {
    /// Generation of the owning slot at spawn time.
    pub generation: u32,
    /// Index of the owning slot.
    pub index: u32,
}

impl Entity {
    /// The packed bit pattern: generation in the high 32 bits, index in the
    /// low 32 bits. A total order on handles goes by this key.
    pub open spec fn spec_bits(self) -> u64 {
        (self.generation * 0x1_0000_0000 + self.index) as u64
    }

    /// Packs the handle into one orderable 64-bit key.
    pub fn bits(self) -> (r: u64)
        ensures
            r == self.spec_bits(),
    {
        (self.generation as u64) * 0x1_0000_0000 + (self.index as u64)
    }
}

/// Packing is injective: equal keys mean equal handles.
pub proof fn lemma_bits_injective(a: Entity, b: Entity)
    requires
        a.spec_bits() == b.spec_bits(),
    ensures
        a == b,
{
    assert(a.generation == b.generation && a.index == b.index) by {
        assert(a.generation == a.spec_bits() / 0x1_0000_0000);
        assert(a.index == a.spec_bits() % 0x1_0000_0000);
        assert(b.generation == b.spec_bits() / 0x1_0000_0000);
        assert(b.index == b.spec_bits() % 0x1_0000_0000);
    }
}

/// A thin, copyable, totally ordered identity over an entity handle, used as
/// an ordered map key for persistent identities.
#[derive(Copy, Clone, Debug, PartialEq, Eq, Hash, Ord, Structural)]
pub struct SoulID(pub Entity);

impl PartialOrd for SoulID {
    fn partial_cmp(&self, other: &Self) -> (r: Option<core::cmp::Ordering>) {
        let a = self.0.bits();
        let b = other.0.bits();
        if a < b {
            Some(core::cmp::Ordering::Less)
        } else if a == b {
            proof {
                lemma_bits_injective(self.0, other.0);
            }
            Some(core::cmp::Ordering::Equal)
        } else {
            Some(core::cmp::Ordering::Greater)
        }
    }
}

impl vstd::std_specs::cmp::PartialOrdSpecImpl for SoulID {
    open spec fn obeys_partial_cmp_spec() -> bool {
        true
    }

    open spec fn partial_cmp_spec(&self, other: &Self) -> Option<core::cmp::Ordering> {
        if self.0.spec_bits() < other.0.spec_bits() {
            Some(core::cmp::Ordering::Less)
        } else if self.0.spec_bits() == other.0.spec_bits() {
            Some(core::cmp::Ordering::Equal)
        } else {
            Some(core::cmp::Ordering::Greater)
        }
    }
}

/// Identity is exactly bit-pattern identity: two identities over handles with
/// the same packed bits compare equal, and identities over distinct handles
/// never do; comparison is determined by the packed keys alone.
pub proof fn lemma_soul_id_identity(a: SoulID, b: SoulID)
    ensures
        a == b <==> a.0.spec_bits() == b.0.spec_bits(),
        a == b <==> a.partial_cmp_spec(&b) == Some(core::cmp::Ordering::Equal),
{
    if a.0.spec_bits() == b.0.spec_bits() {
        lemma_bits_injective(a.0, b.0);
    }
}

} // verus!
