use vstd::prelude::*;

verus! {

/// An enum whose variants stand for bits of a flag word.
pub trait BitEnum: Sized {
    /// The bits that the variant stands for.
    spec fn spec_bits(self) -> u32;

    /// The bits that the variant stands for.
    fn to_bits(self) -> (r: u32)
        ensures
            r == self.spec_bits(),
    ;
}

/// Whether `flags` has any of the bits of `field` set.
pub fn has_field<E: BitEnum>(flags: u32, field: E) -> (r: bool)
    ensures
        r == (flags & field.spec_bits() != 0),
{
    (flags & field.to_bits()) != 0
}

/// The resources whose limits a voter manages by hand, in the voter's `flags1`.
#[derive(Debug, Clone, Copy, PartialEq, Eq, Structural)]
pub enum VoterInfoFlags1Fields {
    RamManaged,
    NetManaged,
    CpuManaged,
}

impl BitEnum for VoterInfoFlags1Fields {
    open spec fn spec_bits(self) -> u32 {
        match self {
            VoterInfoFlags1Fields::RamManaged => 1,
            VoterInfoFlags1Fields::NetManaged => 2,
            VoterInfoFlags1Fields::CpuManaged => 4,
        }
    }

    fn to_bits(self) -> (r: u32) {
        match self {
            VoterInfoFlags1Fields::RamManaged => 1,
            VoterInfoFlags1Fields::NetManaged => 2,
            VoterInfoFlags1Fields::CpuManaged => 4,
        }
    }
}

} // verus!
