//! The access flags of a class, as a set.

use vstd::prelude::*;

verus! {

/// One access flag of a class.
#[derive(Clone, Copy, Debug, PartialEq, Eq, Hash, PartialOrd, Ord)]
pub enum CFAccessFlags {
    Public,
    Final,
    Super,
    Interface,
    Abstract,
    Synthetic,
    Annotation,
    Enum,
}

impl CFAccessFlags {
    /// The bit of the flags word that stands for this flag.
    pub open spec fn spec_mask(self) -> u16 {
        match self {
            CFAccessFlags::Public => 0x0001,
            CFAccessFlags::Final => 0x0010,
            CFAccessFlags::Super => 0x0020,
            CFAccessFlags::Interface => 0x0200,
            CFAccessFlags::Abstract => 0x0400,
            CFAccessFlags::Synthetic => 0x1000,
            CFAccessFlags::Annotation => 0x2000,
            CFAccessFlags::Enum => 0x4000,
        }
    }

    /// The value that the bits under the mask must have for the flag to be reported: the
    /// mask itself, but for `Super`, whose bit is matched against that of `Final`.
    pub open spec fn spec_pattern(self) -> u16 {
        match self {
            CFAccessFlags::Super => 0x0010,
            other => other.spec_mask(),
        }
    }

    /// The place of this flag among the flags, in the order of their masks.
    pub open spec fn rank(self) -> int {
        match self {
            CFAccessFlags::Public => 0,
            CFAccessFlags::Final => 1,
            CFAccessFlags::Super => 2,
            CFAccessFlags::Interface => 3,
            CFAccessFlags::Abstract => 4,
            CFAccessFlags::Synthetic => 5,
            CFAccessFlags::Annotation => 6,
            CFAccessFlags::Enum => 7,
        }
    }

    /// The bit of the flags word that stands for this flag.
    #[verifier::when_used_as_spec(spec_mask)]
    pub fn mask(self) -> (bit: u16)
        ensures
            bit == self.spec_mask(),
    {
        match self {
            CFAccessFlags::Public => 0x0001,
            CFAccessFlags::Final => 0x0010,
            CFAccessFlags::Super => 0x0020,
            CFAccessFlags::Interface => 0x0200,
            CFAccessFlags::Abstract => 0x0400,
            CFAccessFlags::Synthetic => 0x1000,
            CFAccessFlags::Annotation => 0x2000,
            CFAccessFlags::Enum => 0x4000,
        }
    }

    /// The value that the bits under the mask must have for the flag to be reported.
    #[verifier::when_used_as_spec(spec_pattern)]
    pub fn pattern(self) -> (bits: u16)
        ensures
            bits == self.spec_pattern(),
    {
        match self {
            CFAccessFlags::Super => 0x0010,
            other => other.mask(),
        }
    }
}

/// Whether `flag` is reported for the flags word `input`.
pub open spec fn is_reported(input: u16, flag: CFAccessFlags) -> bool {
    input & flag.spec_mask() == flag.spec_pattern()
}

/// Whether the flags of `set` stand in the order of their masks, each at most once.
pub open spec fn in_mask_order(set: Seq<CFAccessFlags>) -> bool {
    forall|i: int, j: int| 0 <= i < j < set.len() ==> set[i].rank() < set[j].rank()
}

/// Whether `set` holds, in the order of their masks, exactly the flags before `bound` in
/// rank that are reported for `input`.
pub open spec fn reports_below(set: Seq<CFAccessFlags>, input: u16, bound: int) -> bool {
    &&& in_mask_order(set)
    &&& forall|flag: CFAccessFlags| #[trigger]
        set.contains(flag) <==> flag.rank() < bound && is_reported(input, flag)
}

/// Adds `flag` to `set` where it is reported for `input`.
fn report(set: &mut Vec<CFAccessFlags>, input: u16, flag: CFAccessFlags)
    requires
        reports_below(old(set)@, input, flag.rank()),
    ensures
        reports_below(final(set)@, input, flag.rank() + 1),
{
    let ghost before = set@;
    if input & flag.mask() == flag.pattern() {
        set.push(flag);
        proof {
            assert forall|other: CFAccessFlags| #[trigger]
                set@.contains(other) <==> other.rank() < flag.rank() + 1 && is_reported(
                    input,
                    other,
                ) by {
                if set@.contains(other) {
                    let i = choose|i: int| 0 <= i < set@.len() && set@[i] == other;
                    if i < before.len() {
                        assert(before.contains(other));
                    }
                }
                if other.rank() < flag.rank() + 1 && is_reported(input, other) {
                    if other.rank() < flag.rank() {
                        assert(before.contains(other));
                        let i = choose|i: int| 0 <= i < before.len() && before[i] == other;
                        assert(set@[i] == other);
                    } else {
                        assert(set@[before.len() as int] == other);
                    }
                }
            }
            assert forall|i: int, j: int| 0 <= i < j < set@.len() implies set@[i].rank()
                < set@[j].rank() by {
                assert(before.contains(set@[i]));
            }
        }
    }
}

/// The set of access flags that the flags word `input` reports, as a list without
/// repetition, in the order of the masks.
pub fn parse_access_flags(input: u16) -> (set_flags: Vec<CFAccessFlags>)
    ensures
        forall|flag: CFAccessFlags| #[trigger]
            set_flags@.contains(flag) <==> is_reported(input, flag),
        in_mask_order(set_flags@),
        set_flags@.no_duplicates(),
{
    let mut set_flags: Vec<CFAccessFlags> = Vec::with_capacity(8);
    report(&mut set_flags, input, CFAccessFlags::Public);
    report(&mut set_flags, input, CFAccessFlags::Final);
    report(&mut set_flags, input, CFAccessFlags::Super);
    report(&mut set_flags, input, CFAccessFlags::Interface);
    report(&mut set_flags, input, CFAccessFlags::Abstract);
    report(&mut set_flags, input, CFAccessFlags::Synthetic);
    report(&mut set_flags, input, CFAccessFlags::Annotation);
    report(&mut set_flags, input, CFAccessFlags::Enum);
    set_flags
}

/// No flags word reports `Super`: a single bit never equals another.
pub proof fn lemma_super_is_never_reported(input: u16)
    ensures
        !is_reported(input, CFAccessFlags::Super),
{
    assert(input & 0x0020 != 0x0010) by (bit_vector);
}

} // verus!
