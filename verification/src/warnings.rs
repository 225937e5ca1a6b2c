use vstd::prelude::*;

verus! {

/// Problems found with a model's mesh, kept as a set of flags in one byte.
#[derive(Clone, Copy, Debug, PartialEq, Eq, Structural)]
pub struct MeshWarnings {
    bits: u8,
}

impl View for MeshWarnings {
    type V = u8;

    /// The flags as bits.
    closed spec fn view(&self) -> u8 {
        self.bits
    }
}

impl MeshWarnings {
    /// The mesh is not manifold (some edge does not join exactly two faces).
    pub fn non_manifold() -> (w: MeshWarnings)
        ensures
            w@ == 1,
    {
        MeshWarnings { bits: 1 }
    }

    /// The model reaches past the build platform.
    pub fn out_of_bounds() -> (w: MeshWarnings)
        ensures
            w@ == 2,
    {
        MeshWarnings { bits: 2 }
    }

    /// No warnings.
    pub fn empty() -> (w: MeshWarnings)
        ensures
            w@ == 0,
    {
        MeshWarnings { bits: 0 }
    }

    /// The flags as bits.
    pub fn bits(&self) -> (b: u8)
        ensures
            b == self@,
    {
        self.bits
    }

    /// Whether every flag of `other` is set here.
    pub fn contains(&self, other: MeshWarnings) -> (b: bool)
        ensures
            b == (self@ & other@ == other@),
    {
        self.bits & other.bits == other.bits
    }

    /// Sets the flags of `other` when `value` holds and clears them when it
    /// does not; the other flags stay as they were.
    pub fn set(&mut self, other: MeshWarnings, value: bool)
        ensures
            final(self)@ == (if value {
                old(self)@ | other@
            } else {
                old(self)@ & !other@
            }),
    {
        if value {
            self.bits = self.bits | other.bits;
        } else {
            self.bits = self.bits & !other.bits;
        }
    }
}

/// After setting a flag to a value, asking for that flag gives the value
/// back (a flag with no bits is always contained, so it can only be set).
pub proof fn lemma_set_then_contains(warnings: MeshWarnings, set_flag: MeshWarnings, value: bool)
    requires
        set_flag@ != 0 || value,
    ensures
        ({
            let before = warnings@;
            let flag = set_flag@;
            let after = if value {
                before | flag
            } else {
                before & !flag
            };
            (after & flag == flag) == value
        }),
{
    let before = warnings@;
    let flag = set_flag@;
    if value {
        assert((before | flag) & flag == flag) by (bit_vector);
    } else {
        assert(flag != 0 ==> (before & !flag) & flag != flag) by (bit_vector);
    }
}

/// Setting a flag leaves every flag that shares no bit with it as it was.
pub proof fn lemma_set_keeps_others(
    warnings: MeshWarnings,
    set_flag: MeshWarnings,
    other_flag: MeshWarnings,
    value: bool,
)
    requires
        set_flag@ & other_flag@ == 0,
    ensures
        ({
            let before = warnings@;
            let flag = set_flag@;
            let other = other_flag@;
            let after = if value {
                before | flag
            } else {
                before & !flag
            };
            (after & other == other) == (before & other == other)
        }),
{
    let before = warnings@;
    let flag = set_flag@;
    let other = other_flag@;
    if value {
        assert(flag & other == 0 ==> (((before | flag) & other == other) == (before & other == other)))
            by (bit_vector);
    } else {
        assert(flag & other == 0 ==> (((before & !flag) & other == other) == (before & other == other)))
            by (bit_vector);
    }
}

} // verus!
