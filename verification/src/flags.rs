//! Per-node flags: formatting-context roots, document membership, registrations.
use vstd::prelude::*;

verus! {

/// A set of node flags, one bit each.
#[derive(Clone, Copy, Debug, PartialEq, Eq, Structural)]
pub struct NodeFlags {
    pub bits: u32,
}

/// Whether the node is the root node of an Inline Formatting Context.
pub const IS_INLINE_ROOT: u32 = 0b00001;

/// Whether the node is the root node of a Table formatting context.
pub const IS_TABLE_ROOT: u32 = 0b00010;

/// Whether the node is "in the document" (~= has a parent and isn't a template node).
pub const IS_IN_DOCUMENT: u32 = 0b00100;

/// Whether the node is registered as `position: sticky`.
pub const IS_STICKY: u32 = 0b01000;

/// Whether the node is a shadow root.
pub const IS_SHADOW_ROOT: u32 = 0b10000;

/// Whether `flag` is one of the single-bit flags above.
pub open spec fn is_flag_bit(flag: u32) -> bool {
    flag == IS_INLINE_ROOT || flag == IS_TABLE_ROOT || flag == IS_IN_DOCUMENT || flag == IS_STICKY
        || flag == IS_SHADOW_ROOT
}

proof fn lemma_single_bits(bits: u32, flag: u32, other: u32)
    requires
        is_flag_bit(flag),
        is_flag_bit(other),
        flag != other,
    ensures
        ((bits | flag) & flag) != 0,
        ((bits & !flag) & flag) == 0,
        ((bits | flag) & other) != 0 <==> (bits & other) != 0,
        ((bits & !flag) & other) != 0 <==> (bits & other) != 0,
{
    assert(((bits | flag) & flag) != 0) by (bit_vector)
        requires
            flag == 1u32 || flag == 2u32 || flag == 4u32 || flag == 8u32 || flag == 16u32,
    ;
    assert(((bits & !flag) & flag) == 0) by (bit_vector);
    assert(((bits | flag) & other) != 0 <==> (bits & other) != 0) by (bit_vector)
        requires
            flag == 1u32 || flag == 2u32 || flag == 4u32 || flag == 8u32 || flag == 16u32,
            other == 1u32 || other == 2u32 || other == 4u32 || other == 8u32 || other == 16u32,
            flag != other,
    ;
    assert(((bits & !flag) & other) != 0 <==> (bits & other) != 0) by (bit_vector)
        requires
            flag == 1u32 || flag == 2u32 || flag == 4u32 || flag == 8u32 || flag == 16u32,
            other == 1u32 || other == 2u32 || other == 4u32 || other == 8u32 || other == 16u32,
            flag != other,
    ;
}

impl NodeFlags {
    /// Whether the single-bit flag `flag` is set.
    pub open spec fn has(self, flag: u32) -> bool {
        self.bits & flag != 0
    }

    /// No flag set.
    pub fn empty() -> (r: Self)
        ensures
            forall|f: u32| is_flag_bit(f) ==> !r.has(f),
    {
        proof {
            assert forall|f: u32| is_flag_bit(f) implies (0u32 & f) == 0 by {
                assert((0u32 & f) == 0) by (bit_vector);
            }
        }
        NodeFlags { bits: 0 }
    }

    /// Whether the single-bit flag `flag` is set.
    pub fn contains(&self, flag: u32) -> (r: bool)
        ensures
            r == self.has(flag),
    {
        self.bits & flag != 0
    }

    /// Sets `flag`, leaving the other flags as they were.
    pub fn insert(&mut self, flag: u32)
        requires
            is_flag_bit(flag),
        ensures
            final(self).bits == old(self).bits | flag,
            final(self).has(flag),
            forall|f: u32| is_flag_bit(f) && f != flag ==> #[trigger] final(self).has(f) == old(self).has(f),
    {
        proof {
            let bits = self.bits;
            assert forall|f: u32| is_flag_bit(f) && f != flag implies ((bits | flag) & f != 0)
                == (bits & f != 0) by {
                lemma_single_bits(bits, flag, f);
            }
            assert(((bits | flag) & flag) != 0) by {
                lemma_single_bits(bits, flag, if flag == IS_INLINE_ROOT { IS_TABLE_ROOT } else { IS_INLINE_ROOT });
            }
        }
        self.bits = self.bits | flag;
    }

    /// Clears `flag`, leaving the other flags as they were.
    pub fn remove(&mut self, flag: u32)
        requires
            is_flag_bit(flag),
        ensures
            final(self).bits == old(self).bits & !flag,
            !final(self).has(flag),
            forall|f: u32| is_flag_bit(f) && f != flag ==> #[trigger] final(self).has(f) == old(self).has(f),
    {
        proof {
            let bits = self.bits;
            assert forall|f: u32| is_flag_bit(f) && f != flag implies ((bits & !flag) & f != 0)
                == (bits & f != 0) by {
                lemma_single_bits(bits, flag, f);
            }
            assert(((bits & !flag) & flag) == 0) by {
                lemma_single_bits(bits, flag, if flag == IS_INLINE_ROOT { IS_TABLE_ROOT } else { IS_INLINE_ROOT });
            }
        }
        self.bits = self.bits & !flag;
    }

    /// Sets or clears `flag`.
    pub fn set(&mut self, flag: u32, value: bool)
        requires
            is_flag_bit(flag),
        ensures
            final(self).bits == if value {
                old(self).bits | flag
            } else {
                old(self).bits & !flag
            },
            final(self).has(flag) == value,
            forall|f: u32| is_flag_bit(f) && f != flag ==> #[trigger] final(self).has(f) == old(self).has(f),
    {
        if value {
            self.insert(flag);
        } else {
            self.remove(flag);
        }
    }

    /// Whether the node is the root of an inline formatting context.
    pub fn is_inline_root(&self) -> (r: bool)
        ensures
            r == self.has(IS_INLINE_ROOT),
    {
        self.contains(IS_INLINE_ROOT)
    }

    /// Whether the node is the root of a table formatting context.
    pub fn is_table_root(&self) -> (r: bool)
        ensures
            r == self.has(IS_TABLE_ROOT),
    {
        self.contains(IS_TABLE_ROOT)
    }

    /// Whether the node is in the document.
    pub fn is_in_document(&self) -> (r: bool)
        ensures
            r == self.has(IS_IN_DOCUMENT),
    {
        self.contains(IS_IN_DOCUMENT)
    }

    /// Clears the flags set by box construction (inline and table roots), keeping the others.
    pub fn reset_construction_flags(&mut self)
        ensures
            final(self).bits == old(self).bits & !(IS_INLINE_ROOT | IS_TABLE_ROOT),
            !final(self).has(IS_INLINE_ROOT),
            !final(self).has(IS_TABLE_ROOT),
            forall|f: u32|
                is_flag_bit(f) && f != IS_INLINE_ROOT && f != IS_TABLE_ROOT ==> #[trigger] final(self).has(f)
                    == old(self).has(f),
    {
        let ghost bits = self.bits;
        self.remove(IS_INLINE_ROOT);
        let ghost mid = *self;
        self.remove(IS_TABLE_ROOT);
        assert(self.has(IS_INLINE_ROOT) == mid.has(IS_INLINE_ROOT));
        assert((bits & !1u32) & !2u32 == bits & !(1u32 | 2u32)) by (bit_vector);
    }
}

} // verus!
