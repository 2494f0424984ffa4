//! The packed attribute word of an effect handle.
//!
//! The word has 32 bit positions, 25 of them named and 7 reserved. The
//! position of each name is given once, by `flag_at`; packing and unpacking
//! both follow it, and reserved positions always pack as zero.
use vstd::prelude::*;

verus! {

/// The attribute bits of a raw effect handle, by name.
#[derive(Debug, Clone, Copy, PartialEq, Eq, Structural)]
pub struct EffectHandleFlags {
    pub unk_01: bool,
    pub unk_02: bool,
    pub unk_03: bool,
    pub unk_04: bool,
    pub unk_05: bool,
    pub unk_06: bool,
    pub unk_07: bool,
    pub unk_09: bool,
    pub unk_10: bool,
    pub unk_13: bool,
    pub unk_14: bool,
    pub unk_15: bool,
    pub unk_16: bool,
    pub unk_17: bool,
    pub hit_effect: bool,
    pub unk_20: bool,
    pub unk_21: bool,
    pub unk_23: bool,
    pub update_always: bool,
    pub unk_25: bool,
    pub unk_26: bool,
    pub unk_29: bool,
    pub unk_30: bool,
    pub unk_31: bool,
    pub unk_32: bool,
}

/// The attributes of an effect handle in the name-based representation.
#[derive(Debug, Clone, Copy, PartialEq, Eq, Structural)]
pub struct EffectHandleDataFlags {
    pub unk_01: bool,
    pub unk_02: bool,
    pub unk_03: bool,
    pub unk_04: bool,
    pub unk_05: bool,
    pub unk_06: bool,
    pub unk_07: bool,
    pub unk_09: bool,
    pub unk_10: bool,
    pub unk_13: bool,
    pub unk_14: bool,
    pub unk_15: bool,
    pub unk_16: bool,
    pub unk_17: bool,
    pub hit_effect: bool,
    pub unk_20: bool,
    pub unk_21: bool,
    pub unk_23: bool,
    pub update_always: bool,
    pub unk_25: bool,
    pub unk_26: bool,
    pub unk_29: bool,
    pub unk_30: bool,
    pub unk_31: bool,
    pub unk_32: bool,
}

/// Bit `k` of `w` (counting from the least significant bit).
pub open spec fn bit(w: u32, k: u32) -> bool {
    (w >> k) & 1u32 == 1u32
}

/// The table of the packed word: what position `k` holds, `false` for a
/// reserved position.
pub open spec fn flag_at(f: EffectHandleFlags, k: u32) -> bool {
    match k {
        0 => f.unk_01,
        1 => f.unk_02,
        2 => f.unk_03,
        3 => f.unk_04,
        4 => f.unk_05,
        5 => f.unk_06,
        6 => f.unk_07,
        7 => false,
        8 => f.unk_09,
        9 => f.unk_10,
        10 => false,
        11 => false,
        12 => f.unk_13,
        13 => f.unk_14,
        14 => f.unk_15,
        15 => f.unk_16,
        16 => f.unk_17,
        17 => false,
        18 => f.hit_effect,
        19 => f.unk_20,
        20 => f.unk_21,
        21 => false,
        22 => f.unk_23,
        23 => f.update_always,
        24 => f.unk_25,
        25 => f.unk_26,
        26 => false,
        27 => false,
        28 => f.unk_29,
        29 => f.unk_30,
        30 => f.unk_31,
        _ => f.unk_32,
    }
}

/// Whether position `k` has a name.
pub open spec fn is_named(k: u32) -> bool {
    k < 32 && k != 7 && k != 10 && k != 11 && k != 17 && k != 21 && k != 26 && k != 27
}

/// The word made of the first `n` positions of the table.
pub open spec fn packed_prefix(f: EffectHandleFlags, n: nat) -> u32
    decreases n,
{
    if n == 0 {
        0u32
    } else {
        let w = packed_prefix(f, (n - 1) as nat);
        if flag_at(f, (n - 1) as u32) {
            w | (1u32 << ((n - 1) as u32))
        } else {
            w
        }
    }
}

/// The packed word of `f`.
pub open spec fn packed(f: EffectHandleFlags) -> u32 {
    packed_prefix(f, 32)
}

/// The flags that the word `w` holds; reserved positions are dropped.
pub open spec fn unpacked(w: u32) -> EffectHandleFlags {
    EffectHandleFlags {
        unk_01: bit(w, 0),
        unk_02: bit(w, 1),
        unk_03: bit(w, 2),
        unk_04: bit(w, 3),
        unk_05: bit(w, 4),
        unk_06: bit(w, 5),
        unk_07: bit(w, 6),
        unk_09: bit(w, 8),
        unk_10: bit(w, 9),
        unk_13: bit(w, 12),
        unk_14: bit(w, 13),
        unk_15: bit(w, 14),
        unk_16: bit(w, 15),
        unk_17: bit(w, 16),
        hit_effect: bit(w, 18),
        unk_20: bit(w, 19),
        unk_21: bit(w, 20),
        unk_23: bit(w, 22),
        update_always: bit(w, 23),
        unk_25: bit(w, 24),
        unk_26: bit(w, 25),
        unk_29: bit(w, 28),
        unk_30: bit(w, 29),
        unk_31: bit(w, 30),
        unk_32: bit(w, 31),
    }
}

/// The same attributes in the name-based representation.
pub open spec fn to_data_flags(f: EffectHandleFlags) -> EffectHandleDataFlags {
    EffectHandleDataFlags {
        unk_01: f.unk_01,
        unk_02: f.unk_02,
        unk_03: f.unk_03,
        unk_04: f.unk_04,
        unk_05: f.unk_05,
        unk_06: f.unk_06,
        unk_07: f.unk_07,
        unk_09: f.unk_09,
        unk_10: f.unk_10,
        unk_13: f.unk_13,
        unk_14: f.unk_14,
        unk_15: f.unk_15,
        unk_16: f.unk_16,
        unk_17: f.unk_17,
        hit_effect: f.hit_effect,
        unk_20: f.unk_20,
        unk_21: f.unk_21,
        unk_23: f.unk_23,
        update_always: f.update_always,
        unk_25: f.unk_25,
        unk_26: f.unk_26,
        unk_29: f.unk_29,
        unk_30: f.unk_30,
        unk_31: f.unk_31,
        unk_32: f.unk_32,
    }
}

/// The same attributes in the raw representation.
pub open spec fn from_data_flags(f: EffectHandleDataFlags) -> EffectHandleFlags {
    EffectHandleFlags {
        unk_01: f.unk_01,
        unk_02: f.unk_02,
        unk_03: f.unk_03,
        unk_04: f.unk_04,
        unk_05: f.unk_05,
        unk_06: f.unk_06,
        unk_07: f.unk_07,
        unk_09: f.unk_09,
        unk_10: f.unk_10,
        unk_13: f.unk_13,
        unk_14: f.unk_14,
        unk_15: f.unk_15,
        unk_16: f.unk_16,
        unk_17: f.unk_17,
        hit_effect: f.hit_effect,
        unk_20: f.unk_20,
        unk_21: f.unk_21,
        unk_23: f.unk_23,
        update_always: f.update_always,
        unk_25: f.unk_25,
        unk_26: f.unk_26,
        unk_29: f.unk_29,
        unk_30: f.unk_30,
        unk_31: f.unk_31,
        unk_32: f.unk_32,
    }
}

proof fn lemma_bit_or_shift(w: u32, j: u32, k: u32)
    requires
        j < 32,
        k < 32,
    ensures
        bit(w | (1u32 << j), k) == (bit(w, k) || k == j),
{
    assert(((w | (1u32 << j)) >> k) & 1u32 == 1u32 <==> ((w >> k) & 1u32 == 1u32 || k == j))
        by (bit_vector)
        requires
            j < 32,
            k < 32,
    ;
}

proof fn lemma_bit_zero(k: u32)
    requires
        k < 32,
    ensures
        !bit(0u32, k),
{
    assert((0u32 >> k) & 1u32 != 1u32) by (bit_vector);
}

proof fn lemma_packed_prefix_bits(f: EffectHandleFlags, n: nat, k: u32)
    requires
        n <= 32,
        k < 32,
    ensures
        bit(packed_prefix(f, n), k) == (k < n && flag_at(f, k)),
    decreases n,
{
    if n == 0 {
        lemma_bit_zero(k);
    } else {
        lemma_packed_prefix_bits(f, (n - 1) as nat, k);
        if flag_at(f, (n - 1) as u32) {
            lemma_bit_or_shift(packed_prefix(f, (n - 1) as nat), (n - 1) as u32, k);
        }
    }
}

/// Bit `k` of the packed word is the table's entry `k`: the named flag there,
/// or zero at a reserved position.
pub proof fn lemma_packed_bits(f: EffectHandleFlags, k: u32)
    requires
        k < 32,
    ensures
        bit(packed(f), k) == flag_at(f, k),
        !is_named(k) ==> !bit(packed(f), k),
{
    lemma_packed_prefix_bits(f, 32, k);
}

/// Unpacking a packed word gives back every flag.
pub proof fn lemma_unpack_pack(f: EffectHandleFlags)
    ensures
        unpacked(packed(f)) == f,
{
    lemma_packed_bits(f, 0);
    lemma_packed_bits(f, 1);
    lemma_packed_bits(f, 2);
    lemma_packed_bits(f, 3);
    lemma_packed_bits(f, 4);
    lemma_packed_bits(f, 5);
    lemma_packed_bits(f, 6);
    lemma_packed_bits(f, 8);
    lemma_packed_bits(f, 9);
    lemma_packed_bits(f, 12);
    lemma_packed_bits(f, 13);
    lemma_packed_bits(f, 14);
    lemma_packed_bits(f, 15);
    lemma_packed_bits(f, 16);
    lemma_packed_bits(f, 18);
    lemma_packed_bits(f, 19);
    lemma_packed_bits(f, 20);
    lemma_packed_bits(f, 22);
    lemma_packed_bits(f, 23);
    lemma_packed_bits(f, 24);
    lemma_packed_bits(f, 25);
    lemma_packed_bits(f, 28);
    lemma_packed_bits(f, 29);
    lemma_packed_bits(f, 30);
    lemma_packed_bits(f, 31);
}

/// Packing the flags of a word keeps its named bits and clears its reserved
/// ones.
pub proof fn lemma_pack_unpack(w: u32, k: u32)
    requires
        k < 32,
    ensures
        bit(packed(unpacked(w)), k) == (is_named(k) && bit(w, k)),
{
    lemma_packed_bits(unpacked(w), k);
    // one case per position of the table
    if k == 0 {
    } else if k == 1 {
    } else if k == 2 {
    } else if k == 3 {
    } else if k == 4 {
    } else if k == 5 {
    } else if k == 6 {
    } else if k == 7 {
    } else if k == 8 {
    } else if k == 9 {
    } else if k == 10 {
    } else if k == 11 {
    } else if k == 12 {
    } else if k == 13 {
    } else if k == 14 {
    } else if k == 15 {
    } else if k == 16 {
    } else if k == 17 {
    } else if k == 18 {
    } else if k == 19 {
    } else if k == 20 {
    } else if k == 21 {
    } else if k == 22 {
    } else if k == 23 {
    } else if k == 24 {
    } else if k == 25 {
    } else if k == 26 {
    } else if k == 27 {
    } else if k == 28 {
    } else if k == 29 {
    } else if k == 30 {
    } else {
    }
}

impl EffectHandleFlags {
    /// Flags with every attribute cleared.
    pub fn new() -> (r: Self)
        ensures
            packed(r) == 0u32,
            forall|k: u32| k < 32 ==> !flag_at(r, k),
    {
        let r = EffectHandleFlags {
            unk_01: false,
            unk_02: false,
            unk_03: false,
            unk_04: false,
            unk_05: false,
            unk_06: false,
            unk_07: false,
            unk_09: false,
            unk_10: false,
            unk_13: false,
            unk_14: false,
            unk_15: false,
            unk_16: false,
            unk_17: false,
            hit_effect: false,
            unk_20: false,
            unk_21: false,
            unk_23: false,
            update_always: false,
            unk_25: false,
            unk_26: false,
            unk_29: false,
            unk_30: false,
            unk_31: false,
            unk_32: false,
        };
        proof {
            assert forall|k: u32| k < 32 implies !bit(packed(r), k) by {
                lemma_packed_bits(r, k);
            }
            assert(packed(r) == 0u32) by {
                lemma_zero_word(packed(r));
            }
        }
        r
    }

    /// The attribute at bit position `k`; `false` for a reserved position.
    pub fn get(&self, k: u32) -> (r: bool)
        requires
            k < 32,
        ensures
            r == flag_at(*self, k),
    {
        match k {
            0 => self.unk_01,
            1 => self.unk_02,
            2 => self.unk_03,
            3 => self.unk_04,
            4 => self.unk_05,
            5 => self.unk_06,
            6 => self.unk_07,
            7 => false,
            8 => self.unk_09,
            9 => self.unk_10,
            10 => false,
            11 => false,
            12 => self.unk_13,
            13 => self.unk_14,
            14 => self.unk_15,
            15 => self.unk_16,
            16 => self.unk_17,
            17 => false,
            18 => self.hit_effect,
            19 => self.unk_20,
            20 => self.unk_21,
            21 => false,
            22 => self.unk_23,
            23 => self.update_always,
            24 => self.unk_25,
            25 => self.unk_26,
            26 => false,
            27 => false,
            28 => self.unk_29,
            29 => self.unk_30,
            30 => self.unk_31,
            _ => self.unk_32,
        }
    }

    /// Unpacks a 32-bit word; the reserved positions are read and dropped.
    pub fn from_bits(w: u32) -> (r: Self)
        ensures
            r == unpacked(w),
    {
        EffectHandleFlags {
            unk_01: (w >> 0u32) & 1u32 == 1u32,
            unk_02: (w >> 1u32) & 1u32 == 1u32,
            unk_03: (w >> 2u32) & 1u32 == 1u32,
            unk_04: (w >> 3u32) & 1u32 == 1u32,
            unk_05: (w >> 4u32) & 1u32 == 1u32,
            unk_06: (w >> 5u32) & 1u32 == 1u32,
            unk_07: (w >> 6u32) & 1u32 == 1u32,
            unk_09: (w >> 8u32) & 1u32 == 1u32,
            unk_10: (w >> 9u32) & 1u32 == 1u32,
            unk_13: (w >> 12u32) & 1u32 == 1u32,
            unk_14: (w >> 13u32) & 1u32 == 1u32,
            unk_15: (w >> 14u32) & 1u32 == 1u32,
            unk_16: (w >> 15u32) & 1u32 == 1u32,
            unk_17: (w >> 16u32) & 1u32 == 1u32,
            hit_effect: (w >> 18u32) & 1u32 == 1u32,
            unk_20: (w >> 19u32) & 1u32 == 1u32,
            unk_21: (w >> 20u32) & 1u32 == 1u32,
            unk_23: (w >> 22u32) & 1u32 == 1u32,
            update_always: (w >> 23u32) & 1u32 == 1u32,
            unk_25: (w >> 24u32) & 1u32 == 1u32,
            unk_26: (w >> 25u32) & 1u32 == 1u32,
            unk_29: (w >> 28u32) & 1u32 == 1u32,
            unk_30: (w >> 29u32) & 1u32 == 1u32,
            unk_31: (w >> 30u32) & 1u32 == 1u32,
            unk_32: (w >> 31u32) & 1u32 == 1u32,
        }
    }

    /// Packs the flags into a 32-bit word, with zero at reserved positions.
    pub fn into_bits(&self) -> (r: u32)
        ensures
            r == packed(*self),
    {
        let mut w: u32 = 0;
        let mut k: u32 = 0;
        while k < 32
            invariant
                k <= 32,
                w == packed_prefix(*self, k as nat),
            decreases 32 - k,
        {
            if self.get(k) {
                w = w | (1u32 << k);
            }
            k = k + 1;
        }
        w
    }

    /// The same attributes in the name-based representation.
    pub fn to_data(&self) -> (r: EffectHandleDataFlags)
        ensures
            r == to_data_flags(*self),
    {
        EffectHandleDataFlags {
            unk_01: self.unk_01,
            unk_02: self.unk_02,
            unk_03: self.unk_03,
            unk_04: self.unk_04,
            unk_05: self.unk_05,
            unk_06: self.unk_06,
            unk_07: self.unk_07,
            unk_09: self.unk_09,
            unk_10: self.unk_10,
            unk_13: self.unk_13,
            unk_14: self.unk_14,
            unk_15: self.unk_15,
            unk_16: self.unk_16,
            unk_17: self.unk_17,
            hit_effect: self.hit_effect,
            unk_20: self.unk_20,
            unk_21: self.unk_21,
            unk_23: self.unk_23,
            update_always: self.update_always,
            unk_25: self.unk_25,
            unk_26: self.unk_26,
            unk_29: self.unk_29,
            unk_30: self.unk_30,
            unk_31: self.unk_31,
            unk_32: self.unk_32,
        }
    }

    /// The raw attributes of name-based flags.
    pub fn from_data(f: &EffectHandleDataFlags) -> (r: Self)
        ensures
            r == from_data_flags(*f),
    {
        EffectHandleFlags {
            unk_01: f.unk_01,
            unk_02: f.unk_02,
            unk_03: f.unk_03,
            unk_04: f.unk_04,
            unk_05: f.unk_05,
            unk_06: f.unk_06,
            unk_07: f.unk_07,
            unk_09: f.unk_09,
            unk_10: f.unk_10,
            unk_13: f.unk_13,
            unk_14: f.unk_14,
            unk_15: f.unk_15,
            unk_16: f.unk_16,
            unk_17: f.unk_17,
            hit_effect: f.hit_effect,
            unk_20: f.unk_20,
            unk_21: f.unk_21,
            unk_23: f.unk_23,
            update_always: f.update_always,
            unk_25: f.unk_25,
            unk_26: f.unk_26,
            unk_29: f.unk_29,
            unk_30: f.unk_30,
            unk_31: f.unk_31,
            unk_32: f.unk_32,
        }
    }
}

proof fn lemma_zero_word(w: u32)
    requires
        forall|k: u32| k < 32 ==> !bit(w, k),
    ensures
        w == 0u32,
{
    assert(!bit(w, 0) && !bit(w, 1) && !bit(w, 2) && !bit(w, 3) && !bit(w, 4) && !bit(w, 5) && !bit(w, 6) && !bit(w, 7) && !bit(w, 8) && !bit(w, 9) && !bit(w, 10) && !bit(w, 11) && !bit(w, 12) && !bit(w, 13) && !bit(w, 14) && !bit(w, 15) && !bit(w, 16) && !bit(w, 17) && !bit(w, 18) && !bit(w, 19) && !bit(w, 20) && !bit(w, 21) && !bit(w, 22) && !bit(w, 23) && !bit(w, 24) && !bit(w, 25) && !bit(w, 26) && !bit(w, 27) && !bit(w, 28) && !bit(w, 29) && !bit(w, 30) && !bit(w, 31));
    assert((w >> 0u32) & 1u32 != 1u32
        && (w >> 1u32) & 1u32 != 1u32
        && (w >> 2u32) & 1u32 != 1u32
        && (w >> 3u32) & 1u32 != 1u32
        && (w >> 4u32) & 1u32 != 1u32
        && (w >> 5u32) & 1u32 != 1u32
        && (w >> 6u32) & 1u32 != 1u32
        && (w >> 7u32) & 1u32 != 1u32
        && (w >> 8u32) & 1u32 != 1u32
        && (w >> 9u32) & 1u32 != 1u32
        && (w >> 10u32) & 1u32 != 1u32
        && (w >> 11u32) & 1u32 != 1u32
        && (w >> 12u32) & 1u32 != 1u32
        && (w >> 13u32) & 1u32 != 1u32
        && (w >> 14u32) & 1u32 != 1u32
        && (w >> 15u32) & 1u32 != 1u32
        && (w >> 16u32) & 1u32 != 1u32
        && (w >> 17u32) & 1u32 != 1u32
        && (w >> 18u32) & 1u32 != 1u32
        && (w >> 19u32) & 1u32 != 1u32
        && (w >> 20u32) & 1u32 != 1u32
        && (w >> 21u32) & 1u32 != 1u32
        && (w >> 22u32) & 1u32 != 1u32
        && (w >> 23u32) & 1u32 != 1u32
        && (w >> 24u32) & 1u32 != 1u32
        && (w >> 25u32) & 1u32 != 1u32
        && (w >> 26u32) & 1u32 != 1u32
        && (w >> 27u32) & 1u32 != 1u32
        && (w >> 28u32) & 1u32 != 1u32
        && (w >> 29u32) & 1u32 != 1u32
        && (w >> 30u32) & 1u32 != 1u32
        && (w >> 31u32) & 1u32 != 1u32
        ==> w == 0u32) by (bit_vector);
}

/// Converting to the name-based flags and back changes nothing, either way.
pub proof fn lemma_data_flags_round_trip(f: EffectHandleFlags, d: EffectHandleDataFlags)
    ensures
        from_data_flags(to_data_flags(f)) == f,
        to_data_flags(from_data_flags(d)) == d,
{
}

} // verus!
