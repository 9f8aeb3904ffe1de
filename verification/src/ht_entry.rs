//! Directory entries.
//!
//! One bucket of the pointer table packs 16 bits of salt (a hash fingerprint)
//! and 48 bits of row address into one `u64`. Linear probing reads this word
//! first and rejects a non-matching salt before it looks at the row.
//!
//! ```text
//!   bit 63 -------- bit 48 bit 47 --------------- bit 0
//!   |     16b salt       |        48b address         |
//! ```
//!
//! The word 0 marks an empty entry. No row has address 0 (see
//! `row::ARENA_BASE`), so an entry that holds a row is never 0.

use vstd::prelude::*;

verus! {

/// Salt occupies the top 16 bits of a word.
pub const SALT_MASK: u64 = 0xFFFF_0000_0000_0000;

/// The row address occupies the bottom 48 bits.
pub const POINTER_MASK: u64 = 0x0000_FFFF_FFFF_FFFF;

/// Number of addresses that fit into the address field of an entry.
pub const ADDRESS_SPACE: u64 = 0x0001_0000_0000_0000;

/// Whether two hashes (or entry words) carry the same salt.
pub open spec fn same_salt(a: u64, b: u64) -> bool {
    a / ADDRESS_SPACE == b / ADDRESS_SPACE
}

/// The entry word for a row at address `addr` filed under `hash`.
pub open spec fn packed(hash: u64, addr: int) -> int {
    (hash / ADDRESS_SPACE) * ADDRESS_SPACE + addr
}

/// A packed `(salt, address)` entry.
#[derive(Copy, Clone, Debug, PartialEq, Eq, Structural)]
pub struct HtEntry(pub u64);

impl Default for HtEntry {
    fn default() -> (e: Self)
        ensures
            e.0 == 0,
    {
        HtEntry(0)
    }
}

impl HtEntry {
    /// The empty entry.
    pub fn empty() -> (e: Self)
        ensures
            e.0 == 0,
    {
        HtEntry(0)
    }

    /// Builds an entry from a hash (only its top 16 bits are kept, as salt)
    /// and a 48-bit row address.
    pub fn new(hash: u64, ptr: usize) -> (e: Self)
        requires
            ptr < ADDRESS_SPACE,
        ensures
            e.0 == packed(hash, ptr as int),
    {
        let p: u64 = ptr as u64;
        assert(p | (hash & 0xFFFF_0000_0000_0000u64) == (hash / 0x0001_0000_0000_0000u64)
            * 0x0001_0000_0000_0000u64 + p) by (bit_vector)
            requires
                p < 0x0001_0000_0000_0000u64,
        ;
        HtEntry(p | (hash & SALT_MASK))
    }

    /// Whether the entry holds a row.
    pub fn is_occupied(self) -> (b: bool)
        ensures
            b == (self.0 != 0),
    {
        self.0 != 0
    }

    /// The row address, 0 for the empty entry.
    pub fn pointer(self) -> (p: usize)
        ensures
            p == (self.0 % ADDRESS_SPACE) as usize,
            p == (self.0 % 0x1_0000_0000_0000) as usize,
    {
        let w: u64 = self.0;
        assert(w & 0x0000_FFFF_FFFF_FFFFu64 == w % 0x0001_0000_0000_0000u64) by (bit_vector);
        (self.0 & POINTER_MASK) as usize
    }

    /// The salt of the entry in a form that compares with `extract_salt` of a
    /// probe hash: the bits below the salt are set.
    pub fn salt(self) -> (s: u64)
        ensures
            s == self.0 | POINTER_MASK,
            s == self.0 | 0xFFFF_FFFF_FFFF,
            s == self.0 / ADDRESS_SPACE * ADDRESS_SPACE + POINTER_MASK,
    {
        proof {
            lemma_salt_form(self.0);
        }
        self.0 | POINTER_MASK
    }

    /// The salt of a hash in the same form as `salt`, so that one equality
    /// compares it with a stored entry.
    pub fn extract_salt(hash: u64) -> (s: u64)
        ensures
            s == hash | POINTER_MASK,
            s == hash | 0xFFFF_FFFF_FFFF,
            s == hash / ADDRESS_SPACE * ADDRESS_SPACE + POINTER_MASK,
    {
        proof {
            lemma_salt_form(hash);
        }
        hash | POINTER_MASK
    }
}

proof fn lemma_salt_form(w: u64)
    ensures
        w | POINTER_MASK == w / ADDRESS_SPACE * ADDRESS_SPACE + POINTER_MASK,
{
    assert(w | 0x0000_FFFF_FFFF_FFFFu64 == (w / 0x0001_0000_0000_0000u64)
        * 0x0001_0000_0000_0000u64 + 0x0000_FFFF_FFFF_FFFFu64) by (bit_vector);
}

/// Steps to the next bucket, wrapping at the end of a directory whose capacity
/// is a power of two and whose mask is `capacity - 1`.
pub fn increment_and_wrap(offset: &mut usize, capacity_mask: usize)
    requires
        *old(offset) < usize::MAX,
    ensures
        *final(offset) == (*old(offset) + 1) as usize & capacity_mask,
{
    *offset = (*offset + 1) & capacity_mask;
}

/// An entry gives back the address it was built from, is occupied whenever that
/// address is not 0, and compares equal in salt to exactly the hashes whose top
/// 16 bits are those of the hash it was built from.
pub proof fn law_entry_round_trip(hash: u64, addr: int, other: u64)
    requires
        0 <= addr < ADDRESS_SPACE,
    ensures
        0 <= packed(hash, addr) <= u64::MAX,
        packed(hash, addr) % (ADDRESS_SPACE as int) == addr,
        addr != 0 ==> packed(hash, addr) != 0,
        same_salt(packed(hash, addr) as u64, other) <==> same_salt(hash, other),
        (packed(hash, addr) as u64 | POINTER_MASK) == (other | POINTER_MASK) <==> same_salt(
            hash,
            other,
        ),
{
    lemma_salt_form(packed(hash, addr) as u64);
    lemma_salt_form(other);
}

/// An entry is the address below 48 bits and the top 16 bits of the hash above them.
pub proof fn law_entry_parts(hash: u64, addr: int, other: u64)
    requires
        0 <= addr < 0x1_0000_0000_0000,
    ensures
        packed(hash, addr) % 0x1_0000_0000_0000 == addr,
        packed(hash, addr) / 0x1_0000_0000_0000 == hash / 0x1_0000_0000_0000,
        same_salt(hash, other) <==> hash / 0x1_0000_0000_0000 == other / 0x1_0000_0000_0000,
{
}

} // verus!
