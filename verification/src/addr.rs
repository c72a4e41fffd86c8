//! Virtual and physical addresses as plain 64-bit values.
//!
//! A virtual address decomposes into four 9-bit table indices (for page-table
//! levels 4 down to 1) and a 12-bit in-page offset; the page-table walk reads
//! only the low 48 bits. A physical address decomposes into a 4 KiB-aligned
//! frame base and the same 12-bit offset.

use vstd::prelude::*;

verus! {

/// Size in bytes of one page and of one physical frame.
pub const PAGE_SIZE: u64 = 4096;

/// Physical addresses fit in 52 bits on this architecture.
pub const MAX_PHYS_ADDR: u64 = 0x10_0000_0000_0000;

/// Level-4 table index: bits 39..48 of the virtual address.
pub open spec fn p4_index_spec(va: u64) -> u64 {
    (va >> 39) & 511
}

/// Level-3 table index: bits 30..39 of the virtual address.
pub open spec fn p3_index_spec(va: u64) -> u64 {
    (va >> 30) & 511
}

/// Level-2 table index: bits 21..30 of the virtual address.
pub open spec fn p2_index_spec(va: u64) -> u64 {
    (va >> 21) & 511
}

/// Level-1 table index: bits 12..21 of the virtual address.
pub open spec fn p1_index_spec(va: u64) -> u64 {
    (va >> 12) & 511
}

/// The 12-bit offset of the address within its page.
pub open spec fn page_offset_spec(va: u64) -> u64 {
    va & 4095
}

/// The base of the page holding `va`, restricted to the translated low
/// 48 bits: exactly the part of the address the four table indices encode.
pub open spec fn page_base_spec(va: u64) -> u64 {
    va & 0xffff_ffff_f000
}

pub fn p4_index(va: u64) -> (r: usize)
    ensures
        r == p4_index_spec(va),
        r < 512,
{
    proof {
        assert((va >> 39) & 511 < 512) by (bit_vector);
    }
    ((va >> 39) & 511) as usize
}

pub fn p3_index(va: u64) -> (r: usize)
    ensures
        r == p3_index_spec(va),
        r < 512,
{
    proof {
        assert((va >> 30) & 511 < 512) by (bit_vector);
    }
    ((va >> 30) & 511) as usize
}

pub fn p2_index(va: u64) -> (r: usize)
    ensures
        r == p2_index_spec(va),
        r < 512,
{
    proof {
        assert((va >> 21) & 511 < 512) by (bit_vector);
    }
    ((va >> 21) & 511) as usize
}

pub fn p1_index(va: u64) -> (r: usize)
    ensures
        r == p1_index_spec(va),
        r < 512,
{
    proof {
        assert((va >> 12) & 511 < 512) by (bit_vector);
    }
    ((va >> 12) & 511) as usize
}

pub fn page_offset(va: u64) -> (r: u64)
    ensures
        r == page_offset_spec(va),
        r < 4096,
{
    proof {
        assert(va & 4095 < 4096) by (bit_vector);
    }
    va & 4095
}

/// The base of the page containing `va` (low 48 bits, offset cleared).
pub fn page_containing_address(va: u64) -> (r: u64)
    ensures
        r == page_base_spec(va),
{
    va & 0xffff_ffff_f000
}

/// Every table index is below 512 and every page offset below 4096.
pub proof fn lemma_indices_in_range(va: u64)
    by (bit_vector)
    ensures
        p4_index_spec(va) < 512,
        p3_index_spec(va) < 512,
        p2_index_spec(va) < 512,
        p1_index_spec(va) < 512,
        page_offset_spec(va) < 4096,
{
}

/// Two virtual addresses lie in the same page exactly when their four
/// table indices agree.
pub proof fn lemma_same_page_same_indices(x: u64, y: u64)
    by (bit_vector)
    ensures
        (page_base_spec(x) == page_base_spec(y)) <==> (p4_index_spec(x) == p4_index_spec(y)
            && p3_index_spec(x) == p3_index_spec(y) && p2_index_spec(x) == p2_index_spec(y)
            && p1_index_spec(x) == p1_index_spec(y)),
{
}

/// A page base restricted to the low 48 bits is aligned, below 2^48, and
/// its own page's base.
pub proof fn lemma_page_aligned_48(page: u64)
    by (bit_vector)
    requires
        page & 0xffff_0000_0000_0fff == 0,
    ensures
        page_base_spec(page) == page,
        page % 4096 == 0,
        page < 0x1_0000_0000_0000,
        page_offset_spec(page) == 0,
{
}

} // verus!
