//! The backing bit store.
//!
//! The store itself is `mmap_bitvec::MmapBitVec`, an outside type that keeps
//! the bits either in anonymous memory or in a memory-mapped file.  Its
//! contents are modeled as a sequence of bits (`bv_bits`), bit i of the array
//! at byte i/8 and bit i%8 counted from the most significant bit of the byte.
//! The wrappers below state over that model what the crate's source shows of
//! each call; everything downstream is verified against these contracts.

use vstd::prelude::*;
use vstd::arithmetic::power2::*;
use vstd::arithmetic::div_mod::lemma_fundamental_div_mod;
use crate::bitmath::{pop, lemma_pow2_facts};

verus! {

#[verifier::external_type_specification]
#[verifier::external_body]
pub struct ExMmapBitVec(mmap_bitvec::MmapBitVec);

#[verifier::external_type_specification]
#[verifier::external_body]
pub struct ExIoError(std::io::Error);

/// The bits the store holds, in array order.
pub uninterp spec fn bv_bits(bv: mmap_bitvec::MmapBitVec) -> Seq<bool>;

/// Whether the mapping was created or opened writable.
pub uninterp spec fn bv_writable(bv: mmap_bitvec::MmapBitVec) -> bool;

/// The header bytes the store was created with, or read back from its file.
pub uninterp spec fn bv_header(bv: mmap_bitvec::MmapBitVec) -> Seq<u8>;

/// Bit b of the integer x, bit 0 the lowest.
pub open spec fn bit_at(x: nat, b: int) -> bool {
    b >= 0 && (x / pow2(b as nat)) % 2 == 1
}

/// The bits [lo, hi) read most-significant-first into an integer.
pub open spec fn range_val(bits: Seq<bool>, lo: int, hi: int) -> nat
    decreases hi - lo,
{
    if hi <= lo {
        0
    } else {
        2 * range_val(bits, lo, hi - 1) + (if bits[hi - 1] {
            1nat
        } else {
            0nat
        })
    }
}

/// The bits with the low (hi - lo) bits of x ored into [lo, hi),
/// most-significant-first.
pub open spec fn or_range(bits: Seq<bool>, lo: int, hi: int, x: nat) -> Seq<bool> {
    Seq::new(bits.len(), |i: int| bits[i] || (lo <= i < hi && bit_at(x, hi - 1 - i)))
}

/// Number of set bits in [lo, hi).
pub open spec fn count_range(bits: Seq<bool>, lo: int, hi: int) -> nat
    decreases hi - lo,
{
    if hi <= lo {
        0
    } else {
        count_range(bits, lo, hi - 1) + (if bits[hi - 1] {
            1nat
        } else {
            0nat
        })
    }
}

/// A range's value is bounded by the width of the range.
pub proof fn lemma_range_val_bound(bits: Seq<bool>, lo: int, hi: int)
    ensures
        range_val(bits, lo, hi) < pow2(if hi >= lo {
            (hi - lo) as nat
        } else {
            0nat
        }),
    decreases hi - lo,
{
    lemma_pow2_facts();
    if hi > lo {
        lemma_range_val_bound(bits, lo, hi - 1);
        lemma_pow2_unfold((hi - lo) as nat);
    }
}

/// b < 2 contributes b to the count of 2x + b.
proof fn lemma_pop_double(x: nat, b: nat)
    requires
        b < 2,
    ensures
        pop(2 * x + b) == pop(x) + b,
{
    let t = 2 * x + b;
    if t == 0 {
    } else {
        lemma_fundamental_div_mod(t as int, 2);
        assert(t % 2 == b && t / 2 == x) by (nonlinear_arith)
            requires
                t == 2 * x + b,
                b < 2,
        ;
        assert(pop(t) == t % 2 + pop(t / 2));
    }
}

/// The population count of a range's value is the number of set bits in it.
pub proof fn lemma_range_val_pop(bits: Seq<bool>, lo: int, hi: int)
    ensures
        pop(range_val(bits, lo, hi)) == count_range(bits, lo, hi),
    decreases hi - lo,
{
    if hi > lo {
        lemma_range_val_pop(bits, lo, hi - 1);
        lemma_pop_double(
            range_val(bits, lo, hi - 1),
            if bits[hi - 1] {
                1nat
            } else {
                0nat
            },
        );
    }
}

/// Counting a range splits at any midpoint.
pub proof fn lemma_count_range_split(bits: Seq<bool>, lo: int, mid: int, hi: int)
    requires
        lo <= mid <= hi,
    ensures
        count_range(bits, lo, hi) == count_range(bits, lo, mid) + count_range(bits, mid, hi),
    decreases hi - mid,
{
    if mid < hi {
        lemma_count_range_split(bits, lo, mid, hi - 1);
    }
}

/// A count never exceeds the width of its range.
pub proof fn lemma_count_range_le(bits: Seq<bool>, lo: int, hi: int)
    requires
        lo <= hi,
    ensures
        count_range(bits, lo, hi) <= hi - lo,
    decreases hi - lo,
{
    if lo < hi {
        lemma_count_range_le(bits, lo, hi - 1);
    }
}

/// Pointwise implication of bits gives ordering of counts.
pub proof fn lemma_count_range_mono(b1: Seq<bool>, b2: Seq<bool>, lo: int, hi: int)
    requires
        forall|i: int| lo <= i < hi ==> (b1[i] ==> b2[i]),
    ensures
        count_range(b1, lo, hi) <= count_range(b2, lo, hi),
    decreases hi - lo,
{
    if lo < hi {
        lemma_count_range_mono(b1, b2, lo, hi - 1);
    }
}

/// Creates a zeroed store in anonymous memory.
///
/// Relies on `MmapBitVec::from_memory`: an anonymous mapping of
/// ceil(size/8) bytes, which the operating system hands out zero-filled.
#[verifier::external_body]
pub fn bv_from_memory(size: usize) -> (r: Result<mmap_bitvec::MmapBitVec, std::io::Error>)
    requires
        size >= 1,
    ensures
        r matches Ok(bv) ==> {
            &&& bv_bits(bv) == Seq::new(size as nat, |i: int| false)
            &&& bv_writable(bv)
            &&& bv_header(bv) == Seq::<u8>::empty()
        },
{
    mmap_bitvec::MmapBitVec::from_memory(size)
}

/// Creates a file-backed store of `size` bits with the given magic and header.
///
/// Relies on `MmapBitVec::create`.  The payload is whatever the file holds at
/// those offsets once resized: zero bytes for a file that did not exist, so
/// nothing is promised about the bits beyond their number.
#[verifier::external_body]
pub fn bv_create(filename: &str, size: usize, magic: [u8; 2], header: &[u8]) -> (r: Result<
    mmap_bitvec::MmapBitVec,
    std::io::Error,
>)
    requires
        size >= 1,
        header@.len() < 65536,
    ensures
        r matches Ok(bv) ==> {
            &&& bv_bits(bv).len() == size as nat
            &&& bv_writable(bv)
            &&& bv_header(bv) == header@
        },
{
    mmap_bitvec::MmapBitVec::create(filename, size, Some(magic), header)
}

/// Opens an existing store file, checking the magic bytes.
///
/// Relies on `MmapBitVec::open`.  Everything read depends on the file, so
/// only the writability of the mapping is promised.  A file whose recorded
/// bit count is zero makes the call abort instead of returning an error.
#[verifier::external_body]
pub fn bv_open(filename: &str, magic: [u8; 2], read_only: bool) -> (r: Result<
    mmap_bitvec::MmapBitVec,
    std::io::Error,
>)
    ensures
        r matches Ok(bv) ==> bv_writable(bv) == !read_only,
{
    mmap_bitvec::MmapBitVec::open(filename, Some(&magic), read_only)
}

/// The length of the store in bits.
///
/// Relies on the `size` method of the `BitVector` impl of `MmapBitVec`,
/// which returns the bit count the store was created or opened with.
#[verifier::external_body]
pub fn bv_size(bv: &mmap_bitvec::MmapBitVec) -> (r: usize)
    ensures
        r == bv_bits(*bv).len(),
{
    mmap_bitvec::BitVector::size(bv)
}

/// The header bytes.
///
/// Relies on `MmapBitVec::header`.
#[verifier::external_body]
pub fn bv_header_bytes(bv: &mmap_bitvec::MmapBitVec) -> (r: &[u8])
    ensures
        r@ == bv_header(*bv),
{
    bv.header()
}

/// Reads bits [lo, hi) right-aligned into a word, bit `lo` foremost.
///
/// Relies on the `get_range` method of the `BitVector` impl of `MmapBitVec`.
/// The store must hold at least 128 bits: on a smaller one the method's
/// fast-path test subtracts past zero.
#[verifier::external_body]
pub fn bv_get_range(bv: &mmap_bitvec::MmapBitVec, lo: usize, hi: usize) -> (r: u128)
    requires
        lo < hi,
        hi - lo <= 128,
        hi <= bv_bits(*bv).len(),
        bv_bits(*bv).len() >= 128,
    ensures
        r as nat == range_val(bv_bits(*bv), lo as int, hi as int),
{
    mmap_bitvec::BitVector::get_range(bv, lo..hi)
}

/// Ors the low (hi - lo) bits of x into bits [lo, hi).
///
/// Relies on the `set_range` method of the `BitVector` impl of `MmapBitVec`,
/// which ors the new bits over the existing ones and never clears a bit.
/// The word must fit the range, else its high bits would spill into
/// neighbouring positions.
#[verifier::external_body]
pub fn bv_set_range(bv: &mut mmap_bitvec::MmapBitVec, lo: usize, hi: usize, x: u128)
    requires
        lo < hi,
        hi - lo <= 128,
        hi <= bv_bits(*old(bv)).len(),
        bv_writable(*old(bv)),
        (x as nat) < pow2((hi - lo) as nat),
    ensures
        bv_bits(*final(bv)) == or_range(bv_bits(*old(bv)), lo as int, hi as int, x as nat),
        bv_writable(*final(bv)) == bv_writable(*old(bv)),
        bv_header(*final(bv)) == bv_header(*old(bv)),
{
    mmap_bitvec::BitVector::set_range(bv, lo..hi, x)
}

/// Writes an anonymous store to a fresh file with the given magic and header;
/// a no-op for a store that is already file-backed.
///
/// Relies on `MmapBitVec::save_to_disk`.  It takes the store by shared
/// reference and never changes the bits in memory; what lands on disk is not
/// modeled.
#[verifier::external_body]
pub fn bv_save_to_disk(
    bv: &mmap_bitvec::MmapBitVec,
    filename: &str,
    magic: [u8; 2],
    header: &[u8],
) -> (r: Result<(), std::io::Error>)
    requires
        bv_bits(*bv).len() >= 1,
        header@.len() < 65536,
{
    bv.save_to_disk(filename, Some(magic), header)
}

/// An invalid-data I/O error with the given message.
///
/// Relies on `std::io::Error::new`.
#[verifier::external_body]
pub fn err_invalid_data(msg: &str) -> (r: std::io::Error) {
    std::io::Error::new(std::io::ErrorKind::InvalidData, msg.to_owned())
}

/// A not-found I/O error with the given message.
///
/// Relies on `std::io::Error::new`.
#[verifier::external_body]
pub fn err_not_found(msg: &str) -> (r: std::io::Error) {
    std::io::Error::new(std::io::ErrorKind::NotFound, msg.to_owned())
}

/// Whether a path exists on disk.
///
/// Relies on `std::path::Path::exists`; the answer depends on the disk.
#[verifier::external_body]
pub fn path_exists(path: &str) -> (r: bool) {
    std::path::Path::new(path).exists()
}

} // verus!
