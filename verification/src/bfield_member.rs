//! One filter member: a bit store, the parameters (k, marker width, marker
//! weight, optional user bytes), and the marker placement logic.
//!
//! A key is hashed once to a 128-bit value; k window offsets are derived from
//! it by double hashing.  `insert` ors the value's marker into each window;
//! `get` ands the k windows back together and classifies the result by its
//! weight into absent, found, or indeterminate.

use vstd::prelude::*;
use vstd::arithmetic::power2::*;
use vstd::arithmetic::div_mod::*;
use vstd::arithmetic::mul::*;
use crate::binomial::{binom, lemma_binom_mono};
use crate::bitmath::{
    pop, tos, lemma_pow2_facts, lemma_pop_and_le, lemma_set_clear_bit, lemma_tos_bit,
    lemma_tos_le_pop, lemma_u128_bit_step, lemma_u128_one_shl, lemma_u128_or_clear_bit,
    popcount128,
};
use vstd::bits::lemma_u128_shr_is_div;
use crate::bitstore::{
    bit_at, bv_bits, bv_create, bv_from_memory, bv_get_range, bv_header, bv_header_bytes, bv_open,
    bv_save_to_disk, bv_set_range, bv_size, bv_writable, count_range, err_invalid_data,
    lemma_count_range_le, lemma_count_range_split, lemma_range_val_bound, lemma_range_val_pop,
    or_range, range_val,
};
use crate::combinatorial::{marker_index, nth_pattern, lemma_pattern_below_width, rank, unrank};

verus! {

/// The value type stored in a member.
pub type BFieldVal = u32;

/// The magic bytes at the front of every member file.
pub const BF_MAGIC: [u8; 2] = [0xBF, 0x1D];

/// Outcome of a member lookup.
#[derive(Debug, PartialEq, Eq, Structural)]
pub enum BFieldLookup {
    /// The merged marker carries too many bits to decode.
    Indeterminate,
    /// The key decodes to this value.
    Found(BFieldVal),
    /// The key is definitely absent from this member.
    Absent,
}

/// The immutable parameters of a member.
#[derive(Debug)]
pub struct BFieldParams {
    /// Number of hash-derived marker positions per key (k).
    pub n_hashes: u8,
    /// Width of a marker window in bits (nu).
    pub marker_width: u8,
    /// Number of set bits in a marker (kappa).
    pub n_marker_bits: u8,
    /// Caller-supplied bytes carried in the primary member's header.
    pub other: Option<Vec<u8>>,
}

/// The hash pair a key is reduced to.
///
/// Names the result of `murmurhash3::murmurhash3_x64_128` with seed 0, which
/// depends on the key bytes alone.
pub uninterp spec fn hash128_of(key: Seq<u8>) -> (u64, u64);

/// Hashes a key to its 128-bit pair.
///
/// Relies on `murmurhash3::murmurhash3_x64_128`: a pure function of the
/// bytes and the seed.
#[verifier::external_body]
fn hash_key(key: &[u8]) -> (r: (u64, u64))
    ensures
        r == hash128_of(key@),
{
    murmurhash3::murmurhash3_x64_128(key, 0)
}

/// The little-endian bytes of n, lowest byte first.
pub open spec fn le_bytes(n: nat, count: nat) -> Seq<u8>
    decreases count,
{
    if count == 0 {
        Seq::empty()
    } else {
        seq![(n % 256) as u8] + le_bytes(n / 256, (count - 1) as nat)
    }
}

/// The value of a little-endian byte sequence.
pub open spec fn le_val(s: Seq<u8>) -> nat
    decreases s.len(),
{
    if s.len() == 0 {
        0
    } else {
        (s[0] + 256 * le_val(s.subrange(1, s.len() as int))) as nat
    }
}

/// Reading little-endian bytes back gives the value, below 2^(8 * count).
pub proof fn lemma_le_roundtrip(n: nat, count: nat)
    requires
        n < pow2(8 * count),
    ensures
        le_val(le_bytes(n, count)) == n,
        le_bytes(n, count).len() == count,
    decreases count,
{
    lemma_pow2_facts();
    if count == 0 {
    } else {
        let c1 = (count - 1) as nat;
        assert(pow2(8 * count) == pow2(8) * pow2(8 * c1)) by {
            lemma_pow2_adds(8, 8 * c1);
        }
        lemma2_to64();
        lemma_pow2_pos(8 * c1);
        assert(n / 256 < pow2(8 * c1)) by (nonlinear_arith)
            requires
                n < 256 * pow2(8 * c1),
        ;
        lemma_le_roundtrip(n / 256, c1);
        let s = le_bytes(n, count);
        assert(s.subrange(1, s.len() as int) =~= le_bytes(n / 256, c1));
        lemma_fundamental_div_mod(n as int, 256);
    }
}

/// A byte sequence is the encoding of its own value.
pub proof fn lemma_le_bytes_of_val(s: Seq<u8>)
    ensures
        le_bytes(le_val(s), s.len()) == s,
    decreases s.len(),
{
    if s.len() > 0 {
        let tail = s.subrange(1, s.len() as int);
        lemma_le_bytes_of_val(tail);
        let n = le_val(s);
        lemma_fundamental_div_mod_converse(
            n as int,
            256,
            le_val(tail) as int,
            s[0] as int,
        );
        assert(le_bytes(n, s.len()) =~= s);
    }
}

/// Appending the next byte extends a little-endian encoding.
proof fn lemma_le_bytes_snoc(n: nat, count: nat)
    ensures
        le_bytes(n, count + 1) == le_bytes(n, count).push(
            ((n / pow2(8 * count)) % 256) as u8,
        ),
    decreases count,
{
    lemma_pow2_facts();
    if count == 0 {
        assert(le_bytes(n / 256, 0nat) =~= Seq::<u8>::empty());
        assert(n / pow2(0) == n);
        assert(le_bytes(n, 1) =~= le_bytes(n, 0).push(((n / pow2(0)) % 256) as u8));
    } else {
        let c1 = (count - 1) as nat;
        lemma_le_bytes_snoc(n / 256, c1);
        lemma_le_bytes_len(n, count + 1);
        lemma_le_bytes_len(n, count);
        assert(pow2(8 * count) == 256 * pow2(8 * c1)) by {
            lemma_pow2_adds(8, 8 * c1);
            lemma2_to64();
        }
        lemma_pow2_pos(8 * c1);
        lemma_div_denominator(n as int, 256, pow2(8 * c1) as int);
        assert((n / 256) / pow2(8 * c1) == n / pow2(8 * count));
        assert(le_bytes(n, count + 1) =~= seq![(n % 256) as u8] + le_bytes(n / 256, count));
        assert(le_bytes(n, count) =~= seq![(n % 256) as u8] + le_bytes(n / 256, c1));
        assert(le_bytes(n / 256, c1 + 1) == le_bytes(n / 256, c1).push(
            ((n / pow2(8 * count)) % 256) as u8,
        ));
        assert(le_bytes(n, count + 1) =~= le_bytes(n, count).push(
            ((n / pow2(8 * count)) % 256) as u8,
        ));
    }
}

/// The header encoding of a member's parameters: k, width, weight, then an
/// option tag, and for the primary member the length-prefixed user bytes.
pub open spec fn params_bytes(p: &BFieldParams) -> Seq<u8> {
    let fixed = seq![p.n_hashes, p.marker_width, p.n_marker_bits];
    match p.other {
        Option::None => fixed + seq![0u8],
        Option::Some(v) => fixed + seq![1u8] + le_bytes(v@.len(), 8) + v@,
    }
}

/// Bytes that start with the encoding of some parameter record.
pub open spec fn is_params_prefix(b: Seq<u8>) -> bool {
    &&& b.len() >= 4
    &&& (b[3] == 0 || (b[3] == 1 && b.len() >= 12 && 12 + le_val(b.subrange(4, 12)) <= b.len()))
}

/// Encodes parameters into header bytes.
pub fn encode_params(p: &BFieldParams) -> (r: Vec<u8>)
    ensures
        r@ == params_bytes(p),
{
    let mut out: Vec<u8> = Vec::new();
    out.push(p.n_hashes);
    out.push(p.marker_width);
    out.push(p.n_marker_bits);
    match &p.other {
        Option::None => {
            out.push(0u8);
            proof {
                assert(out@ =~= params_bytes(p));
            }
        },
        Option::Some(v) => {
            out.push(1u8);
            let ghost base = out@;
            let n0: u64 = v.len() as u64;
            let mut t: u64 = n0;
            let mut i: usize = 0;
            proof {
                lemma_pow2_facts();
                assert(le_bytes(n0 as nat, 0) =~= Seq::<u8>::empty());
                assert(pow2(0) == 1);
                assert((n0 as nat) / 1 == n0 as nat) by (nonlinear_arith);
                assert(base + le_bytes(n0 as nat, 0) =~= base);
            }
            while i < 8
                invariant
                    i <= 8,
                    out@ == base + le_bytes(n0 as nat, i as nat),
                    t == (n0 as nat) / pow2(8 * i as nat),
                decreases 8 - i,
            {
                proof {
                    lemma_le_bytes_snoc(n0 as nat, i as nat);
                    lemma_pow2_pos(8 * i as nat);
                    lemma_pow2_adds(8 * i as nat, 8);
                    lemma2_to64();
                    lemma_div_denominator(n0 as int, pow2(8 * i as nat) as int, 256);
                }
                out.push((t % 256) as u8);
                t = t / 256;
                i = i + 1;
            }
            let mut j: usize = 0;
            let ghost mid = out@;
            while j < v.len()
                invariant
                    j <= v@.len(),
                    out@ == mid + v@.subrange(0, j as int),
                decreases v@.len() - j,
            {
                let byte = v[j];
                out.push(byte);
                proof {
                    assert(mid + v@.subrange(0, j + 1 as int) =~= (mid + v@.subrange(
                        0,
                        j as int,
                    )).push(v@[j as int]));
                }
                j = j + 1;
            }
            proof {
                assert(v@.subrange(0, v@.len() as int) =~= v@);
                assert(out@ =~= params_bytes(p));
            }
        },
    }
    out
}

/// Decodes header bytes, tolerating trailing bytes; exactly the prefixes
/// written by `encode_params` are accepted.
pub fn decode_params(bytes: &[u8]) -> (r: Option<BFieldParams>)
    ensures
        r matches Some(p) ==> {
            &&& is_params_prefix(bytes@)
            &&& params_bytes(&p) == bytes@.subrange(0, params_bytes(&p).len() as int)
            &&& p.n_hashes == bytes@[0]
            &&& p.marker_width == bytes@[1]
            &&& p.n_marker_bits == bytes@[2]
            &&& (p.other is Some <==> bytes@[3] == 1)
        },
        r is None ==> !is_params_prefix(bytes@),
{
    if bytes.len() < 4 {
        return Option::None;
    }
    let n_hashes = bytes[0];
    let marker_width = bytes[1];
    let n_marker_bits = bytes[2];
    let tag = bytes[3];
    if tag == 0 {
        let p = BFieldParams { n_hashes, marker_width, n_marker_bits, other: Option::None };
        proof {
            assert(params_bytes(&p) =~= bytes@.subrange(0, 4));
        }
        return Option::Some(p);
    }
    if tag != 1 || bytes.len() < 12 {
        return Option::None;
    }
    let mut n: u64 = 0;
    let mut j: usize = 8;
    proof {
        lemma_pow2_facts();
        assert(bytes@.subrange(4, 12).subrange(8int, 8int) =~= Seq::<u8>::empty());
    }
    while j > 0
        invariant
            j <= 8,
            bytes@.len() >= 12,
            n == le_val(bytes@.subrange(4, 12).subrange(j as int, 8)),
            n < pow2(8 * ((8 - j) as nat)),
        decreases j,
    {
        proof {
            lemma_pow2_facts();
            let s = bytes@.subrange(4, 12);
            assert(s.subrange((j - 1) as int, 8).subrange(1, (8 - (j - 1)) as int) =~= s.subrange(
                j as int,
                8,
            ));
            assert(s.subrange((j - 1) as int, 8)[0] == bytes@[4 + (j - 1)]);
            lemma_pow2_adds(8, 8 * ((8 - j) as nat));
            lemma2_to64();
            assert(256 * n + 255 < 256 * pow2(8 * ((8 - j) as nat))) by (nonlinear_arith)
                requires
                    n < pow2(8 * ((8 - j) as nat)),
            ;
            assert(256 * pow2(8 * ((8 - j) as nat)) == pow2((8 * ((8 - j) as nat) + 8) as nat));
            if 8 * ((8 - j) as nat) + 8 < 64 {
                lemma_pow2_strictly_increases((8 * ((8 - j) as nat) + 8) as nat, 64);
            }
            assert(pow2(64nat) == 0x10000000000000000);
        }
        n = n * 256 + (bytes[4 + (j - 1)] as u64);
        j = j - 1;
    }
    proof {
        assert(bytes@.subrange(4, 12).subrange(0, 8) =~= bytes@.subrange(4, 12));
    }
    if n > (bytes.len() - 12) as u64 {
        return Option::None;
    }
    let len = n as usize;
    let mut v: Vec<u8> = Vec::new();
    let mut i: usize = 0;
    while i < len
        invariant
            i <= len,
            len + 12 <= bytes@.len(),
            bytes@.len() <= usize::MAX,
            v@ == bytes@.subrange(12, 12 + i as int),
        decreases len - i,
    {
        let byte = bytes[12 + i];
        v.push(byte);
        proof {
            assert(bytes@.subrange(12, 12 + (i + 1) as int) =~= bytes@.subrange(
                12,
                12 + i as int,
            ).push(bytes@[12 + i]));
        }
        i = i + 1;
    }
    let p = BFieldParams { n_hashes, marker_width, n_marker_bits, other: Option::Some(v) };
    proof {
        let pb = params_bytes(&p);
        lemma_le_roundtrip(n as nat, 8);
        assert(pow2(64nat) == 0x10000000000000000) by {
            lemma_pow2_facts();
        }
        assert(le_bytes(n as nat, 8) =~= bytes@.subrange(4, 12)) by {
            lemma_le_bytes_of_val(bytes@.subrange(4, 12));
        }
        assert(pb =~= bytes@.subrange(0, pb.len() as int));
    }
    Option::Some(p)
}

/// Well-formed parameters: weight in [1, 9], width above the weight and at
/// most 128 bits, between 1 and 16 hash positions, and user bytes small
/// enough for the file header.
pub open spec fn params_wf(p: &BFieldParams) -> bool {
    &&& 1 <= p.n_marker_bits <= 9
    &&& (p.n_marker_bits as nat) < (p.marker_width as nat)
    &&& p.marker_width <= 128
    &&& 1 <= p.n_hashes <= 16
    &&& (p.other matches Option::Some(v) ==> v@.len() <= 65000)
}

/// Starting offset of the i-th marker window, by double hashing modulo the
/// positions at which a full window still fits.
pub open spec fn marker_pos_spec(h: (u64, u64), i: nat, size: nat, width: nat) -> nat {
    (((h.0 + i * h.1) % 0x10000000000000000) % ((size - width) as int)) as nat
}

/// The store after the first i marker windows of the key have the marker
/// ored into them.
pub open spec fn inserted_upto(bits: Seq<bool>, h: (u64, u64), i: nat, width: nat, marker: nat) -> Seq<bool>
    decreases i,
{
    if i == 0 {
        bits
    } else {
        let prev = inserted_upto(bits, h, (i - 1) as nat, width, marker);
        let pos = marker_pos_spec(h, (i - 1) as nat, bits.len() as nat, width);
        or_range(prev, pos as int, (pos + width) as int, marker)
    }
}

/// Whether inserting `marker` for hash h would set bit j of the store.
pub open spec fn insert_mask(h: (u64, u64), i: nat, width: nat, marker: nat, size: nat, j: int) -> bool {
    exists|ix: nat|
        ix < i && #[trigger] marker_pos_spec(h, ix, size, width) <= j
            < marker_pos_spec(h, ix, size, width) + width && bit_at(
            marker,
            marker_pos_spec(h, ix, size, width) + width - 1 - j,
        )
}

/// The insertion is the pointwise or of the old bits with the mask.
pub proof fn lemma_inserted_pointwise(
    bits: Seq<bool>,
    h: (u64, u64),
    i: nat,
    width: nat,
    marker: nat,
)
    ensures
        inserted_upto(bits, h, i, width, marker).len() == bits.len(),
        forall|j: int|
            0 <= j < bits.len() ==> #[trigger] inserted_upto(bits, h, i, width, marker)[j] == (
            bits[j] || insert_mask(h, i, width, marker, bits.len() as nat, j)),
    decreases i,
{
    if i > 0 {
        let i1 = (i - 1) as nat;
        lemma_inserted_pointwise(bits, h, i1, width, marker);
        let prev = inserted_upto(bits, h, i1, width, marker);
        let out = inserted_upto(bits, h, i, width, marker);
        let pos = marker_pos_spec(h, i1, bits.len() as nat, width);
        assert forall|j: int| 0 <= j < bits.len() implies #[trigger] out[j] == (bits[j]
            || insert_mask(h, i, width, marker, bits.len() as nat, j)) by {
            if out[j] {
                if !bits[j] {
                    if prev[j] {
                        let ix = choose|ix: nat|
                            ix < i1 && #[trigger] marker_pos_spec(h, ix, bits.len() as nat, width)
                                <= j < marker_pos_spec(h, ix, bits.len() as nat, width) + width
                                && bit_at(
                                marker,
                                marker_pos_spec(h, ix, bits.len() as nat, width) + width - 1 - j,
                            );
                        assert(insert_mask(h, i, width, marker, bits.len() as nat, j));
                    } else {
                        assert(pos <= j < pos + width && bit_at(marker, pos + width - 1 - j));
                        assert(insert_mask(h, i, width, marker, bits.len() as nat, j));
                    }
                }
            } else {
                if insert_mask(h, i, width, marker, bits.len() as nat, j) {
                    let ix = choose|ix: nat|
                        ix < i && #[trigger] marker_pos_spec(h, ix, bits.len() as nat, width) <= j
                            < marker_pos_spec(h, ix, bits.len() as nat, width) + width && bit_at(
                            marker,
                            marker_pos_spec(h, ix, bits.len() as nat, width) + width - 1 - j,
                        );
                    if ix < i1 {
                        assert(insert_mask(h, i1, width, marker, bits.len() as nat, j));
                        assert(prev[j]);
                    }
                    assert(false);
                }
            }
        }
    }
}

/// Inserting the same marker for the same key twice changes nothing after
/// the first time: the bit image is exactly that of a single insertion.
pub proof fn lemma_insert_idempotent(
    bits: Seq<bool>,
    h: (u64, u64),
    k: nat,
    width: nat,
    marker: nat,
)
    ensures
        inserted_upto(inserted_upto(bits, h, k, width, marker), h, k, width, marker)
            == inserted_upto(bits, h, k, width, marker),
{
    let once = inserted_upto(bits, h, k, width, marker);
    let twice = inserted_upto(once, h, k, width, marker);
    lemma_inserted_pointwise(bits, h, k, width, marker);
    lemma_inserted_pointwise(once, h, k, width, marker);
    assert forall|j: int| 0 <= j < bits.len() implies twice[j] == once[j] by {
        assert(twice[j] == (once[j] || insert_mask(h, k, width, marker, once.len() as nat, j)));
        assert(once[j] == (bits[j] || insert_mask(h, k, width, marker, bits.len() as nat, j)));
    }
    assert(twice =~= once);
}

/// An insertion only ever raises bits, so the count of set bits in any range
/// never decreases under inserts.
pub proof fn lemma_insert_monotone_count(
    bits: Seq<bool>,
    h: (u64, u64),
    k: nat,
    width: nat,
    marker: nat,
    lo: int,
    hi: int,
)
    requires
        0 <= lo <= hi <= bits.len(),
    ensures
        count_range(bits, lo, hi) <= count_range(
            inserted_upto(bits, h, k, width, marker),
            lo,
            hi,
        ),
{
    lemma_inserted_pointwise(bits, h, k, width, marker);
    crate::bitstore::lemma_count_range_mono(
        bits,
        inserted_upto(bits, h, k, width, marker),
        lo,
        hi,
    );
}

/// The and of the first i marker windows of the key, starting from all ones.
pub open spec fn merged_upto(bits: Seq<bool>, h: (u64, u64), i: nat, width: nat) -> u128
    decreases i,
{
    if i == 0 {
        u128::MAX
    } else {
        let pos = marker_pos_spec(h, (i - 1) as nat, bits.len() as nat, width);
        merged_upto(bits, h, (i - 1) as nat, width) & (range_val(
            bits,
            pos as int,
            (pos + width) as int,
        ) as u128)
    }
}

/// Further intersection can only lower the weight of the merged marker.
proof fn lemma_merged_pop_mono(bits: Seq<bool>, h: (u64, u64), i: nat, kk: nat, width: nat)
    requires
        i <= kk,
    ensures
        pop(merged_upto(bits, h, kk, width) as nat) <= pop(merged_upto(bits, h, i, width) as nat),
    decreases kk - i,
{
    if i < kk {
        lemma_merged_pop_mono(bits, h, i, (kk - 1) as nat, width);
        let pos = marker_pos_spec(h, (kk - 1) as nat, bits.len() as nat, width);
        lemma_pop_and_le(
            merged_upto(bits, h, (kk - 1) as nat, width),
            range_val(bits, pos as int, (pos + width) as int) as u128,
        );
    }
}

/// What a lookup of the key answers on this bit image: the merged marker,
/// classified by its weight against kappa.
pub open spec fn lookup_spec(
    bits: Seq<bool>,
    h: (u64, u64),
    k: nat,
    width: nat,
    kappa: nat,
) -> BFieldLookup {
    let merged = merged_upto(bits, h, k, width) as nat;
    if pop(merged) > kappa {
        BFieldLookup::Indeterminate
    } else if pop(merged) == kappa {
        BFieldLookup::Found((marker_index(merged) % 0x100000000) as u32)
    } else {
        BFieldLookup::Absent
    }
}

/// One filter: a bit store plus its immutable parameters and the path the
/// store is, or will be, kept at.
///
/// A member is safe to read from many threads once writes have quiesced;
/// writes must be serialized by the caller, as the store is a plain shared
/// mapping with no internal synchronization.
pub struct BFieldMember {
    /// The backing bit store.
    pub bitvec: mmap_bitvec::MmapBitVec,
    /// Where the store lives on disk, or will be written on persisting.
    pub filename: String,
    /// The member's parameters, fixed at creation.
    pub params: BFieldParams,
}

impl BFieldMember {
    /// The bits of the backing store.
    pub open spec fn bits(&self) -> Seq<bool> {
        bv_bits(self.bitvec)
    }

    /// The store's length in bits.
    pub open spec fn size_spec(&self) -> nat {
        self.bits().len()
    }

    /// Whether the store can be written.
    pub open spec fn writable(&self) -> bool {
        bv_writable(self.bitvec)
    }

    /// Number of marker positions per key.
    pub open spec fn k_spec(&self) -> nat {
        self.params.n_hashes as nat
    }

    /// Width of a marker window.
    pub open spec fn width_spec(&self) -> nat {
        self.params.marker_width as nat
    }

    /// Weight of a marker.
    pub open spec fn kappa_spec(&self) -> nat {
        self.params.n_marker_bits as nat
    }

    /// A well-formed member: sound parameters and a store that can hold at
    /// least one whole marker window and one whole 128-bit read.
    pub open spec fn wf(&self) -> bool {
        &&& params_wf(&self.params)
        &&& self.size_spec() >= 128
        &&& self.width_spec() < self.size_spec()
    }

    /// What `get` answers for `key` on the current bits.
    pub open spec fn lookup(&self, key: Seq<u8>) -> BFieldLookup {
        lookup_spec(self.bits(), hash128_of(key), self.k_spec(), self.width_spec(), self.kappa_spec())
    }
}

/// Starting bit offset of the i-th marker window for this hash pair.
fn marker_pos(hash: (u64, u64), marker_ix: usize, total_size: usize, marker_size: usize) -> (r:
    usize)
    requires
        marker_size < total_size,
        marker_ix <= 16,
    ensures
        r == marker_pos_spec(hash, marker_ix as nat, total_size as nat, marker_size as nat),
        r < total_size - marker_size,
{
    proof {
        assert((marker_ix as u128) * (hash.1 as u128) <= 16 * 0xffffffffffffffffu128)
            by (nonlinear_arith)
            requires
                marker_ix <= 16,
                hash.1 <= 0xffffffffffffffffu64,
        ;
    }
    let t: u128 = hash.0 as u128 + (marker_ix as u128) * (hash.1 as u128);
    proof {
        assert((t as u64) == t % 0x10000000000000000) by (bit_vector);
    }
    #[verifier::truncate]
    let low: u64 = t as u64;
    let modulus: u64 = (total_size - marker_size) as u64;
    let r64: u64 = low % modulus;
    proof {
        lemma_mod_bound(low as int, modulus as int);
    }
    r64 as usize
}

/// The merged marker of a key never exceeds the window width.
proof fn lemma_merged_bound(bits: Seq<bool>, h: (u64, u64), kk: nat, width: nat)
    requires
        kk >= 1,
        width <= 128,
    ensures
        (merged_upto(bits, h, kk, width) as nat) < pow2(width),
{
    let pos = marker_pos_spec(h, (kk - 1) as nat, bits.len() as nat, width);
    let prev = merged_upto(bits, h, (kk - 1) as nat, width);
    lemma_range_val_bound(bits, pos as int, (pos + width) as int);
    let sl = range_val(bits, pos as int, (pos + width) as int) as u128;
    assert((prev & sl) <= sl) by (bit_vector);
}

/// What `mask_or_insert` answers and leaves behind: with e the key's merged
/// marker and c the correct marker of the value,
/// - weight(e) above kappa: the slot is already indeterminate, nothing
///   changes and the answer is false;
/// - e == c: the value is already there, nothing changes and the answer is
///   true;
/// - weight(e) is kappa but e != c: the lowest clear bit of e is ored in on
///   top of it, so the slot decodes to no value at all, and the answer is
///   false;
/// - weight(e) below kappa: the correct marker is inserted and the answer is
///   true.
pub open spec fn mask_or_insert_spec(
    bits: Seq<bool>,
    h: (u64, u64),
    k: nat,
    width: nat,
    kappa: nat,
    value: nat,
) -> (bool, Seq<bool>) {
    let e = merged_upto(bits, h, k, width) as nat;
    let c = nth_pattern(value, kappa);
    if pop(e) > kappa {
        (false, bits)
    } else if pop(e) == kappa {
        if e == c {
            (true, bits)
        } else {
            (false, inserted_upto(bits, h, k, width, (e + pow2(tos(e))) as nat))
        }
    } else {
        (true, inserted_upto(bits, h, k, width, c))
    }
}

impl BFieldMember {
    /// Creates a member with explicit parameters, either in anonymous memory
    /// or backed by a file at `filename` whose header carries the parameters.
    ///
    /// A file-backed store reuses whatever file sits at that path, so only an
    /// in-memory store is promised to start empty.
    pub fn create(
        filename: &str,
        in_memory: bool,
        size: usize,
        n_hashes: u8,
        marker_width: u8,
        n_marker_bits: u8,
        other_params: Option<Vec<u8>>,
    ) -> (r: Result<BFieldMember, std::io::Error>)
        requires
            1 <= n_marker_bits <= 9,
            (n_marker_bits as nat) < (marker_width as nat),
            marker_width <= 128,
            1 <= n_hashes <= 16,
            size >= 128,
            (marker_width as nat) < (size as nat),
            other_params matches Option::Some(v) ==> v@.len() <= 65000,
        ensures
            r matches Ok(m) ==> {
                &&& m.wf()
                &&& m.writable()
                &&& m.params.n_hashes == n_hashes
                &&& m.params.marker_width == marker_width
                &&& m.params.n_marker_bits == n_marker_bits
                &&& m.params.other == other_params
                &&& m.filename@ == filename@
                &&& m.size_spec() == size as nat
                &&& (in_memory ==> m.bits() == Seq::new(size as nat, |i: int| false))
            },
    {
        let bf_params = BFieldParams {
            n_hashes,
            marker_width,
            n_marker_bits,
            other: other_params,
        };
        let bv = if in_memory {
            match bv_from_memory(size) {
                Ok(bv) => bv,
                Err(e) => {
                    return Err(e);
                },
            }
        } else {
            let header = encode_params(&bf_params);
            proof {
                lemma_params_bytes_len(&bf_params);
            }
            match bv_create(filename, size, BF_MAGIC, header.as_slice()) {
                Ok(bv) => bv,
                Err(e) => {
                    return Err(e);
                },
            }
        };
        Ok(BFieldMember { bitvec: bv, filename: filename.to_owned(), params: bf_params })
    }

    /// Opens a member file, recovering its parameters from the header and
    /// rejecting a header or store that breaks the member invariants.
    pub fn open(filename: &str, read_only: bool) -> (r: Result<BFieldMember, std::io::Error>)
        ensures
            r matches Ok(m) ==> {
                &&& m.wf()
                &&& m.writable() == !read_only
                &&& m.filename@ == filename@
                &&& is_params_prefix(bv_header(m.bitvec))
                &&& m.params.n_hashes == bv_header(m.bitvec)[0]
                &&& m.params.marker_width == bv_header(m.bitvec)[1]
                &&& m.params.n_marker_bits == bv_header(m.bitvec)[2]
            },
    {
        let bv = match bv_open(filename, BF_MAGIC, read_only) {
            Ok(bv) => bv,
            Err(e) => {
                return Err(e);
            },
        };
        let decoded = {
            let header = bv_header_bytes(&bv);
            decode_params(header)
        };
        let params = match decoded {
            Option::Some(p) => p,
            Option::None => {
                return Err(err_invalid_data("member header does not parse"));
            },
        };
        if params.n_marker_bits < 1 || params.n_marker_bits > 9 {
            return Err(err_invalid_data("marker weight out of range"));
        }
        if params.marker_width <= params.n_marker_bits || params.marker_width > 128 {
            return Err(err_invalid_data("marker width out of range"));
        }
        if params.n_hashes < 1 || params.n_hashes > 16 {
            return Err(err_invalid_data("hash count out of range"));
        }
        let other_ok = match &params.other {
            Option::None => true,
            Option::Some(v) => v.len() <= 65000,
        };
        if !other_ok {
            return Err(err_invalid_data("user parameters too large"));
        }
        let size = bv_size(&bv);
        if size < 128 || params.marker_width as usize >= size {
            return Err(err_invalid_data("store too small for the marker width"));
        }
        Ok(BFieldMember { bitvec: bv, filename: filename.to_owned(), params })
    }

    /// Writes an in-memory member to its configured file; a member already
    /// backed by a file is left alone.  The member itself is unchanged, so
    /// every lookup answers exactly as before the call.
    pub fn persist_to_disk(self) -> (r: Result<BFieldMember, std::io::Error>)
        requires
            self.wf(),
        ensures
            r matches Ok(m) ==> m == self,
    {
        let header = encode_params(&self.params);
        proof {
            lemma_params_bytes_len(&self.params);
        }
        match bv_save_to_disk(&self.bitvec, self.filename.as_str(), BF_MAGIC, header.as_slice()) {
            Ok(_) => Ok(self),
            Err(e) => Err(e),
        }
    }

    /// Ors a marker into each of the key's k windows.
    fn insert_raw(&mut self, hash: (u64, u64), marker: u128)
        requires
            old(self).wf(),
            old(self).writable(),
            (marker as nat) < pow2(old(self).width_spec()),
        ensures
            final(self).params == old(self).params,
            final(self).filename == old(self).filename,
            final(self).writable(),
            final(self).wf(),
            final(self).bits() == inserted_upto(
                old(self).bits(),
                hash,
                old(self).k_spec(),
                old(self).width_spec(),
                marker as nat,
            ),
    {
        let ghost bits0 = self.bits();
        let ghost params0 = self.params;
        let ghost filename0 = self.filename;
        let width = self.params.marker_width as usize;
        let k = self.params.n_hashes;
        let size = bv_size(&self.bitvec);
        let mut i: u8 = 0;
        while i < k
            invariant
                i <= k,
                self.params == params0,
                self.filename == filename0,
                params_wf(&params0),
                self.writable(),
                width == params0.marker_width as usize,
                k == params0.n_hashes,
                size == bits0.len(),
                size >= 128,
                width < size,
                (marker as nat) < pow2(width as nat),
                self.bits() == inserted_upto(bits0, hash, i as nat, width as nat, marker as nat),
                self.bits().len() == bits0.len(),
            decreases k - i,
        {
            let pos = marker_pos(hash, i as usize, size, width);
            bv_set_range(&mut self.bitvec, pos, pos + width, marker);
            i = i + 1;
        }
    }

    /// Encodes the value as its weight-kappa marker and ors that marker into
    /// the k windows of the key.  Bits are only ever raised, so re-inserting
    /// the same pair is idempotent and no other key's window loses a bit.
    pub fn insert(&mut self, key: &[u8], value: BFieldVal)
        requires
            old(self).wf(),
            old(self).writable(),
            (value as nat) < binom(old(self).width_spec(), old(self).kappa_spec()),
        ensures
            final(self).params == old(self).params,
            final(self).filename == old(self).filename,
            final(self).writable(),
            final(self).wf(),
            final(self).bits() == inserted_upto(
                old(self).bits(),
                hash128_of(key@),
                old(self).k_spec(),
                old(self).width_spec(),
                nth_pattern(value as nat, old(self).kappa_spec()),
            ),
    {
        let hash = hash_key(key);
        proof {
            lemma_binom_mono(old(self).width_spec(), 128, old(self).kappa_spec());
            lemma_pattern_below_width(
                value as nat,
                old(self).kappa_spec(),
                old(self).width_spec(),
            );
        }
        let marker = rank(value as usize, self.params.n_marker_bits);
        self.insert_raw(hash, marker);
    }

    /// The and of the key's k windows, stopping early once the weight has
    /// fallen below kappa (the full intersection can then only be lighter).
    fn read_merged(&self, hash: (u64, u64)) -> (r: u128)
        requires
            self.wf(),
        ensures
            pop(merged_upto(self.bits(), hash, self.k_spec(), self.width_spec()) as nat)
                >= self.kappa_spec() ==> r == merged_upto(
                self.bits(),
                hash,
                self.k_spec(),
                self.width_spec(),
            ),
            pop(merged_upto(self.bits(), hash, self.k_spec(), self.width_spec()) as nat)
                < self.kappa_spec() ==> pop(r as nat) < self.kappa_spec(),
    {
        let width = self.params.marker_width as usize;
        let k = self.params.n_hashes;
        let kappa32 = self.params.n_marker_bits as u32;
        let size = bv_size(&self.bitvec);
        let mut merged: u128 = u128::MAX;
        let mut i: u8 = 0;
        while i < k
            invariant
                i <= k,
                self.wf(),
                width == self.params.marker_width as usize,
                k == self.params.n_hashes,
                kappa32 == self.params.n_marker_bits as u32,
                size == self.size_spec(),
                merged == merged_upto(self.bits(), hash, i as nat, self.width_spec()),
            decreases k - i,
        {
            let pos = marker_pos(hash, i as usize, size, width);
            let slice = bv_get_range(&self.bitvec, pos, pos + width);
            proof {
                lemma_range_val_bound(self.bits(), pos as int, (pos + width) as int);
            }
            merged = merged & slice;
            i = i + 1;
            if popcount128(merged) < kappa32 {
                proof {
                    lemma_merged_pop_mono(
                        self.bits(),
                        hash,
                        i as nat,
                        self.k_spec(),
                        self.width_spec(),
                    );
                }
                return merged;
            }
        }
        merged
    }

    /// Looks the key up: definitely absent, found with its value, or
    /// indeterminate when the merged marker is oversaturated.
    pub fn get(&self, key: &[u8]) -> (r: BFieldLookup)
        requires
            self.wf(),
        ensures
            r == self.lookup(key@),
    {
        let hash = hash_key(key);
        let kappa32 = self.params.n_marker_bits as u32;
        let merged = self.read_merged(hash);
        let pc = popcount128(merged);
        if pc > kappa32 {
            BFieldLookup::Indeterminate
        } else if pc == kappa32 {
            let v = unrank(merged);
            proof {
                assert(v as u32 == v % 0x100000000) by (bit_vector);
            }
            #[verifier::truncate]
            let val = v as u32;
            BFieldLookup::Found(val)
        } else {
            BFieldLookup::Absent
        }
    }

    /// Makes the key's slot either carry `value` or stop decoding at all:
    /// see `mask_or_insert_spec` for the four cases.  The poisoning case can
    /// push other keys that share these windows toward indeterminate; the
    /// caller accepts that risk.
    pub fn mask_or_insert(&mut self, key: &[u8], value: BFieldVal) -> (r: bool)
        requires
            old(self).wf(),
            old(self).writable(),
            (value as nat) < binom(old(self).width_spec(), old(self).kappa_spec()),
        ensures
            final(self).params == old(self).params,
            final(self).filename == old(self).filename,
            final(self).writable(),
            final(self).wf(),
            r == mask_or_insert_spec(
                old(self).bits(),
                hash128_of(key@),
                old(self).k_spec(),
                old(self).width_spec(),
                old(self).kappa_spec(),
                value as nat,
            ).0,
            final(self).bits() == mask_or_insert_spec(
                old(self).bits(),
                hash128_of(key@),
                old(self).k_spec(),
                old(self).width_spec(),
                old(self).kappa_spec(),
                value as nat,
            ).1,
    {
        let hash = hash_key(key);
        proof {
            lemma_binom_mono(old(self).width_spec(), 128, old(self).kappa_spec());
            lemma_pattern_below_width(
                value as nat,
                old(self).kappa_spec(),
                old(self).width_spec(),
            );
        }
        let correct = rank(value as usize, self.params.n_marker_bits);
        let kappa32 = self.params.n_marker_bits as u32;
        let existing = self.read_merged(hash);
        let pc = popcount128(existing);
        if pc > kappa32 {
            false
        } else if pc == kappa32 {
            if existing == correct {
                true
            } else {
                proof {
                    lemma_tos_le_pop(existing as nat);
                    lemma_merged_bound(
                        self.bits(),
                        hash,
                        self.k_spec(),
                        self.width_spec(),
                    );
                }
                let mut p: u32 = 0;
                while (existing >> (p as u128)) & 1 == 1
                    invariant
                        p as nat <= tos(existing as nat),
                        tos(existing as nat) <= 9,
                    decreases 10 - p,
                {
                    proof {
                        lemma_u128_shr_is_div(existing, p as u128);
                        lemma_u128_bit_step(existing >> (p as u128));
                        lemma_tos_bit(existing as nat, p as nat);
                    }
                    p = p + 1;
                }
                proof {
                    lemma_u128_shr_is_div(existing, p as u128);
                    lemma_u128_bit_step(existing >> (p as u128));
                    lemma_tos_bit(existing as nat, p as nat);
                    assert(p as nat == tos(existing as nat));
                    lemma_u128_or_clear_bit(existing, p as u128);
                    lemma_u128_one_shl(p as u128);
                    lemma_set_clear_bit(existing as nat, p as nat, self.width_spec());
                }
                let nm = existing | (1u128 << (p as u128));
                self.insert_raw(hash, nm);
                false
            }
        } else {
            self.insert_raw(hash, correct);
            true
        }
    }

    /// Number of set bits in positions [lo, hi) of the backing store.
    pub fn rank_range(&self, lo: usize, hi: usize) -> (r: usize)
        requires
            self.wf(),
            lo <= hi,
            (hi as nat) <= self.size_spec(),
        ensures
            r as nat == count_range(self.bits(), lo as int, hi as int),
    {
        let mut i = lo;
        let mut c: usize = 0;
        while i < hi
            invariant
                lo <= i <= hi,
                (hi as nat) <= self.size_spec(),
                self.wf(),
                c as nat == count_range(self.bits(), lo as int, i as int),
                c <= i - lo,
            decreases hi - i,
        {
            let chunk_end = if hi - i > 128 {
                i + 128
            } else {
                hi
            };
            let v = bv_get_range(&self.bitvec, i, chunk_end);
            let pc = popcount128(v);
            proof {
                lemma_range_val_pop(self.bits(), i as int, chunk_end as int);
                lemma_count_range_split(self.bits(), lo as int, i as int, chunk_end as int);
                lemma_count_range_le(self.bits(), i as int, chunk_end as int);
            }
            c = c + pc as usize;
            i = chunk_end;
        }
        c
    }

    /// The member's (size in bits, k, marker width, marker weight).
    pub fn info(&self) -> (r: (usize, u8, u8, u8))
        ensures
            r.0 as nat == self.size_spec(),
            r.1 == self.params.n_hashes,
            r.2 == self.params.marker_width,
            r.3 == self.params.n_marker_bits,
    {
        (
            bv_size(&self.bitvec),
            self.params.n_hashes,
            self.params.marker_width,
            self.params.n_marker_bits,
        )
    }
}

/// How many bytes the header encoding takes.
pub proof fn lemma_params_bytes_len(p: &BFieldParams)
    ensures
        params_bytes(p).len() == match p.other {
            Option::None => 4nat,
            Option::Some(v) => 12 + v@.len(),
        },
{
    match p.other {
        Option::None => {},
        Option::Some(v) => {
            lemma_le_bytes_len(v@.len(), 8);
        },
    }
}

/// A little-endian encoding has exactly its requested length.
proof fn lemma_le_bytes_len(n: nat, count: nat)
    ensures
        le_bytes(n, count).len() == count,
    decreases count,
{
    if count > 0 {
        lemma_le_bytes_len(n / 256, (count - 1) as nat);
    }
}

} // verus!
