//! The on-page record format.
//!
//! A record occupies exactly one page. All integers are little-endian.
//!
//! | offset | field     | type |
//! |--------|-----------|------|
//! | 0      | magic     | u32  |
//! | 4      | version   | u16  |
//! | 6      | checksum  | u32  |
//! | 10     | lsn       | u64  |
//! | 18     | key_len   | u32  |
//! | 22     | value_len | u32  |
//! | 26     | key, then value, then zero padding |
//!
//! The checksum is the CRC-32 (IEEE) of the bytes from offset 10 to the end
//! of the page.

use vstd::prelude::*;
use vstd::slice::{slice_subrange, slice_to_vec};
use crate::error::{Fault, IronCladError};

verus! {

/// Size of a page in bytes.
pub const PAGE_SIZE: usize = 4096;

/// Longest key, in bytes.
pub const KEY_MAX: usize = 256;

/// Bytes of a page taken up by the fixed fields in front of the key.
pub const HEADER_SIZE: usize = 26;

/// Offset of the first byte covered by the checksum.
pub const PAYLOAD_START: usize = 10;

/// The four bytes "IRON", read as a little-endian integer.
pub const PAGE_MAGIC: u32 = 0x4952_4F4E;

/// The only record layout version in existence.
pub const PAGE_VERSION: u16 = 1;

/// The reflected generator polynomial of CRC-32 (IEEE 802.3).
pub const CRC_POLY: u32 = 0xEDB8_8320;

// ---------------------------------------------------------------------------
// CRC-32
// ---------------------------------------------------------------------------

/// One step of the bit-serial CRC register: shift right, and fold the
/// polynomial in when the bit shifted out is set.
pub open spec fn crc_shift(c: u32) -> u32 {
    if c & 1 == 1 {
        (c >> 1) ^ CRC_POLY
    } else {
        c >> 1
    }
}

/// The register after `n` steps of the bit-serial shift.
pub open spec fn crc_shifts(c: u32, n: nat) -> u32
    decreases n,
{
    if n == 0 {
        c
    } else {
        crc_shift(crc_shifts(c, (n - 1) as nat))
    }
}

/// The register after absorbing one byte: the byte is folded into the low
/// bits, then the register is stepped once per bit.
pub open spec fn crc_absorb(c: u32, b: u8) -> u32 {
    crc_shifts(c ^ (b as u32), 8)
}

/// The register after absorbing `bytes` in order, starting from `c`.
pub open spec fn crc_register(c: u32, bytes: Seq<u8>) -> u32
    decreases bytes.len(),
{
    if bytes.len() == 0 {
        c
    } else {
        crc_absorb(crc_register(c, bytes.drop_last()), bytes.last())
    }
}

/// CRC-32 (IEEE) of `bytes`: the register starts at all ones and the result
/// is complemented.
pub open spec fn spec_crc32(bytes: Seq<u8>) -> u32 {
    crc_register(0xFFFF_FFFF, bytes) ^ 0xFFFF_FFFF
}

fn crc_step(c: u32) -> (r: u32)
    ensures
        r == crc_shift(c),
{
    if c & 1 == 1 {
        (c >> 1) ^ CRC_POLY
    } else {
        c >> 1
    }
}

fn crc_update(c: u32, b: u8) -> (r: u32)
    ensures
        r == crc_absorb(c, b),
{
    let mut r: u32 = c ^ (b as u32);
    let mut n: u8 = 0;
    while n < 8
        invariant
            n <= 8,
            r == crc_shifts(c ^ (b as u32), n as nat),
        decreases 8 - n,
    {
        r = crc_step(r);
        n += 1;
    }
    r
}

/// Computes the CRC-32 (IEEE) checksum of `data`.
pub fn crc32(data: &[u8]) -> (crc: u32)
    ensures
        crc == spec_crc32(data@),
{
    let mut c: u32 = 0xFFFF_FFFF;
    let mut i: usize = 0;
    while i < data.len()
        invariant
            i <= data.len(),
            c == crc_register(0xFFFF_FFFF, data@.take(i as int)),
        decreases data.len() - i,
    {
        proof {
            assert(data@.take(i + 1).drop_last() =~= data@.take(i as int));
        }
        c = crc_update(c, data[i]);
        i += 1;
    }
    proof {
        assert(data@.take(data.len() as int) =~= data@);
    }
    c ^ 0xFFFF_FFFF
}

/// Stepping the register never merges two states.
proof fn lemma_crc_shift_injective(a: u32, b: u32)
    requires
        crc_shift(a) == crc_shift(b),
    ensures
        a == b,
{
    assert(crc_shift(a) == crc_shift(b) ==> a == b) by (bit_vector);
}

proof fn lemma_crc_shifts_injective(a: u32, b: u32, n: nat)
    requires
        crc_shifts(a, n) == crc_shifts(b, n),
    ensures
        a == b,
    decreases n,
{
    if n > 0 {
        lemma_crc_shift_injective(crc_shifts(a, (n - 1) as nat), crc_shifts(b, (n - 1) as nat));
        lemma_crc_shifts_injective(a, b, (n - 1) as nat);
    }
}

/// Absorbing a byte is injective in the register and in the byte.
proof fn lemma_crc_absorb_injective(c1: u32, b1: u8, c2: u32, b2: u8)
    requires
        crc_absorb(c1, b1) == crc_absorb(c2, b2),
    ensures
        c1 == c2 ==> b1 == b2,
        b1 == b2 ==> c1 == c2,
{
    lemma_crc_shifts_injective(c1 ^ (b1 as u32), c2 ^ (b2 as u32), 8);
    assert(c1 ^ (b1 as u32) == c2 ^ (b2 as u32) ==> (c1 == c2 ==> b1 == b2)) by (bit_vector);
    assert(c1 ^ (b1 as u32) == c2 ^ (b2 as u32) ==> (b1 == b2 ==> c1 == c2)) by (bit_vector);
}

/// Two byte strings of one length that differ in exactly one position leave
/// the register in different states.
proof fn lemma_crc_register_detects_one_byte(c: u32, a: Seq<u8>, b: Seq<u8>, at: int)
    requires
        a.len() == b.len(),
        0 <= at < a.len(),
        a[at] != b[at],
        forall|j: int| 0 <= j < a.len() && j != at ==> a[j] == b[j],
    ensures
        crc_register(c, a) != crc_register(c, b),
    decreases a.len(),
{
    let last = a.len() - 1;
    if at == last {
        assert(a.drop_last() =~= b.drop_last());
    } else {
        lemma_crc_register_detects_one_byte(c, a.drop_last(), b.drop_last(), at);
    }
    if crc_register(c, a) == crc_register(c, b) {
        lemma_crc_absorb_injective(
            crc_register(c, a.drop_last()),
            a.last(),
            crc_register(c, b.drop_last()),
            b.last(),
        );
    }
}

/// CRC-32 tells apart any two byte strings of one length that differ in
/// exactly one byte.
pub proof fn lemma_crc32_detects_one_byte(a: Seq<u8>, b: Seq<u8>, at: int)
    requires
        a.len() == b.len(),
        0 <= at < a.len(),
        a[at] != b[at],
        forall|j: int| 0 <= j < a.len() && j != at ==> a[j] == b[j],
    ensures
        spec_crc32(a) != spec_crc32(b),
{
    lemma_crc_register_detects_one_byte(0xFFFF_FFFF, a, b, at);
    let x = crc_register(0xFFFF_FFFF, a);
    let y = crc_register(0xFFFF_FFFF, b);
    assert(x ^ 0xFFFF_FFFFu32 == y ^ 0xFFFF_FFFFu32 ==> x == y) by (bit_vector);
}

// ---------------------------------------------------------------------------
// Little-endian integers
// ---------------------------------------------------------------------------

/// A run of `n` zero bytes.
pub open spec fn zeros(n: nat) -> Seq<u8> {
    Seq::new(n, |i: int| 0u8)
}

/// The two bytes of `x`, least significant first.
pub open spec fn u16_le(x: u16) -> Seq<u8> {
    seq![(x & 0xff) as u8, ((x >> 8) & 0xff) as u8]
}

/// The four bytes of `x`, least significant first.
pub open spec fn u32_le(x: u32) -> Seq<u8> {
    seq![
        (x & 0xff) as u8,
        ((x >> 8) & 0xff) as u8,
        ((x >> 16) & 0xff) as u8,
        ((x >> 24) & 0xff) as u8,
    ]
}

/// The eight bytes of `x`, least significant first.
pub open spec fn u64_le(x: u64) -> Seq<u8> {
    u32_le((x & 0xffff_ffff) as u32) + u32_le(((x >> 32) & 0xffff_ffff) as u32)
}

/// The integer whose little-endian bytes are `b[0]` and `b[1]`.
pub open spec fn u16_from_le(b: Seq<u8>) -> u16 {
    (b[0] as u16) | ((b[1] as u16) << 8)
}

/// The integer whose little-endian bytes are `b[0]` to `b[3]`.
pub open spec fn u32_from_le(b: Seq<u8>) -> u32 {
    (b[0] as u32) | ((b[1] as u32) << 8) | ((b[2] as u32) << 16) | ((b[3] as u32) << 24)
}

/// The integer whose little-endian bytes are `b[0]` to `b[7]`.
pub open spec fn u64_from_le(b: Seq<u8>) -> u64 {
    (u32_from_le(b.subrange(0, 4)) as u64) | ((u32_from_le(b.subrange(4, 8)) as u64) << 32)
}

/// Reading back the two bytes of an integer gives the integer.
pub proof fn lemma_u16_round_trip(x: u16)
    ensures
        u16_from_le(u16_le(x)) == x,
{
    assert((((x & 0xff) as u8) as u16) | ((((x >> 8) & 0xff) as u8) as u16) << 8 == x)
        by (bit_vector);
}

/// Reading back the four bytes of an integer gives the integer.
pub proof fn lemma_u32_round_trip(x: u32)
    ensures
        u32_from_le(u32_le(x)) == x,
{
    assert((((x & 0xff) as u8) as u32) | ((((x >> 8) & 0xff) as u8) as u32) << 8 | ((((x >> 16)
        & 0xff) as u8) as u32) << 16 | ((((x >> 24) & 0xff) as u8) as u32) << 24 == x)
        by (bit_vector);
}

/// Reading back the eight bytes of an integer gives the integer.
pub proof fn lemma_u64_round_trip(x: u64)
    ensures
        u64_from_le(u64_le(x)) == x,
{
    let lo = (x & 0xffff_ffff) as u32;
    let hi = ((x >> 32) & 0xffff_ffff) as u32;
    lemma_u32_round_trip(lo);
    lemma_u32_round_trip(hi);
    assert(u64_le(x).subrange(0, 4) =~= u32_le(lo));
    assert(u64_le(x).subrange(4, 8) =~= u32_le(hi));
    assert(((x & 0xffff_ffff) as u32) as u64 | ((((x >> 32) & 0xffff_ffff) as u32) as u64) << 32
        == x) by (bit_vector);
}

/// Four bytes that differ anywhere read as different integers.
proof fn lemma_u32_from_le_injective(a: Seq<u8>, b: Seq<u8>)
    requires
        a.len() == 4,
        b.len() == 4,
        u32_from_le(a) == u32_from_le(b),
    ensures
        a =~= b,
{
    let (a0, a1, a2, a3) = (a[0], a[1], a[2], a[3]);
    let (b0, b1, b2, b3) = (b[0], b[1], b[2], b[3]);
    assert((a0 as u32) | ((a1 as u32) << 8) | ((a2 as u32) << 16) | ((a3 as u32) << 24) == (
    b0 as u32) | ((b1 as u32) << 8) | ((b2 as u32) << 16) | ((b3 as u32) << 24) ==> a0 == b0
        && a1 == b1 && a2 == b2 && a3 == b3) by (bit_vector);
}

/// Two bytes that differ anywhere read as different integers.
proof fn lemma_u16_from_le_injective(a: Seq<u8>, b: Seq<u8>)
    requires
        a.len() == 2,
        b.len() == 2,
        u16_from_le(a) == u16_from_le(b),
    ensures
        a =~= b,
{
    let (a0, a1) = (a[0], a[1]);
    let (b0, b1) = (b[0], b[1]);
    assert((a0 as u16) | ((a1 as u16) << 8) == (b0 as u16) | ((b1 as u16) << 8) ==> a0 == b0
        && a1 == b1) by (bit_vector);
}

fn push_u16(out: &mut Vec<u8>, x: u16)
    ensures
        final(out)@ == old(out)@ + u16_le(x),
{
    out.push((x & 0xff) as u8);
    out.push(((x >> 8) & 0xff) as u8);
    proof {
        assert(final(out)@ =~= old(out)@ + u16_le(x));
    }
}

fn push_u32(out: &mut Vec<u8>, x: u32)
    ensures
        final(out)@ == old(out)@ + u32_le(x),
{
    out.push((x & 0xff) as u8);
    out.push(((x >> 8) & 0xff) as u8);
    out.push(((x >> 16) & 0xff) as u8);
    out.push(((x >> 24) & 0xff) as u8);
    proof {
        assert(final(out)@ =~= old(out)@ + u32_le(x));
    }
}

fn push_u64(out: &mut Vec<u8>, x: u64)
    ensures
        final(out)@ == old(out)@ + u64_le(x),
{
    push_u32(out, (x & 0xffff_ffff) as u32);
    push_u32(out, ((x >> 32) & 0xffff_ffff) as u32);
    proof {
        assert(final(out)@ =~= old(out)@ + u64_le(x));
    }
}

fn append_bytes(out: &mut Vec<u8>, data: &[u8])
    ensures
        final(out)@ == old(out)@ + data@,
{
    out.extend_from_slice(data);
    proof {
        assert(final(out)@ =~= old(out)@ + data@);
    }
}

fn pad_with_zeros(out: &mut Vec<u8>, len: usize)
    requires
        old(out)@.len() <= len,
    ensures
        final(out)@ == old(out)@ + zeros((len - old(out)@.len()) as nat),
{
    out.resize(len, 0u8);
    proof {
        let grown = old(out)@ + zeros((len - old(out)@.len()) as nat);
        assert forall|i: int| 0 <= i < grown.len() implies final(out)@[i] == grown[i] by {
            if i < old(out)@.len() {
                assert(final(out)@.subrange(0, old(out)@.len() as int)[i] == old(out)@[i]);
            }
        }
        assert(final(out)@ =~= grown);
    }
}

fn read_u16(data: &[u8], at: usize) -> (x: u16)
    requires
        at + 2 <= data@.len(),
    ensures
        x == u16_from_le(data@.subrange(at as int, at + 2)),
{
    (data[at] as u16) | ((data[at + 1] as u16) << 8)
}

fn read_u32(data: &[u8], at: usize) -> (x: u32)
    requires
        at + 4 <= data@.len(),
    ensures
        x == u32_from_le(data@.subrange(at as int, at + 4)),
{
    (data[at] as u32) | ((data[at + 1] as u32) << 8) | ((data[at + 2] as u32) << 16) | ((data[at
        + 3] as u32) << 24)
}

fn read_u64(data: &[u8], at: usize) -> (x: u64)
    requires
        at + 8 <= data@.len(),
    ensures
        x == u64_from_le(data@.subrange(at as int, at + 8)),
{
    let lo = read_u32(data, at);
    assert(data.len() == data@.len());
    let hi = read_u32(data, at + 4);
    proof {
        let b = data@.subrange(at as int, at + 8);
        assert(b.subrange(0, 4) =~= data@.subrange(at as int, at + 4));
        assert(b.subrange(4, 8) =~= data@.subrange(at + 4, at + 8));
    }
    (lo as u64) | ((hi as u64) << 32)
}

// ---------------------------------------------------------------------------
// Records
// ---------------------------------------------------------------------------

/// A decoded record.
#[derive(Debug)]
pub struct Record {
    pub key: Vec<u8>,
    pub value: Vec<u8>,
    pub lsn: u64,
}

/// True when a key and a value can share one page.
pub open spec fn fits(key: Seq<u8>, value: Seq<u8>) -> bool {
    key.len() <= KEY_MAX && HEADER_SIZE + key.len() + value.len() <= PAGE_SIZE
}

/// The part of a record's page that the checksum covers.
pub open spec fn record_payload(key: Seq<u8>, value: Seq<u8>, lsn: u64) -> Seq<u8>
    recommends
        fits(key, value),
{
    u64_le(lsn) + u32_le(key.len() as u32) + u32_le(value.len() as u32) + key + value + zeros(
        (PAGE_SIZE - HEADER_SIZE - key.len() - value.len()) as nat,
    )
}

/// The page that holds the record `(key, value, lsn)`.
pub open spec fn record_page(key: Seq<u8>, value: Seq<u8>, lsn: u64) -> Seq<u8>
    recommends
        fits(key, value),
{
    u32_le(PAGE_MAGIC) + u16_le(PAGE_VERSION) + u32_le(spec_crc32(record_payload(key, value, lsn)))
        + record_payload(key, value, lsn)
}

/// The magic number stored in a page.
pub open spec fn page_magic(p: Seq<u8>) -> u32 {
    u32_from_le(p.subrange(0, 4))
}

/// The layout version stored in a page.
pub open spec fn page_version(p: Seq<u8>) -> u16 {
    u16_from_le(p.subrange(4, 6))
}

/// The checksum stored in a page.
pub open spec fn page_checksum(p: Seq<u8>) -> u32 {
    u32_from_le(p.subrange(6, 10))
}

/// The bytes of a page that its checksum covers.
pub open spec fn page_payload(p: Seq<u8>) -> Seq<u8> {
    p.subrange(PAYLOAD_START as int, p.len() as int)
}

/// The sequence number stored in a page.
pub open spec fn page_lsn(p: Seq<u8>) -> u64 {
    u64_from_le(p.subrange(10, 18))
}

/// The key length stored in a page.
pub open spec fn page_key_len(p: Seq<u8>) -> nat {
    u32_from_le(p.subrange(18, 22)) as nat
}

/// The value length stored in a page.
pub open spec fn page_value_len(p: Seq<u8>) -> nat {
    u32_from_le(p.subrange(22, 26)) as nat
}

/// The key bytes of a page.
pub open spec fn page_key(p: Seq<u8>) -> Seq<u8> {
    p.subrange(HEADER_SIZE as int, HEADER_SIZE + page_key_len(p))
}

/// The value bytes of a page.
pub open spec fn page_value(p: Seq<u8>) -> Seq<u8> {
    p.subrange(HEADER_SIZE + page_key_len(p), HEADER_SIZE + page_key_len(p) + page_value_len(p))
}

/// A page of the right size that carries the magic number and a known version.
pub open spec fn well_framed(p: Seq<u8>) -> bool {
    &&& p.len() == PAGE_SIZE
    &&& page_magic(p) == PAGE_MAGIC
    &&& page_version(p) == PAGE_VERSION
}

/// The stored checksum is the checksum of the payload.
pub open spec fn checksum_matches(p: Seq<u8>) -> bool {
    page_checksum(p) == spec_crc32(page_payload(p))
}

/// The stored lengths describe a key and a value that lie inside the page.
pub open spec fn lengths_in_range(p: Seq<u8>) -> bool {
    page_key_len(p) <= KEY_MAX && HEADER_SIZE + page_key_len(p) + page_value_len(p) <= PAGE_SIZE
}

/// A valid record: anything else is a tombstone, an unused page or corruption.
pub open spec fn valid_record(p: Seq<u8>) -> bool {
    well_framed(p) && checksum_matches(p) && lengths_in_range(p)
}

/// Why a page whose checksum cannot be blamed is still not a record.
pub open spec fn format_fault(p: Seq<u8>) -> Seq<char> {
    if p.len() != PAGE_SIZE {
        "Invalid page size"@
    } else if page_magic(p) != PAGE_MAGIC {
        "bad magic number"@
    } else if page_version(p) != PAGE_VERSION {
        "unknown record version"@
    } else {
        "record lengths out of range"@
    }
}

/// The error that decoding a page that holds no valid record fails with: a
/// checksum mismatch where the page is well framed, a format error else.
pub open spec fn decode_fault(page_id: u64, p: Seq<u8>) -> Fault
    recommends
        !valid_record(p),
{
    if well_framed(p) && !checksum_matches(p) {
        Fault::ChecksumMismatch {
            page_id,
            expected: page_checksum(p),
            actual: spec_crc32(page_payload(p)),
        }
    } else {
        Fault::InvalidPageFormat { reason: format_fault(p) }
    }
}

/// The tombstone: a page of zeros, which is never a valid record.
pub fn zero_page() -> (page: Vec<u8>)
    ensures
        page@ == zeros(PAGE_SIZE as nat),
        !valid_record(page@),
{
    let page = vec![0u8; PAGE_SIZE];
    proof {
        assert(page@ =~= zeros(PAGE_SIZE as nat));
        lemma_zero_page_invalid();
    }
    page
}

/// A page of zeros carries no magic number.
pub proof fn lemma_zero_page_invalid()
    ensures
        !valid_record(zeros(PAGE_SIZE as nat)),
{
    let p = zeros(PAGE_SIZE as nat);
    let m = p.subrange(0, 4);
    assert(m[0] == 0 && m[1] == 0 && m[2] == 0 && m[3] == 0);
    assert((0u8 as u32) | ((0u8 as u32) << 8) | ((0u8 as u32) << 16) | ((0u8 as u32) << 24) == 0)
        by (bit_vector);
}

/// The error that encoding a key and a value that do not fit fails with.
pub open spec fn size_fault(key: Seq<u8>, value: Seq<u8>) -> Fault
    recommends
        !fits(key, value),
{
    if key.len() > KEY_MAX {
        Fault::KeyTooLarge { size: key.len() as usize, max: KEY_MAX }
    } else {
        Fault::ValueTooLarge {
            size: value.len() as usize,
            max: (PAGE_SIZE - HEADER_SIZE - key.len()) as usize,
        }
    }
}

/// Checks that a key of `key_len` bytes and a value of `value_len` bytes
/// fit into one page.
pub fn check_fits(key_len: usize, value_len: usize) -> (r: Result<(), IronCladError>)
    ensures
        match r {
            Ok(()) => key_len <= KEY_MAX && HEADER_SIZE + key_len + value_len <= PAGE_SIZE,
            Err(e) => {
                &&& !(key_len <= KEY_MAX && HEADER_SIZE + key_len + value_len <= PAGE_SIZE)
                &&& e@ == if key_len > KEY_MAX {
                    Fault::KeyTooLarge { size: key_len, max: KEY_MAX }
                } else {
                    Fault::ValueTooLarge {
                        size: value_len,
                        max: (PAGE_SIZE - HEADER_SIZE - key_len) as usize,
                    }
                }
            },
        },
{
    if key_len > KEY_MAX {
        return Err(IronCladError::KeyTooLarge { size: key_len, max: KEY_MAX });
    }
    let room = PAGE_SIZE - HEADER_SIZE - key_len;
    if value_len > room {
        return Err(IronCladError::ValueTooLarge { size: value_len, max: room });
    }
    Ok(())
}

/// Encodes a record into a fresh page.
///
/// Fails with `KeyTooLarge` when the key exceeds `KEY_MAX` bytes, and with
/// `ValueTooLarge` when key and value together do not fit behind the header.
pub fn encode_page(key: &[u8], value: &[u8], lsn: u64) -> (r: Result<Vec<u8>, IronCladError>)
    ensures
        match r {
            Ok(page) => {
                &&& fits(key@, value@)
                &&& page@ == record_page(key@, value@, lsn)
                &&& valid_record(page@)
                &&& page_key(page@) == key@
                &&& page_value(page@) == value@
                &&& page_lsn(page@) == lsn
            },
            Err(e) => !fits(key@, value@) && e@ == size_fault(key@, value@),
        },
{
    let key_len = key.len();
    let value_len = value.len();
    match check_fits(key_len, value_len) {
        Ok(()) => {},
        Err(e) => {
            return Err(e);
        },
    }
    let mut page: Vec<u8> = Vec::with_capacity(PAGE_SIZE);
    push_u32(&mut page, PAGE_MAGIC);
    push_u16(&mut page, PAGE_VERSION);
    push_u32(&mut page, 0);
    push_u64(&mut page, lsn);
    push_u32(&mut page, key_len as u32);
    push_u32(&mut page, value_len as u32);
    append_bytes(&mut page, key);
    append_bytes(&mut page, value);
    pad_with_zeros(&mut page, PAGE_SIZE);
    let ghost payload = record_payload(key@, value@, lsn);
    let ghost frame = u32_le(PAGE_MAGIC) + u16_le(PAGE_VERSION);
    assert(page@ =~= frame + u32_le(0) + payload);
    let crc = crc32(slice_subrange(page.as_slice(), PAYLOAD_START, PAGE_SIZE));
    assert(page@.subrange(PAYLOAD_START as int, PAGE_SIZE as int) =~= payload);
    let mut sum: Vec<u8> = Vec::with_capacity(4);
    push_u32(&mut sum, crc);
    page[6] = sum[0];
    page[7] = sum[1];
    page[8] = sum[2];
    page[9] = sum[3];
    proof {
        assert(page@ =~= record_page(key@, value@, lsn));
        lemma_record_round_trip(key@, value@, lsn);
    }
    Ok(page)
}

/// Decoding undoes encoding: the page of a record that fits is valid and
/// yields the record's key, value and sequence number.
pub proof fn lemma_record_round_trip(key: Seq<u8>, value: Seq<u8>, lsn: u64)
    requires
        fits(key, value),
    ensures
        valid_record(record_page(key, value, lsn)),
        page_key(record_page(key, value, lsn)) == key,
        page_value(record_page(key, value, lsn)) == value,
        page_lsn(record_page(key, value, lsn)) == lsn,
{
    let payload = record_payload(key, value, lsn);
    let crc = spec_crc32(payload);
    let p = record_page(key, value, lsn);
    let k = key.len() as u32;
    let v = value.len() as u32;
    assert(p.len() == PAGE_SIZE);
    assert(p.subrange(0, 4) =~= u32_le(PAGE_MAGIC));
    assert(p.subrange(4, 6) =~= u16_le(PAGE_VERSION));
    assert(p.subrange(6, 10) =~= u32_le(crc));
    assert(page_payload(p) =~= payload);
    assert(p.subrange(10, 18) =~= u64_le(lsn));
    assert(p.subrange(18, 22) =~= u32_le(k));
    assert(p.subrange(22, 26) =~= u32_le(v));
    lemma_u16_round_trip(PAGE_VERSION);
    lemma_u32_round_trip(PAGE_MAGIC);
    lemma_u64_round_trip(lsn);
    lemma_u32_round_trip(crc);
    lemma_u32_round_trip(k);
    lemma_u32_round_trip(v);
    assert(page_key(p) =~= key);
    assert(page_value(p) =~= value);
}

/// Decodes the record held in `page`, which was read as page `page_id`.
///
/// Succeeds exactly on valid records. A well-framed page whose checksum does
/// not match fails with `ChecksumMismatch`; every other invalid page fails
/// with `InvalidPageFormat`.
pub fn decode_page(page_id: u64, page: &[u8]) -> (r: Result<Record, IronCladError>)
    ensures
        match r {
            Ok(rec) => {
                &&& valid_record(page@)
                &&& rec.key@ == page_key(page@)
                &&& rec.value@ == page_value(page@)
                &&& rec.lsn == page_lsn(page@)
            },
            Err(e) => !valid_record(page@) && e@ == decode_fault(page_id, page@),
        },
{
    if page.len() != PAGE_SIZE {
        return Err(IronCladError::InvalidPageFormat { reason: "Invalid page size".to_string() });
    }
    if read_u32(page, 0) != PAGE_MAGIC {
        return Err(IronCladError::InvalidPageFormat { reason: "bad magic number".to_string() });
    }
    if read_u16(page, 4) != PAGE_VERSION {
        return Err(
            IronCladError::InvalidPageFormat { reason: "unknown record version".to_string() },
        );
    }
    let expected = read_u32(page, 6);
    let actual = crc32(slice_subrange(page, PAYLOAD_START, PAGE_SIZE));
    if expected != actual {
        return Err(IronCladError::ChecksumMismatch { page_id, expected, actual });
    }
    let lsn = read_u64(page, 10);
    let key_len = read_u32(page, 18) as usize;
    let value_len = read_u32(page, 22) as usize;
    if key_len > KEY_MAX || value_len > PAGE_SIZE - HEADER_SIZE - key_len {
        return Err(
            IronCladError::InvalidPageFormat { reason: "record lengths out of range".to_string() },
        );
    }
    let key = slice_to_vec(slice_subrange(page, HEADER_SIZE, HEADER_SIZE + key_len));
    let value = slice_to_vec(
        slice_subrange(page, HEADER_SIZE + key_len, HEADER_SIZE + key_len + value_len),
    );
    Ok(Record { key, value, lsn })
}

/// Integrity: changing any single byte of a valid record makes it invalid.
pub proof fn lemma_corruption_detected(p: Seq<u8>, q: Seq<u8>, at: int)
    requires
        valid_record(p),
        q.len() == p.len(),
        0 <= at < p.len(),
        q[at] != p[at],
        forall|j: int| 0 <= j < p.len() && j != at ==> q[j] == p[j],
    ensures
        !valid_record(q),
{
    if at < 4 {
        assert(p.subrange(0, 4)[at] != q.subrange(0, 4)[at]);
        if page_magic(q) == page_magic(p) {
            lemma_u32_from_le_injective(p.subrange(0, 4), q.subrange(0, 4));
        }
    } else if at < 6 {
        assert(p.subrange(4, 6)[at - 4] != q.subrange(4, 6)[at - 4]);
        if page_version(q) == page_version(p) {
            lemma_u16_from_le_injective(p.subrange(4, 6), q.subrange(4, 6));
        }
    } else if at < 10 {
        assert(p.subrange(6, 10)[at - 6] != q.subrange(6, 10)[at - 6]);
        assert(page_payload(p) =~= page_payload(q));
        if page_checksum(q) == page_checksum(p) {
            lemma_u32_from_le_injective(p.subrange(6, 10), q.subrange(6, 10));
        }
    } else {
        assert(p.subrange(6, 10) =~= q.subrange(6, 10));
        lemma_crc32_detects_one_byte(page_payload(p), page_payload(q), at - 10);
    }
}

} // verus!
