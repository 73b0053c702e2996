//! The text of a log record.
//!
//! Every record is one JSON object on one line:
//!
//! ```text
//! {"Set":{"key":"<key>","value":"<value>"}}
//! {"Delete":{"key":"<key>"}}
//! {"Checkpoint":{"lsn":<number>}}
//! ```
//!
//! Strings are written as UTF-8 with the quotation mark, the backslash and
//! the control characters escaped; numbers in decimal without leading zeros.
//! Only this exact form is read back: every other line counts as corrupted.

use vstd::prelude::*;
use vstd::utf8::{encode_utf8, valid_utf8};
use crate::text::text_of;
use crate::wal::{LogRecord, WalEntry};

verus! {

/// `"`
pub const QUOTE: u8 = 0x22;

/// `\`
pub const BACKSLASH: u8 = 0x5c;

/// The byte that ends a line.
pub const NEWLINE: u8 = 0x0a;

// ---------------------------------------------------------------------------
// Escaped strings
// ---------------------------------------------------------------------------

/// The lower-case hexadecimal digit for `n`.
pub open spec fn hex_digit(n: u8) -> u8
    recommends
        n < 16,
{
    if n < 10 {
        (0x30 + n) as u8
    } else {
        (0x57 + n) as u8
    }
}

/// How one byte of a string is written.
pub open spec fn escape_byte(b: u8) -> Seq<u8> {
    if b == 0x22 {
        seq![0x5cu8, 0x22u8]
    } else if b == 0x5c {
        seq![0x5cu8, 0x5cu8]
    } else if b == 0x08 {
        seq![0x5cu8, 0x62u8]
    } else if b == 0x0c {
        seq![0x5cu8, 0x66u8]
    } else if b == 0x0a {
        seq![0x5cu8, 0x6eu8]
    } else if b == 0x0d {
        seq![0x5cu8, 0x72u8]
    } else if b == 0x09 {
        seq![0x5cu8, 0x74u8]
    } else if b < 0x20 {
        seq![0x5cu8, 0x75u8, 0x30u8, 0x30u8, hex_digit(b >> 4), hex_digit(b & 0x0f)]
    } else {
        seq![b]
    }
}

/// How a string is written, without the quotation marks around it.
pub open spec fn escaped(s: Seq<u8>) -> Seq<u8>
    decreases s.len(),
{
    if s.len() == 0 {
        Seq::empty()
    } else {
        escaped(s.drop_last()) + escape_byte(s.last())
    }
}

/// `part` stands in `bytes` at offset `at`.
pub open spec fn has_at(bytes: Seq<u8>, at: int, part: Seq<u8>) -> bool {
    &&& 0 <= at
    &&& at + part.len() <= bytes.len()
    &&& bytes.subrange(at, at + part.len()) == part
}

/// The written form of `s` stands in `bytes` from `start` to `end`, where a
/// quotation mark closes it.
pub open spec fn closes_at(bytes: Seq<u8>, start: int, s: Seq<u8>, end: int) -> bool {
    &&& 0 <= start <= end < bytes.len()
    &&& bytes.subrange(start, end) == escaped(s)
    &&& bytes[end] == QUOTE
}

/// The first byte of an escaped byte is never a quotation mark, and no byte
/// of it ends a line.
proof fn lemma_escape_byte_shape(b: u8)
    ensures
        1 <= escape_byte(b).len() <= 6,
        escape_byte(b)[0] != QUOTE,
        forall|i: int| 0 <= i < escape_byte(b).len() ==> escape_byte(b)[i] != NEWLINE,
{
    if b < 0x20 {
        let hi = b >> 4;
        let lo = b & 0x0f;
        assert(hi < 2 && lo < 16) by (bit_vector)
            requires
                b < 0x20,
                hi == b >> 4,
                lo == b & 0x0f,
        ;
    }
}

/// The written form of a byte determines the byte.
proof fn lemma_escape_byte_unique(bytes: Seq<u8>, at: int, b1: u8, b2: u8)
    requires
        has_at(bytes, at, escape_byte(b1)),
        has_at(bytes, at, escape_byte(b2)),
    ensures
        b1 == b2,
{
    let u1 = escape_byte(b1);
    let u2 = escape_byte(b2);
    lemma_escape_byte_shape(b1);
    lemma_escape_byte_shape(b2);
    let w1 = bytes.subrange(at, at + u1.len());
    let w2 = bytes.subrange(at, at + u2.len());
    assert(w1[0] == bytes[at] && w2[0] == bytes[at]);
    if u1[0] == BACKSLASH {
        assert(w1[1] == bytes[at + 1] && w2[1] == bytes[at + 1]);
        if u1[1] == 0x75 {
            assert(w1[4] == bytes[at + 4] && w2[4] == bytes[at + 4]);
            assert(w1[5] == bytes[at + 5] && w2[5] == bytes[at + 5]);
            lemma_hex_pair_unique(b1, b2);
        }
    }
}

/// Two control characters with the same two hexadecimal digits are equal.
proof fn lemma_hex_pair_unique(b1: u8, b2: u8)
    requires
        b1 < 0x20,
        b2 < 0x20,
        hex_digit(b1 >> 4) == hex_digit(b2 >> 4),
        hex_digit(b1 & 0x0f) == hex_digit(b2 & 0x0f),
    ensures
        b1 == b2,
{
    let (h1, l1, h2, l2) = (b1 >> 4, b1 & 0x0f, b2 >> 4, b2 & 0x0f);
    assert(h1 < 2 && l1 < 16 && h2 < 2 && l2 < 16 && (h1 == h2 && l1 == l2 ==> b1 == b2))
        by (bit_vector)
        requires
            b1 < 0x20,
            b2 < 0x20,
            h1 == b1 >> 4,
            l1 == b1 & 0x0f,
            h2 == b2 >> 4,
            l2 == b2 & 0x0f,
    ;
}

/// The written form of a string starts with the written form of its first byte.
proof fn lemma_escaped_front(s: Seq<u8>)
    requires
        s.len() > 0,
    ensures
        escaped(s) == escape_byte(s[0]) + escaped(s.skip(1)),
    decreases s.len(),
{
    if s.len() == 1 {
        assert(s.drop_last() =~= Seq::<u8>::empty());
        assert(s.skip(1) =~= Seq::<u8>::empty());
        assert(escaped(s.drop_last()) =~= Seq::<u8>::empty());
        assert(escaped(s) =~= escape_byte(s[0]) + escaped(s.skip(1)));
    } else {
        lemma_escaped_front(s.drop_last());
        assert(s.drop_last().skip(1) =~= s.skip(1).drop_last());
        assert(s.drop_last()[0] == s[0]);
        assert(s.skip(1).last() == s.last());
        assert(escaped(s) =~= escape_byte(s[0]) + escaped(s.skip(1)));
    }
}

/// No byte of a written string ends a line.
proof fn lemma_escaped_has_no_newline(s: Seq<u8>)
    ensures
        forall|i: int| 0 <= i < escaped(s).len() ==> escaped(s)[i] != NEWLINE,
    decreases s.len(),
{
    if s.len() > 0 {
        lemma_escaped_has_no_newline(s.drop_last());
        lemma_escape_byte_shape(s.last());
        let head = escaped(s.drop_last());
        let unit = escape_byte(s.last());
        assert forall|i: int| 0 <= i < escaped(s).len() implies escaped(s)[i] != NEWLINE by {
            if i < head.len() {
                assert(escaped(s)[i] == head[i]);
            } else {
                assert(escaped(s)[i] == unit[i - head.len()]);
            }
        }
    }
}

/// A string that closes at some place is longer than, and starts like, any
/// string whose written form stands at the same start.
#[verifier::rlimit(50)]
proof fn lemma_closing_extends(bytes: Seq<u8>, start: int, read: Seq<u8>, at: int, s: Seq<u8>, end: int)
    requires
        0 <= start <= at <= bytes.len(),
        bytes.subrange(start, at) == escaped(read),
        closes_at(bytes, start, s, end),
    ensures
        read.len() <= s.len(),
        s.take(read.len() as int) == read,
        closes_at(bytes, at, s.skip(read.len() as int), end),
    decreases read.len(),
{
    if read.len() == 0 {
        assert(s.take(0) =~= read);
        assert(s.skip(0) =~= s);
        assert(escaped(read) =~= Seq::<u8>::empty());
        assert(bytes.subrange(start, at).len() == 0);
    } else {
        let shorter = read.drop_last();
        let last_unit = escape_byte(read.last());
        let mid = at - last_unit.len();
        let whole = bytes.subrange(start, at);
        lemma_escape_byte_shape(read.last());
        assert(whole == escaped(shorter) + last_unit);
        assert(whole.len() == escaped(shorter).len() + last_unit.len());
        assert(mid - start == escaped(shorter).len());
        assert(bytes.subrange(start, mid) =~= escaped(shorter)) by {
            assert(bytes.subrange(start, mid) =~= whole.subrange(0, mid - start));
            assert(whole.subrange(0, mid - start) =~= escaped(shorter));
        }
        lemma_closing_extends(bytes, start, shorter, mid, s, end);
        let rest = s.skip(shorter.len() as int);
        // `rest` closes at `mid`, where the written form of `read.last()` stands
        assert(has_at(bytes, mid, last_unit)) by {
            assert(bytes.subrange(mid, at) =~= whole.subrange(mid - start, at - start));
            assert(whole.subrange(mid - start, at - start) =~= last_unit);
        }
        if rest.len() == 0 {
            assert(escaped(rest) =~= Seq::<u8>::empty());
            assert(bytes.subrange(mid, end).len() == 0);
            assert(escape_byte(read.last())[0] == bytes.subrange(mid, at)[0]);
            assert(false);
        }
        lemma_escaped_front(rest);
        lemma_escape_byte_shape(rest[0]);
        let unit = escape_byte(rest[0]);
        assert(has_at(bytes, mid, unit)) by {
            let closing = bytes.subrange(mid, end);
            assert(closing == unit + escaped(rest.skip(1)));
            assert(closing.len() == unit.len() + escaped(rest.skip(1)).len());
            assert(bytes.subrange(mid, mid + unit.len()) =~= closing.subrange(
                0,
                unit.len() as int,
            ));
            assert(closing.subrange(0, unit.len() as int) =~= unit);
        }
        lemma_escape_byte_unique(bytes, mid, rest[0], read.last());
        assert(at <= end) by {
            let closing = bytes.subrange(mid, end);
            assert(closing.len() == end - mid);
            assert(closing == unit + escaped(rest.skip(1)));
            assert(closing.len() == unit.len() + escaped(rest.skip(1)).len());
            assert(unit == last_unit);
        }
        assert(s.take(read.len() as int) =~= read) by {
            assert(s.take(shorter.len() as int) == shorter);
            assert(rest[0] == s[shorter.len() as int]);
            assert forall|i: int| 0 <= i < read.len() implies s.take(read.len() as int)[i]
                == read[i] by {
                if i < shorter.len() {
                    assert(s.take(shorter.len() as int)[i] == s[i]);
                }
            }
        }
        assert(s.skip(read.len() as int) =~= rest.skip(1));
        assert(bytes.subrange(at, end) =~= escaped(rest.skip(1))) by {
            let closing = bytes.subrange(mid, end);
            assert(closing == unit + escaped(rest.skip(1)));
            assert(closing.len() == unit.len() + escaped(rest.skip(1)).len());
            assert(bytes.subrange(at, end) =~= closing.subrange(unit.len() as int, end - mid));
            assert(closing.subrange(unit.len() as int, end - mid) =~= escaped(rest.skip(1)));
        }
    }
}

/// At most one string closes at a given start.
pub proof fn lemma_closing_unique(bytes: Seq<u8>, start: int, left: Seq<u8>, left_end: int, right: Seq<u8>, right_end: int)
    requires
        closes_at(bytes, start, left, left_end),
        closes_at(bytes, start, right, right_end),
    ensures
        left == right,
        left_end == right_end,
{
    lemma_closing_extends(bytes, start, left, left_end, right, right_end);
    lemma_closing_extends(bytes, start, right, right_end, left, left_end);
    assert(left =~= left.take(left.len() as int));
    assert(right =~= right.take(right.len() as int));
    let rest = right.skip(left.len() as int);
    assert(rest =~= Seq::<u8>::empty());
    assert(escaped(rest) =~= Seq::<u8>::empty());
    assert(bytes.subrange(left_end, right_end).len() == 0);
}

fn hex(n: u8) -> (d: u8)
    requires
        n < 16,
    ensures
        d == hex_digit(n),
{
    if n < 10 {
        0x30 + n
    } else {
        0x57 + n
    }
}

/// Appends the written form of `s` to `out`.
fn push_escaped(out: &mut Vec<u8>, s: &[u8])
    ensures
        final(out)@ == old(out)@ + escaped(s@),
{
    let mut i: usize = 0;
    proof {
        assert(s@.take(0) =~= Seq::<u8>::empty());
        assert(out@ =~= old(out)@ + escaped(s@.take(0)));
    }
    while i < s.len()
        invariant
            i <= s@.len(),
            out@ == old(out)@ + escaped(s@.take(i as int)),
        decreases s@.len() - i,
    {
        let b = s[i];
        let ghost before = out@;
        if b == 0x22 {
            out.push(0x5c);
            out.push(0x22);
        } else if b == 0x5c {
            out.push(0x5c);
            out.push(0x5c);
        } else if b == 0x08 {
            out.push(0x5c);
            out.push(0x62);
        } else if b == 0x0c {
            out.push(0x5c);
            out.push(0x66);
        } else if b == 0x0a {
            out.push(0x5c);
            out.push(0x6e);
        } else if b == 0x0d {
            out.push(0x5c);
            out.push(0x72);
        } else if b == 0x09 {
            out.push(0x5c);
            out.push(0x74);
        } else if b < 0x20 {
            let hi = b >> 4;
            let lo = b & 0x0f;
            assert(hi < 16 && lo < 16) by (bit_vector)
                requires
                    hi == b >> 4,
                    lo == b & 0x0f,
            ;
            out.push(0x5c);
            out.push(0x75);
            out.push(0x30);
            out.push(0x30);
            out.push(hex(hi));
            out.push(hex(lo));
        } else {
            out.push(b);
        }
        proof {
            assert(out@ =~= before + escape_byte(b));
            assert(s@.take(i + 1).drop_last() =~= s@.take(i as int));
            assert(s@.take(i + 1).last() == b);
        }
        i += 1;
    }
    proof {
        assert(s@.take(s@.len() as int) =~= s@);
    }
}

/// The value of a lower-case hexadecimal digit.
fn unhex(d: u8) -> (r: Option<u8>)
    ensures
        match r {
            Some(n) => n < 16 && hex_digit(n) == d,
            None => forall|n: u8| n < 16 ==> hex_digit(n) != d,
        },
{
    if 0x30 <= d && d <= 0x39 {
        Some(d - 0x30)
    } else if 0x61 <= d && d <= 0x66 {
        Some(d - 0x57)
    } else {
        None
    }
}

/// Reads the written form of one byte at offset `at`.
#[verifier::rlimit(50)]
fn read_unit(bytes: &[u8], at: usize) -> (r: Option<(u8, usize)>)
    requires
        at < bytes@.len(),
    ensures
        match r {
            Some((b, n)) => n == escape_byte(b).len() && has_at(bytes@, at as int, escape_byte(b)),
            None => forall|b: u8| !has_at(bytes@, at as int, escape_byte(b)),
        },
{
    let len = bytes.len();
    let first = bytes[at];
    if first != BACKSLASH {
        if first < 0x20 || first == QUOTE {
            proof {
                assert forall|b: u8| !has_at(bytes@, at as int, escape_byte(b)) by {
                    lemma_escape_byte_shape(b);
                    if has_at(bytes@, at as int, escape_byte(b)) {
                        assert(bytes@.subrange(at as int, at + escape_byte(b).len())[0] == first);
                    }
                }
            }
            return None;
        }
        proof {
            assert(bytes@.subrange(at as int, at + 1) =~= escape_byte(first));
        }
        return Some((first, 1));
    }
    if len - at < 2 {
        proof {
            assert forall|b: u8| !has_at(bytes@, at as int, escape_byte(b)) by {
                lemma_escape_byte_shape(b);
                if has_at(bytes@, at as int, escape_byte(b)) {
                    assert(bytes@.subrange(at as int, at + escape_byte(b).len())[0] == first);
                }
            }
        }
        return None;
    }
    let second = bytes[at + 1];
    let short: Option<u8> = if second == 0x22 {
        Some(0x22)
    } else if second == 0x5c {
        Some(0x5c)
    } else if second == 0x62 {
        Some(0x08)
    } else if second == 0x66 {
        Some(0x0c)
    } else if second == 0x6e {
        Some(0x0a)
    } else if second == 0x72 {
        Some(0x0d)
    } else if second == 0x74 {
        Some(0x09)
    } else {
        None
    };
    match short {
        Some(b) => {
            proof {
                assert(bytes@.subrange(at as int, at + 2) =~= escape_byte(b));
            }
            return Some((b, 2));
        },
        None => {},
    }
    if second == 0x75 && len - at >= 6 && bytes[at + 2] == 0x30 && bytes[at + 3] == 0x30 {
        match (unhex(bytes[at + 4]), unhex(bytes[at + 5])) {
            (Some(hi), Some(lo)) => {
                if hi < 2 {
                    let b = hi * 16 + lo;
                    assert(b < 0x20 && b >> 4 == hi && b & 0x0f == lo) by (bit_vector)
                        requires
                            hi < 2,
                            lo < 16,
                            b == hi * 16 + lo,
                    ;
                    if b != 0x08 && b != 0x0c && b != 0x0a && b != 0x0d && b != 0x09 {
                        proof {
                            assert(bytes@.subrange(at as int, at + 6) =~= escape_byte(b));
                        }
                        return Some((b, 6));
                    }
                }
            },
            _ => {},
        }
    }
    proof {
        assert forall|b: u8| !has_at(bytes@, at as int, escape_byte(b)) by {
            lemma_escape_byte_shape(b);
            if has_at(bytes@, at as int, escape_byte(b)) {
                let w = bytes@.subrange(at as int, at + escape_byte(b).len());
                assert(w[0] == first);
                assert(w[1] == second);
                if b < 0x20 {
                    let hi = b >> 4;
                    let lo = b & 0x0f;
                    assert(hi < 2 && lo < 16 && b == hi * 16 + lo) by (bit_vector)
                        requires
                            b < 0x20,
                            hi == b >> 4,
                            lo == b & 0x0f,
                    ;
                    if second == 0x75 {
                        assert(w[2] == bytes@[at + 2] && w[3] == bytes@[at + 3]);
                        assert(w[4] == bytes@[at + 4] && w[5] == bytes@[at + 5]);
                    }
                }
            }
        }
    }
    None
}

/// Reads a written string that starts at `start` up to the quotation mark
/// that closes it. Returns the string and the offset of that mark.
fn read_string(bytes: &[u8], start: usize) -> (r: Option<(Vec<u8>, usize)>)
    requires
        start <= bytes@.len(),
    ensures
        match r {
            Some((s, end)) => closes_at(bytes@, start as int, s@, end as int),
            None => forall|s: Seq<u8>, end: int| !closes_at(bytes@, start as int, s, end),
        },
{
    let mut out: Vec<u8> = Vec::new();
    let mut at: usize = start;
    proof {
        assert(bytes@.subrange(start as int, start as int) =~= escaped(out@));
    }
    while at < bytes.len()
        invariant
            start <= at <= bytes@.len(),
            bytes@.subrange(start as int, at as int) == escaped(out@),
        decreases bytes@.len() - at,
    {
        if bytes[at] == QUOTE {
            return Some((out, at));
        }
        match read_unit(bytes, at) {
            Some((b, n)) => {
                proof {
                    let grown = out@.push(b);
                    assert(grown.drop_last() =~= out@);
                    assert(bytes@.subrange(start as int, at + n) =~= bytes@.subrange(
                        start as int,
                        at as int,
                    ) + bytes@.subrange(at as int, at + n));
                }
                out.push(b);
                at = at + n;
            },
            None => {
                proof {
                    assert forall|s: Seq<u8>, end: int| !closes_at(
                        bytes@,
                        start as int,
                        s,
                        end,
                    ) by {
                        if closes_at(bytes@, start as int, s, end) {
                            lemma_closing_extends(bytes@, start as int, out@, at as int, s, end);
                            lemma_closing_starts_with_unit(
                                bytes@,
                                at as int,
                                s.skip(out@.len() as int),
                                end,
                            );
                        }
                    }
                }
                return None;
            },
        }
    }
    proof {
        assert forall|s: Seq<u8>, end: int| !closes_at(bytes@, start as int, s, end) by {
            if closes_at(bytes@, start as int, s, end) {
                lemma_closing_extends(bytes@, start as int, out@, at as int, s, end);
            }
        }
    }
    None
}

/// Where a string closes, either the quotation mark stands at its start or
/// the written form of its first byte does.
proof fn lemma_closing_starts_with_unit(bytes: Seq<u8>, at: int, s: Seq<u8>, end: int)
    requires
        closes_at(bytes, at, s, end),
    ensures
        s.len() == 0 ==> bytes[at] == QUOTE,
        s.len() > 0 ==> has_at(bytes, at, escape_byte(s[0])),
{
    if s.len() == 0 {
        assert(escaped(s) =~= Seq::<u8>::empty());
        assert(bytes.subrange(at, end).len() == 0);
    } else {
        lemma_escaped_front(s);
        let unit = escape_byte(s[0]);
        let closing = bytes.subrange(at, end);
        assert(closing.len() == unit.len() + escaped(s.skip(1)).len());
        assert(bytes.subrange(at, at + unit.len()) =~= closing.subrange(0, unit.len() as int));
        assert(closing.subrange(0, unit.len() as int) =~= unit);
    }
}

// ---------------------------------------------------------------------------
// Numbers
// ---------------------------------------------------------------------------

/// `0` to `9`.
pub open spec fn is_digit(b: u8) -> bool {
    0x30 <= b <= 0x39
}

/// How a number is written: in decimal, without leading zeros.
pub open spec fn decimal(n: nat) -> Seq<u8>
    decreases n,
{
    if n < 10 {
        seq![(0x30 + n) as u8]
    } else {
        decimal(n / 10).push((0x30 + n % 10) as u8)
    }
}

/// The number that a run of digits stands for.
pub open spec fn digits_value(s: Seq<u8>) -> nat
    decreases s.len(),
{
    if s.len() == 0 {
        0
    } else {
        digits_value(s.drop_last()) * 10 + (s.last() - 0x30) as nat
    }
}

/// A run of digits, at least one, without a leading zero in front of others.
pub open spec fn canonical_number(s: Seq<u8>) -> bool {
    &&& s.len() > 0
    &&& forall|i: int| 0 <= i < s.len() ==> is_digit(#[trigger] s[i])
    &&& (s.len() == 1 || s[0] != 0x30)
}

/// The written form of `n` stands in `bytes` from `start` to `end`, and no
/// digit follows it.
pub open spec fn number_at(bytes: Seq<u8>, start: int, n: nat, end: int) -> bool {
    &&& 0 <= start < end <= bytes.len()
    &&& bytes.subrange(start, end) == decimal(n)
    &&& (end == bytes.len() || !is_digit(bytes[end]))
}

/// The written form of a number is canonical and stands for the number.
pub proof fn lemma_decimal_canonical(n: nat)
    ensures
        canonical_number(decimal(n)),
        digits_value(decimal(n)) == n,
        n >= 1 ==> decimal(n)[0] != 0x30,
    decreases n,
{
    if n < 10 {
        let s = decimal(n);
        assert(s.drop_last() =~= Seq::<u8>::empty());
        assert(digits_value(s.drop_last()) == 0);
    } else {
        lemma_decimal_canonical(n / 10);
        let t = decimal(n / 10);
        let s = decimal(n);
        assert(s.drop_last() =~= t);
        assert(s[0] == t[0]);
    }
}

/// A run of digits that starts with a digit other than zero stands for a
/// number that is not zero.
proof fn lemma_digits_value_positive(s: Seq<u8>)
    requires
        s.len() > 0,
        forall|i: int| 0 <= i < s.len() ==> is_digit(#[trigger] s[i]),
        s[0] != 0x30,
    ensures
        digits_value(s) >= 1,
    decreases s.len(),
{
    if s.len() == 1 {
        assert(s.drop_last() =~= Seq::<u8>::empty());
    } else {
        assert(s.drop_last()[0] == s[0]);
        lemma_digits_value_positive(s.drop_last());
    }
}

/// A canonical run of digits is the written form of the number it stands for.
pub proof fn lemma_canonical_decimal(s: Seq<u8>)
    requires
        canonical_number(s),
    ensures
        decimal(digits_value(s)) == s,
    decreases s.len(),
{
    let t = s.drop_last();
    let d = (s.last() - 0x30) as nat;
    if s.len() == 1 {
        assert(t =~= Seq::<u8>::empty());
        assert(digits_value(s) == d);
        assert(decimal(d) =~= s);
    } else {
        assert(t[0] == s[0]);
        lemma_digits_value_positive(t);
        lemma_canonical_decimal(t);
        let v = digits_value(s);
        assert(v == digits_value(t) * 10 + d);
        assert(v / 10 == digits_value(t) && v % 10 == d) by (nonlinear_arith)
            requires
                v == digits_value(t) * 10 + d,
                d < 10,
        ;
        assert(decimal(v) =~= s);
    }
}

/// A run of digits stands for at least as much as any run it starts with.
proof fn lemma_digits_value_grows(s: Seq<u8>, k: int)
    requires
        0 <= k <= s.len(),
        forall|i: int| 0 <= i < s.len() ==> is_digit(#[trigger] s[i]),
    ensures
        digits_value(s.take(k)) <= digits_value(s),
    decreases s.len(),
{
    if k == s.len() {
        assert(s.take(k) =~= s);
    } else {
        lemma_digits_value_grows(s.drop_last(), k);
        assert(s.drop_last().take(k) =~= s.take(k));
    }
}

/// Appends the written form of `n` to `out`.
fn push_decimal(out: &mut Vec<u8>, n: u64)
    ensures
        final(out)@ == old(out)@ + decimal(n as nat),
    decreases n,
{
    if n >= 10 {
        push_decimal(out, n / 10);
    }
    out.push(0x30 + (n % 10) as u8);
    proof {
        assert(final(out)@ =~= old(out)@ + decimal(n as nat));
    }
}

/// Reads the number written at `start`. Returns the number and the offset
/// of the first byte behind it.
#[verifier::rlimit(50)]
fn read_decimal(bytes: &[u8], start: usize) -> (r: Option<(u64, usize)>)
    requires
        start <= bytes@.len(),
    ensures
        match r {
            Some((n, end)) => number_at(bytes@, start as int, n as nat, end as int),
            None => forall|n: u64, end: int| !number_at(bytes@, start as int, n as nat, end),
        },
{
    let mut at: usize = start;
    let mut acc: u64 = 0;
    proof {
        assert(bytes@.subrange(start as int, start as int) =~= Seq::<u8>::empty());
    }
    while at < bytes.len()
        invariant_except_break
            acc == digits_value(bytes@.subrange(start as int, at as int)),
        invariant
            start <= at <= bytes@.len(),
            forall|i: int| start <= i < at ==> is_digit(#[trigger] bytes@[i]),
        ensures
            acc == digits_value(bytes@.subrange(start as int, at as int)),
            at == bytes@.len() || !is_digit(bytes@[at as int]),
        decreases bytes@.len() - at,
    {
        let b = bytes[at];
        if b < 0x30 || b > 0x39 {
            break ;
        }
        let d = (b - 0x30) as u64;
        let ghost run = bytes@.subrange(start as int, at + 1);
        proof {
            assert(run.drop_last() =~= bytes@.subrange(start as int, at as int));
            assert(run.last() == b);
        }
        if acc > (u64::MAX - d) / 10 {
            proof {
                assert(digits_value(run) > u64::MAX) by (nonlinear_arith)
                    requires
                        digits_value(run) == acc * 10 + d,
                        acc > (u64::MAX - d) / 10,
                        d < 10,
                ;
                assert forall|n: u64, end: int| !number_at(
                    bytes@,
                    start as int,
                    n as nat,
                    end,
                ) by {
                    if number_at(bytes@, start as int, n as nat, end) {
                        lemma_decimal_canonical(n as nat);
                        let text = bytes@.subrange(start as int, end);
                        if end <= at {
                            assert(is_digit(bytes@[end]));
                        }
                        assert(text.take(at + 1 - start) =~= run);
                        lemma_digits_value_grows(text, at + 1 - start);
                    }
                }
            }
            return None;
        }
        acc = acc * 10 + d;
        at += 1;
    }
    let ghost run = bytes@.subrange(start as int, at as int);
    if at == start || (at - start > 1 && bytes[start] == 0x30) {
        proof {
            assert forall|n: u64, end: int| !number_at(bytes@, start as int, n as nat, end) by {
                if number_at(bytes@, start as int, n as nat, end) {
                    lemma_decimal_canonical(n as nat);
                    let text = bytes@.subrange(start as int, end);
                    assert(text[0] == bytes@[start as int]);
                    if end < at {
                        assert(is_digit(bytes@[end]));
                    }
                    if end > at {
                        assert(text[at - start] == bytes@[at as int]);
                    }
                }
            }
        }
        return None;
    }
    proof {
        assert(run[0] == bytes@[start as int]);
        assert forall|i: int| 0 <= i < run.len() implies is_digit(#[trigger] run[i]) by {
            assert(run[i] == bytes@[start + i]);
        }
        lemma_canonical_decimal(run);
    }
    Some((acc, at))
}

/// At most one number stands at a given start.
pub proof fn lemma_number_unique(bytes: Seq<u8>, start: int, n1: nat, e1: int, n2: nat, e2: int)
    requires
        number_at(bytes, start, n1, e1),
        number_at(bytes, start, n2, e2),
    ensures
        n1 == n2,
        e1 == e2,
{
    lemma_decimal_canonical(n1);
    lemma_decimal_canonical(n2);
    let t1 = bytes.subrange(start, e1);
    let t2 = bytes.subrange(start, e2);
    if e1 < e2 {
        assert(t2[e1 - start] == bytes[e1]);
    }
    if e2 < e1 {
        assert(t1[e2 - start] == bytes[e2]);
    }
}

// ---------------------------------------------------------------------------
// Records
// ---------------------------------------------------------------------------

/// The text `{"Set":{"key":"`, which opens a record that sets a key, and its key.
pub open spec fn put_head() -> Seq<u8> {
    seq![0x7bu8, 0x22u8, 0x53u8, 0x65u8, 0x74u8, 0x22u8, 0x3au8, 0x7bu8, 0x22u8, 0x6bu8, 0x65u8, 0x79u8, 0x22u8, 0x3au8, 0x22u8]
}

fn put_head_bytes() -> (v: Vec<u8>)
    ensures
        v@ == put_head(),
{
    let v = vec![0x7bu8, 0x22u8, 0x53u8, 0x65u8, 0x74u8, 0x22u8, 0x3au8, 0x7bu8, 0x22u8, 0x6bu8, 0x65u8, 0x79u8, 0x22u8, 0x3au8, 0x22u8];
    proof {
        assert(v@ =~= put_head());
    }
    v
}

/// The text `","value":"`, which closes the key and opens the value.
pub open spec fn value_join() -> Seq<u8> {
    seq![0x22u8, 0x2cu8, 0x22u8, 0x76u8, 0x61u8, 0x6cu8, 0x75u8, 0x65u8, 0x22u8, 0x3au8, 0x22u8]
}

fn value_join_bytes() -> (v: Vec<u8>)
    ensures
        v@ == value_join(),
{
    let v = vec![0x22u8, 0x2cu8, 0x22u8, 0x76u8, 0x61u8, 0x6cu8, 0x75u8, 0x65u8, 0x22u8, 0x3au8, 0x22u8];
    proof {
        assert(v@ =~= value_join());
    }
    v
}

/// The text `"}}`, which closes the last string and the record.
pub open spec fn string_tail() -> Seq<u8> {
    seq![0x22u8, 0x7du8, 0x7du8]
}

fn string_tail_bytes() -> (v: Vec<u8>)
    ensures
        v@ == string_tail(),
{
    let v = vec![0x22u8, 0x7du8, 0x7du8];
    proof {
        assert(v@ =~= string_tail());
    }
    v
}

/// The text `{"Delete":{"key":"`, which opens a `Delete` record and its key.
pub open spec fn delete_head() -> Seq<u8> {
    seq![0x7bu8, 0x22u8, 0x44u8, 0x65u8, 0x6cu8, 0x65u8, 0x74u8, 0x65u8, 0x22u8, 0x3au8, 0x7bu8, 0x22u8, 0x6bu8, 0x65u8, 0x79u8, 0x22u8, 0x3au8, 0x22u8]
}

fn delete_head_bytes() -> (v: Vec<u8>)
    ensures
        v@ == delete_head(),
{
    let v = vec![0x7bu8, 0x22u8, 0x44u8, 0x65u8, 0x6cu8, 0x65u8, 0x74u8, 0x65u8, 0x22u8, 0x3au8, 0x7bu8, 0x22u8, 0x6bu8, 0x65u8, 0x79u8, 0x22u8, 0x3au8, 0x22u8];
    proof {
        assert(v@ =~= delete_head());
    }
    v
}

/// The text `{"Checkpoint":{"lsn":`, which opens a `Checkpoint` record.
pub open spec fn checkpoint_head() -> Seq<u8> {
    seq![0x7bu8, 0x22u8, 0x43u8, 0x68u8, 0x65u8, 0x63u8, 0x6bu8, 0x70u8, 0x6fu8, 0x69u8, 0x6eu8, 0x74u8, 0x22u8, 0x3au8, 0x7bu8, 0x22u8, 0x6cu8, 0x73u8, 0x6eu8, 0x22u8, 0x3au8]
}

fn checkpoint_head_bytes() -> (v: Vec<u8>)
    ensures
        v@ == checkpoint_head(),
{
    let v = vec![0x7bu8, 0x22u8, 0x43u8, 0x68u8, 0x65u8, 0x63u8, 0x6bu8, 0x70u8, 0x6fu8, 0x69u8, 0x6eu8, 0x74u8, 0x22u8, 0x3au8, 0x7bu8, 0x22u8, 0x6cu8, 0x73u8, 0x6eu8, 0x22u8, 0x3au8];
    proof {
        assert(v@ =~= checkpoint_head());
    }
    v
}

/// The text `}}`, which closes a record after a number.
pub open spec fn number_tail() -> Seq<u8> {
    seq![0x7du8, 0x7du8]
}

fn number_tail_bytes() -> (v: Vec<u8>)
    ensures
        v@ == number_tail(),
{
    let v = vec![0x7du8, 0x7du8];
    proof {
        assert(v@ =~= number_tail());
    }
    v
}

/// The text of a record, without the end of the line.
pub open spec fn record_text(r: LogRecord) -> Seq<u8> {
    match r {
        LogRecord::Put { key, value } => put_head() + escaped(encode_utf8(key)) + value_join()
            + escaped(encode_utf8(value)) + string_tail(),
        LogRecord::Delete { key } => delete_head() + escaped(encode_utf8(key)) + string_tail(),
        LogRecord::Checkpoint { lsn } => checkpoint_head() + decimal(lsn as nat) + number_tail(),
    }
}

/// The line of a record: its text and the byte that ends the line.
pub open spec fn record_line(r: LogRecord) -> Seq<u8> {
    record_text(r).push(NEWLINE)
}

fn append(out: &mut Vec<u8>, part: &[u8])
    ensures
        final(out)@ == old(out)@ + part@,
{
    out.extend_from_slice(part);
    proof {
        assert(final(out)@ =~= old(out)@ + part@);
    }
}

/// Writes a record as one line, ready to be appended to the log.
pub fn encode_record(entry: &WalEntry) -> (line: Vec<u8>)
    ensures
        line@ == record_line(entry@),
{
    let mut line: Vec<u8> = Vec::new();
    match entry {
        WalEntry::Put { key, value } => {
            append(&mut line, put_head_bytes().as_slice());
            push_escaped(&mut line, key.as_str().as_bytes());
            append(&mut line, value_join_bytes().as_slice());
            push_escaped(&mut line, value.as_str().as_bytes());
            append(&mut line, string_tail_bytes().as_slice());
        },
        WalEntry::Delete { key } => {
            append(&mut line, delete_head_bytes().as_slice());
            push_escaped(&mut line, key.as_str().as_bytes());
            append(&mut line, string_tail_bytes().as_slice());
        },
        WalEntry::Checkpoint { lsn } => {
            append(&mut line, checkpoint_head_bytes().as_slice());
            push_decimal(&mut line, *lsn);
            append(&mut line, number_tail_bytes().as_slice());
        },
    }
    proof {
        assert(line@ =~= record_text(entry@));
    }
    line.push(NEWLINE);
    line
}

/// Tells whether `part` stands in `bytes` at offset `at`.
fn stands_at(bytes: &[u8], at: usize, part: &[u8]) -> (b: bool)
    ensures
        b == has_at(bytes@, at as int, part@),
{
    let n = part.len();
    if at > bytes.len() || bytes.len() - at < n {
        return false;
    }
    let mut i: usize = 0;
    while i < n
        invariant
            i <= n,
            n == part@.len(),
            at + n <= bytes@.len() <= usize::MAX,
            forall|j: int| 0 <= j < i ==> bytes@[at + j] == part@[j],
        decreases n - i,
    {
        if bytes[at + i] != part[i] {
            proof {
                assert(bytes@.subrange(at as int, at + n)[i as int] != part@[i as int]);
            }
            return false;
        }
        i += 1;
    }
    proof {
        assert(bytes@.subrange(at as int, at + n) =~= part@);
    }
    true
}

/// Where the parts of a record that sets a key stand in its text.
proof fn lemma_put_shape(k: Seq<u8>, v: Seq<u8>)
    ensures
        ({
            let t = put_head() + escaped(k) + value_join() + escaped(v) + string_tail();
            let e1 = 15 + escaped(k).len() as int;
            let e2 = e1 + 11 + escaped(v).len() as int;
            &&& has_at(t, 0, put_head())
            &&& closes_at(t, 15, k, e1)
            &&& has_at(t, e1, value_join())
            &&& closes_at(t, e1 + 11, v, e2)
            &&& has_at(t, e2, string_tail())
            &&& t.len() == e2 + 3
        }),
{
    let t = put_head() + escaped(k) + value_join() + escaped(v) + string_tail();
    let e1 = 15 + escaped(k).len() as int;
    let e2 = e1 + 11 + escaped(v).len() as int;
    assert(t.subrange(0, 15) =~= put_head());
    assert(t.subrange(15, e1) =~= escaped(k));
    assert(t.subrange(e1, e1 + 11) =~= value_join());
    assert(t.subrange(e1 + 11, e2) =~= escaped(v));
    assert(t.subrange(e2, e2 + 3) =~= string_tail());
    assert(t[e1] == value_join()[0]);
    assert(t[e2] == string_tail()[0]);
}

/// Where the parts of a record that deletes a key stand in its text.
proof fn lemma_delete_shape(k: Seq<u8>)
    ensures
        ({
            let t = delete_head() + escaped(k) + string_tail();
            let e1 = 18 + escaped(k).len() as int;
            &&& has_at(t, 0, delete_head())
            &&& closes_at(t, 18, k, e1)
            &&& has_at(t, e1, string_tail())
            &&& t.len() == e1 + 3
        }),
{
    let t = delete_head() + escaped(k) + string_tail();
    let e1 = 18 + escaped(k).len() as int;
    assert(t.subrange(0, 18) =~= delete_head());
    assert(t.subrange(18, e1) =~= escaped(k));
    assert(t.subrange(e1, e1 + 3) =~= string_tail());
    assert(t[e1] == string_tail()[0]);
}

/// Where the parts of a checkpoint record stand in its text.
proof fn lemma_checkpoint_shape(n: nat)
    ensures
        ({
            let t = checkpoint_head() + decimal(n) + number_tail();
            let e = 21 + decimal(n).len() as int;
            &&& has_at(t, 0, checkpoint_head())
            &&& number_at(t, 21, n, e)
            &&& has_at(t, e, number_tail())
            &&& t.len() == e + 2
        }),
{
    let t = checkpoint_head() + decimal(n) + number_tail();
    let e = 21 + decimal(n).len() as int;
    lemma_decimal_canonical(n);
    assert(t.subrange(0, 21) =~= checkpoint_head());
    assert(t.subrange(21, e) =~= decimal(n));
    assert(t.subrange(e, e + 2) =~= number_tail());
    assert(t[e] == number_tail()[0]);
}

/// The third byte of a record's text tells its kind.
proof fn lemma_kind_byte(rec: LogRecord)
    ensures
        record_text(rec).len() > 2,
        rec is Put <==> record_text(rec)[2] == 0x53,
        rec is Delete <==> record_text(rec)[2] == 0x44,
        rec is Checkpoint <==> record_text(rec)[2] == 0x43,
{
    match rec {
        LogRecord::Put { key, value } => {
            let t1 = put_head() + escaped(encode_utf8(key));
            let t2 = t1 + value_join();
            let t3 = t2 + escaped(encode_utf8(value));
            let t4 = t3 + string_tail();
            assert(t1[2] == put_head()[2]);
            assert(t2[2] == t1[2]);
            assert(t3[2] == t2[2]);
            assert(t4[2] == t3[2]);
        },
        LogRecord::Delete { key } => {
            let t1 = delete_head() + escaped(encode_utf8(key));
            let t2 = t1 + string_tail();
            assert(t1[2] == delete_head()[2]);
            assert(t2[2] == t1[2]);
        },
        LogRecord::Checkpoint { lsn } => {
            let t1 = checkpoint_head() + decimal(lsn as nat);
            let t2 = t1 + number_tail();
            assert(t1[2] == checkpoint_head()[2]);
            assert(t2[2] == t1[2]);
        },
    }
}

/// What a text that opens like a record that sets a key holds, if it is
/// the text of any record at all.
proof fn lemma_put_facts(text: Seq<u8>, rec: LogRecord)
    requires
        has_at(text, 0, put_head()),
        record_text(rec) == text,
    ensures
        rec is Put,
        ({
            let k = encode_utf8(rec->Put_key);
            let v = encode_utf8(rec->Put_value);
            let e1 = 15 + escaped(k).len() as int;
            let e2 = e1 + 11 + escaped(v).len() as int;
            &&& closes_at(text, 15, k, e1)
            &&& has_at(text, e1, value_join())
            &&& closes_at(text, e1 + 11, v, e2)
            &&& has_at(text, e2, string_tail())
            &&& text.len() == e2 + 3
            &&& valid_utf8(k)
            &&& valid_utf8(v)
        }),
{
    lemma_kind_byte(rec);
    assert(text.subrange(0, 15)[2] == text[2]);
    match rec {
        LogRecord::Put { key, value } => {
            lemma_put_shape(encode_utf8(key), encode_utf8(value));
            vstd::utf8::encode_utf8_valid_utf8(key);
            vstd::utf8::encode_utf8_valid_utf8(value);
        },
        _ => {},
    }
}

/// What a text that opens like a record that deletes a key holds, if it is
/// the text of any record at all.
proof fn lemma_delete_facts(text: Seq<u8>, rec: LogRecord)
    requires
        has_at(text, 0, delete_head()),
        record_text(rec) == text,
    ensures
        rec is Delete,
        ({
            let k = encode_utf8(rec->Delete_key);
            let e1 = 18 + escaped(k).len() as int;
            &&& closes_at(text, 18, k, e1)
            &&& has_at(text, e1, string_tail())
            &&& text.len() == e1 + 3
            &&& valid_utf8(k)
        }),
{
    lemma_kind_byte(rec);
    assert(text.subrange(0, 18)[2] == text[2]);
    match rec {
        LogRecord::Delete { key } => {
            lemma_delete_shape(encode_utf8(key));
            vstd::utf8::encode_utf8_valid_utf8(key);
        },
        _ => {},
    }
}

/// What a text that opens like a checkpoint record holds, if it is the
/// text of any record at all.
proof fn lemma_checkpoint_facts(text: Seq<u8>, rec: LogRecord)
    requires
        has_at(text, 0, checkpoint_head()),
        record_text(rec) == text,
    ensures
        rec is Checkpoint,
        ({
            let n = rec->Checkpoint_lsn as nat;
            let e = 21 + decimal(n).len() as int;
            &&& number_at(text, 21, n, e)
            &&& has_at(text, e, number_tail())
            &&& text.len() == e + 2
        }),
{
    lemma_kind_byte(rec);
    assert(text.subrange(0, 21)[2] == text[2]);
    match rec {
        LogRecord::Checkpoint { lsn } => {
            lemma_checkpoint_shape(lsn as nat);
        },
        _ => {},
    }
}

#[verifier::rlimit(50)]

fn decode_put(text: &[u8]) -> (r: Option<WalEntry>)
    requires
        has_at(text@, 0, put_head()),
    ensures
        match r {
            Some(e) => record_text(e@) == text@,
            None => forall|rec: LogRecord| record_text(rec) != text@,
        },
{
    let len = text.len();
    let parsed = match read_string(text, 15) {
        Some((k, e1)) => {
            if stands_at(text, e1, value_join_bytes().as_slice()) {
                match read_string(text, e1 + 11) {
                    Some((v, e2)) => {
                        if stands_at(text, e2, string_tail_bytes().as_slice()) && len - e2 == 3 {
                            let ghost kb = k@;
                            let ghost vb = v@;
                            match (text_of(k), text_of(v)) {
                                (Some(key), Some(value)) => {
                                    proof {
                                        assert(text@ =~= put_head() + escaped(kb) + value_join()
                                            + escaped(vb) + string_tail()) by {
                                            lemma_reassemble_put(text@, kb, e1 as int, vb, e2 as int);
                                        }
                                    }
                                    Some(WalEntry::Put { key, value })
                                },
                                _ => None,
                            }
                        } else {
                            None
                        }
                    },
                    None => None,
                }
            } else {
                None
            }
        },
        None => None,
    };
    proof {
        if parsed is None {
            assert forall|rec: LogRecord| record_text(rec) != text@ by {
                if record_text(rec) == text@ {
                    lemma_put_facts(text@, rec);
                    let kb = encode_utf8(rec->Put_key);
                    let vb = encode_utf8(rec->Put_value);
                    let e1 = 15 + escaped(kb).len() as int;
                    let e2 = e1 + 11 + escaped(vb).len() as int;
                    assert forall|s: Seq<u8>, end: int| #[trigger]
                        closes_at(text@, 15, s, end) implies s == kb && end == e1 by {
                        lemma_closing_unique(text@, 15, s, end, kb, e1);
                    }
                    assert forall|s: Seq<u8>, end: int| #[trigger]
                        closes_at(text@, e1 + 11, s, end) implies s == vb && end == e2 by {
                        lemma_closing_unique(text@, e1 + 11, s, end, vb, e2);
                    }
                }
            }
        }
    }
    parsed
}

/// A text in which the parts of a record that sets a key stand one after
/// the other is those parts joined.
proof fn lemma_reassemble_put(text: Seq<u8>, k: Seq<u8>, e1: int, v: Seq<u8>, e2: int)
    requires
        has_at(text, 0, put_head()),
        closes_at(text, 15, k, e1),
        has_at(text, e1, value_join()),
        closes_at(text, e1 + 11, v, e2),
        has_at(text, e2, string_tail()),
        text.len() == e2 + 3,
    ensures
        text == put_head() + escaped(k) + value_join() + escaped(v) + string_tail(),
{
    let joined = put_head() + escaped(k) + value_join() + escaped(v) + string_tail();
    assert(text =~= text.subrange(0, 15) + text.subrange(15, e1) + text.subrange(e1, e1 + 11)
        + text.subrange(e1 + 11, e2) + text.subrange(e2, e2 + 3));
}

fn decode_delete(text: &[u8]) -> (r: Option<WalEntry>)
    requires
        has_at(text@, 0, delete_head()),
    ensures
        match r {
            Some(e) => record_text(e@) == text@,
            None => forall|rec: LogRecord| record_text(rec) != text@,
        },
{
    let parsed = match read_string(text, 18) {
        Some((k, e1)) => {
            if stands_at(text, e1, string_tail_bytes().as_slice()) && text.len() - e1 == 3 {
                let ghost kb = k@;
                match text_of(k) {
                    Some(key) => {
                        proof {
                            assert(text@ =~= text@.subrange(0, 18) + text@.subrange(18, e1 as int)
                                + text@.subrange(e1 as int, e1 + 3));
                        }
                        Some(WalEntry::Delete { key })
                    },
                    None => None,
                }
            } else {
                None
            }
        },
        None => None,
    };
    proof {
        if parsed is None {
            assert forall|rec: LogRecord| record_text(rec) != text@ by {
                if record_text(rec) == text@ {
                    lemma_delete_facts(text@, rec);
                    let kb = encode_utf8(rec->Delete_key);
                    let e1 = 18 + escaped(kb).len() as int;
                    assert forall|s: Seq<u8>, end: int| #[trigger]
                        closes_at(text@, 18, s, end) implies s == kb && end == e1 by {
                        lemma_closing_unique(text@, 18, s, end, kb, e1);
                    }
                }
            }
        }
    }
    parsed
}

fn decode_checkpoint(text: &[u8]) -> (r: Option<WalEntry>)
    requires
        has_at(text@, 0, checkpoint_head()),
    ensures
        match r {
            Some(e) => record_text(e@) == text@,
            None => forall|rec: LogRecord| record_text(rec) != text@,
        },
{
    let parsed = match read_decimal(text, 21) {
        Some((lsn, e)) => {
            if stands_at(text, e, number_tail_bytes().as_slice()) && text.len() - e == 2 {
                proof {
                    assert(text@ =~= text@.subrange(0, 21) + text@.subrange(21, e as int)
                        + text@.subrange(e as int, e + 2));
                }
                Some(WalEntry::Checkpoint { lsn })
            } else {
                None
            }
        },
        None => None,
    };
    proof {
        if parsed is None {
            assert forall|rec: LogRecord| record_text(rec) != text@ by {
                if record_text(rec) == text@ {
                    lemma_checkpoint_facts(text@, rec);
                    let n = rec->Checkpoint_lsn;
                    let e = 21 + decimal(n as nat).len() as int;
                    assert forall|m: u64, end: int| #[trigger]
                        number_at(text@, 21, m as nat, end) implies m == n && end == e by {
                        lemma_number_unique(text@, 21, m as nat, end, n as nat, e);
                    }
                }
            }
        }
    }
    parsed
}

/// Reads a record from its text, which holds no end of line.
///
/// Returns the record whose text this is, and `None` where the text is
/// that of no record.
pub fn decode_record(text: &[u8]) -> (r: Option<WalEntry>)
    ensures
        match r {
            Some(e) => record_text(e@) == text@,
            None => forall|rec: LogRecord| record_text(rec) != text@,
        },
{
    if stands_at(text, 0, put_head_bytes().as_slice()) {
        decode_put(text)
    } else if stands_at(text, 0, delete_head_bytes().as_slice()) {
        decode_delete(text)
    } else if stands_at(text, 0, checkpoint_head_bytes().as_slice()) {
        decode_checkpoint(text)
    } else {
        proof {
            assert forall|rec: LogRecord| record_text(rec) != text@ by {
                match rec {
                    LogRecord::Put { key, value } => {
                        lemma_put_shape(encode_utf8(key), encode_utf8(value));
                    },
                    LogRecord::Delete { key } => {
                        lemma_delete_shape(encode_utf8(key));
                    },
                    LogRecord::Checkpoint { lsn } => {
                        lemma_checkpoint_shape(lsn as nat);
                    },
                }
            }
        }
        None
    }
}

/// Different records have different texts.
#[verifier::rlimit(50)]
pub proof fn lemma_record_text_injective(a: LogRecord, b: LogRecord)
    requires
        record_text(a) == record_text(b),
    ensures
        a == b,
{
    let text = record_text(a);
    lemma_kind_byte(a);
    lemma_kind_byte(b);
    match a {
        LogRecord::Put { key, value } => {
            lemma_put_shape(encode_utf8(key), encode_utf8(value));
            lemma_put_facts(text, b);
            let kb = encode_utf8(key);
            let e1 = 15 + escaped(kb).len() as int;
            let kb2 = encode_utf8(b->Put_key);
            let e1b = 15 + escaped(kb2).len() as int;
            lemma_closing_unique(text, 15, kb, e1, kb2, e1b);
            let vb = encode_utf8(value);
            let vb2 = encode_utf8(b->Put_value);
            lemma_closing_unique(
                text,
                e1 + 11,
                vb,
                e1 + 11 + escaped(vb).len() as int,
                vb2,
                e1b + 11 + escaped(vb2).len() as int,
            );
            crate::text::lemma_utf8_injective(key, b->Put_key);
            crate::text::lemma_utf8_injective(value, b->Put_value);
        },
        LogRecord::Delete { key } => {
            lemma_delete_shape(encode_utf8(key));
            lemma_delete_facts(text, b);
            let kb = encode_utf8(key);
            let kb2 = encode_utf8(b->Delete_key);
            lemma_closing_unique(text, 18, kb, 18 + escaped(kb).len() as int, kb2, 18 + escaped(kb2).len() as int);
            crate::text::lemma_utf8_injective(key, b->Delete_key);
        },
        LogRecord::Checkpoint { lsn } => {
            lemma_checkpoint_shape(lsn as nat);
            lemma_checkpoint_facts(text, b);
            let m = b->Checkpoint_lsn;
            lemma_number_unique(
                text,
                21,
                lsn as nat,
                21 + decimal(lsn as nat).len() as int,
                m as nat,
                21 + decimal(m as nat).len() as int,
            );
        },
    }
}

/// The text of a record is not empty.
pub proof fn lemma_record_text_is_not_empty(rec: LogRecord)
    ensures
        record_text(rec).len() > 2,
{
    lemma_kind_byte(rec);
}

/// No byte of `s` ends a line.
pub open spec fn one_line(s: Seq<u8>) -> bool {
    forall|i: int| 0 <= i < s.len() ==> #[trigger] s[i] != NEWLINE
}

proof fn lemma_one_line_joined(a: Seq<u8>, b: Seq<u8>)
    requires
        one_line(a),
        one_line(b),
    ensures
        one_line(a + b),
{
    assert forall|i: int| 0 <= i < (a + b).len() implies #[trigger] (a + b)[i] != NEWLINE by {
        if i < a.len() {
            assert((a + b)[i] == a[i]);
        } else {
            assert((a + b)[i] == b[i - a.len()]);
        }
    }
}

/// The text of a record holds no end of line.
pub proof fn lemma_record_text_is_one_line(rec: LogRecord)
    ensures
        one_line(record_text(rec)),
{
    match rec {
        LogRecord::Put { key, value } => {
            let k = escaped(encode_utf8(key));
            let v = escaped(encode_utf8(value));
            lemma_escaped_has_no_newline(encode_utf8(key));
            lemma_escaped_has_no_newline(encode_utf8(value));
            lemma_one_line_joined(put_head(), k);
            lemma_one_line_joined(put_head() + k, value_join());
            lemma_one_line_joined(put_head() + k + value_join(), v);
            lemma_one_line_joined(put_head() + k + value_join() + v, string_tail());
        },
        LogRecord::Delete { key } => {
            let k = escaped(encode_utf8(key));
            lemma_escaped_has_no_newline(encode_utf8(key));
            lemma_one_line_joined(delete_head(), k);
            lemma_one_line_joined(delete_head() + k, string_tail());
        },
        LogRecord::Checkpoint { lsn } => {
            let n = decimal(lsn as nat);
            lemma_decimal_canonical(lsn as nat);
            assert(one_line(n)) by {
                assert forall|i: int| 0 <= i < n.len() implies #[trigger] n[i] != NEWLINE by {
                    assert(is_digit(n[i]));
                }
            }
            lemma_one_line_joined(checkpoint_head(), n);
            lemma_one_line_joined(checkpoint_head() + n, number_tail());
        },
    }
}

} // verus!
