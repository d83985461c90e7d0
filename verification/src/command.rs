//! Parsing of inbound sampling commands.
//!
//! A command is one textual message of the exact shape
//! `measure:<num_measurements>,<interval_ms>`, where both numeric fields are
//! unsigned base-10 integers that fit in 16 bits.

use vstd::prelude::*;

verus! {

/// The numeric field of a command payload that failed to parse.
#[derive(Clone, Copy, Debug, PartialEq, Eq, Structural)]
pub enum CommandField {
    NumMeasurements,
    IntervalMs,
}

/// Why an inbound message was rejected; each variant is one distinct
/// failure mode of the grammar, checked in declaration order.
#[derive(Clone, Copy, Debug, PartialEq, Eq, Structural)]
pub enum ParseError {
    /// The message bytes are not valid UTF-8 text.
    EncodingError,
    /// The text does not hold exactly one `:` between keyword and payload.
    MissingSeparator,
    /// The keyword segment is not the literal `measure`.
    UnrecognizedKeyword,
    /// The payload does not hold exactly one `,` between the two fields.
    MissingFieldSeparator,
    /// The named field is not an unsigned base-10 integer fitting 16 bits.
    InvalidNumber(CommandField),
}

/// One validated sampling instruction: take `num_measurements` sensor
/// readings spaced `interval_ms` milliseconds apart.
#[derive(Clone, Copy, Debug, PartialEq, Eq, Structural)]
pub struct Command {
    pub num_measurements: u16,
    pub interval_ms: u16,
}

/// The `:` byte separating keyword from payload.
pub const COLON: u8 = 58;

/// The `,` byte separating the two numeric fields.
pub const COMMA: u8 = 44;

/// True for ASCII decimal digit bytes `'0'..='9'`.
pub open spec fn is_digit(b: u8) -> bool {
    48 <= b && b <= 57
}

/// Numeric value of a digit byte.
pub open spec fn digit_val(b: u8) -> nat
    recommends
        is_digit(b),
{
    (b - 48) as nat
}

/// Value of a digit string read in base 10.
pub open spec fn dec_value(s: Seq<u8>) -> nat
    decreases s.len(),
{
    if s.len() == 0 {
        0
    } else {
        dec_value(s.drop_last()) * 10 + digit_val(s.last())
    }
}

/// True when `s` is a well-formed decimal numeral for a 16-bit value:
/// non-empty, digits only, and at most 65535.
pub open spec fn is_dec_u16(s: Seq<u8>) -> bool {
    &&& s.len() > 0
    &&& (forall|i: int| 0 <= i < s.len() ==> is_digit(#[trigger] s[i]))
    &&& dec_value(s) <= 0xFFFF
}

/// Index of the first occurrence of `b` in `s`, or -1 when absent.
pub open spec fn first_index(s: Seq<u8>, b: u8) -> int
    decreases s.len(),
{
    if s.len() == 0 {
        -1
    } else if s.first() == b {
        0
    } else if first_index(s.drop_first(), b) < 0 {
        -1
    } else {
        1 + first_index(s.drop_first(), b)
    }
}

/// True when `b` occurs exactly once in `s`.
pub open spec fn occurs_once(s: Seq<u8>, b: u8) -> bool {
    &&& 0 <= first_index(s, b)
    &&& (forall|j: int| first_index(s, b) < j < s.len() ==> #[trigger] s[j] != b)
}

/// The fixed keyword literal `measure`, as bytes.
pub open spec fn spec_keyword() -> Seq<u8> {
    seq![109u8, 101u8, 97u8, 115u8, 117u8, 114u8, 101u8]
}

/// What `parse` returns for any message: the grammar checks in order,
/// each failing with its own error, or the two decoded fields.
pub open spec fn parse_spec(s: Seq<u8>) -> Result<Command, ParseError> {
    if !vstd::utf8::valid_utf8(s) {
        Err(ParseError::EncodingError)
    } else if !occurs_once(s, COLON) {
        Err(ParseError::MissingSeparator)
    } else {
        let i = first_index(s, COLON);
        let kw = s.subrange(0, i);
        let payload = s.subrange(i + 1, s.len() as int);
        if kw != spec_keyword() {
            Err(ParseError::UnrecognizedKeyword)
        } else if !occurs_once(payload, COMMA) {
            Err(ParseError::MissingFieldSeparator)
        } else {
            let j = first_index(payload, COMMA);
            let f1 = payload.subrange(0, j);
            let f2 = payload.subrange(j + 1, payload.len() as int);
            if !is_dec_u16(f1) {
                Err(ParseError::InvalidNumber(CommandField::NumMeasurements))
            } else if !is_dec_u16(f2) {
                Err(ParseError::InvalidNumber(CommandField::IntervalMs))
            } else {
                Ok(Command {
                    num_measurements: dec_value(f1) as u16,
                    interval_ms: dec_value(f2) as u16,
                })
            }
        }
    }
}

/// First-occurrence index: what it says of the elements of `s`.
pub proof fn lemma_first_index(s: Seq<u8>, b: u8)
    ensures
        first_index(s, b) < 0 ==> forall|i: int| 0 <= i < s.len() ==> #[trigger] s[i] != b,
        first_index(s, b) >= 0 ==> {
            &&& first_index(s, b) < s.len()
            &&& s[first_index(s, b)] == b
            &&& forall|j: int| 0 <= j < first_index(s, b) ==> #[trigger] s[j] != b
        },
    decreases s.len(),
{
    if s.len() > 0 && s.first() != b {
        let t = s.drop_first();
        lemma_first_index(t, b);
        if first_index(t, b) >= 0 {
            assert(s[1 + first_index(t, b)] == t[first_index(t, b)]);
            assert forall|j: int| 0 <= j < first_index(s, b) implies #[trigger] s[j] != b by {
                if j > 0 {
                    assert(s[j] == t[j - 1]);
                }
            }
        } else {
            assert forall|i: int| 0 <= i < s.len() implies #[trigger] s[i] != b by {
                if i > 0 {
                    assert(s[i] == t[i - 1]);
                }
            }
        }
    }
}

/// The first-occurrence index is the least index holding `b`.
pub proof fn lemma_first_index_min(s: Seq<u8>, b: u8, i: int)
    requires
        0 <= i < s.len(),
        s[i] == b,
        forall|j: int| 0 <= j < i ==> #[trigger] s[j] != b,
    ensures
        first_index(s, b) == i,
    decreases s.len(),
{
    if i > 0 {
        lemma_first_index_min(s.drop_first(), b, i - 1);
    }
}

/// A one-byte scalar: any ASCII byte stands alone.
proof fn lemma_scalar_1(rest: Seq<u8>)
    requires
        rest.len() >= 1,
        rest[0] < 0x80,
    ensures
        vstd::utf8::valid_first_scalar(rest),
        vstd::utf8::length_of_first_scalar(rest) == 1,
{
    let b = rest[0];
    assert((b & 0x7f) == b && ((b & 0x7f) as u32) <= 0x7f) by (bit_vector)
        requires
            b < 0x80,
    ;
}

/// No scalar starts with a continuation byte or an overlong two-byte
/// leading byte.
proof fn lemma_scalar_bad_start(rest: Seq<u8>)
    requires
        rest.len() >= 1,
        0x80 <= rest[0] <= 0xc1,
    ensures
        !vstd::utf8::valid_first_scalar(rest),
{
    let b0 = rest[0];
    if 0xc0 <= b0 && rest.len() >= 2 && vstd::utf8::is_continuation_byte(rest[1]) {
        let b1 = rest[1];
        assert((((b0 & 0x1f) as u32) << 6 | ((b1 & 0x3f) as u32)) < 0x80) by (bit_vector)
            requires
                0xc0 <= b0 <= 0xc1,
        ;
    }
}

/// A well-formed two-byte scalar.
proof fn lemma_scalar_2_good(rest: Seq<u8>)
    requires
        rest.len() >= 2,
        0xc2 <= rest[0] <= 0xdf,
        vstd::utf8::is_continuation_byte(rest[1]),
    ensures
        vstd::utf8::valid_first_scalar(rest),
        vstd::utf8::length_of_first_scalar(rest) == 2,
{
    let b0 = rest[0];
    let b1 = rest[1];
    assert(0x80 <= (((b0 & 0x1f) as u32) << 6 | ((b1 & 0x3f) as u32)) <= 0x7ff) by (bit_vector)
        requires
            0xc2 <= b0 <= 0xdf,
    ;
}

/// A two-byte leading byte with no continuation byte after it.
proof fn lemma_scalar_2_bad(rest: Seq<u8>)
    requires
        rest.len() >= 1,
        0xc2 <= rest[0] <= 0xdf,
        rest.len() < 2 || !vstd::utf8::is_continuation_byte(rest[1]),
    ensures
        !vstd::utf8::valid_first_scalar(rest),
{
}

/// A well-formed three-byte scalar: neither overlong nor a surrogate.
proof fn lemma_scalar_3_good(rest: Seq<u8>)
    requires
        rest.len() >= 3,
        0xe0 <= rest[0] <= 0xef,
        vstd::utf8::is_continuation_byte(rest[1]),
        vstd::utf8::is_continuation_byte(rest[2]),
        rest[0] == 0xe0 ==> rest[1] >= 0xa0,
        rest[0] == 0xed ==> rest[1] <= 0x9f,
    ensures
        vstd::utf8::valid_first_scalar(rest),
        vstd::utf8::length_of_first_scalar(rest) == 3,
{
    let b0 = rest[0];
    let b1 = rest[1];
    let b2 = rest[2];
    let cp = ((b0 & 0x0f) as u32) << 12 | ((b1 & 0x3f) as u32) << 6 | ((b2 & 0x3f) as u32);
    assert(0x800 <= cp && !(0xd800 <= cp <= 0xdfff)) by (bit_vector)
        requires
            cp == ((b0 & 0x0f) as u32) << 12 | ((b1 & 0x3f) as u32) << 6 | ((b2 & 0x3f) as u32),
            0xe0 <= b0 <= 0xef,
            0x80 <= b1 <= 0xbf,
            b0 == 0xe0 ==> b1 >= 0xa0,
            b0 == 0xed ==> b1 <= 0x9f,
    ;
}

/// A malformed three-byte sequence: a continuation byte missing, an
/// overlong encoding, or a surrogate.
proof fn lemma_scalar_3_bad(rest: Seq<u8>)
    requires
        rest.len() >= 1,
        0xe0 <= rest[0] <= 0xef,
        rest.len() < 3 || !vstd::utf8::is_continuation_byte(rest[1])
            || !vstd::utf8::is_continuation_byte(rest[2]) || (rest[0] == 0xe0 && rest[1] < 0xa0)
            || (rest[0] == 0xed && rest[1] > 0x9f),
    ensures
        !vstd::utf8::valid_first_scalar(rest),
{
    let b0 = rest[0];
    if rest.len() >= 3 && vstd::utf8::is_continuation_byte(rest[1])
        && vstd::utf8::is_continuation_byte(rest[2]) {
        let b1 = rest[1];
        let b2 = rest[2];
        let cp = ((b0 & 0x0f) as u32) << 12 | ((b1 & 0x3f) as u32) << 6 | ((b2 & 0x3f) as u32);
        if b0 == 0xe0 && b1 < 0xa0 {
            assert(cp < 0x800) by (bit_vector)
                requires
                    cp == ((b0 & 0x0f) as u32) << 12 | ((b1 & 0x3f) as u32) << 6 | ((b2
                        & 0x3f) as u32),
                    b0 == 0xe0,
                    0x80 <= b1 < 0xa0,
            ;
        } else {
            assert(0xd800 <= cp <= 0xdfff) by (bit_vector)
                requires
                    cp == ((b0 & 0x0f) as u32) << 12 | ((b1 & 0x3f) as u32) << 6 | ((b2
                        & 0x3f) as u32),
                    b0 == 0xed,
                    0xa0 <= b1 <= 0xbf,
            ;
        }
    }
}

/// A well-formed four-byte scalar: in range and not overlong.
proof fn lemma_scalar_4_good(rest: Seq<u8>)
    requires
        rest.len() >= 4,
        0xf0 <= rest[0] <= 0xf4,
        vstd::utf8::is_continuation_byte(rest[1]),
        vstd::utf8::is_continuation_byte(rest[2]),
        vstd::utf8::is_continuation_byte(rest[3]),
        rest[0] == 0xf0 ==> rest[1] >= 0x90,
        rest[0] == 0xf4 ==> rest[1] <= 0x8f,
    ensures
        vstd::utf8::valid_first_scalar(rest),
        vstd::utf8::length_of_first_scalar(rest) == 4,
{
    let b0 = rest[0];
    let b1 = rest[1];
    let b2 = rest[2];
    let b3 = rest[3];
    let cp = ((b0 & 0x07) as u32) << 18 | ((b1 & 0x3f) as u32) << 12 | ((b2 & 0x3f) as u32) << 6 | (
    (b3 & 0x3f) as u32);
    assert(0x10000 <= cp <= 0x10ffff) by (bit_vector)
        requires
            cp == ((b0 & 0x07) as u32) << 18 | ((b1 & 0x3f) as u32) << 12 | ((b2 & 0x3f) as u32)
                << 6 | ((b3 & 0x3f) as u32),
            0xf0 <= b0 <= 0xf4,
            0x80 <= b1 <= 0xbf,
            b0 == 0xf0 ==> b1 >= 0x90,
            b0 == 0xf4 ==> b1 <= 0x8f,
    ;
}

/// A malformed four-byte sequence: a continuation byte missing, overlong,
/// or beyond the last Unicode scalar.
proof fn lemma_scalar_4_bad(rest: Seq<u8>)
    requires
        rest.len() >= 1,
        0xf0 <= rest[0] <= 0xf7,
        rest[0] >= 0xf5 || rest.len() < 4 || !vstd::utf8::is_continuation_byte(rest[1])
            || !vstd::utf8::is_continuation_byte(rest[2]) || !vstd::utf8::is_continuation_byte(
            rest[3],
        ) || (rest[0] == 0xf0 && rest[1] < 0x90) || (rest[0] == 0xf4 && rest[1] > 0x8f),
    ensures
        !vstd::utf8::valid_first_scalar(rest),
{
    let b0 = rest[0];
    if rest.len() >= 4 && vstd::utf8::is_continuation_byte(rest[1])
        && vstd::utf8::is_continuation_byte(rest[2]) && vstd::utf8::is_continuation_byte(rest[3]) {
        let b1 = rest[1];
        let b2 = rest[2];
        let b3 = rest[3];
        let cp = ((b0 & 0x07) as u32) << 18 | ((b1 & 0x3f) as u32) << 12 | ((b2 & 0x3f) as u32)
            << 6 | ((b3 & 0x3f) as u32);
        if b0 >= 0xf5 {
            assert(cp > 0x10ffff) by (bit_vector)
                requires
                    cp == ((b0 & 0x07) as u32) << 18 | ((b1 & 0x3f) as u32) << 12 | ((b2
                        & 0x3f) as u32) << 6 | ((b3 & 0x3f) as u32),
                    0xf5 <= b0 <= 0xf7,
            ;
        } else if b0 == 0xf0 && b1 < 0x90 {
            assert(cp < 0x10000) by (bit_vector)
                requires
                    cp == ((b0 & 0x07) as u32) << 18 | ((b1 & 0x3f) as u32) << 12 | ((b2
                        & 0x3f) as u32) << 6 | ((b3 & 0x3f) as u32),
                    b0 == 0xf0,
                    0x80 <= b1 < 0x90,
            ;
        } else {
            assert(cp > 0x10ffff) by (bit_vector)
                requires
                    cp == ((b0 & 0x07) as u32) << 18 | ((b1 & 0x3f) as u32) << 12 | ((b2
                        & 0x3f) as u32) << 6 | ((b3 & 0x3f) as u32),
                    b0 == 0xf4,
                    0x8f < b1 <= 0xbf,
            ;
        }
    }
}

/// No scalar starts at `0xf8` or above.
proof fn lemma_scalar_bad_high(rest: Seq<u8>)
    requires
        rest.len() >= 1,
        rest[0] >= 0xf8,
    ensures
        !vstd::utf8::valid_first_scalar(rest),
{
}

/// True for UTF-8 continuation bytes.
fn is_cont(b: u8) -> (r: bool)
    ensures
        r == vstd::utf8::is_continuation_byte(b),
{
    0x80 <= b && b <= 0xbf
}

/// Checks that the bytes are a valid UTF-8 encoding, one scalar at a
/// time: leading-byte shape, continuation bytes, and neither overlong
/// encodings, surrogates, nor values beyond the last Unicode scalar.
fn utf8_valid(bytes: &[u8]) -> (r: bool)
    ensures
        r == vstd::utf8::valid_utf8(bytes@),
{
    let n = bytes.len();
    let mut k: usize = 0;
    proof {
        assert(bytes@.skip(0) =~= bytes@);
    }
    while k < n
        invariant
            k <= n,
            n == bytes@.len(),
            vstd::utf8::valid_utf8(bytes@) == vstd::utf8::valid_utf8(bytes@.skip(k as int)),
        decreases n - k,
    {
        let ghost rest = bytes@.skip(k as int);
        let b0 = bytes[k];
        proof {
            assert(rest[0] == b0);
            assert(rest.len() == n - k);
        }
        let width: usize;
        if b0 < 0x80 {
            proof {
                lemma_scalar_1(rest);
            }
            width = 1;
        } else if b0 < 0xc2 {
            proof {
                lemma_scalar_bad_start(rest);
            }
            return false;
        } else if b0 < 0xe0 {
            if n - k < 2 || !is_cont(bytes[k + 1]) {
                proof {
                    lemma_scalar_2_bad(rest);
                }
                return false;
            }
            proof {
                lemma_scalar_2_good(rest);
            }
            width = 2;
        } else if b0 < 0xf0 {
            if n - k < 3 || !is_cont(bytes[k + 1]) || !is_cont(bytes[k + 2]) || (b0 == 0xe0
                && bytes[k + 1] < 0xa0) || (b0 == 0xed && bytes[k + 1] > 0x9f) {
                proof {
                    lemma_scalar_3_bad(rest);
                }
                return false;
            }
            proof {
                lemma_scalar_3_good(rest);
            }
            width = 3;
        } else if b0 < 0xf8 {
            if b0 >= 0xf5 || n - k < 4 || !is_cont(bytes[k + 1]) || !is_cont(bytes[k + 2])
                || !is_cont(bytes[k + 3]) || (b0 == 0xf0 && bytes[k + 1] < 0x90) || (b0 == 0xf4
                && bytes[k + 1] > 0x8f) {
                proof {
                    lemma_scalar_4_bad(rest);
                }
                return false;
            }
            proof {
                lemma_scalar_4_good(rest);
            }
            width = 4;
        } else {
            proof {
                lemma_scalar_bad_high(rest);
            }
            return false;
        }
        proof {
            assert(vstd::utf8::pop_first_scalar(rest) =~= bytes@.skip(k + width));
        }
        k += width;
    }
    proof {
        assert(bytes@.skip(n as int) =~= Seq::<u8>::empty());
    }
    true
}

/// A longer numeral denotes no smaller a value: once a prefix exceeds the
/// 16-bit range, the whole numeral does.
proof fn lemma_dec_value_grows(f: Seq<u8>, k: int)
    requires
        0 <= k <= f.len(),
        dec_value(f.subrange(0, k)) > 0xFFFF,
    ensures
        dec_value(f) > 0xFFFF,
    decreases f.len() - k,
{
    if k < f.len() {
        assert(f.subrange(0, k + 1).drop_last() =~= f.subrange(0, k));
        assert(f.subrange(0, k + 1).last() == f[k]);
        lemma_dec_value_grows(f, k + 1);
    } else {
        assert(f.subrange(0, k) =~= f);
    }
}

/// Finds the only occurrence of `b` at or after `lo`: `Some` exactly when
/// `b` occurs exactly once there, and then at the returned index.
fn find_once(s: &[u8], lo: usize, b: u8) -> (r: Option<usize>)
    requires
        lo <= s@.len(),
    ensures
        ({
            let t = s@.subrange(lo as int, s@.len() as int);
            match r {
                Some(i) => lo <= i < s@.len() && s@[i as int] == b && occurs_once(t, b)
                    && i - lo == first_index(t, b),
                None => !occurs_once(t, b),
            }
        }),
{
    let ghost t = s@.subrange(lo as int, s@.len() as int);
    let n = s.len();
    let mut k = lo;
    let mut found: Option<usize> = None;
    let mut extra = false;
    while k < n
        invariant
            lo <= k <= n,
            n == s@.len(),
            found is None ==> !extra && (forall|j: int| lo <= j < k ==> #[trigger] s@[j] != b),
            found matches Some(i) ==> lo <= i < k && s@[i as int] == b
                && (forall|j: int| lo <= j < i ==> #[trigger] s@[j] != b)
                && (!extra ==> (forall|j: int| i < j < k ==> #[trigger] s@[j] != b))
                && (extra ==> exists|j: int| i < j < k && #[trigger] s@[j] == b),
        decreases n - k,
    {
        if s[k] == b {
            if found.is_none() {
                found = Some(k);
            } else {
                extra = true;
            }
        }
        k += 1;
    }
    proof {
        assert(t.len() == n - lo);
        assert(forall|j: int| 0 <= j < t.len() ==> t[j] == s@[lo + j]);
    }
    match found {
        None => {
            proof {
                lemma_first_index(t, b);
                if first_index(t, b) >= 0 {
                    assert(s@[lo + first_index(t, b)] == b);
                }
            }
            None
        },
        Some(i) => {
            proof {
                assert forall|j: int| 0 <= j < i - lo implies #[trigger] t[j] != b by {
                    assert(t[j] == s@[lo + j]);
                }
                lemma_first_index_min(t, b, i - lo);
            }
            if extra {
                proof {
                    let j0 = choose|j: int| i < j < n && #[trigger] s@[j] == b;
                    assert(t[j0 - lo] == b);
                }
                None
            } else {
                proof {
                    assert forall|j: int| first_index(t, b) < j < t.len() implies #[trigger] t[j]
                        != b by {
                        assert(t[j] == s@[lo + j]);
                    }
                }
                Some(i)
            }
        },
    }
}

/// Checks that `s[lo..hi]` is exactly the keyword literal `measure`.
fn is_keyword(s: &[u8], lo: usize, hi: usize) -> (r: bool)
    requires
        lo <= hi <= s@.len(),
    ensures
        r == (s@.subrange(lo as int, hi as int) == spec_keyword()),
{
    let ghost kw = s@.subrange(lo as int, hi as int);
    if hi - lo != 7 {
        proof {
            assert(kw.len() != spec_keyword().len());
        }
        return false;
    }
    let r = s[lo] == 109 && s[lo + 1] == 101 && s[lo + 2] == 97 && s[lo + 3] == 115 && s[lo + 4]
        == 117 && s[lo + 5] == 114 && s[lo + 6] == 101;
    proof {
        assert(forall|j: int| 0 <= j < 7 ==> kw[j] == s@[lo + j]);
        if r {
            assert(kw =~= spec_keyword());
        } else {
            assert(kw != spec_keyword());
        }
    }
    r
}

/// Parses `s[lo..hi]` as an unsigned base-10 integer fitting 16 bits;
/// `None` exactly when the segment is not such a numeral.
fn parse_u16_field(s: &[u8], lo: usize, hi: usize) -> (r: Option<u16>)
    requires
        lo <= hi <= s@.len(),
    ensures
        ({
            let f = s@.subrange(lo as int, hi as int);
            match r {
                Some(v) => is_dec_u16(f) && v == dec_value(f),
                None => !is_dec_u16(f),
            }
        }),
{
    let ghost f = s@.subrange(lo as int, hi as int);
    proof {
        assert(forall|j: int| 0 <= j < f.len() ==> f[j] == s@[lo + j]);
    }
    if lo == hi {
        return None;
    }
    let mut acc: u32 = 0;
    let mut k = lo;
    while k < hi
        invariant
            lo <= k <= hi <= s@.len(),
            f == s@.subrange(lo as int, hi as int),
            f.len() == hi - lo,
            forall|j: int| 0 <= j < f.len() ==> f[j] == s@[lo + j],
            acc == dec_value(f.subrange(0, k - lo)),
            acc <= 0xFFFF,
            forall|j: int| 0 <= j < k - lo ==> is_digit(#[trigger] f[j]),
        decreases hi - k,
    {
        let b = s[k];
        if b < 48 || b > 57 {
            proof {
                assert(!is_digit(f[k - lo]));
            }
            return None;
        }
        acc = acc * 10 + ((b - 48) as u32);
        proof {
            assert(f.subrange(0, k - lo + 1).drop_last() =~= f.subrange(0, k - lo));
            assert(f.subrange(0, k - lo + 1).last() == f[k - lo]);
            assert(acc == dec_value(f.subrange(0, k - lo + 1)));
        }
        if acc > 0xFFFF {
            proof {
                lemma_dec_value_grows(f, k - lo + 1);
            }
            return None;
        }
        k += 1;
    }
    proof {
        assert(f.subrange(0, (hi - lo) as int) =~= f);
    }
    Some(acc as u16)
}

/// Every all-ASCII byte sequence is valid UTF-8.
pub proof fn lemma_ascii_valid_utf8(s: Seq<u8>)
    requires
        forall|i: int| 0 <= i < s.len() ==> #[trigger] s[i] < 128,
    ensures
        vstd::utf8::valid_utf8(s),
    decreases s.len(),
{
    if s.len() > 0 {
        let b = s[0];
        assert(b & 0x7f == b) by (bit_vector)
            requires
                b < 128,
        ;
        assert(vstd::utf8::valid_first_scalar(s));
        assert(vstd::utf8::pop_first_scalar(s) =~= s.drop_first());
        assert forall|i: int| 0 <= i < s.drop_first().len() implies #[trigger] s.drop_first()[i]
            < 128 by {
            assert(s.drop_first()[i] == s[i + 1]);
        }
        lemma_ascii_valid_utf8(s.drop_first());
    }
}

/// Law: a well-formed `measure:<n>,<i>` message parses back to exactly its
/// two numeric fields, for every pair of 16-bit decimal numerals.
pub proof fn lemma_parse_round_trip(f1: Seq<u8>, f2: Seq<u8>)
    requires
        is_dec_u16(f1),
        is_dec_u16(f2),
    ensures
        parse_spec(spec_keyword() + seq![COLON] + f1 + seq![COMMA] + f2) == Ok::<
            Command,
            ParseError,
        >(
            Command {
                num_measurements: dec_value(f1) as u16,
                interval_ms: dec_value(f2) as u16,
            },
        ),
{
    let m = spec_keyword() + seq![COLON] + f1 + seq![COMMA] + f2;
    let len1 = f1.len() as int;
    let len2 = f2.len() as int;
    assert(m.len() == 9 + len1 + len2);
    assert forall|j: int| 0 <= j < 7 implies #[trigger] m[j] < 128 && m[j] != COLON && m[j]
        != COMMA by {
        assert(m[j] == spec_keyword()[j]);
    }
    assert(m[7] == COLON);
    assert forall|j: int| 8 <= j < 8 + len1 implies is_digit(#[trigger] m[j]) by {
        assert(m[j] == f1[j - 8]);
        assert(is_digit(f1[j - 8]));
    }
    assert(m[8 + len1] == COMMA);
    assert forall|j: int| 9 + len1 <= j < m.len() implies is_digit(#[trigger] m[j]) by {
        assert(m[j] == f2[j - 9 - len1]);
        assert(is_digit(f2[j - 9 - len1]));
    }
    assert forall|i: int| 0 <= i < m.len() implies #[trigger] m[i] < 128 by {}
    lemma_ascii_valid_utf8(m);
    lemma_first_index_min(m, COLON, 7);
    assert(occurs_once(m, COLON));
    assert(m.subrange(0, 7) =~= spec_keyword());
    let payload = m.subrange(8, m.len() as int);
    assert(payload[len1] == m[8 + len1]);
    assert forall|j: int| 0 <= j < len1 implies #[trigger] payload[j] != COMMA by {
        assert(payload[j] == m[8 + j]);
    }
    lemma_first_index_min(payload, COMMA, len1);
    assert forall|j: int| len1 < j < payload.len() implies #[trigger] payload[j] != COMMA by {
        assert(payload[j] == m[8 + j]);
    }
    assert(occurs_once(payload, COMMA));
    assert(payload.subrange(0, len1) =~= f1);
    assert(payload.subrange(len1 + 1, payload.len() as int) =~= f2);
}

impl Command {
    /// Decodes one inbound message into a validated command, reporting the
    /// first grammar check that fails.
    pub fn parse(message: &[u8]) -> (r: Result<Command, ParseError>)
        ensures
            r == parse_spec(message@),
    {
        let ghost s = message@;
        if !utf8_valid(message) {
            return Err(ParseError::EncodingError);
        }
        let n = message.len();
        proof {
            assert(s.subrange(0, n as int) =~= s);
        }
        let i = match find_once(message, 0, COLON) {
            None => {
                return Err(ParseError::MissingSeparator);
            },
            Some(i) => i,
        };
        if !is_keyword(message, 0, i) {
            return Err(ParseError::UnrecognizedKeyword);
        }
        let ghost payload = s.subrange(i + 1, s.len() as int);
        proof {
            assert(s.subrange(i + 1, s.len() as int) =~= payload);
        }
        let j = match find_once(message, i + 1, COMMA) {
            None => {
                return Err(ParseError::MissingFieldSeparator);
            },
            Some(j) => j,
        };
        proof {
            assert(payload.subrange(0, j - (i + 1)) =~= s.subrange(i + 1, j as int));
            assert(payload.subrange(j - (i + 1) + 1, payload.len() as int) =~= s.subrange(
                j + 1,
                n as int,
            ));
        }
        let v1 = match parse_u16_field(message, i + 1, j) {
            None => {
                return Err(ParseError::InvalidNumber(CommandField::NumMeasurements));
            },
            Some(v) => v,
        };
        let v2 = match parse_u16_field(message, j + 1, n) {
            None => {
                return Err(ParseError::InvalidNumber(CommandField::IntervalMs));
            },
            Some(v) => v,
        };
        Ok(Command { num_measurements: v1, interval_ms: v2 })
    }
}

} // verus!
