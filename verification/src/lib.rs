//! A codec for the Base64 variable-length quantity (VLQ) encoding used by
//! source maps.
//!
//! A signed 64-bit integer is packed into an unsigned value whose low bit
//! carries the sign, then split into 5-bit groups, least significant first.
//! Each group is carried in the low 5 bits of a 6-bit digit; bit 5 (0x20) of
//! the digit is a continuation flag, set on every digit but the last.  Each
//! digit is rendered as one character of the Base64 alphabet
//! `A`-`Z`, `a`-`z`, `0`-`9`, `+`, `/`.

use vstd::prelude::*;

verus! {

use vstd::arithmetic::power2::{
    pow2,
    lemma_pow2_adds,
    lemma_pow2_strictly_increases,
    lemma2_to64,
    lemma2_to64_rest,
};
use vstd::bits::lemma_u64_shl_is_mul;

/// An error that occurred while decoding.
#[derive(Clone, Copy, Debug, PartialEq, Eq, Structural)]
pub enum Error {
    /// Unexpectedly hit the end of the input.
    UnexpectedEof,
    /// The input contained a byte outside the Base64 alphabet.
    InvalidBase64(u8),
    /// The input encoded a number that does not fit into 64 bits.
    Overflow,
}

/// Whether a byte is one of the 64 characters of the Base64 alphabet.
pub open spec fn is_base64_byte(b: u8) -> bool {
    ||| 65 <= b && b <= 90
    ||| 97 <= b && b <= 122
    ||| 48 <= b && b <= 57
    ||| b == 43
    ||| b == 47
}

/// The digit value (0-63) of a Base64 alphabet byte.
pub open spec fn digit_of_byte(b: u8) -> u8
    recommends
        is_base64_byte(b),
{
    if 65 <= b && b <= 90 {
        (b - 65) as u8
    } else if 97 <= b && b <= 122 {
        (b - 97 + 26) as u8
    } else if 48 <= b && b <= 57 {
        (b - 48 + 52) as u8
    } else if b == 43 {
        62
    } else {
        63
    }
}

/// The Base64 alphabet byte of a digit value (0-63).
pub open spec fn byte_of_digit(d: u8) -> u8
    recommends
        d < 64,
{
    if d < 26 {
        (d + 65) as u8
    } else if d < 52 {
        (d - 26 + 97) as u8
    } else if d < 62 {
        (d - 52 + 48) as u8
    } else if d == 62 {
        43
    } else {
        47
    }
}

/// The alphabet maps digits to bytes and back without loss.
pub proof fn lemma_alphabet_bijection(d: u8)
    requires
        d < 64,
    ensures
        is_base64_byte(byte_of_digit(d)),
        digit_of_byte(byte_of_digit(d)) == d,
{
}

/// The unsigned value that carries `v` on the wire: the magnitude shifted
/// left once, with the sign in bit 0.  `i64::MIN`, whose magnitude has no
/// positive signed counterpart, is carried as magnitude 0 with the sign bit
/// set, the one packed value that is both odd and below 2.
pub open spec fn packed(v: i64) -> nat {
    if v == i64::MIN {
        1
    } else if v < 0 {
        (2 * -v + 1) as nat
    } else {
        (2 * v) as nat
    }
}

/// The signed value carried by a packed value `n`: bit 0 is the sign, the
/// rest the magnitude.  An odd `n` with magnitude 0 stands for `i64::MIN`.
pub open spec fn unpacked(n: nat) -> int {
    if n % 2 == 1 {
        if n / 2 == 0 {
            i64::MIN as int
        } else {
            -((n / 2) as int)
        }
    } else {
        (n / 2) as int
    }
}

/// The byte sequence that encodes the packed value `x`: 5-bit groups, least
/// significant first, each rendered through the alphabet, with bit 5 of the
/// digit set on every group but the last.
pub open spec fn digit_bytes(x: nat) -> Seq<u8>
    decreases x,
{
    if x < 32 {
        seq![byte_of_digit(x as u8)]
    } else {
        seq![byte_of_digit((x % 32 + 32) as u8)] + digit_bytes(x / 32)
    }
}

/// The byte sequence that encodes the signed value `v`.
pub open spec fn vlq_bytes(v: i64) -> Seq<u8> {
    digit_bytes(packed(v))
}

/// What one decode makes of `s` read from index `i` onward, having already
/// consumed `i` continued digits: the packed value of the digits from `i` to
/// the first unflagged one and the total count of bytes then consumed, or
/// the error, again with the count of bytes consumed before giving up.
/// Errors are found in the decoder's order: a missing byte first, then a
/// byte outside the alphabet, then a group that 64 bits cannot hold (a 14th
/// digit, or a 13th whose payload reaches past bit 63).
pub enum Outcome {
    /// A terminated digit run carrying the packed value `n`.
    Value { n: nat, used: nat },
    /// The input ended before an unflagged digit was read.
    Eof,
    /// The byte `bad` lies outside the alphabet.
    Invalid { bad: u8, used: nat },
    /// The value would not fit into 64 bits.
    Overflow { used: nat },
}

pub open spec fn scan(s: Seq<u8>, i: nat) -> Outcome
    decreases s.len() - i,
{
    if i >= s.len() {
        Outcome::Eof
    } else if !is_base64_byte(s[i as int]) {
        Outcome::Invalid { bad: s[i as int], used: i + 1 }
    } else if i > 12 || (i == 12 && digit_of_byte(s[i as int]) % 32 >= 16) {
        Outcome::Overflow { used: i + 1 }
    } else if digit_of_byte(s[i as int]) < 32 {
        Outcome::Value { n: digit_of_byte(s[i as int]) as nat, used: i + 1 }
    } else {
        match scan(s, i + 1) {
            Outcome::Value { n, used } => Outcome::Value {
                n: (digit_of_byte(s[i as int]) - 32 + 32 * n) as nat,
                used,
            },
            r => r,
        }
    }
}

/// What one decode makes of the input `s`.
pub open spec fn vlq_scan(s: Seq<u8>) -> Outcome {
    scan(s, 0)
}

/// A pull-based byte source: yields one byte at a time and signals
/// exhaustion.  Its view is the sequence of bytes not yet consumed.
pub struct ByteSource {
    bytes: Vec<u8>,
    pos: usize,
}

impl View for ByteSource {
    type V = Seq<u8>;

    closed spec fn view(&self) -> Seq<u8> {
        self.bytes@.skip(self.pos as int)
    }
}

impl ByteSource {
    #[verifier::type_invariant]
    spec fn wf(&self) -> bool {
        self.pos <= self.bytes@.len()
    }

    /// A source positioned at the start of `bytes`.
    pub fn new(bytes: Vec<u8>) -> (s: Self)
        ensures
            s@ == bytes@,
    {
        ByteSource { bytes, pos: 0 }
    }

    /// Pull the next byte, or `None` once the source is exhausted.
    pub fn next(&mut self) -> (r: Option<u8>)
        ensures
            old(self)@.len() == 0 ==> r is None && final(self)@ == old(self)@,
            old(self)@.len() > 0 ==> r == Some(old(self)@[0]) && final(self)@ == old(self)@.drop_first(),
    {
        proof {
            use_type_invariant(&*self);
        }
        if self.pos < self.bytes.len() {
            let b = self.bytes[self.pos];
            self.pos = self.pos + 1;
            proof {
                assert(self.bytes@.skip(self.pos as int) =~= old(self)@.drop_first());
            }
            Some(b)
        } else {
            None
        }
    }
}

/// How an outcome `rest` for the digits from index `i` onward combines with
/// an accumulator already holding the payloads of the first `i` digits: a
/// value found in the tail is shifted up by the 5 bits of each consumed
/// digit, an error passes through unchanged.
spec fn lifts(whole: Outcome, rest: Outcome, accum: nat, i: nat) -> bool {
    match rest {
        Outcome::Value { n, used } => whole == (Outcome::Value {
            n: (accum + n * pow2(5 * i)) as nat,
            used,
        }),
        r => whole == r,
    }
}

/// Decode a single VLQ value from the source, returning the value.
///
/// Pulls one byte per digit until a digit without the continuation flag
/// arrives, then unpacks the sign from bit 0 of the accumulated value.
/// Exactly the bytes of the one value are consumed, so a caller can decode
/// the next value from the same source immediately; on an error the bytes
/// up to and including the offending one are gone (all of them when the
/// source ends too early).
///
/// Decoding is strict: a digit run whose value does not fit in 64 bits is
/// rejected as an overflow.  The one odd packed value with magnitude 0
/// decodes to `i64::MIN`, so the supported range is all of `i64`.
pub fn decode(input: &mut ByteSource) -> (r: Result<i64, Error>)
    ensures
        ({
            let oc = vlq_scan(old(input)@);
            &&& (oc matches Outcome::Value { n, used } ==> {
                &&& r matches Ok(v) && v as int == unpacked(n)
                &&& final(input)@ == old(input)@.skip(used as int)
            })
            &&& (oc is Eof ==> {
                &&& r == Err::<i64, Error>(Error::UnexpectedEof)
                &&& final(input)@ == Seq::<u8>::empty()
            })
            &&& (oc matches Outcome::Invalid { bad, used } ==> {
                &&& r == Err::<i64, Error>(Error::InvalidBase64(bad))
                &&& final(input)@ == old(input)@.skip(used as int)
            })
            &&& (oc matches Outcome::Overflow { used } ==> {
                &&& r == Err::<i64, Error>(Error::Overflow)
                &&& final(input)@ == old(input)@.skip(used as int)
            })
        }),
{
    let ghost g: Seq<u8> = input@;
    let ghost mut i: nat = 0;
    let mut accum: u64 = 0;
    let mut shift: u64 = 0;

    proof {
        lemma2_to64();
    }
    let mut keep_going = true;
    while keep_going
        invariant
            g == old(input)@,
            i <= 13,
            i <= g.len(),
            shift == 5 * i,
            input@ == g.skip(i as int),
            keep_going ==> accum < pow2(shift as nat),
            keep_going ==> lifts(vlq_scan(g), scan(g, i), accum as nat, i),
            !keep_going ==> vlq_scan(g) == (Outcome::Value { n: accum as nat, used: i }),
        decreases input@.len(),
    {
        proof {
            lemma2_to64();
            lemma2_to64_rest();
        }
        let byte = match input.next() {
            Some(b) => b,
            None => {
                return Err(Error::UnexpectedEof);
            },
        };
        proof {
            assert(byte == g[i as int]);
            assert(input@ =~= g.skip(i as int + 1));
        }
        let digit = match decode64(byte) {
            Ok(d) => d,
            Err(e) => {
                return Err(e);
            },
        };

        if shift > 60 {
            // A 14th digit: even a zero payload would lie past bit 64.
            return Err(Error::Overflow);
        } else if shift == 60 && digit % 32 >= 16 {
            // A 13th digit whose payload reaches past bit 63.
            return Err(Error::Overflow);
        }

        let payload: u64 = (digit % 32) as u64;
        proof {
            lemma_pow2_adds(shift as nat, 5);
            if shift < 60 {
                if shift < 59 {
                    lemma_pow2_strictly_increases(shift as nat, 59);
                }
                assert(accum + payload * pow2(shift as nat) < pow2(shift as nat + 5))
                    by (nonlinear_arith)
                    requires
                        payload < 32,
                        accum < pow2(shift as nat),
                        pow2(shift as nat + 5) == 32 * pow2(shift as nat),
                ;
                assert(32 * pow2(shift as nat) <= 32 * pow2(59)) by (nonlinear_arith)
                    requires
                        pow2(shift as nat) <= pow2(59),
                ;
                assert(32 * pow2(59) == pow2(64)) by {
                    lemma_pow2_adds(59, 5);
                }
                assert(accum + payload * pow2(shift as nat) < pow2(64));
            } else {
                lemma_pow2_adds(60, 4);
                assert(accum + payload * pow2(shift as nat) < pow2(64)) by (nonlinear_arith)
                    requires
                        shift == 60,
                        payload < 16,
                        accum < pow2(60),
                        pow2(64) == 16 * pow2(60),
                ;
                lemma_pow2_strictly_increases(64, 65);
                assert(accum + payload * pow2(shift as nat) < pow2(shift as nat + 5));
            }
            lemma_u64_shl_is_mul(payload, shift);
        }
        accum = accum + (payload << shift);
        shift = shift + 5;
        keep_going = digit >= 32;

        proof {
            let d: nat = (digit % 32) as nat;
            let p: nat = pow2(5 * i);
            if digit >= 32 {
                assert(scan(g, i) == match scan(g, i + 1) {
                    Outcome::Value { n, used } => Outcome::Value { n: (d + 32 * n) as nat, used },
                    r => r,
                });
                if scan(g, i + 1) is Value {
                    let n = scan(g, i + 1)->n;
                    assert((d + 32 * n) * p == d * p + n * (32 * p)) by (nonlinear_arith);
                    lemma_pow2_adds(5 * i, 5);
                }
            } else {
                assert(scan(g, i) == (Outcome::Value { n: d, used: i + 1 }));
            }
            i = i + 1;
        }
    }

    let negate = accum % 2 == 1;
    let half: u64 = accum / 2;

    if negate {
        if half == 0 {
            Ok(i64::MIN)
        } else {
            Ok(-(half as i64))
        }
    } else {
        Ok(half as i64)
    }
}

/// Decode a single Base64 digit.
pub fn decode64(input: u8) -> (r: Result<u8, Error>)
    ensures
        is_base64_byte(input) ==> r == Ok::<u8, Error>(digit_of_byte(input)),
        !is_base64_byte(input) ==> r == Err::<u8, Error>(Error::InvalidBase64(input)),
{
    match input {
        65..=90 => Ok(input - 65),
        97..=122 => Ok(input - 97 + 26),
        48..=57 => Ok(input - 48 + 52),
        43 => Ok(62),
        47 => Ok(63),
        _ => Err(Error::InvalidBase64(input)),
    }
}

/// Encode a single Base64 digit.
pub fn encode64(value: u8) -> (r: u8)
    requires
        value < 64,
    ensures
        r == byte_of_digit(value),
        is_base64_byte(r),
        digit_of_byte(r) == value,
{
    if value < 26 {
        value + 65
    } else if value < 52 {
        value - 26 + 97
    } else if value < 62 {
        value - 52 + 48
    } else if value == 62 {
        43
    } else {
        47
    }
}

/// Encode `value` as Base64 VLQ, appending the bytes to `output`.
///
/// The magnitude is shifted left once to make room for the sign in bit 0,
/// then split into 5-bit groups, least significant first; every group but
/// the last is emitted with the continuation flag.  At least one byte is
/// always appended, and never a superfluous trailing zero group.
/// `i64::MIN`, whose magnitude has no positive signed counterpart, is
/// carried as magnitude 0 with the sign bit set.
pub fn encode(value: i64, output: &mut Vec<u8>)
    ensures
        final(output)@ == old(output)@ + vlq_bytes(value),
{
    let negative = value < 0;
    let mut x: u64 = if value == i64::MIN {
        0
    } else if negative {
        (-value) as u64 * 2
    } else {
        value as u64 * 2
    };
    if negative {
        x = x + 1;
    }
    proof {
        assert(x as nat == packed(value));
    }

    let ghost mut emitted: Seq<u8> = Seq::empty();
    let mut more = true;
    while more
        invariant
            output@ == old(output)@ + emitted,
            more ==> digit_bytes(packed(value)) == emitted + digit_bytes(x as nat),
            !more ==> digit_bytes(packed(value)) == emitted,
        decreases x, (if more { 1int } else { 0int }),
    {
        let ghost x_before: nat = x as nat;
        let payload: u8 = (x % 32) as u8;
        x = x / 32;
        let digit: u8 = if x > 0 {
            payload + 32
        } else {
            payload
        };
        let b = encode64(digit);
        output.push(b);
        proof {
            if x > 0 {
                assert(digit_bytes(x_before) == seq![b] + digit_bytes(x as nat));
                assert(emitted + digit_bytes(x_before) == (emitted + seq![b]) + digit_bytes(
                    x as nat,
                ));
            } else {
                assert(digit_bytes(x_before) == seq![b]);
            }
            emitted = emitted + seq![b];
        }
        more = x > 0;
    }
}

/// Scanning the digit run of a packed value `x` that starts at index `i`
/// of `s` finds exactly `x`, whatever bytes follow the run.  The bound on
/// `x` says that its groups fit in the positions left before the 64-bit
/// capacity check would trip: 5 bits for each, only 4 in the last.
proof fn lemma_scan_digit_bytes(s: Seq<u8>, i: nat, x: nat, rest: Seq<u8>)
    requires
        i <= 12,
        i <= s.len(),
        x < pow2((5 * (13 - i) - 1) as nat),
        s.skip(i as int) == digit_bytes(x) + rest,
    ensures
        scan(s, i) == (Outcome::Value { n: x, used: i + digit_bytes(x).len() }),
    decreases x,
{
    lemma2_to64();
    assert(digit_bytes(x).len() >= 1);
    assert(s.skip(i as int).len() == s.len() - i);
    assert(s.skip(i as int)[0] == s[i as int]);
    assert(s[i as int] == digit_bytes(x)[0]);
    if x < 32 {
        lemma_alphabet_bijection(x as u8);
        assert(s[i as int] == byte_of_digit(x as u8));
        if i == 12 {
            assert(x < pow2(4));
        }
        assert(scan(s, i) == (Outcome::Value { n: x, used: i + 1 }));
    } else {
        let d: u8 = (x % 32 + 32) as u8;
        lemma_alphabet_bijection(d);
        assert(s[i as int] == byte_of_digit(d));
        assert(digit_of_byte(s[i as int]) == d);
        let k: nat = (5 * (13 - i) - 1) as nat;
        if i == 12 {
            assert(x < pow2(4));
            assert(false);
        }
        lemma_pow2_adds((k - 5) as nat, 5);
        assert(x / 32 < pow2((k - 5) as nat)) by (nonlinear_arith)
            requires
                x < pow2(k),
                pow2(k) == pow2((k - 5) as nat) * 32,
        ;
        assert(digit_bytes(x) == seq![byte_of_digit(d)] + digit_bytes(x / 32));
        assert forall|j: int| 0 <= j < s.len() - i - 1 implies #[trigger] s.skip(i as int + 1)[j]
            == (digit_bytes(x / 32) + rest)[j] by {
            assert(s.skip(i as int + 1)[j] == s[i as int + 1 + j]);
            assert(s.skip(i as int)[j + 1] == s[i as int + 1 + j]);
            assert(s.skip(i as int)[j + 1] == (digit_bytes(x) + rest)[j + 1]);
        }
        assert(s.skip(i as int + 1) =~= digit_bytes(x / 32) + rest);
        lemma_scan_digit_bytes(s, i + 1, x / 32, rest);
        assert(d - 32 + 32 * (x / 32) == x);
    }
}

/// Round trip: decoding the encoding of `v` finds exactly `v`'s packed
/// value, whatever bytes follow it, and consumes exactly the encoding; and
/// unpacking the packed value gives `v` back.  A decode after an encode
/// therefore returns `v` and leaves the source where the trailing bytes
/// begin.
pub proof fn lemma_round_trip(v: i64, rest: Seq<u8>)
    ensures
        vlq_scan(vlq_bytes(v) + rest) == (Outcome::Value {
            n: packed(v),
            used: vlq_bytes(v).len(),
        }),
        unpacked(packed(v)) == v as int,
{
    lemma2_to64();
    lemma2_to64_rest();
    let s = vlq_bytes(v) + rest;
    assert(s.skip(0) =~= digit_bytes(packed(v)) + rest);
    assert(packed(v) < pow2(64));
    lemma_scan_digit_bytes(s, 0, packed(v), rest);
}

/// The shape of an encoded digit run: never empty, the continuation flag on
/// every digit but the last, never a superfluous trailing zero group.
proof fn lemma_digit_bytes_shape(x: nat)
    ensures
        digit_bytes(x).len() >= 1,
        x < 32 <==> digit_bytes(x).len() == 1,
        forall|j: int|
            0 <= j < digit_bytes(x).len() - 1 ==> digit_of_byte(
                #[trigger] digit_bytes(x)[j],
            ) >= 32,
        digit_of_byte(digit_bytes(x)[digit_bytes(x).len() - 1]) < 32,
        digit_bytes(x).len() > 1 ==> digit_of_byte(digit_bytes(x)[digit_bytes(x).len() - 1]) != 0,
    decreases x,
{
    if x < 32 {
        lemma_alphabet_bijection(x as u8);
    } else {
        lemma_alphabet_bijection((x % 32 + 32) as u8);
        lemma_digit_bytes_shape(x / 32);
        assert(forall|j: int|
            1 <= j < digit_bytes(x).len() ==> digit_bytes(x)[j] == digit_bytes(x / 32)[j - 1]);
    }
}

/// Minimality: `0` encodes as exactly one byte; no encoding carries the
/// continuation flag on its last digit, and a longer-than-one encoding
/// never ends in a zero-payload group, so no encoding has a superfluous
/// trailing group.
pub proof fn lemma_minimal(v: i64)
    ensures
        vlq_bytes(0).len() == 1,
        vlq_bytes(v).len() >= 1,
        forall|j: int|
            0 <= j < vlq_bytes(v).len() - 1 ==> digit_of_byte(#[trigger] vlq_bytes(v)[j]) >= 32,
        digit_of_byte(vlq_bytes(v)[vlq_bytes(v).len() - 1]) < 32,
        vlq_bytes(v).len() > 1 ==> digit_of_byte(vlq_bytes(v)[vlq_bytes(v).len() - 1]) != 0,
{
    lemma_digit_bytes_shape(packed(0));
    lemma_digit_bytes_shape(packed(v));
}

} // verus!

