//! Reversible, injective percent-style escaping of arbitrary text into the
//! restricted ASCII alphabet `[0-9A-Za-z_]` plus the escape marker `%`.
//!
//! Structured-key segments run through this escaper, so they can be joined
//! with a fixed separator (a byte outside the escaped alphabet) without any
//! ambiguity of segment boundaries.

use vstd::prelude::*;
use vstd::string::StrSliceExecFns;
use vstd::string::StringSliceAdditionalSpecFns;
use vstd::utf8::encode_utf8;
use vstd::utf8::decode_utf8;
use vstd::utf8::valid_utf8;

use crate::errors::KeyError;
use crate::errors::KeyErrorModel;

verus! {

/// A byte the escaper copies unchanged: ASCII digit, letter or underscore.
pub open spec fn is_plain_byte(b: u8) -> bool {
    (48 <= b && b <= 57) || (97 <= b && b <= 122) || (65 <= b && b <= 90) || b == 95
}

/// A lowercase hexadecimal digit, the only digits the escaper emits.
pub open spec fn is_hex_lower(b: u8) -> bool {
    (48 <= b && b <= 57) || (97 <= b && b <= 102)
}

/// The lowercase hexadecimal digit for a nibble.
pub open spec fn hex_digit(n: u8) -> u8
    recommends
        n < 16,
{
    if n < 10 {
        (48 + n) as u8
    } else {
        (97 + (n - 10)) as u8
    }
}

/// The nibble value of a lowercase hexadecimal digit.
pub open spec fn unhex(b: u8) -> u8
    recommends
        is_hex_lower(b),
{
    if 48 <= b && b <= 57 {
        (b - 48) as u8
    } else {
        ((b - 97) + 10) as u8
    }
}

/// How one byte is escaped: plain bytes are copied, any other byte becomes
/// `%` followed by two lowercase hex digits, high nibble first.
pub open spec fn escape_byte(b: u8) -> Seq<u8> {
    if is_plain_byte(b) {
        seq![b]
    } else {
        seq![37u8, hex_digit(b / 16), hex_digit(b % 16)]
    }
}

/// The escaped form of a byte sequence.
pub open spec fn spec_escape_bytes(s: Seq<u8>) -> Seq<u8>
    decreases s.len(),
{
    if s.len() == 0 {
        Seq::empty()
    } else {
        escape_byte(s[0]) + spec_escape_bytes(s.skip(1))
    }
}

/// The unescaped form of a byte sequence: a non-`%` byte is copied, a `%`
/// byte consumes two lowercase hex digits; `None` when a `%` is not
/// followed by two such digits.
pub open spec fn spec_unescape_bytes(s: Seq<u8>) -> Option<Seq<u8>>
    decreases s.len(),
{
    if s.len() == 0 {
        Some(Seq::empty())
    } else if s[0] == 37u8 {
        if s.len() >= 3 && is_hex_lower(s[1]) && is_hex_lower(s[2]) {
            match spec_unescape_bytes(s.skip(3)) {
                Some(r) => Some(seq![(unhex(s[1]) * 16 + unhex(s[2])) as u8] + r),
                None => None,
            }
        } else {
            None
        }
    } else {
        match spec_unescape_bytes(s.skip(1)) {
            Some(r) => Some(seq![s[0]] + r),
            None => None,
        }
    }
}

/// Every byte of an escaped sequence: plain or the escape marker.
pub open spec fn is_escape_output_byte(b: u8) -> bool {
    is_plain_byte(b) || b == 37u8
}

/// The escaped form of a string, as a character sequence.
pub open spec fn spec_escape(s: Seq<char>) -> Seq<char> {
    decode_utf8(spec_escape_bytes(encode_utf8(s)))
}

/// The unescaped form of a string: the exact error for each failing input.
pub open spec fn spec_unescape(s: Seq<char>) -> Result<Seq<char>, KeyErrorModel> {
    match spec_unescape_bytes(encode_utf8(s)) {
        None => Err(KeyErrorModel::InvalidEscape { s: s }),
        Some(b) => if valid_utf8(b) {
            Ok(decode_utf8(b))
        } else {
            Err(KeyErrorModel::FromUtf8Error { bytes: b })
        },
    }
}

/// Escaping a concatenation escapes each part.
pub proof fn lemma_escape_bytes_concat(a: Seq<u8>, b: Seq<u8>)
    ensures
        spec_escape_bytes(a + b) == spec_escape_bytes(a) + spec_escape_bytes(b),
    decreases a.len(),
{
    if a.len() == 0 {
        assert(a + b =~= b);
        assert(spec_escape_bytes(a) + spec_escape_bytes(b) =~= spec_escape_bytes(b));
    } else {
        assert((a + b).skip(1) =~= a.skip(1) + b);
        lemma_escape_bytes_concat(a.skip(1), b);
        assert(spec_escape_bytes(a + b) =~= escape_byte(a[0]) + (spec_escape_bytes(a.skip(1))
            + spec_escape_bytes(b)));
        assert(escape_byte(a[0]) + (spec_escape_bytes(a.skip(1)) + spec_escape_bytes(b)) =~= (
        escape_byte(a[0]) + spec_escape_bytes(a.skip(1))) + spec_escape_bytes(b));
    }
}

/// Escaping one more byte appends that byte's escaped form.
pub proof fn lemma_escape_bytes_snoc(a: Seq<u8>, x: u8)
    ensures
        spec_escape_bytes(a.push(x)) == spec_escape_bytes(a) + escape_byte(x),
{
    assert(a.push(x) =~= a + seq![x]);
    lemma_escape_bytes_concat(a, seq![x]);
    let s1 = seq![x];
    assert(s1.len() == 1 && s1[0] == x);
    assert(s1.skip(1) =~= Seq::<u8>::empty());
    assert(spec_escape_bytes(Seq::<u8>::empty()) == Seq::<u8>::empty());
    assert(spec_escape_bytes(s1) == escape_byte(x) + Seq::<u8>::empty());
    assert(escape_byte(x) + Seq::<u8>::empty() =~= escape_byte(x));
}

/// Every byte of an escaped sequence lies in the escaped alphabet.
pub proof fn lemma_escape_bytes_alphabet(s: Seq<u8>)
    ensures
        forall|i: int|
            0 <= i < spec_escape_bytes(s).len() ==> is_escape_output_byte(
                #[trigger] spec_escape_bytes(s)[i],
            ),
    decreases s.len(),
{
    if s.len() > 0 {
        lemma_escape_bytes_alphabet(s.skip(1));
        assert forall|i: int| 0 <= i < spec_escape_bytes(s).len() implies is_escape_output_byte(
            spec_escape_bytes(s)[i],
        ) by {
            let e0 = escape_byte(s[0]);
            if i < e0.len() {
                assert(spec_escape_bytes(s)[i] == e0[i]);
            } else {
                assert(spec_escape_bytes(s)[i] == spec_escape_bytes(s.skip(1))[i - e0.len()]);
            }
        }
    }
}

/// Unescaping inverts escaping, byte for byte.
pub proof fn lemma_unescape_escape_bytes(s: Seq<u8>)
    ensures
        spec_unescape_bytes(spec_escape_bytes(s)) == Some(s),
    decreases s.len(),
{
    if s.len() == 0 {
        assert(spec_escape_bytes(s) =~= Seq::<u8>::empty());
    } else {
        lemma_unescape_escape_bytes(s.skip(1));
        let e = spec_escape_bytes(s);
        let rest = spec_escape_bytes(s.skip(1));
        if is_plain_byte(s[0]) {
            assert(e =~= seq![s[0]] + rest);
            assert(e[0] == s[0] && e[0] != 37u8);
            assert(e.skip(1) =~= rest);
            assert(seq![s[0]] + s.skip(1) =~= s);
        } else {
            let hi = hex_digit(s[0] / 16);
            let lo = hex_digit(s[0] % 16);
            assert(e =~= seq![37u8, hi, lo] + rest);
            assert(e.len() >= 3 && e[0] == 37u8 && e[1] == hi && e[2] == lo);
            assert(is_hex_lower(hi) && is_hex_lower(lo));
            assert(unhex(hi) == s[0] / 16 && unhex(lo) == s[0] % 16);
            assert(e.skip(3) =~= rest);
            assert(unhex(hi) * 16 + unhex(lo) == s[0]) by {
                assert(s[0] / 16 * 16 + s[0] % 16 == s[0]);
            }
            assert(seq![s[0]] + s.skip(1) =~= s);
        }
    }
}

/// Escaping is injective: distinct byte sequences escape differently.
pub proof fn lemma_escape_bytes_injective(a: Seq<u8>, b: Seq<u8>)
    requires
        a != b,
    ensures
        spec_escape_bytes(a) != spec_escape_bytes(b),
{
    if spec_escape_bytes(a) == spec_escape_bytes(b) {
        lemma_unescape_escape_bytes(a);
        lemma_unescape_escape_bytes(b);
    }
}

/// A sequence of bytes below 128 is valid text, and re-encoding its
/// decoding gives the bytes back.
pub proof fn lemma_ascii_bytes_valid_utf8(b: Seq<u8>)
    requires
        forall|i: int| 0 <= i < b.len() ==> b[i] < 128,
    ensures
        valid_utf8(b),
    decreases b.len(),
{
    if b.len() > 0 {
        assert(vstd::utf8::is_leading_byte_width_1(b[0]));
        assert(vstd::utf8::valid_first_scalar(b));
        assert(vstd::utf8::length_of_first_scalar(b) == 1);
        assert(vstd::utf8::pop_first_scalar(b) =~= b.skip(1));
        lemma_ascii_bytes_valid_utf8(b.skip(1));
        assert(vstd::utf8::not_overlong_encoding(vstd::utf8::decode_first_scalar(b), 1));
        assert(vstd::utf8::not_surrogate(vstd::utf8::decode_first_scalar(b)));
    }
}

/// Round trip: unescaping an escaped string yields the original string.
pub proof fn lemma_unescape_escape(s: Seq<char>)
    ensures
        spec_unescape(spec_escape(s)) == Ok::<Seq<char>, KeyErrorModel>(s),
{
    broadcast use vstd::utf8::encode_utf8_valid_utf8, vstd::utf8::encode_utf8_decode_utf8;

    let b = encode_utf8(s);
    let e = spec_escape_bytes(b);
    lemma_escape_bytes_alphabet(b);
    assert(forall|i: int| 0 <= i < e.len() ==> e[i] < 128);
    lemma_ascii_bytes_valid_utf8(e);
    vstd::utf8::decode_utf8_encode_utf8(e);
    assert(encode_utf8(spec_escape(s)) == e);
    lemma_unescape_escape_bytes(b);
    assert(valid_utf8(b));
    assert(decode_utf8(b) == s);
}

/// Injectivity: distinct strings escape to distinct strings.
pub proof fn lemma_escape_injective(s1: Seq<char>, s2: Seq<char>)
    requires
        s1 != s2,
    ensures
        spec_escape(s1) != spec_escape(s2),
{
    if spec_escape(s1) == spec_escape(s2) {
        lemma_unescape_escape(s1);
        lemma_unescape_escape(s2);
    }
}

/// Relies on `String::from_utf8`: bytes below 128 are valid UTF-8, and the
/// resulting string holds exactly those bytes.
#[verifier::external_body]
pub(crate) fn ascii_to_string(v: Vec<u8>) -> (r: String)
    requires
        forall|i: int| 0 <= i < v@.len() ==> v@[i] < 128,
    ensures
        encode_utf8(r@) == v@,
{
    match String::from_utf8(v) {
        Ok(s) => s,
        Err(_) => String::new(),
    }
}

/// Relies on `String::from_utf8`: it succeeds exactly on valid UTF-8 and
/// returns a string of those bytes; on failure `into_bytes` gives the
/// input back.
#[verifier::external_body]
fn utf8_to_string(v: Vec<u8>) -> (r: Result<String, Vec<u8>>)
    ensures
        match r {
            Ok(s) => valid_utf8(v@) && s@ == decode_utf8(v@),
            Err(w) => !valid_utf8(v@) && w@ == v@,
        },
{
    match String::from_utf8(v) {
        Ok(s) => Ok(s),
        Err(e) => Err(e.into_bytes()),
    }
}

/// The lowercase hexadecimal digit for a nibble.
fn hex_digit_of(n: u8) -> (r: u8)
    requires
        n < 16,
    ensures
        r == hex_digit(n),
{
    if n < 10 {
        48 + n
    } else {
        97 + (n - 10)
    }
}

/// The nibble value of a lowercase hexadecimal digit.
fn unhex_of(b: u8) -> (r: u8)
    requires
        is_hex_lower(b),
    ensures
        r == unhex(b),
{
    if b <= 57 {
        b - 48
    } else {
        (b - 97) + 10
    }
}

/// Escape a string into the restricted alphabet.
///
/// Every byte that is an ASCII digit, letter or underscore is copied;
/// every other byte becomes `%` and two lowercase hex digits. Total and
/// deterministic; the output is at most three times as long as the input.
pub fn escape(key: &str) -> (r: String)
    ensures
        r@ == spec_escape(key@),
        encode_utf8(r@) == spec_escape_bytes(key.spec_bytes()),
{
    let bytes: Vec<u8> = key.as_bytes_vec();
    let n = bytes.len();
    let mut out: Vec<u8> = Vec::new();
    let mut i: usize = 0;
    while i < n
        invariant
            i <= n,
            n == bytes@.len(),
            bytes@ == key.spec_bytes(),
            out@ == spec_escape_bytes(bytes@.take(i as int)),
            forall|j: int| 0 <= j < out@.len() ==> out@[j] < 128,
        decreases n - i,
    {
        let b = bytes[i];
        if (48 <= b && b <= 57) || (97 <= b && b <= 122) || (65 <= b && b <= 90) || b
            == 95 {
            out.push(b);
        } else {
            out.push(37u8);
            out.push(hex_digit_of(b / 16));
            out.push(hex_digit_of(b % 16));
        }
        proof {
            assert(bytes@.take(i + 1) =~= bytes@.take(i as int).push(b));
            lemma_escape_bytes_snoc(bytes@.take(i as int), b);
            assert(out@ =~= spec_escape_bytes(bytes@.take(i as int)) + escape_byte(b));
        }
        i += 1;
    }
    proof {
        assert(bytes@.take(n as int) =~= bytes@);
        broadcast use vstd::utf8::encode_utf8_decode_utf8;

    }
    let r = ascii_to_string(out);
    proof {
        vstd::utf8::encode_utf8_decode_utf8(r@);
    }
    r
}

/// Unescape a string: the reverse of [`escape`].
///
/// Fails with [`KeyError::InvalidEscape`] when a `%` is not followed by two
/// lowercase hex digits, and with [`KeyError::FromUtf8Error`] when the
/// reconstructed bytes are not valid text.
pub fn unescape(key: &str) -> (r: Result<String, KeyError>)
    ensures
        match r {
            Ok(t) => spec_unescape(key@) == Ok::<Seq<char>, KeyErrorModel>(t@),
            Err(e) => spec_unescape(key@) == Err::<Seq<char>, KeyErrorModel>(e@),
        },
{
    let bytes: Vec<u8> = key.as_bytes_vec();
    let n = bytes.len();
    let mut out: Vec<u8> = Vec::new();
    let mut i: usize = 0;
    proof {
        assert(bytes@.skip(0) =~= bytes@);
        assert forall|r2: Seq<u8>| Seq::<u8>::empty() + r2 == r2 by {
            assert(Seq::<u8>::empty() + r2 =~= r2);
        }
    }
    while i < n
        invariant
            i <= n,
            n == bytes@.len(),
            bytes@ == key.spec_bytes(),
            match spec_unescape_bytes(bytes@.skip(i as int)) {
                Some(rest) => spec_unescape_bytes(bytes@) == Some(out@ + rest),
                None => spec_unescape_bytes(bytes@) is None,
            },
        decreases n - i,
    {
        let ghost tail = bytes@.skip(i as int);
        let b = bytes[i];
        assert(tail[0] == b);
        if b == 37u8 {
            if n - i >= 3 && {
                let h = bytes[i + 1];
                (48 <= h && h <= 57) || (97 <= h && h <= 102)
            } && {
                let l = bytes[i + 2];
                (48 <= l && l <= 57) || (97 <= l && l <= 102)
            } {
                let hi = unhex_of(bytes[i + 1]);
                let lo = unhex_of(bytes[i + 2]);
                out.push(hi * 16 + lo);
                proof {
                    assert(tail.len() >= 3 && tail[1] == bytes@[i + 1] && tail[2] == bytes@[i + 2]);
                    assert(tail.skip(3) =~= bytes@.skip(i + 3));
                    assert(forall|r2: Seq<u8>|
                        out@.drop_last() + (seq![(unhex(tail[1]) * 16 + unhex(tail[2])) as u8] + r2)
                            =~= out@ + r2);
                }
                i += 3;
            } else {
                proof {
                    assert(spec_unescape_bytes(tail) is None);
                }
                return Err(KeyError::InvalidEscape { s: key.to_owned() });
            }
        } else {
            out.push(b);
            proof {
                assert(tail.skip(1) =~= bytes@.skip(i + 1));
                assert(forall|r2: Seq<u8>| out@.drop_last() + (seq![b] + r2) =~= out@ + r2);
            }
            i += 1;
        }
    }
    proof {
        assert(bytes@.skip(n as int) =~= Seq::<u8>::empty());
        assert(out@ + Seq::<u8>::empty() =~= out@);
    }
    match utf8_to_string(out) {
        Ok(t) => Ok(t),
        Err(w) => Err(KeyError::FromUtf8Error { bytes: w }),
    }
}

} // verus!
