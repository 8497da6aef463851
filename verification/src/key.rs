//! Structured keys and their flat string form.
//!
//! A structured key is a typed value with a fixed prefix naming its key
//! family plus ordered payload segments (escaped strings or numeric ids).
//! Segments are joined with `/`, a byte outside the escaped alphabet, so
//! segment boundaries are never ambiguous and decoding inverts encoding.

use vstd::prelude::*;
use vstd::string::StrSliceExecFns;
use vstd::string::StringExecFns;
use vstd::string::StringSliceAdditionalSpecFns;
use vstd::utf8::encode_utf8;
use vstd::utf8::decode_utf8;
use vstd::utf8::valid_utf8;
use vstd::utf8::is_char_boundary;
use vstd::utf8::is_continuation_byte;

use crate::errors::KeyError;
use crate::errors::KeyErrorModel;
use crate::escape::spec_escape_bytes;
use crate::escape::spec_unescape_bytes;
use crate::escape::escape;
use crate::escape::unescape;

verus! {

/// The byte that separates segments of a flat key: `/`, which the escaper
/// never emits.
pub const SEGMENT_SEP: u8 = 47;

/// Splitting a byte sequence on the separator. Splitting an empty
/// sequence gives one empty segment, as string splitting does.
pub open spec fn spec_split_bytes(s: Seq<u8>) -> Seq<Seq<u8>>
    decreases s.len(),
{
    if s.len() == 0 {
        seq![Seq::empty()]
    } else if s[0] == SEGMENT_SEP {
        seq![Seq::<u8>::empty()] + spec_split_bytes(s.skip(1))
    } else {
        let rest = spec_split_bytes(s.skip(1));
        seq![seq![s[0]] + rest[0]] + rest.skip(1)
    }
}

/// A split always has at least one segment.
pub proof fn lemma_split_len_pos(s: Seq<u8>)
    ensures
        spec_split_bytes(s).len() >= 1,
    decreases s.len(),
{
    if s.len() > 0 {
        lemma_split_len_pos(s.skip(1));
    }
}

/// A sequence without the separator is one segment.
pub proof fn lemma_split_no_sep(s: Seq<u8>)
    requires
        forall|i: int| 0 <= i < s.len() ==> s[i] != SEGMENT_SEP,
    ensures
        spec_split_bytes(s) == seq![s],
    decreases s.len(),
{
    if s.len() == 0 {
        assert(s =~= Seq::<u8>::empty());
        assert(seq![Seq::<u8>::empty()] =~= seq![s]);
    } else {
        lemma_split_no_sep(s.skip(1));
        let rest = spec_split_bytes(s.skip(1));
        assert(rest[0] == s.skip(1));
        assert(seq![s[0]] + s.skip(1) =~= s);
        assert(rest.skip(1) =~= Seq::<Seq<u8>>::empty());
        assert(seq![seq![s[0]] + rest[0]] + rest.skip(1) =~= seq![s]);
    }
}

/// Splitting at the first separator: the part before it is the first
/// segment, and the rest splits on its own.
pub proof fn lemma_split_first_sep(s: Seq<u8>, j: int)
    requires
        0 <= j < s.len(),
        s[j] == SEGMENT_SEP,
        forall|i: int| 0 <= i < j ==> s[i] != SEGMENT_SEP,
    ensures
        spec_split_bytes(s) == seq![s.take(j)] + spec_split_bytes(s.skip(j + 1)),
    decreases j,
{
    if j == 0 {
        assert(s.take(0) =~= Seq::<u8>::empty());
        assert(seq![Seq::<u8>::empty()] + spec_split_bytes(s.skip(1)) =~= seq![s.take(0)]
            + spec_split_bytes(s.skip(1)));
    } else {
        lemma_split_first_sep(s.skip(1), j - 1);
        let rest = spec_split_bytes(s.skip(1));
        assert(rest == seq![s.skip(1).take(j - 1)] + spec_split_bytes(s.skip(1).skip(j)));
        assert(rest[0] == s.skip(1).take(j - 1));
        assert(seq![s[0]] + s.skip(1).take(j - 1) =~= s.take(j));
        assert(s.skip(1).skip(j) =~= s.skip(j + 1));
        assert(rest.skip(1) =~= spec_split_bytes(s.skip(j + 1)));
        assert(seq![seq![s[0]] + rest[0]] + rest.skip(1) =~= seq![s.take(j)] + spec_split_bytes(
            s.skip(j + 1),
        ));
    }
}

/// The byte segments of a flat key string.
pub open spec fn spec_segments(s: Seq<char>) -> Seq<Seq<u8>> {
    spec_split_bytes(encode_utf8(s))
}

/// Position of the first separator byte, if any.
fn find_sep(v: &Vec<u8>) -> (r: Option<usize>)
    ensures
        match r {
            Some(j) => j < v@.len() && v@[j as int] == SEGMENT_SEP && forall|k: int|
                0 <= k < j ==> v@[k] != SEGMENT_SEP,
            None => forall|k: int| 0 <= k < v@.len() ==> v@[k] != SEGMENT_SEP,
        },
{
    let n = v.len();
    let mut j: usize = 0;
    while j < n
        invariant
            j <= n,
            n == v@.len(),
            forall|k: int| 0 <= k < j ==> v@[k] != SEGMENT_SEP,
        decreases n - j,
    {
        if v[j] == SEGMENT_SEP {
            return Some(j);
        }
        j += 1;
    }
    None
}

/// Split a flat key into its segments.
pub fn split_segments(s: &str) -> (r: Vec<String>)
    ensures
        r@.len() == spec_segments(s@).len(),
        forall|k: int|
            0 <= k < r@.len() ==> encode_utf8(#[trigger] r@[k]@) == spec_segments(s@)[k],
{
    broadcast use vstd::utf8::encode_utf8_valid_utf8;
    broadcast use vstd::utf8::is_char_boundary_start_end_of_seq;
    broadcast use vstd::utf8::is_char_boundary_iff_not_is_continuation_byte;

    let mut segs: Vec<String> = Vec::new();
    let mut rest: &str = s;
    proof {
        assert(spec_segments(s@) =~= Seq::new(segs@.len(), |k: int| encode_utf8(segs@[k]@))
            + spec_split_bytes(rest.spec_bytes()));
    }
    loop
        invariant
            spec_segments(s@) == Seq::new(segs@.len(), |k: int| encode_utf8(segs@[k]@))
                + spec_split_bytes(rest.spec_bytes()),
        decreases rest.spec_bytes().len(),
    {
        let bytes = rest.as_bytes_vec();
        let ghost rb = rest.spec_bytes();
        match find_sep(&bytes) {
            None => {
                segs.push(rest.to_owned());
                proof {
                    lemma_split_no_sep(rb);
                    assert(Seq::new(segs@.len(), |k: int| encode_utf8(segs@[k]@)) =~= Seq::new(
                        (segs@.len() - 1) as nat,
                        |k: int| encode_utf8(segs@[k]@),
                    ).push(encode_utf8(rest@)));
                    assert(Seq::new((segs@.len() - 1) as nat, |k: int| encode_utf8(segs@[k]@))
                        + seq![rb] =~= Seq::new(segs@.len(), |k: int| encode_utf8(segs@[k]@)));
                    assert(spec_segments(s@) =~= Seq::new(
                        segs@.len(),
                        |k: int| encode_utf8(segs@[k]@),
                    ));
                }
                return segs;
            },
            Some(j) => {
                proof {
                    assert(rb == encode_utf8(rest@));
                    vstd::utf8::encode_utf8_valid_utf8(rest@);
                    assert(valid_utf8(rb));
                    assert(!is_continuation_byte(rb[j as int]));
                    vstd::utf8::is_char_boundary_iff_not_is_continuation_byte(rb, j as int);
                    assert(is_char_boundary(rb, j as int));
                }
                let pair = rest.split_at(j);
                let seg: &str = pair.0;
                let tail: &str = pair.1;
                proof {
                    assert(tail.spec_bytes() =~= rb.subrange(j as int, rb.len() as int));
                    assert(tail.spec_bytes()[0] == SEGMENT_SEP);
                    vstd::utf8::valid_utf8_split(rb, j as int);
                    assert(valid_utf8(tail.spec_bytes()));
                    if tail.spec_bytes().len() == 1 {
                        vstd::utf8::is_char_boundary_start_end_of_seq(tail.spec_bytes());
                        assert(is_char_boundary(tail.spec_bytes(), 1));
                    } else {
                        assert(!is_continuation_byte(tail.spec_bytes()[1])) by {
                            vstd::utf8::is_char_boundary_iff_not_is_continuation_byte(
                                rb,
                                j + 1,
                            );
                            assert(is_char_boundary(rb, j + 1)) by {
                                vstd::utf8::valid_utf8_last(rb);
                                assert(rb[j as int] < 128);
                                lemma_boundary_after_ascii(rb, j as int);
                            }
                        }
                        vstd::utf8::is_char_boundary_iff_not_is_continuation_byte(
                            tail.spec_bytes(),
                            1,
                        );
                        assert(is_char_boundary(tail.spec_bytes(), 1));
                    }
                }
                let tail2: &str = tail.split_at(1).1;
                segs.push(seg.to_owned());
                rest = tail2;
                proof {
                    lemma_split_first_sep(rb, j as int);
                    assert(seg@ == decode_utf8(encode_utf8(seg@))) by {
                        broadcast use vstd::utf8::encode_utf8_decode_utf8;

                    }
                    assert(encode_utf8(seg@) =~= rb.take(j as int));
                    assert(rest.spec_bytes() =~= rb.skip(j + 1));
                    assert(Seq::new(segs@.len(), |k: int| encode_utf8(segs@[k]@)) =~= Seq::new(
                        (segs@.len() - 1) as nat,
                        |k: int| encode_utf8(segs@[k]@),
                    ) + seq![rb.take(j as int)]);
                    assert((Seq::new((segs@.len() - 1) as nat, |k: int| encode_utf8(segs@[k]@))
                        + seq![rb.take(j as int)]) + spec_split_bytes(rb.skip(j + 1)) =~= Seq::new(
                        (segs@.len() - 1) as nat,
                        |k: int| encode_utf8(segs@[k]@),
                    ) + (seq![rb.take(j as int)] + spec_split_bytes(rb.skip(j + 1))));
                }
            },
        }
    }
}

/// After an ASCII byte (below 128), the next position is a character
/// boundary.
pub proof fn lemma_boundary_after_ascii(bytes: Seq<u8>, j: int)
    requires
        valid_utf8(bytes),
        0 <= j < bytes.len(),
        bytes[j] < 128,
    ensures
        is_char_boundary(bytes, j + 1),
    decreases bytes.len(),
{
    broadcast use vstd::utf8::is_char_boundary_start_end_of_seq;

    if j + 1 == bytes.len() {
    } else {
        broadcast use vstd::utf8::is_char_boundary_iff_not_is_continuation_byte;

        if j < vstd::utf8::length_of_first_scalar(bytes) {
            assert(vstd::utf8::length_of_first_scalar(bytes) == 1) by {
                assert(is_char_boundary(bytes, j));
                assert(j == 0);
            }
            vstd::utf8::is_char_boundary_start_end_of_seq(vstd::utf8::pop_first_scalar(bytes));
        } else {
            lemma_boundary_after_ascii(
                vstd::utf8::pop_first_scalar(bytes),
                j - vstd::utf8::length_of_first_scalar(bytes),
            );
        }
    }
}

/// Whether two strings hold the same text.
pub fn str_eq(a: &str, b: &str) -> (r: bool)
    ensures
        r == (a@ == b@),
{
    broadcast use vstd::utf8::encode_utf8_decode_utf8;

    let av = a.as_bytes_vec();
    let bv = b.as_bytes_vec();
    if av.len() != bv.len() {
        return false;
    }
    let n = av.len();
    let mut i: usize = 0;
    while i < n
        invariant
            i <= n,
            n == av@.len() && n == bv@.len(),
            av@ == a.spec_bytes() && bv@ == b.spec_bytes(),
            forall|k: int| 0 <= k < i ==> av@[k] == bv@[k],
        decreases n - i,
    {
        if av[i] != bv[i] {
            return false;
        }
        i += 1;
    }
    proof {
        assert(av@ =~= bv@);
        assert(encode_utf8(a@) == encode_utf8(b@));
        vstd::utf8::encode_utf8_decode_utf8(a@);
        vstd::utf8::encode_utf8_decode_utf8(b@);
        assert(a@ == b@);
    }
    true
}

/// Encoding a concatenation encodes each part.
pub proof fn lemma_encode_utf8_concat(a: Seq<char>, b: Seq<char>)
    ensures
        encode_utf8(a + b) == encode_utf8(a) + encode_utf8(b),
    decreases a.len(),
{
    if a.len() == 0 {
        assert(a + b =~= b);
        assert(encode_utf8(a) =~= Seq::<u8>::empty());
        assert(encode_utf8(a) + encode_utf8(b) =~= encode_utf8(b));
    } else {
        assert((a + b).drop_first() =~= a.drop_first() + b);
        lemma_encode_utf8_concat(a.drop_first(), b);
        assert((a + b)[0] == a[0]);
        let h = vstd::utf8::encode_scalar(a[0] as u32);
        assert(encode_utf8(a + b) == h + (encode_utf8(a.drop_first()) + encode_utf8(b)));
        assert(h + (encode_utf8(a.drop_first()) + encode_utf8(b)) =~= (h + encode_utf8(
            a.drop_first(),
        )) + encode_utf8(b));
    }
}

/// Check that the `i`-th segment is absent: guards against trailing
/// segments after the expected arity.
pub fn check_segment_absent(elt: Option<&str>, i: usize, encoded: &str) -> (r: Result<
    (),
    KeyError,
>)
    ensures
        match (r, elt) {
            (Ok(u), None) => true,
            (Err(e), Some(t)) => e@ == (KeyErrorModel::WrongNumberOfSegments {
                expect: i as int,
                got: encoded@,
            }),
            _ => false,
        },
{
    if elt.is_some() {
        Err(KeyError::WrongNumberOfSegments { expect: i, got: encoded.to_owned() })
    } else {
        Ok(())
    }
}

/// Check that the `i`-th segment is present, and hand it out.
pub fn check_segment_present<'a>(elt: Option<&'a str>, i: usize, key: &str) -> (r: Result<
    &'a str,
    KeyError,
>)
    requires
        i < usize::MAX,
    ensures
        match (r, elt) {
            (Ok(seg), Some(t)) => seg@ == t@,
            (Err(e), None) => e@ == (KeyErrorModel::WrongNumberOfSegments {
                expect: i + 1,
                got: key@,
            }),
            _ => false,
        },
{
    if let Some(s) = elt {
        Ok(s)
    } else {
        Err(KeyError::WrongNumberOfSegments { expect: i + 1, got: key.to_owned() })
    }
}

/// Check that the `i`-th segment holds exactly the expected text.
pub fn check_segment(elt: &str, i: usize, expect: &str) -> (r: Result<(), KeyError>)
    ensures
        match r {
            Ok(u) => elt@ == expect@,
            Err(e) => elt@ != expect@ && e@ == (KeyErrorModel::InvalidSegment {
                i: i as int,
                expect: expect@,
                got: elt@,
            }),
        },
{
    if !str_eq(elt, expect) {
        return Err(
            KeyError::InvalidSegment { i, expect: expect.to_owned(), got: elt.to_owned() },
        );
    }
    Ok(())
}

/// A decimal digit.
pub open spec fn is_dec_digit(c: char) -> bool {
    '0' <= c && c <= '9'
}

/// Left-to-right decimal parse with an accumulator: the value, or the
/// reason the parse stops (a non-digit, or overflow past `u64::MAX`),
/// whichever comes first.
pub open spec fn spec_parse_u64(s: Seq<char>, acc: int) -> Result<int, Seq<char>>
    decreases s.len(),
{
    if s.len() == 0 {
        Ok(acc)
    } else if !is_dec_digit(s[0]) {
        Err("invalid digit found in string"@)
    } else if acc * 10 + (s[0] as u32 - 48) > u64::MAX {
        Err("number too large to fit in target type"@)
    } else {
        spec_parse_u64(s.skip(1), acc * 10 + (s[0] as u32 - 48))
    }
}

/// The digit part of an id segment: everything after one optional
/// leading plus sign, as the standard unsigned parser reads it.
pub open spec fn spec_id_digits(s: Seq<char>) -> Seq<char> {
    if s.len() > 0 && s[0] == '+' {
        s.skip(1)
    } else {
        s
    }
}

/// The decoding of an id segment: a decimal unsigned 64-bit integer
/// with one optional leading plus sign, or an
/// [`KeyErrorModel::InvalidId`] citing the offending text and reason. A
/// bare plus sign has no digit and is rejected.
pub open spec fn spec_decode_id(s: Seq<char>) -> Result<u64, KeyErrorModel> {
    if s.len() == 0 {
        Err(
            KeyErrorModel::InvalidId {
                s: s,
                reason: "cannot parse integer from empty string"@,
            },
        )
    } else if spec_id_digits(s).len() == 0 {
        Err(KeyErrorModel::InvalidId { s: s, reason: "invalid digit found in string"@ })
    } else {
        match spec_parse_u64(spec_id_digits(s), 0) {
            Ok(v) => Ok(v as u64),
            Err(reason) => Err(KeyErrorModel::InvalidId { s: s, reason }),
        }
    }
}

/// Decode an id segment into an unsigned 64-bit integer.
pub fn decode_id(s: &str) -> (r: Result<u64, KeyError>)
    ensures
        match r {
            Ok(v) => spec_decode_id(s@) == Ok::<u64, KeyErrorModel>(v),
            Err(e) => spec_decode_id(s@) == Err::<u64, KeyErrorModel>(e@),
        },
{
    let n = s.unicode_len();
    if n == 0 {
        return Err(
            KeyError::InvalidId {
                s: s.to_owned(),
                reason: "cannot parse integer from empty string".to_owned(),
            },
        );
    }
    let mut acc: u64 = 0;
    let mut i: usize = 0;
    if s.get_char(0) == '+' {
        i = 1;
    }
    let ghost digits = spec_id_digits(s@);
    if i >= n {
        proof {
            assert(digits =~= Seq::<char>::empty());
        }
        return Err(
            KeyError::InvalidId {
                s: s.to_owned(),
                reason: "invalid digit found in string".to_owned(),
            },
        );
    }
    proof {
        if s@[0] == '+' {
            assert(digits =~= s@.skip(1));
        } else {
            assert(digits =~= s@.skip(0));
        }
    }
    while i < n
        invariant
            i <= n,
            n == s@.len(),
            digits == spec_id_digits(s@),
            digits.len() > 0,
            spec_parse_u64(digits, 0) == spec_parse_u64(s@.skip(i as int), acc as int),
        decreases n - i,
    {
        let ghost tail = s@.skip(i as int);
        let c = s.get_char(i);
        assert(tail[0] == c);
        if !('0' <= c && c <= '9') {
            return Err(
                KeyError::InvalidId {
                    s: s.to_owned(),
                    reason: "invalid digit found in string".to_owned(),
                },
            );
        }
        let d: u64 = (c as u32 - 48) as u64;
        if acc > (u64::MAX - d) / 10 {
            proof {
                assert(acc * 10 + d > u64::MAX) by (nonlinear_arith)
                    requires
                        acc > (u64::MAX - d) / 10 && d <= 9,
                {
                    assert((u64::MAX - d) / 10 * 10 + (u64::MAX - d) % 10 == u64::MAX - d);
                }
            }
            return Err(
                KeyError::InvalidId {
                    s: s.to_owned(),
                    reason: "number too large to fit in target type".to_owned(),
                },
            );
        }
        proof {
            assert(acc * 10 + d <= u64::MAX) by (nonlinear_arith)
                requires
                    acc <= (u64::MAX - d) / 10 && d <= 9,
            {
                assert((u64::MAX - d) / 10 * 10 + (u64::MAX - d) % 10 == u64::MAX - d);
            }
            assert(tail.skip(1) =~= s@.skip(i + 1));
        }
        acc = acc * 10 + d;
        i += 1;
    }
    proof {
        assert(s@.skip(n as int) =~= Seq::<char>::empty());
        assert(spec_parse_u64(digits, 0) == Ok::<int, Seq<char>>(acc as int));
    }
    Ok(acc)
}

/// Convert a structured key to the flat string key stored in the
/// key-value service, and back.
pub trait Key: View + Sized {
    /// The constant discriminator segment of this key family.
    spec fn spec_prefix() -> Seq<char>;

    /// The constant discriminator segment, as text.
    fn prefix() -> (r: &'static str)
        ensures
            r@ == Self::spec_prefix(),
    ;

    /// The flat byte encoding of a key's abstract value.
    spec fn spec_encode(v: Self::V) -> Seq<u8>;

    /// The decoding of flat key bytes: the abstract value, or the exact
    /// error for the exact failing input.
    spec fn spec_decode(b: Seq<u8>) -> Result<Self::V, KeyErrorModel>;

    /// Round trip: decoding an encoded key yields the key, for every
    /// valid construction of this key family.
    proof fn lemma_round_trip(v: Self::V)
        ensures
            Self::spec_decode(Self::spec_encode(v)) == Ok::<Self::V, KeyErrorModel>(v),
    ;

    /// Encode this structured key into its flat string form.
    fn to_string_key(&self) -> (r: String)
        ensures
            encode_utf8(r@) == Self::spec_encode(self@),
    ;

    /// Decode a flat string key into a structured key.
    fn from_str_key(s: &str) -> (r: Result<Self, KeyError>)
        ensures
            match r {
                Ok(k) => Self::spec_decode(s.spec_bytes()) == Ok::<Self::V, KeyErrorModel>(k@),
                Err(e) => Self::spec_decode(s.spec_bytes()) == Err::<Self::V, KeyErrorModel>(e@),
            },
    ;
}

/// The degenerate key family: the identity mapping with an empty prefix,
/// a single segment equal to the raw string, no escaping and no failure.
impl Key for String {
    open spec fn spec_prefix() -> Seq<char> {
        ""@
    }

    fn prefix() -> (r: &'static str) {
        ""
    }

    open spec fn spec_encode(v: Seq<char>) -> Seq<u8> {
        encode_utf8(v)
    }

    open spec fn spec_decode(b: Seq<u8>) -> Result<Seq<char>, KeyErrorModel> {
        Ok(decode_utf8(b))
    }

    proof fn lemma_round_trip(v: Seq<char>) {
        vstd::utf8::encode_utf8_decode_utf8(v);
    }

    fn to_string_key(&self) -> (r: String) {
        self.clone()
    }

    fn from_str_key(s: &str) -> (r: Result<Self, KeyError>) {
        proof {
            vstd::utf8::encode_utf8_decode_utf8(s@);
        }
        Ok(s.to_owned())
    }
}

/// A database, identified by name; its flat form is the prefix segment
/// followed by the escaped name.
#[derive(Debug, Clone, PartialEq, Eq)]
pub struct DatabaseNameKey {
    pub db_name: String,
}

impl View for DatabaseNameKey {
    type V = Seq<char>;

    open spec fn view(&self) -> Seq<char> {
        self.db_name@
    }
}

impl Key for DatabaseNameKey {
    open spec fn spec_prefix() -> Seq<char> {
        "__fd_db"@
    }

    fn prefix() -> (r: &'static str) {
        "__fd_db"
    }

    open spec fn spec_encode(v: Seq<char>) -> Seq<u8> {
        encode_utf8("__fd_db"@) + seq![SEGMENT_SEP] + spec_escape_bytes(encode_utf8(v))
    }

    open spec fn spec_decode(b: Seq<u8>) -> Result<Seq<char>, KeyErrorModel> {
        let segs = spec_split_bytes(b);
        if segs.len() < 1 {
            Err(KeyErrorModel::WrongNumberOfSegments { expect: 1, got: decode_utf8(b) })
        } else if decode_utf8(segs[0]) != "__fd_db"@ {
            Err(
                KeyErrorModel::InvalidSegment {
                    i: 0,
                    expect: "__fd_db"@,
                    got: decode_utf8(segs[0]),
                },
            )
        } else if segs.len() < 2 || segs.len() > 2 {
            Err(KeyErrorModel::WrongNumberOfSegments { expect: 2, got: decode_utf8(b) })
        } else {
            match spec_unescape_bytes(segs[1]) {
                None => Err(KeyErrorModel::InvalidEscape { s: decode_utf8(segs[1]) }),
                Some(u) => if valid_utf8(u) {
                    Ok(decode_utf8(u))
                } else {
                    Err(KeyErrorModel::FromUtf8Error { bytes: u })
                },
            }
        }
    }

    proof fn lemma_round_trip(v: Seq<char>) {
        let pb = encode_utf8("__fd_db"@);
        let eb = spec_escape_bytes(encode_utf8(v));
        let b = Self::spec_encode(v);
        lemma_db_prefix_bytes();
        assert(b.len() == pb.len() + 1 + eb.len());
        assert(b[pb.len() as int] == SEGMENT_SEP);
        assert(forall|i: int| 0 <= i < pb.len() ==> b[i] == pb[i] && b[i] != SEGMENT_SEP);
        lemma_split_first_sep(b, pb.len() as int);
        assert(b.take(pb.len() as int) =~= pb);
        assert(b.skip(pb.len() + 1 as int) =~= eb);
        crate::escape::lemma_escape_bytes_alphabet(encode_utf8(v));
        assert(forall|i: int| 0 <= i < eb.len() ==> eb[i] != SEGMENT_SEP);
        lemma_split_no_sep(eb);
        let segs = spec_split_bytes(b);
        assert(segs =~= seq![pb, eb]);
        vstd::utf8::encode_utf8_decode_utf8("__fd_db"@);
        assert(decode_utf8(segs[0]) == "__fd_db"@);
        crate::escape::lemma_unescape_escape_bytes(encode_utf8(v));
        assert(spec_unescape_bytes(segs[1]) == Some(encode_utf8(v)));
        vstd::utf8::encode_utf8_valid_utf8(v);
        vstd::utf8::encode_utf8_decode_utf8(v);
    }

    fn to_string_key(&self) -> (r: String) {
        let mut r: String = "__fd_db".to_owned();
        r.append("/");
        let e = escape(self.db_name.as_str());
        r.append(e.as_str());
        proof {
            lemma_encode_utf8_concat("__fd_db"@, "/"@);
            lemma_encode_utf8_concat("__fd_db"@ + "/"@, e@);
            lemma_sep_str_bytes();
            assert(encode_utf8(r@) =~= encode_utf8("__fd_db"@) + seq![SEGMENT_SEP]
                + spec_escape_bytes(encode_utf8(self.db_name@)));
        }
        r
    }

    fn from_str_key(s: &str) -> (r: Result<Self, KeyError>) {
        broadcast use vstd::utf8::encode_utf8_decode_utf8;

        let segs = split_segments(s);
        let ghost sp = spec_split_bytes(s.spec_bytes());
        proof {
            lemma_split_len_pos(s.spec_bytes());
        }
        let elt0: Option<&str> = if segs.len() >= 1 {
            Some(segs[0].as_str())
        } else {
            None
        };
        let prefix = match check_segment_present(elt0, 0, s) {
            Ok(p) => p,
            Err(e) => {
                return Err(e);
            },
        };
        if let Err(e) = check_segment(prefix, 0, "__fd_db") {
            proof {
                assert(encode_utf8(prefix@) == sp[0]);
                assert(decode_utf8(sp[0]) == prefix@);
            }
            return Err(e);
        }
        let elt1: Option<&str> = if segs.len() >= 2 {
            Some(segs[1].as_str())
        } else {
            None
        };
        let name_seg = match check_segment_present(elt1, 1, s) {
            Ok(p) => p,
            Err(e) => {
                proof {
                    assert(decode_utf8(sp[0]) == prefix@);
                }
                return Err(e);
            },
        };
        let elt2: Option<&str> = if segs.len() >= 3 {
            Some(segs[2].as_str())
        } else {
            None
        };
        if let Err(e) = check_segment_absent(elt2, 2, s) {
            proof {
                assert(decode_utf8(sp[0]) == prefix@);
            }
            return Err(e);
        }
        proof {
            assert(decode_utf8(sp[0]) == prefix@);
            assert(encode_utf8(name_seg@) == sp[1]);
            assert(decode_utf8(sp[1]) == name_seg@);
        }
        match unescape(name_seg) {
            Ok(db_name) => Ok(DatabaseNameKey { db_name }),
            Err(e) => Err(e),
        }
    }
}

/// The decimal digit bytes of a number, most significant first; empty
/// for zero.
pub open spec fn spec_u64_dec(n: int) -> Seq<u8>
    decreases n,
{
    if n <= 0 {
        Seq::empty()
    } else {
        spec_u64_dec(n / 10).push((48 + n % 10) as u8)
    }
}

/// The decimal byte form of an id, as stored in a key segment.
pub open spec fn spec_u64_bytes(n: u64) -> Seq<u8> {
    if n == 0 {
        seq![48u8]
    } else {
        spec_u64_dec(n as int)
    }
}

/// Every byte of a decimal form is a digit.
pub proof fn lemma_u64_dec_digits(n: int)
    ensures
        forall|i: int|
            0 <= i < spec_u64_dec(n).len() ==> 48 <= #[trigger] spec_u64_dec(n)[i] <= 57,
    decreases n,
{
    if n > 0 {
        lemma_u64_dec_digits(n / 10);
        assert forall|i: int|
            0 <= i < spec_u64_dec(n).len() implies 48 <= #[trigger] spec_u64_dec(n)[i]
            <= 57 by {
            if i < spec_u64_dec(n).len() - 1 {
                assert(spec_u64_dec(n)[i] == spec_u64_dec(n / 10)[i]);
            }
        }
    }
}

/// Parsing one more digit multiplies the value by ten and adds it,
/// unless the parse had already stopped or the value leaves the range.
proof fn lemma_parse_snoc(s: Seq<char>, c: char, acc: int)
    requires
        is_dec_digit(c),
    ensures
        spec_parse_u64(s.push(c), acc) == (match spec_parse_u64(s, acc) {
            Ok(v) => if v * 10 + (c as u32 - 48) > u64::MAX {
                Err::<int, Seq<char>>("number too large to fit in target type"@)
            } else {
                Ok::<int, Seq<char>>(v * 10 + (c as u32 - 48))
            },
            Err(e) => Err::<int, Seq<char>>(e),
        }),
    decreases s.len(),
{
    if s.len() == 0 {
        assert(s.push(c)[0] == c);
        assert(s.push(c).skip(1) =~= Seq::<char>::empty());
        assert(spec_parse_u64(s, acc) == Ok::<int, Seq<char>>(acc));
        let d = c as u32 - 48;
        if acc * 10 + d <= u64::MAX {
            assert(spec_parse_u64(s.push(c).skip(1), acc * 10 + d) == Ok::<int, Seq<char>>(
                acc * 10 + d,
            ));
        }
    } else {
        assert(s.push(c)[0] == s[0]);
        assert(s.push(c).skip(1) =~= s.skip(1).push(c));
        if is_dec_digit(s[0]) && acc * 10 + (s[0] as u32 - 48) <= u64::MAX {
            lemma_parse_snoc(s.skip(1), c, acc * 10 + (s[0] as u32 - 48));
        }
    }
}

/// Characters decoded from bytes below 128 are those bytes.
proof fn lemma_decode_ascii(d: Seq<u8>)
    requires
        forall|i: int| 0 <= i < d.len() ==> d[i] < 128,
    ensures
        vstd::utf8::is_ascii_chars(decode_utf8(d)),
        decode_utf8(d).len() == d.len(),
        forall|i: int| 0 <= i < d.len() ==> (#[trigger] decode_utf8(d)[i]) as u8 == d[i],
        encode_utf8(decode_utf8(d)) == d,
    decreases d.len(),
{
    crate::escape::lemma_ascii_bytes_valid_utf8(d);
    vstd::utf8::decode_utf8_encode_utf8(d);
    if d.len() > 0 {
        assert(vstd::utf8::length_of_first_scalar(d) == 1);
        assert(vstd::utf8::pop_first_scalar(d) =~= d.skip(1));
        lemma_decode_ascii(d.skip(1));
        let c = decode_utf8(d);
        assert(c[0] as u32 == vstd::utf8::decode_first_scalar(d)) by {
            vstd::utf8::char_u32_cast(
                (vstd::utf8::decode_first_scalar(d) as char),
                vstd::utf8::decode_first_scalar(d),
            );
            assert(vstd::utf8::is_scalar(vstd::utf8::decode_first_scalar(d)));
        }
        assert(vstd::utf8::decode_first_scalar(d) == d[0]) by {
            let b0 = d[0];
            assert((b0 & 0x7f) == b0) by (bit_vector)
                requires
                    b0 < 128,
            ;
        }
        assert(c.drop_first() =~= decode_utf8(d.skip(1)));
        assert forall|i: int| 0 <= i < d.len() implies (#[trigger] c[i]) as u8 == d[i] by {
            if i > 0 {
                assert(c[i] == decode_utf8(d.skip(1))[i - 1]);
            }
        }
    }
}

/// Decoding the decimal form of an id gives the id back.
pub proof fn lemma_decode_id_of_u64(n: u64)
    ensures
        spec_decode_id(decode_utf8(spec_u64_bytes(n))) == Ok::<u64, KeyErrorModel>(n),
{
    let d = spec_u64_bytes(n);
    assert(forall|i: int| 0 <= i < d.len() ==> 48 <= #[trigger] d[i] <= 57) by {
        lemma_u64_dec_digits(n as int);
    }
    lemma_decode_ascii(d);
    let c = decode_utf8(d);
    assert(forall|i: int| 0 <= i < c.len() ==> is_dec_digit(#[trigger] c[i]));
    assert(c.len() > 0 && is_dec_digit(c[0]));
    assert(c[0] != '+');
    assert(spec_id_digits(c) == c);
    if n == 0 {
        assert(d =~= seq![48u8]);
        assert(c.len() == 1 && c[0] as u8 == 48 && is_dec_digit(c[0]));
        assert(c[0] as u32 == 48);
        assert(c.skip(1) =~= Seq::<char>::empty());
        assert(spec_parse_u64(c, 0) == Ok::<int, Seq<char>>(0));
    } else {
        lemma_parse_u64_dec(n as int);
    }
}

/// Parsing the decimal digits of a positive number yields the number.
proof fn lemma_parse_u64_dec(n: int)
    requires
        0 < n <= u64::MAX,
    ensures
        decode_utf8(spec_u64_dec(n)).len() > 0,
        spec_parse_u64(decode_utf8(spec_u64_dec(n)), 0) == Ok::<int, Seq<char>>(n),
    decreases n,
{
    let d = spec_u64_dec(n);
    lemma_u64_dec_digits(n);
    lemma_decode_ascii(d);
    let c = decode_utf8(d);
    let dp = spec_u64_dec(n / 10);
    lemma_u64_dec_digits(n / 10);
    lemma_decode_ascii(dp);
    let cp = decode_utf8(dp);
    assert(d == dp.push((48 + n % 10) as u8));
    assert(cp.push(c.last()) =~= c) by {
        assert(c.len() == d.len() && cp.len() == dp.len());
        assert(forall|i: int| 0 <= i < dp.len() ==> dp[i] == d[i]);
        assert(forall|i: int|
            0 <= i < cp.len() ==> (#[trigger] cp[i]) as u8 == (#[trigger] c[i]) as u8);
        assert forall|i: int| 0 <= i < cp.len() implies cp[i] == c[i] by {
            assert((cp[i] as u32) < 128 && (c[i] as u32) < 128);
            vstd::utf8::char_u32_cast(cp[i], cp[i] as u32);
            vstd::utf8::char_u32_cast(c[i], c[i] as u32);
            assert(cp[i] as u32 == cp[i] as u8 as u32);
            assert(c[i] as u32 == c[i] as u8 as u32);
        }
    }
    assert(c.last() as u8 == d.last());
    assert(is_dec_digit(c.last()));
    assert(c.last() as u32 == d.last());
    if n / 10 == 0 {
        assert(dp =~= Seq::<u8>::empty());
        assert(cp =~= Seq::<char>::empty());
        assert(spec_parse_u64(cp, 0) == Ok::<int, Seq<char>>(0));
    } else {
        lemma_parse_u64_dec(n / 10);
    }
    lemma_parse_snoc(cp, c.last(), 0);
    assert((n / 10) * 10 + (c.last() as u32 - 48) == n) by {
        assert(n % 10 == d.last() - 48);
        assert(n / 10 * 10 + n % 10 == n);
    }
}

/// Append the decimal digits of a number; nothing for zero.
fn push_u64_dec(out: &mut Vec<u8>, m: u64)
    ensures
        final(out)@ == old(out)@ + spec_u64_dec(m as int),
    decreases m,
{
    if m == 0 {
        proof {
            assert(old(out)@ + spec_u64_dec(0) =~= old(out)@);
        }
        return ;
    }
    push_u64_dec(out, m / 10);
    out.push(48 + (m % 10) as u8);
    proof {
        assert((old(out)@ + spec_u64_dec(m as int / 10)).push((48 + m as int % 10) as u8)
            =~= old(out)@ + spec_u64_dec(m as int));
    }
}

/// The decimal string form of an id.
pub fn u64_to_string(n: u64) -> (r: String)
    ensures
        encode_utf8(r@) == spec_u64_bytes(n),
        r@ == decode_utf8(spec_u64_bytes(n)),
{
    let mut out: Vec<u8> = Vec::new();
    if n == 0 {
        out.push(48);
        proof {
            assert(out@ =~= spec_u64_bytes(n));
        }
    } else {
        push_u64_dec(&mut out, n);
        proof {
            assert(Seq::<u8>::empty() + spec_u64_dec(n as int) =~= spec_u64_bytes(n));
        }
    }
    proof {
        lemma_u64_dec_digits(n as int);
        assert(forall|i: int| 0 <= i < out@.len() ==> out@[i] < 128);
    }
    let r = crate::escape::ascii_to_string(out);
    proof {
        vstd::utf8::encode_utf8_decode_utf8(r@);
    }
    r
}

/// A table, identified by the id of its database and its own name; the
/// flat form is the prefix, the decimal database id, and the escaped
/// table name.
#[derive(Debug, Clone, PartialEq, Eq)]
pub struct TableNameKey {
    pub db_id: u64,
    pub table_name: String,
}

impl View for TableNameKey {
    type V = (u64, Seq<char>);

    open spec fn view(&self) -> (u64, Seq<char>) {
        (self.db_id, self.table_name@)
    }
}

impl Key for TableNameKey {
    open spec fn spec_prefix() -> Seq<char> {
        "__fd_table"@
    }

    fn prefix() -> (r: &'static str) {
        "__fd_table"
    }

    open spec fn spec_encode(v: (u64, Seq<char>)) -> Seq<u8> {
        encode_utf8("__fd_table"@) + seq![SEGMENT_SEP] + spec_u64_bytes(v.0) + seq![
            SEGMENT_SEP,
        ] + spec_escape_bytes(encode_utf8(v.1))
    }

    open spec fn spec_decode(b: Seq<u8>) -> Result<(u64, Seq<char>), KeyErrorModel> {
        let segs = spec_split_bytes(b);
        if segs.len() < 1 {
            Err(KeyErrorModel::WrongNumberOfSegments { expect: 1, got: decode_utf8(b) })
        } else if decode_utf8(segs[0]) != "__fd_table"@ {
            Err(
                KeyErrorModel::InvalidSegment {
                    i: 0,
                    expect: "__fd_table"@,
                    got: decode_utf8(segs[0]),
                },
            )
        } else if segs.len() < 2 {
            Err(KeyErrorModel::WrongNumberOfSegments { expect: 2, got: decode_utf8(b) })
        } else if segs.len() < 3 {
            Err(KeyErrorModel::WrongNumberOfSegments { expect: 3, got: decode_utf8(b) })
        } else if segs.len() > 3 {
            Err(KeyErrorModel::WrongNumberOfSegments { expect: 3, got: decode_utf8(b) })
        } else {
            match spec_decode_id(decode_utf8(segs[1])) {
                Err(e) => Err(e),
                Ok(id) => match spec_unescape_bytes(segs[2]) {
                    None => Err(KeyErrorModel::InvalidEscape { s: decode_utf8(segs[2]) }),
                    Some(u) => if valid_utf8(u) {
                        Ok((id, decode_utf8(u)))
                    } else {
                        Err(KeyErrorModel::FromUtf8Error { bytes: u })
                    },
                },
            }
        }
    }

    proof fn lemma_round_trip(v: (u64, Seq<char>)) {
        let pb = encode_utf8("__fd_table"@);
        let idb = spec_u64_bytes(v.0);
        let eb = spec_escape_bytes(encode_utf8(v.1));
        let b = Self::spec_encode(v);
        lemma_table_prefix_bytes();
        lemma_u64_dec_digits(v.0 as int);
        assert(forall|i: int| 0 <= i < idb.len() ==> #[trigger] idb[i] != SEGMENT_SEP);
        crate::escape::lemma_escape_bytes_alphabet(encode_utf8(v.1));
        assert(forall|i: int| 0 <= i < eb.len() ==> #[trigger] eb[i] != SEGMENT_SEP);
        assert(b.len() == pb.len() + 1 + idb.len() + 1 + eb.len());
        assert(forall|i: int| 0 <= i < pb.len() ==> b[i] == pb[i] && b[i] != SEGMENT_SEP);
        assert(b[pb.len() as int] == SEGMENT_SEP);
        lemma_split_first_sep(b, pb.len() as int);
        assert(b.take(pb.len() as int) =~= pb);
        let rest = b.skip(pb.len() + 1 as int);
        assert(rest =~= idb + seq![SEGMENT_SEP] + eb);
        assert(forall|i: int| 0 <= i < idb.len() ==> rest[i] == idb[i] && rest[i] != SEGMENT_SEP);
        assert(rest[idb.len() as int] == SEGMENT_SEP);
        lemma_split_first_sep(rest, idb.len() as int);
        assert(rest.take(idb.len() as int) =~= idb);
        assert(rest.skip(idb.len() + 1 as int) =~= eb);
        lemma_split_no_sep(eb);
        let segs = spec_split_bytes(b);
        assert(segs =~= seq![pb, idb, eb]);
        vstd::utf8::encode_utf8_decode_utf8("__fd_table"@);
        assert(decode_utf8(segs[0]) == "__fd_table"@);
        lemma_decode_id_of_u64(v.0);
        crate::escape::lemma_unescape_escape_bytes(encode_utf8(v.1));
        vstd::utf8::encode_utf8_valid_utf8(v.1);
        vstd::utf8::encode_utf8_decode_utf8(v.1);
    }

    fn to_string_key(&self) -> (r: String) {
        let mut r: String = "__fd_table".to_owned();
        r.append("/");
        let id = u64_to_string(self.db_id);
        r.append(id.as_str());
        r.append("/");
        let e = escape(self.table_name.as_str());
        r.append(e.as_str());
        proof {
            lemma_sep_str_bytes();
            lemma_encode_utf8_concat("__fd_table"@, "/"@);
            lemma_encode_utf8_concat("__fd_table"@ + "/"@, id@);
            lemma_encode_utf8_concat("__fd_table"@ + "/"@ + id@, "/"@);
            lemma_encode_utf8_concat("__fd_table"@ + "/"@ + id@ + "/"@, e@);
            assert(encode_utf8(r@) =~= Self::spec_encode(self@));
        }
        r
    }

    fn from_str_key(s: &str) -> (r: Result<Self, KeyError>) {
        broadcast use vstd::utf8::encode_utf8_decode_utf8;

        let segs = split_segments(s);
        let ghost sp = spec_split_bytes(s.spec_bytes());
        proof {
            lemma_split_len_pos(s.spec_bytes());
        }
        let elt0: Option<&str> = if segs.len() >= 1 {
            Some(segs[0].as_str())
        } else {
            None
        };
        let prefix = match check_segment_present(elt0, 0, s) {
            Ok(p) => p,
            Err(e) => {
                return Err(e);
            },
        };
        if let Err(e) = check_segment(prefix, 0, "__fd_table") {
            proof {
                assert(decode_utf8(sp[0]) == prefix@);
            }
            return Err(e);
        }
        let elt1: Option<&str> = if segs.len() >= 2 {
            Some(segs[1].as_str())
        } else {
            None
        };
        let id_seg = match check_segment_present(elt1, 1, s) {
            Ok(p) => p,
            Err(e) => {
                proof {
                    assert(decode_utf8(sp[0]) == prefix@);
                }
                return Err(e);
            },
        };
        let elt2: Option<&str> = if segs.len() >= 3 {
            Some(segs[2].as_str())
        } else {
            None
        };
        let name_seg = match check_segment_present(elt2, 2, s) {
            Ok(p) => p,
            Err(e) => {
                proof {
                    assert(decode_utf8(sp[0]) == prefix@);
                }
                return Err(e);
            },
        };
        let elt3: Option<&str> = if segs.len() >= 4 {
            Some(segs[3].as_str())
        } else {
            None
        };
        if let Err(e) = check_segment_absent(elt3, 3, s) {
            proof {
                assert(decode_utf8(sp[0]) == prefix@);
            }
            return Err(e);
        }
        proof {
            assert(decode_utf8(sp[0]) == prefix@);
            assert(decode_utf8(sp[1]) == id_seg@);
            assert(decode_utf8(sp[2]) == name_seg@);
        }
        let db_id = match decode_id(id_seg) {
            Ok(id) => id,
            Err(e) => {
                return Err(e);
            },
        };
        match unescape(name_seg) {
            Ok(table_name) => Ok(TableNameKey { db_id, table_name }),
            Err(e) => Err(e),
        }
    }
}

/// The bytes of the table key prefix: plain ASCII, free of the
/// separator and of the escape marker.
pub proof fn lemma_table_prefix_bytes()
    ensures
        encode_utf8("__fd_table"@).len() == 10,
        forall|i: int|
            0 <= i < 10 ==> #[trigger] encode_utf8("__fd_table"@)[i] != SEGMENT_SEP
                && encode_utf8("__fd_table"@)[i] < 128,
{
    reveal_strlit("__fd_table");
    assert(vstd::utf8::is_ascii_chars("__fd_table"@)) by {
        assert(forall|i: int|
            0 <= i < 10 ==> '\0' <= #[trigger] "__fd_table"@[i] <= '\u{7f}') by {
            assert("__fd_table"@[0] == '_' && "__fd_table"@[1] == '_' && "__fd_table"@[2]
                == 'f' && "__fd_table"@[3] == 'd' && "__fd_table"@[4] == '_'
                && "__fd_table"@[5] == 't' && "__fd_table"@[6] == 'a' && "__fd_table"@[7]
                == 'b' && "__fd_table"@[8] == 'l' && "__fd_table"@[9] == 'e');
        }
    }
    vstd::utf8::is_ascii_chars_encode_utf8("__fd_table"@);
    assert forall|i: int| 0 <= i < 10 implies #[trigger] encode_utf8("__fd_table"@)[i]
        != SEGMENT_SEP && encode_utf8("__fd_table"@)[i] < 128 by {
        assert(encode_utf8("__fd_table"@)[i] == "__fd_table"@[i] as u8);
    }
}

/// The bytes of the database key prefix: plain ASCII, free of the
/// separator and of the escape marker.
pub proof fn lemma_db_prefix_bytes()
    ensures
        encode_utf8("__fd_db"@).len() == 7,
        forall|i: int|
            0 <= i < 7 ==> #[trigger] encode_utf8("__fd_db"@)[i] != SEGMENT_SEP && encode_utf8(
                "__fd_db"@,
            )[i] < 128,
{
    reveal_strlit("__fd_db");
    assert(vstd::utf8::is_ascii_chars("__fd_db"@)) by {
        assert(forall|i: int|
            0 <= i < 7 ==> '\0' <= #[trigger] "__fd_db"@[i] <= '\u{7f}') by {
            assert("__fd_db"@[0] == '_' && "__fd_db"@[1] == '_' && "__fd_db"@[2] == 'f'
                && "__fd_db"@[3] == 'd' && "__fd_db"@[4] == '_' && "__fd_db"@[5] == 'd'
                && "__fd_db"@[6] == 'b');
        }
    }
    vstd::utf8::is_ascii_chars_encode_utf8("__fd_db"@);
    assert forall|i: int| 0 <= i < 7 implies #[trigger] encode_utf8("__fd_db"@)[i] != SEGMENT_SEP
        && encode_utf8("__fd_db"@)[i] < 128 by {
        assert(encode_utf8("__fd_db"@)[i] == "__fd_db"@[i] as u8);
    }
}

/// The byte encoding of the separator string.
pub proof fn lemma_sep_str_bytes()
    ensures
        encode_utf8("/"@) == seq![SEGMENT_SEP],
{
    reveal_strlit("/");
    assert(vstd::utf8::is_ascii_chars("/"@)) by {
        assert("/"@[0] == '/');
    }
    vstd::utf8::is_ascii_chars_encode_utf8("/"@);
    assert(encode_utf8("/"@)[0] == '/' as u8);
    assert(encode_utf8("/"@) =~= seq![SEGMENT_SEP]);
}

} // verus!
