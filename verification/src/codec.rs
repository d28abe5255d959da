//! Hex and Base64 text codecs.
//!
//! Diagnostics dumps, the wire protocol's debug mode, and BLOB literals need to
//! render arbitrary bytes as ASCII text and parse them back. This module
//! implements lower-case hex and standard Base64 (with `=` padding), both
//! strict on decode: an odd-length hex string, an invalid character, or bad
//! padding is rejected rather than silently truncated.

use vstd::prelude::*;
use vstd::string::*;

verus! {

/// Error decoding a text codec.
#[derive(Debug, Clone, PartialEq, Eq)]
pub enum CodecError {
    /// A character outside the codec's alphabet.
    InvalidChar(char),
    /// The input length is not valid for the codec.
    BadLength,
    /// Base64 padding was malformed.
    BadPadding,
}

/// The result of decoding.
pub type Decoded = std::result::Result<Seq<u8>, CodecError>;

/// A result agrees with what is specified.
pub open spec fn agrees(r: std::result::Result<Vec<u8>, CodecError>, m: Decoded) -> bool {
    match (r, m) {
        (Ok(v), Ok(s)) => v@ == s,
        (Err(e), Err(f)) => e == f,
        _ => false,
    }
}

/// The lower-case hex digit of a value below 16.
pub open spec fn hex_digit(v: nat) -> u8 {
    if v < 10 {
        (48 + v) as u8
    } else {
        (87 + v) as u8
    }
}

/// The value of a hex digit of either case.
pub open spec fn hex_value(c: u8) -> Option<u8> {
    if 48 <= c <= 57 {
        Some((c - 48) as u8)
    } else if 97 <= c <= 102 {
        Some((c - 87) as u8)
    } else if 65 <= c <= 70 {
        Some((c - 55) as u8)
    } else {
        None
    }
}

/// The hex digits of a byte string, high digit first.
pub open spec fn hex_text(s: Seq<u8>) -> Seq<u8>
    decreases s.len(),
{
    if s.len() == 0 {
        Seq::empty()
    } else {
        seq![hex_digit(s[0] as nat / 16), hex_digit(s[0] as nat % 16)] + hex_text(s.drop_first())
    }
}

/// The bytes of pairs of hex digits.
pub open spec fn hex_pairs(t: Seq<u8>) -> Decoded
    decreases t.len(),
{
    if t.len() < 2 {
        Ok(Seq::empty())
    } else {
        match hex_value(t[0]) {
            None => Err(CodecError::InvalidChar(t[0] as char)),
            Some(h) => match hex_value(t[1]) {
                None => Err(CodecError::InvalidChar(t[1] as char)),
                Some(l) => match hex_pairs(t.skip(2)) {
                    Err(e) => Err(e),
                    Ok(rest) => Ok(seq![(h * 16 + l) as u8] + rest),
                },
            },
        }
    }
}

/// What a hex text decodes to.
pub open spec fn hex_decoded(t: Seq<u8>) -> Decoded {
    if t.len() % 2 != 0 {
        Err(CodecError::BadLength)
    } else {
        hex_pairs(t)
    }
}

/// ASCII codes as characters.
pub open spec fn as_chars(s: Seq<u8>) -> Seq<char> {
    s.map_values(|b: u8| b as char)
}

proof fn lemma_hex_text_len(s: Seq<u8>)
    ensures
        hex_text(s).len() == 2 * s.len(),
    decreases s.len(),
{
    if s.len() > 0 {
        lemma_hex_text_len(s.drop_first());
    }
}

/// Hex text decodes to the bytes that it was made of.
pub proof fn lemma_hex_round_trip(s: Seq<u8>)
    ensures
        hex_decoded(hex_text(s)) == Ok::<Seq<u8>, CodecError>(s),
    decreases s.len(),
{
    lemma_hex_text_len(s);
    let t = hex_text(s);
    if s.len() > 0 {
        lemma_hex_round_trip(s.drop_first());
        lemma_hex_text_len(s.drop_first());
        assert(t.skip(2) =~= hex_text(s.drop_first()));
        assert(seq![s[0]] + s.drop_first() =~= s);
        let h = s[0] as nat / 16;
        let l = s[0] as nat % 16;
        assert(hex_value(hex_digit(h)) == Some(h as u8));
        assert(hex_value(hex_digit(l)) == Some(l as u8));
    } else {
        assert(s =~= Seq::<u8>::empty());
    }
}

fn hex_char(v: u8) -> (c: u8)
    requires
        v < 16,
    ensures
        c == hex_digit(v as nat),
{
    if v < 10 {
        48 + v
    } else {
        87 + v
    }
}

/// Encode bytes as lower-case hex.
pub fn hex_encode(data: &[u8]) -> (out: String)
    ensures
        out@ == as_chars(hex_text(data@)),
{
    let mut out: String = String::new();
    let mut i: usize = 0;
    assert(data@.skip(0) =~= data@);
    while i < data.len()
        invariant
            i <= data@.len(),
            out@ + as_chars(hex_text(data@.skip(i as int))) == as_chars(hex_text(data@)),
        decreases data.len() - i,
    {
        let ghost o = out@;
        let b: u8 = data[i];
        let h: u8 = hex_char(b / 16);
        let l: u8 = hex_char(b % 16);
        out.push(h as char);
        out.push(l as char);
        proof {
            let s = data@.skip(i as int);
            assert(s.drop_first() =~= data@.skip(i + 1));
            assert(as_chars(hex_text(s)) =~= seq![h as char, l as char] + as_chars(hex_text(s.drop_first())));
            assert(out@ + as_chars(hex_text(s.drop_first())) =~= o + as_chars(hex_text(s)));
        }
        i += 1;
    }
    assert(out@ + as_chars(hex_text(data@.skip(i as int))) =~= out@);
    out
}

/// Decode a hex string (accepts upper or lower case).
pub fn hex_decode(s: &str) -> (r: std::result::Result<Vec<u8>, CodecError>)
    ensures
        agrees(r, hex_decoded(s.spec_bytes())),
{
    let bytes = s.as_bytes();
    if bytes.len() % 2 != 0 {
        return Err(CodecError::BadLength);
    }
    let mut out: Vec<u8> = Vec::new();
    let mut i: usize = 0;
    let ghost all = hex_pairs(bytes@);
    assert(bytes@.skip(0) =~= bytes@);
    proof {
        if all is Ok {
            assert(out@ + all->Ok_0 =~= all->Ok_0);
        }
    }
    while i < bytes.len()
        invariant
            i <= bytes@.len(),
            bytes@.len() % 2 == 0,
            i % 2 == 0,
            bytes@ == s.spec_bytes(),
            all == hex_pairs(bytes@),
            joined(out@, hex_pairs(bytes@.skip(i as int))) == all,
        decreases bytes.len() - i,
    {
        let ghost t = bytes@.skip(i as int);
        let h: u8 = match hex_val(bytes[i]) {
            Ok(v) => v,
            Err(e) => {
                return Err(e);
            },
        };
        let l: u8 = match hex_val(bytes[i + 1]) {
            Ok(v) => v,
            Err(e) => {
                return Err(e);
            },
        };
        let ghost o = out@;
        out.push(h * 16 + l);
        proof {
            assert(t.skip(2) =~= bytes@.skip(i + 2));
            if let Ok(rest) = hex_pairs(t.skip(2)) {
                assert(out@ + rest =~= o + (seq![(h * 16 + l) as u8] + rest));
            }
        }
        i += 2;
    }
    assert(out@ + Seq::<u8>::empty() =~= out@);
    Ok(out)
}

/// Bytes so far in front of what is decoded next.
spec fn joined(a: Seq<u8>, m: Decoded) -> Decoded {
    match m {
        Ok(b) => Ok(a + b),
        Err(e) => Err(e),
    }
}

fn hex_val(c: u8) -> (r: std::result::Result<u8, CodecError>)
    ensures
        match r {
            Ok(v) => hex_value(c) == Some(v) && v < 16,
            Err(e) => hex_value(c) is None && e == CodecError::InvalidChar(c as char),
        },
{
    if 48 <= c && c <= 57 {
        Ok(c - 48)
    } else if 97 <= c && c <= 102 {
        Ok(c - 87)
    } else if 65 <= c && c <= 70 {
        Ok(c - 55)
    } else {
        Err(CodecError::InvalidChar(c as char))
    }
}

/// The Base64 digit of a value below 64.
pub open spec fn b64_digit(v: nat) -> u8 {
    if v < 26 {
        (65 + v) as u8
    } else if v < 52 {
        (71 + v) as u8
    } else if v < 62 {
        (v - 4) as u8
    } else if v == 62 {
        43
    } else {
        47
    }
}

/// The value of a Base64 digit.
pub open spec fn b64_value(c: u8) -> Option<nat> {
    if 65 <= c <= 90 {
        Some((c - 65) as nat)
    } else if 97 <= c <= 122 {
        Some((c - 71) as nat)
    } else if 48 <= c <= 57 {
        Some((c + 4) as nat)
    } else if c == 43 {
        Some(62)
    } else if c == 47 {
        Some(63)
    } else {
        None
    }
}

/// The Base64 text of a byte string: four digits for three bytes, with `=` for
/// the digits that a shorter end does not reach.
pub open spec fn b64_text(s: Seq<u8>) -> Seq<u8>
    decreases s.len(),
{
    if s.len() == 0 {
        Seq::empty()
    } else if s.len() == 1 {
        let n = s[0] as nat * 65536;
        seq![b64_digit(n / 262144), b64_digit(n / 4096 % 64), 61, 61]
    } else if s.len() == 2 {
        let n = s[0] as nat * 65536 + s[1] as nat * 256;
        seq![b64_digit(n / 262144), b64_digit(n / 4096 % 64), b64_digit(n / 64 % 64), 61]
    } else {
        let n = s[0] as nat * 65536 + s[1] as nat * 256 + s[2] as nat;
        seq![b64_digit(n / 262144), b64_digit(n / 4096 % 64), b64_digit(n / 64 % 64), b64_digit(n % 64)] + b64_text(
            s.skip(3),
        )
    }
}

/// Digit `i` of a group of four: padding has the value zero and must stand at
/// the end of the last group, after at least two digits.
pub open spec fn b64_place(t: Seq<u8>, i: int) -> std::result::Result<nat, CodecError> {
    if t[i] == 61 {
        if i < 2 || t.len() > 4 {
            Err(CodecError::BadPadding)
        } else {
            Ok(0)
        }
    } else if i > 2 && t[i - 1] == 61 {
        Err(CodecError::BadPadding)
    } else {
        match b64_value(t[i]) {
            Some(v) => Ok(v),
            None => Err(CodecError::InvalidChar(t[i] as char)),
        }
    }
}

/// The bytes of the first group of four digits.
#[verifier::opaque]
pub open spec fn b64_group(t: Seq<u8>) -> Decoded {
    match b64_place(t, 0) {
        Err(e) => Err(e),
        Ok(a) => match b64_place(t, 1) {
            Err(e) => Err(e),
            Ok(b) => match b64_place(t, 2) {
                Err(e) => Err(e),
                Ok(c) => match b64_place(t, 3) {
                    Err(e) => Err(e),
                    Ok(d) => {
                        let n = a * 262144 + b * 4096 + c * 64 + d;
                        if t[2] == 61 {
                            Ok(seq![(n / 65536) as u8])
                        } else if t[3] == 61 {
                            Ok(seq![(n / 65536) as u8, (n / 256 % 256) as u8])
                        } else {
                            Ok(seq![(n / 65536) as u8, (n / 256 % 256) as u8, (n % 256) as u8])
                        }
                    },
                },
            },
        },
    }
}

/// The bytes of groups of four digits.
pub open spec fn b64_groups(t: Seq<u8>) -> Decoded
    decreases t.len(),
{
    if t.len() < 4 {
        Ok(Seq::empty())
    } else {
        match b64_group(t) {
            Err(e) => Err(e),
            Ok(bytes) => match b64_groups(t.skip(4)) {
                Err(e) => Err(e),
                Ok(rest) => Ok(bytes + rest),
            },
        }
    }
}

/// ASCII whitespace.
pub open spec fn is_blank(c: u8) -> bool {
    c == 32 || c == 9 || c == 10 || c == 12 || c == 13
}

/// The bytes that are not whitespace.
pub open spec fn dense(t: Seq<u8>) -> Seq<u8>
    decreases t.len(),
{
    if t.len() == 0 {
        t
    } else if is_blank(t.last()) {
        dense(t.drop_last())
    } else {
        dense(t.drop_last()).push(t.last())
    }
}

/// What a Base64 text decodes to; whitespace is ignored.
pub open spec fn b64_decoded(t: Seq<u8>) -> Decoded {
    let d = dense(t);
    if d.len() % 4 != 0 {
        Err(CodecError::BadLength)
    } else {
        b64_groups(d)
    }
}

proof fn lemma_b64_digit(v: nat)
    requires
        v < 64,
    ensures
        b64_value(b64_digit(v)) == Some(v),
        b64_digit(v) != 61,
        !is_blank(b64_digit(v)),
{
}

/// Three bytes in four digits.
proof fn lemma_b64_number(x: nat, y: nat, z: nat)
    requires
        x < 256,
        y < 256,
        z < 256,
    ensures
        ({
            let n = x * 65536 + y * 256 + z;
            let a = n / 262144;
            let b = n / 4096 % 64;
            let c = n / 64 % 64;
            let d = n % 64;
            &&& a < 64
            &&& a * 262144 + b * 4096 + c * 64 + d == n
            &&& n / 65536 == x
            &&& n / 256 % 256 == y
            &&& n % 256 == z
            &&& y == 0 && z == 0 ==> c == 0
            &&& z == 0 ==> d == 0
        }),
{
    let n = x * 65536 + y * 256 + z;
    let (x1, x0) = (x / 4, x % 4);
    let (y1, y0) = (y / 16, y % 16);
    let (z1, z0) = (z / 64, z % 64);
    let p = 16 * x0 + y1;
    let q = 4 * y0 + z1;
    assert(n == 262144 * x1 + 4096 * p + 64 * q + z0);
    assert(p < 64 && q < 64 && z0 < 64 && x1 < 64);
    assert(n / 262144 == x1);
    assert(n / 4096 == 64 * x1 + p);
    assert(n / 64 == 4096 * x1 + 64 * p + q);
    assert((4096 * x1 + 64 * p + q) % 64 == q);
    assert(n % 64 == z0);
    assert(n / 65536 == x);
    assert(n / 256 == x * 256 + y);
    assert((x * 256 + y) % 256 == y);
    assert(n % 256 == z);
}

/// The first group of a Base64 text holds its first bytes.
proof fn lemma_b64_group(s: Seq<u8>)
    requires
        s.len() > 0,
    ensures
        b64_text(s).len() >= 4,
        s.len() < 3 ==> b64_text(s).len() == 4 && b64_group(b64_text(s)) == Ok::<Seq<u8>, CodecError>(s),
        s.len() >= 3 ==> b64_group(b64_text(s)) == Ok::<Seq<u8>, CodecError>(s.subrange(0, 3)),
        forall|i: int| 0 <= i < 4 ==> !is_blank(#[trigger] b64_text(s)[i]),
{
    reveal(b64_group);
    let t = b64_text(s);
    let x = s[0] as nat;
    let y = if s.len() > 1 {
        s[1] as nat
    } else {
        0
    };
    let z = if s.len() > 2 {
        s[2] as nat
    } else {
        0
    };
    let n = x * 65536 + y * 256 + z;
    lemma_b64_number(x, y, z);
    lemma_b64_digit(n / 262144);
    lemma_b64_digit(n / 4096 % 64);
    lemma_b64_digit(n / 64 % 64);
    lemma_b64_digit(n % 64);
    if s.len() == 1 {
        assert(seq![x as u8] =~= s);
    } else if s.len() == 2 {
        assert(seq![x as u8, y as u8] =~= s);
    } else {
        assert(seq![x as u8, y as u8, z as u8] =~= s.subrange(0, 3));
    }
}

proof fn lemma_b64_groups(s: Seq<u8>)
    ensures
        b64_text(s).len() % 4 == 0,
        b64_groups(b64_text(s)) == Ok::<Seq<u8>, CodecError>(s),
        forall|i: int| 0 <= i < b64_text(s).len() ==> !is_blank(#[trigger] b64_text(s)[i]),
    decreases s.len(),
{
    let t = b64_text(s);
    if s.len() == 0 {
        assert(s =~= Seq::<u8>::empty());
    } else {
        lemma_b64_group(s);
        if s.len() < 3 {
            assert(t.skip(4) =~= Seq::<u8>::empty());
            assert(b64_groups(t.skip(4)) == Ok::<Seq<u8>, CodecError>(Seq::empty()));
            assert(s + Seq::<u8>::empty() =~= s);
        } else {
            let r = s.skip(3);
            lemma_b64_groups(r);
            assert(t.skip(4) =~= b64_text(r));
            assert(s.subrange(0, 3) + r =~= s);
            assert forall|i: int| 0 <= i < t.len() implies !is_blank(#[trigger] t[i]) by {
                if i >= 4 {
                    assert(t[i] == b64_text(r)[i - 4]);
                }
            }
        }
    }
}

proof fn lemma_dense_same(t: Seq<u8>)
    requires
        forall|i: int| 0 <= i < t.len() ==> !is_blank(#[trigger] t[i]),
    ensures
        dense(t) == t,
    decreases t.len(),
{
    if t.len() > 0 {
        let d = t.drop_last();
        assert forall|i: int| 0 <= i < d.len() implies !is_blank(#[trigger] d[i]) by {
            assert(d[i] == t[i]);
        }
        lemma_dense_same(d);
        assert(t.last() == t[t.len() - 1]);
        assert(d.push(t.last()) =~= t);
    }
}

/// Base64 text decodes to the bytes that it was made of.
pub proof fn lemma_base64_round_trip(s: Seq<u8>)
    ensures
        b64_decoded(b64_text(s)) == Ok::<Seq<u8>, CodecError>(s),
{
    lemma_b64_groups(s);
    lemma_dense_same(b64_text(s));
}

fn b64_char(v: u32) -> (c: u8)
    requires
        v < 64,
    ensures
        c == b64_digit(v as nat),
{
    if v < 26 {
        (65 + v) as u8
    } else if v < 52 {
        (71 + v) as u8
    } else if v < 62 {
        (v - 4) as u8
    } else if v == 62 {
        43
    } else {
        47
    }
}

/// Encode bytes as standard Base64 with `=` padding.
pub fn base64_encode(data: &[u8]) -> (out: String)
    ensures
        out@ == as_chars(b64_text(data@)),
{
    let mut out: String = String::new();
    let mut i: usize = 0;
    assert(data@.skip(0) =~= data@);
    while data.len() - i >= 3
        invariant
            i <= data@.len(),
            out@ + as_chars(b64_text(data@.skip(i as int))) == as_chars(b64_text(data@)),
        decreases data.len() - i,
    {
        let ghost o = out@;
        let n: u32 = data[i] as u32 * 65536 + data[i + 1] as u32 * 256 + data[i + 2] as u32;
        let a: u8 = b64_char(n / 262144);
        let b: u8 = b64_char(n / 4096 % 64);
        let c: u8 = b64_char(n / 64 % 64);
        let d: u8 = b64_char(n % 64);
        out.push(a as char);
        out.push(b as char);
        out.push(c as char);
        out.push(d as char);
        proof {
            let s = data@.skip(i as int);
            let r = data@.skip(i + 3);
            assert(s.skip(3) =~= r);
            assert(b64_text(s) =~= seq![a, b, c, d] + b64_text(r));
            assert(as_chars(b64_text(s)) =~= seq![a as char, b as char, c as char, d as char] + as_chars(b64_text(r)));
            assert(out@ + as_chars(b64_text(r)) =~= o + as_chars(b64_text(s)));
        }
        i += 3;
    }
    let ghost o = out@;
    let ghost s = data@.skip(i as int);
    let left: usize = data.len() - i;
    if left == 1 {
        let n: u32 = data[i] as u32 * 65536;
        let a: u8 = b64_char(n / 262144);
        let b: u8 = b64_char(n / 4096 % 64);
        out.push(a as char);
        out.push(b as char);
        out.push('=');
        out.push('=');
        proof {
            assert(b64_text(s) =~= seq![a, b, 61u8, 61u8]);
            assert(as_chars(b64_text(s)) =~= seq![a as char, b as char, '=', '=']);
            assert(out@ =~= o + as_chars(b64_text(s)));
        }
    } else if left == 2 {
        let n: u32 = data[i] as u32 * 65536 + data[i + 1] as u32 * 256;
        let a: u8 = b64_char(n / 262144);
        let b: u8 = b64_char(n / 4096 % 64);
        let c: u8 = b64_char(n / 64 % 64);
        out.push(a as char);
        out.push(b as char);
        out.push(c as char);
        out.push('=');
        proof {
            assert(b64_text(s) =~= seq![a, b, c, 61u8]);
            assert(as_chars(b64_text(s)) =~= seq![a as char, b as char, c as char, '=']);
            assert(out@ =~= o + as_chars(b64_text(s)));
        }
    } else {
        assert(out@ + as_chars(b64_text(s)) =~= out@);
    }
    out
}

/// Decode a standard Base64 string.
pub fn base64_decode(s: &str) -> (r: std::result::Result<Vec<u8>, CodecError>)
    ensures
        agrees(r, b64_decoded(s.spec_bytes())),
{
    let bytes = without_blanks(s.as_bytes());
    if bytes.len() % 4 != 0 {
        return Err(CodecError::BadLength);
    }
    let mut out: Vec<u8> = Vec::new();
    let mut i: usize = 0;
    let ghost all = b64_groups(bytes@);
    assert(bytes@.skip(0) =~= bytes@);
    proof {
        if all is Ok {
            assert(out@ + all->Ok_0 =~= all->Ok_0);
        }
    }
    while i < bytes.len()
        invariant
            i <= bytes@.len(),
            bytes@.len() % 4 == 0,
            i % 4 == 0,
            bytes@ == dense(s.spec_bytes()),
            all == b64_groups(bytes@),
            joined(out@, b64_groups(bytes@.skip(i as int))) == all,
        decreases bytes.len() - i,
    {
        let ghost t = bytes@.skip(i as int);
        let ghost o = out@;
        match push_group(&mut out, &bytes, i) {
            Some(e) => {
                return Err(e);
            },
            None => {},
        }
        proof {
            assert(t.skip(4) =~= bytes@.skip(i + 4));
            let g = b64_group(t)->Ok_0;
            if let Ok(rest) = b64_groups(t.skip(4)) {
                assert(out@ + rest =~= o + (g + rest));
            }
        }
        i += 4;
    }
    assert(out@ + Seq::<u8>::empty() =~= out@);
    Ok(out)
}

/// Append the bytes of the group at `i`, or give the error in it.
fn push_group(out: &mut Vec<u8>, bytes: &Vec<u8>, i: usize) -> (r: Option<CodecError>)
    requires
        i + 4 <= bytes@.len(),
    ensures
        match r {
            None => b64_group(bytes@.skip(i as int)) is Ok && final(out)@ == old(out)@ + b64_group(
                bytes@.skip(i as int),
            )->Ok_0,
            Some(e) => b64_group(bytes@.skip(i as int)) == Err::<Seq<u8>, CodecError>(e) && final(out)@ == old(out)@,
        },
{
    let ghost t = bytes@.skip(i as int);
    proof {
        reveal(b64_group);
    }
    assert(bytes.len() == bytes@.len());
    let last: bool = bytes.len() - i == 4;
    let a: u32 = match place(bytes, i, 0, last) {
        Ok(v) => v,
        Err(e) => {
            return Some(e);
        },
    };
    let b: u32 = match place(bytes, i, 1, last) {
        Ok(v) => v,
        Err(e) => {
            return Some(e);
        },
    };
    let c: u32 = match place(bytes, i, 2, last) {
        Ok(v) => v,
        Err(e) => {
            return Some(e);
        },
    };
    let d: u32 = match place(bytes, i, 3, last) {
        Ok(v) => v,
        Err(e) => {
            return Some(e);
        },
    };
    let n: u32 = a * 262144 + b * 4096 + c * 64 + d;
    let ghost o = out@;
    out.push((n / 65536) as u8);
    if bytes[i + 2] != 61 {
        out.push((n / 256 % 256) as u8);
        if bytes[i + 3] != 61 {
            out.push((n % 256) as u8);
        }
    }
    proof {
        assert(t[2] == bytes@[i + 2] && t[3] == bytes@[i + 3]);
        assert(out@ =~= o + b64_group(t)->Ok_0);
    }
    None
}

/// Digit `k` of the group at `i`.
fn place(bytes: &Vec<u8>, i: usize, k: usize, last: bool) -> (r: std::result::Result<u32, CodecError>)
    requires
        k < 4,
        i + 4 <= bytes@.len(),
        last == (bytes@.len() - i == 4),
    ensures
        match r {
            Ok(v) => b64_place(bytes@.skip(i as int), k as int) == Ok::<nat, CodecError>(v as nat) && v < 64,
            Err(e) => b64_place(bytes@.skip(i as int), k as int) == Err::<nat, CodecError>(e),
        },
{
    assert(bytes.len() == bytes@.len());
    let c: u8 = bytes[i + k];
    if c == 61 {
        if k < 2 || !last {
            Err(CodecError::BadPadding)
        } else {
            Ok(0)
        }
    } else if k > 2 && bytes[i + k - 1] == 61 {
        Err(CodecError::BadPadding)
    } else if 65 <= c && c <= 90 {
        Ok((c - 65) as u32)
    } else if 97 <= c && c <= 122 {
        Ok((c - 71) as u32)
    } else if 48 <= c && c <= 57 {
        Ok((c + 4) as u32)
    } else if c == 43 {
        Ok(62)
    } else if c == 47 {
        Ok(63)
    } else {
        Err(CodecError::InvalidChar(c as char))
    }
}

fn without_blanks(t: &[u8]) -> (r: Vec<u8>)
    ensures
        r@ == dense(t@),
{
    let mut r: Vec<u8> = Vec::new();
    let mut i: usize = 0;
    while i < t.len()
        invariant
            i <= t@.len(),
            r@ == dense(t@.subrange(0, i as int)),
        decreases t.len() - i,
    {
        proof {
            let s = t@.subrange(0, i + 1);
            assert(s.drop_last() =~= t@.subrange(0, i as int));
        }
        let c: u8 = t[i];
        if !(c == 32 || c == 9 || c == 10 || c == 12 || c == 13) {
            r.push(c);
        }
        i += 1;
    }
    assert(t@.subrange(0, i as int) =~= t@);
    r
}

} // verus!
