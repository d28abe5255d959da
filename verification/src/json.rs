//! A self-contained JSON value, parser, and serializer.
//!
//! `schist` accepts JSON as an import/export interchange format for row data
//! and for the diagnostics dumps. This module implements a dependency-free
//! recursive-descent parser producing a [`Json`] tree, a compact and a pretty
//! serializer, and a small JSON-Pointer-style accessor. It is deliberately
//! strict about structure but lenient about whitespace, and it tracks line and
//! column so parse errors point at the offending byte. The reals that numbers
//! stand for, and their texts, are looked up.
use vstd::prelude::*;
use vstd::string::*;

use crate::catalog;
use crate::lex;
use crate::numeric;
use crate::numeric::{RealNeed, RealTexts, Reals};
use crate::text;

verus! {

/// A parsed JSON value.
#[derive(Debug, PartialEq)]
pub enum Json {
    Null,
    Bool(bool),
    /// All numbers are kept as reals, by their bits; integer-valued numbers print
    /// without a fractional part.
    Number(u64),
    String(String),
    Array(Vec<Json>),
    /// Objects hold their members in the order of their keys; duplicate keys keep
    /// the last occurrence.
    Object(Vec<(String, Json)>),
}

/// A JSON value with its texts as characters.
pub enum Tree {
    Null,
    Bool(bool),
    Number(u64),
    Text(Seq<char>),
    Array(Seq<Tree>),
    Object(Seq<(Seq<char>, Tree)>),
}

pub open spec fn tree(j: Json) -> Tree
    decreases j,
{
    match j {
        Json::Null => Tree::Null,
        Json::Bool(b) => Tree::Bool(b),
        Json::Number(n) => Tree::Number(n),
        Json::String(s) => Tree::Text(s@),
        Json::Array(a) => Tree::Array(trees(a@)),
        Json::Object(m) => Tree::Object(members(m@)),
    }
}

pub open spec fn trees(v: Seq<Json>) -> Seq<Tree>
    decreases v,
{
    if v.len() == 0 {
        Seq::empty()
    } else {
        trees(v.drop_last()).push(tree(v.last()))
    }
}

pub open spec fn members(v: Seq<(String, Json)>) -> Seq<(Seq<char>, Tree)>
    decreases v,
{
    if v.len() == 0 {
        Seq::empty()
    } else {
        members(v.drop_last()).push((v.last().0@, tree(v.last().1)))
    }
}

proof fn lemma_trees(v: Seq<Json>)
    ensures
        trees(v).len() == v.len(),
        forall|i: int| 0 <= i < v.len() ==> #[trigger] trees(v)[i] == tree(v[i]),
    decreases v,
{
    if v.len() > 0 {
        lemma_trees(v.drop_last());
    }
}

proof fn lemma_members(v: Seq<(String, Json)>)
    ensures
        members(v).len() == v.len(),
        forall|i: int| 0 <= i < v.len() ==> #[trigger] members(v)[i] == (v[i].0@, tree(v[i].1)),
    decreases v,
{
    if v.len() > 0 {
        lemma_members(v.drop_last());
    }
}

// Positions

/// How many bytes a character takes.
pub open spec fn width(c: char) -> nat {
    if (c as u32) < 0x80 {
        1
    } else if (c as u32) < 0x800 {
        2
    } else if (c as u32) < 0x10000 {
        3
    } else {
        4
    }
}

/// How many bytes characters take.
pub open spec fn weight(s: Seq<char>) -> nat
    decreases s.len(),
{
    if s.len() == 0 {
        0
    } else {
        weight(s.drop_last()) + width(s.last())
    }
}

/// The line and column after characters; both count from one, columns in bytes.
pub open spec fn position(s: Seq<char>) -> (nat, nat)
    decreases s.len(),
{
    if s.len() == 0 {
        (1, 1)
    } else {
        let (line, col) = position(s.drop_last());
        if s.last() == '\n' {
            (line + 1, 1)
        } else {
            (line, col + width(s.last()))
        }
    }
}

/// The position of a character.
pub open spec fn at(s: Seq<char>, p: int) -> (nat, nat) {
    position(s.take(p))
}

/// The position after the first byte of a character; at the end, of the end.
pub open spec fn past(s: Seq<char>, p: int) -> (nat, nat) {
    let (line, col) = at(s, p);
    if p >= s.len() {
        (line, col)
    } else if s[p] == '\n' {
        (line + 1, 1)
    } else {
        (line, col + 1)
    }
}

proof fn lemma_weight(s: Seq<char>, p: int)
    requires
        0 <= p <= s.len(),
    ensures
        weight(s.take(p)) <= weight(s),
        p < s.len() ==> weight(s.take(p)) + 1 <= weight(s),
        position(s.take(p)).0 <= 1 + p,
        position(s.take(p)).1 <= 1 + weight(s.take(p)),
        p <= weight(s.take(p)),
    decreases s.len() + p,
{
    if p < s.len() {
        lemma_weight(s.drop_last(), p);
        assert(s.drop_last().take(p) =~= s.take(p));
    } else {
        assert(s.take(p) =~= s);
        if p > 0 {
            lemma_weight(s.drop_last(), p - 1);
            assert(s.drop_last().take(p - 1) =~= s.drop_last());
        }
    }
}

proof fn lemma_weight_front(s: Seq<char>)
    requires
        s.len() > 0,
    ensures
        weight(s) == width(s[0]) + weight(s.drop_first()),
    decreases s.len(),
{
    if s.len() > 1 {
        lemma_weight_front(s.drop_last());
        assert(s.drop_last().drop_first() =~= s.drop_first().drop_last());
    } else {
        assert(weight(s.drop_last()) == 0);
        assert(weight(s.drop_first()) == 0);
    }
}

/// Characters take the bytes of their text.
proof fn lemma_bytes(s: Seq<char>)
    ensures
        weight(s) == vstd::utf8::encode_utf8(s).len(),
    decreases s.len(),
{
    if s.len() > 0 {
        lemma_weight_front(s);
        lemma_bytes(s.drop_first());
        vstd::utf8::char_is_scalar(s[0]);
    }
}

/// A JSON parse error with position.
#[derive(Debug, Clone, PartialEq, Eq)]
pub struct JsonError {
    pub message: String,
    pub line: usize,
    pub col: usize,
}

/// What is wrong, and where.
#[verifier::ext_equal]
pub struct Fault {
    pub message: Seq<char>,
    pub line: nat,
    pub col: nat,
}

impl View for JsonError {
    type V = Fault;

    open spec fn view(&self) -> Fault {
        Fault { message: self.message@, line: self.line as nat, col: self.col as nat }
    }
}

impl JsonError {
    /// The message for this error, with its position.
    pub fn to_string(&self) -> (r: String)
        ensures
            r@ == self.message@ + " at line "@ + text::digits(self.line as nat) + " col "@ + text::digits(
                self.col as nat,
            ),
    {
        let mut s = String::new();
        s.append(self.message.as_str());
        s.append(" at line ");
        put_number(&mut s, self.line);
        s.append(" col ");
        put_number(&mut s, self.col);
        assert(s@ =~= self.message@ + " at line "@ + text::digits(self.line as nat) + " col "@ + text::digits(
            self.col as nat,
        ));
        s
    }
}

fn put_number(s: &mut String, n: usize)
    ensures
        final(s)@ == old(s)@ + text::digits(n as nat),
{
    let mut v: Vec<char> = Vec::new();
    text::push_number(&mut v, n as u128);
    assert(v@ =~= text::digits(n as nat));
    let t = text::string_of(&v);
    s.append(t.as_str());
}

/// Why a document was not parsed: an error in it, or a real that is needed.
#[derive(Debug, Clone, PartialEq, Eq)]
pub enum ParseFailure {
    Json(JsonError),
    Pending(RealNeed),
}

/// What a [`ParseFailure`] says.
pub enum Failure {
    Json(Fault),
    Pending(numeric::Need),
}

impl View for ParseFailure {
    type V = Failure;

    open spec fn view(&self) -> Failure {
        match self {
            ParseFailure::Json(e) => Failure::Json(e@),
            ParseFailure::Pending(n) => Failure::Pending(n@),
        }
    }
}

/// A fault at a character.
pub open spec fn fault_at(message: Seq<char>, s: Seq<char>, p: int) -> Fault {
    Fault { message, line: at(s, p).0, col: at(s, p).1 }
}

/// A fault past the first byte of a character.
pub open spec fn fault_past(message: Seq<char>, s: Seq<char>, p: int) -> Fault {
    Fault { message, line: past(s, p).0, col: past(s, p).1 }
}

/// Whether the machine can count the columns of a text.
pub open spec fn countable(s: Seq<char>) -> bool {
    weight(s) < usize::MAX
}

fn error_at(message: &str, v: &Vec<char>, p: usize) -> (r: JsonError)
    requires
        countable(v@),
        p <= v@.len(),
    ensures
        r@ == fault_at(message@, v@, p as int),
{
    let mut line: usize = 1;
    let mut col: usize = 1;
    let mut i: usize = 0;
    assert(v@.take(0) =~= Seq::empty());
    while i < p
        invariant
            i <= p <= v@.len(),
            countable(v@),
            (line as nat, col as nat) == position(v@.take(i as int)),
        decreases p - i,
    {
        proof {
            lemma_weight(v@, i + 1);
            assert(v@.take(i + 1).drop_last() =~= v@.take(i as int));
        }
        let c = v[i];
        if c == '\n' {
            line += 1;
            col = 1;
        } else {
            let u = c as u32;
            col += if u < 0x80 {
                1
            } else if u < 0x800 {
                2
            } else if u < 0x10000 {
                3
            } else {
                4
            };
        }
        i += 1;
    }
    let c = text::chars_of(message);
    JsonError { message: text::string_of(&c), line, col }
}

fn error_past(message: &str, v: &Vec<char>, p: usize) -> (r: JsonError)
    requires
        countable(v@),
        p <= v@.len(),
    ensures
        r@ == fault_past(message@, v@, p as int),
{
    let e = error_at(message, v, p);
    if p < v.len() {
        proof {
            lemma_weight(v@, p as int);
        }
        if v[p] == '\n' {
            JsonError { message: e.message, line: e.line + 1, col: 1 }
        } else {
            JsonError { message: e.message, line: e.line, col: e.col + 1 }
        }
    } else {
        e
    }
}

// White space

pub open spec fn is_blank(c: char) -> bool {
    c == ' ' || c == '\t' || c == '\n' || c == '\r'
}

/// The first place from `p` on that is not white space.
pub open spec fn skipped(s: Seq<char>, p: int) -> int
    decreases s.len() - p,
{
    if 0 <= p < s.len() && is_blank(s[p]) {
        skipped(s, p + 1)
    } else {
        p
    }
}

pub proof fn lemma_skipped(s: Seq<char>, p: int)
    ensures
        p <= skipped(s, p),
        p <= s.len() ==> skipped(s, p) <= s.len(),
    decreases s.len() - p,
{
    if 0 <= p < s.len() && is_blank(s[p]) {
        lemma_skipped(s, p + 1);
    }
}

fn skip_ws(v: &Vec<char>, from: usize) -> (p: usize)
    requires
        from <= v@.len(),
    ensures
        p == skipped(v@, from as int),
        from <= p <= v@.len(),
{
    let mut p: usize = from;
    while p < v.len() && (v[p] == ' ' || v[p] == '\t' || v[p] == '\n' || v[p] == '\r')
        invariant
            from <= p <= v@.len(),
            skipped(v@, p as int) == skipped(v@, from as int),
        decreases v@.len() - p,
    {
        p += 1;
    }
    p
}

// Strings

/// The value of a hex digit.
pub open spec fn hex_digit(c: char) -> Option<nat> {
    if '0' <= c <= '9' {
        Some((c as int - 48) as nat)
    } else if 'a' <= c <= 'f' {
        Some((c as int - 87) as nat)
    } else if 'A' <= c <= 'F' {
        Some((c as int - 55) as nat)
    } else {
        None
    }
}

/// The number that so many hex digits spell after `acc`.
pub open spec fn hex_of(s: Seq<char>, p: int, n: nat, acc: nat) -> Result<nat, Fault>
    decreases n,
{
    if n == 0 {
        Ok(acc)
    } else if p >= s.len() {
        Err(fault_at("truncated \\u escape"@, s, p))
    } else {
        match hex_digit(s[p]) {
            None => Err(fault_past("invalid hex digit"@, s, p)),
            Some(d) => hex_of(s, p + 1, (n - 1) as nat, 16 * acc + d),
        }
    }
}

/// A character by its number; of a number that has none, the replacement
/// character.
pub open spec fn char_or_mark(v: nat) -> char {
    if v <= 0x10FFFF && !(0xD800 <= v <= 0xDFFF) {
        v as char
    } else {
        '\u{FFFD}'
    }
}

/// The character a pair of surrogates stands for.
pub open spec fn paired(hi: nat, lo: nat) -> char {
    char_or_mark((0x10000 + (hi - 0xD800) * 0x400 + (lo - 0xDC00)) as nat)
}

/// What a one-letter escape stands for.
pub open spec fn unescaped(c: char) -> Option<char> {
    if c == '"' || c == '\\' || c == '/' {
        Some(c)
    } else if c == 'n' {
        Some('\n')
    } else if c == 't' {
        Some('\t')
    } else if c == 'r' {
        Some('\r')
    } else if c == 'b' {
        Some('\u{8}')
    } else if c == 'f' {
        Some('\u{C}')
    } else {
        None
    }
}

/// The character of an escape whose digits start at `p`, and where it ends.
pub open spec fn coded(s: Seq<char>, p: int) -> Result<(char, int), Fault> {
    match hex_of(s, p, 4, 0) {
        Err(e) => Err(e),
        Ok(hi) => if 0xD800 <= hi <= 0xDBFF {
            if p + 4 >= s.len() || s[p + 4] != '\\' {
                Err(fault_past("expected low surrogate"@, s, p + 4))
            } else if p + 5 >= s.len() || s[p + 5] != 'u' {
                Err(fault_past("expected low surrogate"@, s, p + 5))
            } else {
                match hex_of(s, p + 6, 4, 0) {
                    Err(e) => Err(e),
                    Ok(lo) => if 0xDC00 <= lo <= 0xDFFF {
                        Ok((paired(hi, lo), p + 10))
                    } else {
                        Err(fault_at("invalid low surrogate"@, s, p + 10))
                    },
                }
            }
        } else {
            Ok((char_or_mark(hi), p + 4))
        },
    }
}

pub proof fn lemma_hex(s: Seq<char>, p: int, n: nat, acc: nat)
    ensures
        n > 0 && hex_of(s, p, n, acc) is Ok ==> p + n <= s.len(),
    decreases n,
{
    if n > 0 && p < s.len() && hex_digit(s[p]) is Some {
        lemma_hex(s, p + 1, (n - 1) as nat, 16 * acc + hex_digit(s[p])->0);
    }
}

pub proof fn lemma_coded(s: Seq<char>, p: int)
    ensures
        coded(s, p) matches Ok((c, q)) ==> p < q <= s.len(),
{
    lemma_hex(s, p, 4, 0);
    lemma_hex(s, p + 6, 4, 0);
}

/// The rest of a string from `p` on, after `out`, and where it ends.
pub open spec fn string_of(s: Seq<char>, p: int, out: Seq<char>) -> Result<(Seq<char>, int), Fault>
    decreases s.len() - p,
{
    if p >= s.len() {
        Err(fault_at("unterminated string"@, s, p))
    } else if s[p] == '"' {
        Ok((out, p + 1))
    } else if s[p] == '\\' {
        if p + 1 >= s.len() {
            Err(fault_at("unterminated escape"@, s, p + 1))
        } else if s[p + 1] == 'u' {
            proof {
                lemma_coded(s, p + 2);
            }
            match coded(s, p + 2) {
                Err(e) => Err(e),
                Ok((c, q)) => string_of(s, q, out.push(c)),
            }
        } else {
            match unescaped(s[p + 1]) {
                Some(c) => string_of(s, p + 2, out.push(c)),
                None => Err(fault_past("invalid escape"@, s, p + 1)),
            }
        }
    } else if (s[p] as u32) < 0x20 {
        Err(fault_past("control character in string"@, s, p))
    } else {
        string_of(s, p + 1, out.push(s[p]))
    }
}

proof fn lemma_string(s: Seq<char>, p: int, out: Seq<char>)
    requires
        0 <= p <= s.len(),
    ensures
        string_of(s, p, out) matches Ok((t, q)) ==> p < q <= s.len(),
    decreases s.len() - p,
{
    if p < s.len() && s[p] != '"' {
        if s[p] == '\\' {
            if p + 1 < s.len() {
                if s[p + 1] == 'u' {
                    lemma_coded(s, p + 2);
                    match coded(s, p + 2) {
                        Err(e) => {},
                        Ok((c, q)) => lemma_string(s, q, out.push(c)),
                    }
                } else {
                    match unescaped(s[p + 1]) {
                        Some(c) => lemma_string(s, p + 2, out.push(c)),
                        None => {},
                    }
                }
            }
        } else if (s[p] as u32) >= 0x20 {
            lemma_string(s, p + 1, out.push(s[p]));
        }
    }
}

fn parse_hex4(v: &Vec<char>, from: usize) -> (r: Result<u32, JsonError>)
    requires
        countable(v@),
        from <= v@.len(),
    ensures
        match r {
            Ok(x) => hex_of(v@, from as int, 4, 0) == Ok::<nat, Fault>(x as nat) && x <= 0xFFFF && from + 4 <= v@.len(),
            Err(e) => hex_of(v@, from as int, 4, 0) == Err::<nat, Fault>(e@),
        },
{
    let mut x: u32 = 0;
    let mut k: usize = 0;
    while k < 4
        invariant
            k <= 4,
            countable(v@),
            from + k <= v@.len(),
            k == 0 ==> x == 0,
            k == 1 ==> x < 0x10,
            k == 2 ==> x < 0x100,
            k == 3 ==> x < 0x1000,
            k == 4 ==> x < 0x10000,
            hex_of(v@, from + k, (4 - k) as nat, x as nat) == hex_of(v@, from as int, 4, 0),
        decreases 4 - k,
    {
        let size = v.len();
        let p = from + k;
        if p >= size {
            return Err(error_at("truncated \\u escape", v, p));
        }
        let c = v[p];
        let d: u32 = if '0' <= c && c <= '9' {
            c as u32 - 48
        } else if 'a' <= c && c <= 'f' {
            c as u32 - 87
        } else if 'A' <= c && c <= 'F' {
            c as u32 - 55
        } else {
            return Err(error_past("invalid hex digit", v, p));
        };
        x = 16 * x + d;
        k += 1;
    }
    Ok(x)
}

fn marked(v: u32) -> (c: char)
    ensures
        c == char_or_mark(v as nat),
{
    match text::char_of(v) {
        Some(c) => {
            proof {
                vstd::utf8::char_u32_cast(c, v);
            }
            c
        },
        None => '\u{FFFD}',
    }
}

fn parse_coded(v: &Vec<char>, p: usize) -> (r: Result<(char, usize), JsonError>)
    requires
        countable(v@),
        p <= v@.len(),
    ensures
        match r {
            Ok((c, q)) => coded(v@, p as int) == Ok::<(char, int), Fault>((c, q as int)) && p < q <= v@.len(),
            Err(e) => coded(v@, p as int) == Err::<(char, int), Fault>(e@),
        },
{
    let size = v.len();
    let hi = match parse_hex4(v, p) {
        Err(e) => return Err(e),
        Ok(x) => x,
    };
    if 0xD800 <= hi && hi <= 0xDBFF {
        // High surrogate; expect a low surrogate.
        if p + 4 >= size || v[p + 4] != '\\' {
            return Err(error_past("expected low surrogate", v, p + 4));
        }
        if p + 5 >= size || v[p + 5] != 'u' {
            return Err(error_past("expected low surrogate", v, p + 5));
        }
        let lo = match parse_hex4(v, p + 6) {
            Err(e) => return Err(e),
            Ok(x) => x,
        };
        if !(0xDC00 <= lo && lo <= 0xDFFF) {
            return Err(error_at("invalid low surrogate", v, p + 10));
        }
        let c = 0x10000 + (hi - 0xD800) * 0x400 + (lo - 0xDC00);
        Ok((marked(c), p + 10))
    } else {
        Ok((marked(hi), p + 4))
    }
}

/// Parse a string whose opening quote stands before `from`.
#[verifier::rlimit(40)]
fn parse_rest(v: &Vec<char>, from: usize) -> (r: Result<(String, usize), JsonError>)
    requires
        countable(v@),
        from <= v@.len(),
    ensures
        match r {
            Ok((t, q)) => string_of(v@, from as int, Seq::empty()) == Ok::<(Seq<char>, int), Fault>((t@, q as int))
                && from < q <= v@.len(),
            Err(e) => string_of(v@, from as int, Seq::empty()) == Err::<(Seq<char>, int), Fault>(e@),
        },
{
    let mut out = String::new();
    let mut p: usize = from;
    assert(out@ =~= Seq::empty());
    while p < v.len()
        invariant
            countable(v@),
            from <= p <= v@.len(),
            string_of(v@, from as int, Seq::empty()) == string_of(v@, p as int, out@),
        decreases v@.len() - p,
    {
        let size = v.len();
        let c = v[p];
        if c == '"' {
            return Ok((out, p + 1));
        }
        if c == '\\' {
            if p + 1 >= size {
                return Err(error_at("unterminated escape", v, p + 1));
            }
            let e = v[p + 1];
            if e == 'u' {
                match parse_coded(v, p + 2) {
                    Err(e) => return Err(e),
                    Ok((c, q)) => {
                        out.push(c);
                        p = q;
                    },
                }
            } else {
                let x = if e == '"' || e == '\\' || e == '/' {
                    e
                } else if e == 'n' {
                    '\n'
                } else if e == 't' {
                    '\t'
                } else if e == 'r' {
                    '\r'
                } else if e == 'b' {
                    '\u{8}'
                } else if e == 'f' {
                    '\u{C}'
                } else {
                    return Err(error_past("invalid escape", v, p + 1));
                };
                out.push(x);
                p += 2;
            }
        } else if (c as u32) < 0x20 {
            return Err(error_past("control character in string", v, p));
        } else {
            out.push(c);
            p += 1;
        }
    }
    Err(error_at("unterminated string", v, p))
}

// Numbers

/// The first place from `p` on that is not a digit.
pub open spec fn digits_end(s: Seq<char>, p: int) -> int
    decreases s.len() - p,
{
    if 0 <= p < s.len() && text::is_digit(s[p]) {
        digits_end(s, p + 1)
    } else {
        p
    }
}

pub open spec fn char_at(s: Seq<char>, p: int, c: char) -> bool {
    0 <= p < s.len() && s[p] == c
}

/// The end of the digits and fraction of a number.
pub open spec fn fraction_end(s: Seq<char>, p: int) -> int {
    let a = digits_end(
        s,
        if char_at(s, p, '-') {
            p + 1
        } else {
            p
        },
    );
    if char_at(s, a, '.') {
        digits_end(s, a + 1)
    } else {
        a
    }
}

/// The end of a number.
pub open spec fn number_end(s: Seq<char>, p: int) -> int {
    let c = fraction_end(s, p);
    if char_at(s, c, 'e') || char_at(s, c, 'E') {
        digits_end(
            s,
            if char_at(s, c + 1, '+') || char_at(s, c + 1, '-') {
                c + 2
            } else {
                c + 1
            },
        )
    } else {
        c
    }
}

/// The number that stands at `p`, and where it ends.
pub open spec fn number_of(s: Seq<char>, p: int, reals: numeric::RealFacts) -> Result<(Tree, int), Failure> {
    let q = number_end(s, p);
    let t = s.subrange(p, q);
    if !numeric::is_real_text(t) {
        Err(Failure::Json(fault_at("invalid number"@, s, q)))
    } else {
        match numeric::first(reals.texts, t) {
            Some(b) => Ok((Tree::Number(b), q)),
            None => Err(Failure::Pending(numeric::Need::Text(t))),
        }
    }
}

fn skip_digits(v: &Vec<char>, from: usize) -> (p: usize)
    requires
        from <= v@.len(),
    ensures
        p == digits_end(v@, from as int),
        from <= p <= v@.len(),
        from < v@.len() && text::is_digit(v@[from as int]) ==> p > from,
{
    let mut p: usize = from;
    while p < v.len() && text::digit(v[p])
        invariant
            from <= p <= v@.len(),
            digits_end(v@, p as int) == digits_end(v@, from as int),
            p == from || text::is_digit(v@[from as int]),
        decreases v@.len() - p,
    {
        p += 1;
    }
    p
}

// Values

/// Whether a word stands at `p`.
pub open spec fn word_at(s: Seq<char>, p: int, w: Seq<char>) -> bool {
    p + w.len() <= s.len() && s.subrange(p, p + w.len()) == w
}

/// An object's members with one more; under a key that is there, the new value
/// stands.
pub open spec fn with_member(m: Seq<(Seq<char>, Tree)>, key: Seq<char>, v: Tree) -> Seq<(Seq<char>, Tree)>
    decreases m.len(),
{
    if m.len() == 0 {
        seq![(key, v)]
    } else if m[0].0 == key {
        seq![(key, v)] + m.skip(1)
    } else if catalog::sooner(key, m[0].0) {
        seq![(key, v)] + m
    } else {
        seq![m[0]] + with_member(m.skip(1), key, v)
    }
}

/// How deep values may be nested.
pub const MAX_DEPTH: usize = 128;

/// The value at `p` that holds no others, and where it ends.
pub open spec fn plain_of(s: Seq<char>, p: int, reals: numeric::RealFacts) -> Result<(Tree, int), Failure> {
    if s[p] == '"' {
        match string_of(s, p + 1, Seq::empty()) {
            Err(e) => Err(Failure::Json(e)),
            Ok((t, q)) => Ok((Tree::Text(t), q)),
        }
    } else if s[p] == 't' || s[p] == 'f' {
        if word_at(s, p, seq!['t', 'r', 'u', 'e']) {
            Ok((Tree::Bool(true), p + 4))
        } else if word_at(s, p, seq!['f', 'a', 'l', 's', 'e']) {
            Ok((Tree::Bool(false), p + 5))
        } else {
            Err(Failure::Json(fault_at("invalid literal"@, s, p)))
        }
    } else if s[p] == 'n' {
        if word_at(s, p, seq!['n', 'u', 'l', 'l']) {
            Ok((Tree::Null, p + 4))
        } else {
            Err(Failure::Json(fault_at("invalid literal"@, s, p)))
        }
    } else if s[p] == '-' || text::is_digit(s[p]) {
        number_of(s, p, reals)
    } else {
        Err(Failure::Json(fault_at("expected a JSON value"@, s, p)))
    }
}

/// The value at `from`, within `depth` others, and where it ends.
pub open spec fn value_of(s: Seq<char>, from: int, depth: nat, reals: numeric::RealFacts) -> Result<
    (Tree, int),
    Failure,
>
    decreases s.len() - from, 0int,
{
    proof {
        lemma_skipped(s, from);
        lemma_skipped(s, skipped(s, from) + 1);
    }
    let p = skipped(s, from);
    if p >= s.len() {
        Err(Failure::Json(fault_at("expected a JSON value"@, s, p)))
    } else if s[p] == '{' || s[p] == '[' {
        if depth >= MAX_DEPTH {
            Err(Failure::Json(fault_at("maximum nesting depth exceeded"@, s, p)))
        } else {
            let q = skipped(s, p + 1);
            if s[p] == '{' {
                if char_at(s, q, '}') {
                    Ok((Tree::Object(Seq::empty()), q + 1))
                } else {
                    members_of(s, q, depth + 1, Seq::empty(), reals)
                }
            } else if char_at(s, q, ']') {
                Ok((Tree::Array(Seq::empty()), q + 1))
            } else {
                items_of(s, q, depth + 1, Seq::empty(), reals)
            }
        }
    } else {
        plain_of(s, p, reals)
    }
}

/// The items of an array from `from` on, after those before, and where it ends.
pub open spec fn items_of(
    s: Seq<char>,
    from: int,
    depth: nat,
    done: Seq<Tree>,
    reals: numeric::RealFacts,
) -> Result<(Tree, int), Failure>
    decreases s.len() - from, 1int,
{
    match value_of(s, from, depth, reals) {
        Err(e) => Err(e),
        Ok((x, q)) => {
            let p = skipped(s, q);
            let all = done.push(x);
            if !(from < p < s.len()) {
                Err(Failure::Json(fault_at("expected ',' or ']' in array"@, s, p)))
            } else if s[p] == ',' {
                items_of(s, p + 1, depth, all, reals)
            } else if s[p] == ']' {
                Ok((Tree::Array(all), p + 1))
            } else {
                Err(Failure::Json(fault_past("expected ',' or ']' in array"@, s, p)))
            }
        },
    }
}

/// The key of a member, and where its value starts.
pub open spec fn key_of(s: Seq<char>, from: int) -> Result<(Seq<char>, int), Fault> {
    let p = skipped(s, from);
    if !char_at(s, p, '"') {
        Err(fault_at("expected string"@, s, p))
    } else {
        match string_of(s, p + 1, Seq::empty()) {
            Err(e) => Err(e),
            Ok((key, q)) => {
                let c = skipped(s, q);
                if !char_at(s, c, ':') {
                    Err(fault_at("expected ':' after object key"@, s, c))
                } else {
                    Ok((key, c + 1))
                }
            },
        }
    }
}

/// The members of an object from `from` on, after those before, and where it ends.
pub open spec fn members_of(
    s: Seq<char>,
    from: int,
    depth: nat,
    done: Seq<(Seq<char>, Tree)>,
    reals: numeric::RealFacts,
) -> Result<(Tree, int), Failure>
    decreases s.len() - from, 1int,
{
    match key_of(s, from) {
        Err(e) => Err(Failure::Json(e)),
        Ok((key, k)) => {
            proof {
                lemma_key(s, from);
            }
            match value_of(s, k, depth, reals) {
                Err(e) => Err(e),
                Ok((x, q)) => {
                    let p = skipped(s, q);
                    let all = with_member(done, key, x);
                    if !(from < p < s.len()) {
                        Err(Failure::Json(fault_at("expected ',' or '}' in object"@, s, p)))
                    } else if s[p] == ',' {
                        members_of(s, p + 1, depth, all, reals)
                    } else if s[p] == '}' {
                        Ok((Tree::Object(all), p + 1))
                    } else {
                        Err(Failure::Json(fault_past("expected ',' or '}' in object"@, s, p)))
                    }
                },
            }
        },
    }
}

pub proof fn lemma_key(s: Seq<char>, from: int)
    ensures
        key_of(s, from) matches Ok((key, k)) ==> from < k <= s.len(),
{
    lemma_skipped(s, from);
    let p = skipped(s, from);
    if char_at(s, p, '"') {
        lemma_string(s, p + 1, Seq::empty());
        match string_of(s, p + 1, Seq::empty()) {
            Ok((key, q)) => lemma_skipped(s, q),
            Err(_) => {},
        }
    }
}

/// The document that characters spell, to the last of them.
pub open spec fn document(s: Seq<char>, reals: numeric::RealFacts) -> Result<Tree, Failure> {
    match value_of(s, skipped(s, 0), 0, reals) {
        Err(e) => Err(e),
        Ok((t, q)) => {
            let p = skipped(s, q);
            if p < s.len() {
                Err(Failure::Json(fault_at("trailing characters after value"@, s, p)))
            } else {
                Ok(t)
            }
        },
    }
}

// Parsing

/// Whether a value was read from a place, or the failure that the grammar gives.
pub open spec fn read_as(r: Result<(Json, usize), ParseFailure>, g: Result<(Tree, int), Failure>, from: int, end: int) -> bool {
    match r {
        Ok((j, q)) => g == Ok::<(Tree, int), Failure>((tree(j), q as int)) && from < q <= end,
        Err(e) => g == Err::<(Tree, int), Failure>(e@),
    }
}

fn looks_like(v: &Vec<char>, p: usize, w: &str) -> (r: bool)
    requires
        p <= v@.len(),
    ensures
        r == word_at(v@, p as int, w@),
{
    let size = v.len();
    let c = text::chars_of(w);
    if size - p < c.len() {
        return false;
    }
    let mut i: usize = 0;
    while i < c.len()
        invariant
            i <= c@.len(),
            c@ == w@,
            p + c@.len() <= v@.len(),
            v@.len() == size,
            forall|k: int| 0 <= k < i ==> v@[p + k] == #[trigger] c@[k],
        decreases c@.len() - i,
    {
        if v[p + i] != c[i] {
            assert(v@.subrange(p as int, p + w@.len())[i as int] != w@[i as int]);
            return false;
        }
        i += 1;
    }
    assert(v@.subrange(p as int, p + w@.len()) =~= w@);
    true
}

fn parse_number(v: &Vec<char>, p: usize, reals: &Reals) -> (r: Result<(Json, usize), ParseFailure>)
    requires
        countable(v@),
        p < v@.len(),
        v@[p as int] == '-' || text::is_digit(v@[p as int]),
    ensures
        read_as(r, number_of(v@, p as int, reals@), p as int, v@.len() as int),
{
    let size = v.len();
    let start: usize = if v[p] == '-' {
        p + 1
    } else {
        p
    };
    let a = skip_digits(v, start);
    let c: usize = if a < size && v[a] == '.' {
        skip_digits(v, a + 1)
    } else {
        a
    };
    let q: usize = if c < size && (v[c] == 'e' || v[c] == 'E') {
        let f: usize = if c + 1 < size && (v[c + 1] == '+' || v[c + 1] == '-') {
            c + 2
        } else {
            c + 1
        };
        skip_digits(v, f)
    } else {
        c
    };
    assert(q == number_end(v@, p as int));
    let t = text::slice_chars(v, p, q);
    if !numeric::reads_as_real(&t) {
        return Err(ParseFailure::Json(error_at("invalid number", v, q)));
    }
    let s = text::string_of(&t);
    match reals.text(s.as_str()) {
        Some(b) => Ok((Json::Number(b), q)),
        None => Err(ParseFailure::Pending(RealNeed::Text(s))),
    }
}

/// A value that holds no others.
fn parse_plain(v: &Vec<char>, p: usize, reals: &Reals) -> (r: Result<(Json, usize), ParseFailure>)
    requires
        countable(v@),
        p < v@.len(),
    ensures
        read_as(r, plain_of(v@, p as int, reals@), p as int, v@.len() as int),
{
    proof {
        reveal_strlit("true");
        reveal_strlit("false");
        reveal_strlit("null");
        assert("true"@ =~= seq!['t', 'r', 'u', 'e']);
        assert("false"@ =~= seq!['f', 'a', 'l', 's', 'e']);
        assert("null"@ =~= seq!['n', 'u', 'l', 'l']);
    }
    let size = v.len();
    let c = v[p];
    if c == '"' {
        match parse_rest(v, p + 1) {
            Err(e) => Err(ParseFailure::Json(e)),
            Ok((t, q)) => Ok((Json::String(t), q)),
        }
    } else if c == 't' || c == 'f' {
        if looks_like(v, p, "true") {
            Ok((Json::Bool(true), p + 4))
        } else if looks_like(v, p, "false") {
            Ok((Json::Bool(false), p + 5))
        } else {
            Err(ParseFailure::Json(error_at("invalid literal", v, p)))
        }
    } else if c == 'n' {
        if looks_like(v, p, "null") {
            Ok((Json::Null, p + 4))
        } else {
            Err(ParseFailure::Json(error_at("invalid literal", v, p)))
        }
    } else if c == '-' || text::digit(c) {
        parse_number(v, p, reals)
    } else {
        Err(ParseFailure::Json(error_at("expected a JSON value", v, p)))
    }
}

fn parse_key(v: &Vec<char>, from: usize) -> (r: Result<(String, usize), JsonError>)
    requires
        countable(v@),
        from <= v@.len(),
    ensures
        match r {
            Ok((key, k)) => key_of(v@, from as int) == Ok::<(Seq<char>, int), Fault>((key@, k as int)) && from < k
                <= v@.len(),
            Err(e) => key_of(v@, from as int) == Err::<(Seq<char>, int), Fault>(e@),
        },
{
    let p = skip_ws(v, from);
    if p >= v.len() || v[p] != '"' {
        return Err(error_at("expected string", v, p));
    }
    let (key, q) = match parse_rest(v, p + 1) {
        Err(e) => return Err(e),
        Ok(x) => x,
    };
    let c = skip_ws(v, q);
    if c >= v.len() || v[c] != ':' {
        return Err(error_at("expected ':' after object key", v, c));
    }
    Ok((key, c + 1))
}

proof fn lemma_with_member(m: Seq<(Seq<char>, Tree)>, i: int, key: Seq<char>, v: Tree)
    requires
        0 <= i <= m.len(),
        forall|k: int| 0 <= k < i ==> (#[trigger] m[k]).0 != key && !catalog::sooner(key, m[k].0),
        i == m.len() || m[i].0 == key || catalog::sooner(key, m[i].0),
    ensures
        with_member(m, key, v) == if i < m.len() && m[i].0 == key {
            m.update(i, (key, v))
        } else {
            m.insert(i, (key, v))
        },
    decreases i,
{
    let r = if i < m.len() && m[i].0 == key {
        m.update(i, (key, v))
    } else {
        m.insert(i, (key, v))
    };
    if i == 0 {
        assert(with_member(m, key, v) =~= r);
    } else {
        let t = m.skip(1);
        assert(m[0].0 != key && !catalog::sooner(key, m[0].0));
        assert forall|k: int| 0 <= k < i - 1 implies (#[trigger] t[k]).0 != key && !catalog::sooner(key, t[k].0) by {
            assert(t[k] == m[k + 1]);
        }
        if i < m.len() {
            assert(t[i - 1] == m[i]);
        }
        lemma_with_member(t, i - 1, key, v);
        assert(seq![m[0]] + with_member(t, key, v) =~= r);
    }
}

fn put_member(m: &mut Vec<(String, Json)>, key: String, x: Json)
    ensures
        members(final(m)@) == with_member(members(old(m)@), key@, tree(x)),
{
    let ghost was = members(m@);
    proof {
        lemma_members(m@);
        vstd::utf8::encode_utf8_decode_utf8(key@);
    }
    let mut i: usize = 0;
    while i < m.len()
        invariant_except_break
            forall|k: int| 0 <= k < i ==> (#[trigger] was[k]).0 != key@ && !catalog::sooner(key@, was[k].0),
        invariant
            i <= m@.len(),
            m@ == old(m)@,
            was == members(m@),
            was.len() == m@.len(),
            forall|k: int| 0 <= k < m@.len() ==> #[trigger] was[k] == (m@[k].0@, tree(m@[k].1)),
        ensures
            i <= m@.len(),
            forall|k: int| 0 <= k < i ==> (#[trigger] was[k]).0 != key@ && !catalog::sooner(key@, was[k].0),
            i == m@.len() || was[i as int].0 == key@ || catalog::sooner(key@, was[i as int].0),
        decreases m@.len() - i,
    {
        let other = &m[i].0;
        assert(was[i as int].0 == other@);
        if text::same_text(key.as_str(), other.as_str()) || lex::is_less(
            key.as_str().as_bytes(),
            other.as_str().as_bytes(),
        ) {
            break;
        }
        i += 1;
    }
    let ghost k = key@;
    let ghost t = tree(x);
    proof {
        lemma_with_member(was, i as int, k, t);
    }
    if i < m.len() && text::same_text(key.as_str(), m[i].0.as_str()) {
        m.set(i, (key, x));
    } else {
        m.insert(i, (key, x));
    }
    proof {
        lemma_members(m@);
        assert(members(m@) =~= with_member(was, k, t));
    }
}

#[verifier::rlimit(60)]
fn parse_items(v: &Vec<char>, from: usize, depth: usize, reals: &Reals) -> (r: Result<(Json, usize), ParseFailure>)
    requires
        countable(v@),
        from <= v@.len(),
        depth <= MAX_DEPTH,
    ensures
        read_as(r, items_of(v@, from as int, depth as nat, Seq::empty(), reals@), from as int, v@.len() as int),
    decreases v@.len() - from, 1int,
{
    let mut out: Vec<Json> = Vec::new();
    let mut p: usize = from;
    assert(trees(out@) =~= Seq::empty());
    loop
        invariant
            countable(v@),
            from <= p <= v@.len(),
            depth <= MAX_DEPTH,
            items_of(v@, from as int, depth as nat, Seq::empty(), reals@) == items_of(
                v@,
                p as int,
                depth as nat,
                trees(out@),
                reals@,
            ),
        decreases v@.len() - p,
    {
        let (x, q) = match parse_value(v, p, depth, reals) {
            Err(e) => return Err(e),
            Ok(y) => y,
        };
        let ghost was = out@;
        let ghost t = tree(x);
        out.push(x);
        assert(out@.drop_last() =~= was);
        assert(trees(out@) == trees(was).push(t));
        let n = skip_ws(v, q);
        if n >= v.len() {
            return Err(ParseFailure::Json(error_at("expected ',' or ']' in array", v, n)));
        }
        if v[n] == ',' {
            p = n + 1;
        } else if v[n] == ']' {
            return Ok((Json::Array(out), n + 1));
        } else {
            return Err(ParseFailure::Json(error_past("expected ',' or ']' in array", v, n)));
        }
    }
}

#[verifier::rlimit(60)]
fn parse_members(v: &Vec<char>, from: usize, depth: usize, reals: &Reals) -> (r: Result<(Json, usize), ParseFailure>)
    requires
        countable(v@),
        from <= v@.len(),
        depth <= MAX_DEPTH,
    ensures
        read_as(r, members_of(v@, from as int, depth as nat, Seq::empty(), reals@), from as int, v@.len() as int),
    decreases v@.len() - from, 1int,
{
    let mut out: Vec<(String, Json)> = Vec::new();
    let mut p: usize = from;
    assert(members(out@) =~= Seq::empty());
    loop
        invariant
            countable(v@),
            from <= p <= v@.len(),
            depth <= MAX_DEPTH,
            members_of(v@, from as int, depth as nat, Seq::empty(), reals@) == members_of(
                v@,
                p as int,
                depth as nat,
                members(out@),
                reals@,
            ),
        decreases v@.len() - p,
    {
        let (key, k) = match parse_key(v, p) {
            Err(e) => return Err(ParseFailure::Json(e)),
            Ok(y) => y,
        };
        let (x, q) = match parse_value(v, k, depth, reals) {
            Err(e) => return Err(e),
            Ok(y) => y,
        };
        put_member(&mut out, key, x);
        let n = skip_ws(v, q);
        if n >= v.len() {
            return Err(ParseFailure::Json(error_at("expected ',' or '}' in object", v, n)));
        }
        if v[n] == ',' {
            p = n + 1;
        } else if v[n] == '}' {
            return Ok((Json::Object(out), n + 1));
        } else {
            return Err(ParseFailure::Json(error_past("expected ',' or '}' in object", v, n)));
        }
    }
}

fn parse_value(v: &Vec<char>, from: usize, depth: usize, reals: &Reals) -> (r: Result<(Json, usize), ParseFailure>)
    requires
        countable(v@),
        from <= v@.len(),
        depth <= MAX_DEPTH,
    ensures
        read_as(r, value_of(v@, from as int, depth as nat, reals@), from as int, v@.len() as int),
    decreases v@.len() - from, 0int,
{
    let p = skip_ws(v, from);
    if p >= v.len() {
        return Err(ParseFailure::Json(error_at("expected a JSON value", v, p)));
    }
    let c = v[p];
    if c == '{' || c == '[' {
        if depth >= MAX_DEPTH {
            return Err(ParseFailure::Json(error_at("maximum nesting depth exceeded", v, p)));
        }
        let q = skip_ws(v, p + 1);
        if c == '{' {
            if q < v.len() && v[q] == '}' {
                let j = Json::Object(Vec::new());
                assert(tree(j) == Tree::Object(Seq::empty()));
                Ok((j, q + 1))
            } else {
                parse_members(v, q, depth + 1, reals)
            }
        } else if q < v.len() && v[q] == ']' {
            let j = Json::Array(Vec::new());
            assert(tree(j) == Tree::Array(Seq::empty()));
            Ok((j, q + 1))
        } else {
            parse_items(v, q, depth + 1, reals)
        }
    } else {
        parse_plain(v, p, reals)
    }
}

// Access

/// The value under a key of an object.
pub open spec fn member(m: Seq<(Seq<char>, Tree)>, key: Seq<char>) -> Option<Tree>
    decreases m.len(),
{
    if m.len() == 0 {
        None
    } else if m[0].0 == key {
        Some(m[0].1)
    } else {
        member(m.skip(1), key)
    }
}

pub open spec fn under(t: Tree, key: Seq<char>) -> Option<Tree> {
    match t {
        Tree::Object(m) => member(m, key),
        _ => None,
    }
}

/// The item at a place of an array.
pub open spec fn item(t: Tree, i: nat) -> Option<Tree> {
    match t {
        Tree::Array(a) => if i < a.len() {
            Some(a[i as int])
        } else {
            None
        },
        _ => None,
    }
}

/// A path without the slashes it starts with.
pub open spec fn bare(s: Seq<char>) -> Seq<char>
    decreases s.len(),
{
    if s.len() > 0 && s[0] == '/' {
        bare(s.skip(1))
    } else {
        s
    }
}

/// Where the first token of a path ends.
pub open spec fn token_end(s: Seq<char>) -> int
    decreases s.len(),
{
    if s.len() == 0 || s[0] == '/' {
        0
    } else {
        1 + token_end(s.skip(1))
    }
}

pub proof fn lemma_token_end(s: Seq<char>)
    ensures
        0 <= token_end(s) <= s.len(),
    decreases s.len(),
{
    if s.len() > 0 && s[0] != '/' {
        lemma_token_end(s.skip(1));
    }
}

/// A text with a tilde and a letter turned into one character wherever they stand.
pub open spec fn turned(s: Seq<char>, letter: char, c: char) -> Seq<char>
    decreases s.len(),
{
    if s.len() == 0 {
        Seq::empty()
    } else if s.len() > 1 && s[0] == '~' && s[1] == letter {
        seq![c] + turned(s.skip(2), letter, c)
    } else {
        seq![s[0]] + turned(s.skip(1), letter, c)
    }
}

/// A token of a path as it is looked up.
pub open spec fn plain_token(s: Seq<char>) -> Seq<char> {
    turned(turned(s, '1', '/'), '0', '~')
}

pub open spec fn all_digits(s: Seq<char>) -> bool {
    s.len() > 0 && forall|i: int| 0 <= i < s.len() ==> text::is_digit(#[trigger] s[i])
}

/// The place that a token names.
pub open spec fn index_of(s: Seq<char>) -> Option<nat> {
    let d = if s.len() > 0 && s[0] == '+' {
        s.skip(1)
    } else {
        s
    };
    if all_digits(d) && text::number(d) <= usize::MAX {
        Some(text::number(d))
    } else {
        None
    }
}

/// The value that one token leads to.
pub open spec fn stepped(t: Tree, token: Seq<char>) -> Option<Tree> {
    match t {
        Tree::Object(m) => member(m, token),
        Tree::Array(a) => match index_of(token) {
            Some(i) => item(t, i),
            None => None,
        },
        _ => None,
    }
}

/// The value that the tokens of a path lead to.
pub open spec fn walked(t: Tree, path: Seq<char>) -> Option<Tree>
    decreases path.len(),
{
    proof {
        lemma_token_end(path);
    }
    let n = token_end(path);
    match stepped(t, plain_token(path.take(n))) {
        None => None,
        Some(u) => if n < path.len() {
            walked(u, path.skip(n + 1))
        } else {
            Some(u)
        },
    }
}

/// The value that a pointer leads to.
pub open spec fn pointed(t: Tree, pointer: Seq<char>) -> Option<Tree> {
    if pointer.len() == 0 {
        Some(t)
    } else {
        walked(t, bare(pointer))
    }
}

fn find<'a>(m: &'a Vec<(String, Json)>, key: &str) -> (r: Option<&'a Json>)
    ensures
        match r {
            Some(j) => member(members(m@), key@) == Some(tree(*j)),
            None => member(members(m@), key@) is None,
        },
{
    let ghost ts = members(m@);
    proof {
        lemma_members(m@);
    }
    let mut i: usize = 0;
    assert(ts.skip(0) =~= ts);
    while i < m.len()
        invariant
            i <= m@.len(),
            ts == members(m@),
            ts.len() == m@.len(),
            forall|k: int| 0 <= k < m@.len() ==> #[trigger] ts[k] == (m@[k].0@, tree(m@[k].1)),
            member(ts, key@) == member(ts.skip(i as int), key@),
        decreases m@.len() - i,
    {
        assert(ts.skip(i as int)[0] == ts[i as int]);
        assert(ts.skip(i as int).skip(1) =~= ts.skip(i + 1));
        if text::same_text(m[i].0.as_str(), key) {
            return Some(&m[i].1);
        }
        i += 1;
    }
    None
}

fn replaced(v: &Vec<char>, letter: char, c: char) -> (r: Vec<char>)
    ensures
        r@ == turned(v@, letter, c),
{
    let size = v.len();
    let mut r: Vec<char> = Vec::new();
    let mut i: usize = 0;
    assert(v@.skip(0) =~= v@);
    assert(r@ + turned(v@, letter, c) =~= turned(v@, letter, c));
    while i < size
        invariant
            i <= v@.len(),
            size == v@.len(),
            r@ + turned(v@.skip(i as int), letter, c) == turned(v@, letter, c),
        decreases size - i,
    {
        let ghost s = v@.skip(i as int);
        let ghost was = r@;
        assert(s[0] == v@[i as int]);
        if i + 1 < size && v[i] == '~' && v[i + 1] == letter {
            assert(s[1] == v@[i + 1]);
            assert(s.skip(2) =~= v@.skip(i + 2));
            r.push(c);
            assert(was + (seq![c] + turned(v@.skip(i + 2), letter, c)) =~= r@ + turned(v@.skip(i + 2), letter, c));
            i += 2;
        } else {
            assert(s.skip(1) =~= v@.skip(i + 1));
            r.push(v[i]);
            assert(was + (seq![s[0]] + turned(v@.skip(i + 1), letter, c)) =~= r@ + turned(v@.skip(i + 1), letter, c));
            i += 1;
        }
    }
    assert(r@ + turned(v@.skip(i as int), letter, c) =~= r@);
    r
}

fn read_index(v: &Vec<char>) -> (r: Option<usize>)
    ensures
        match r {
            Some(i) => index_of(v@) == Some(i as nat),
            None => index_of(v@) is None,
        },
{
    let from: usize = if v.len() > 0 && v[0] == '+' {
        1
    } else {
        0
    };
    let d = text::slice_chars(v, from, v.len());
    assert(d@ =~= if v@.len() > 0 && v@[0] == '+' {
        v@.skip(1)
    } else {
        v@
    });
    if d.len() == 0 {
        return None;
    }
    let mut i: usize = 0;
    while i < d.len()
        invariant
            i <= d@.len(),
            forall|k: int| 0 <= k < i ==> text::is_digit(#[trigger] d@[k]),
            d@ == (if v@.len() > 0 && v@[0] == '+' {
                v@.skip(1)
            } else {
                v@
            }),
        decreases d@.len() - i,
    {
        if !text::digit(d[i]) {
            return None;
        }
        i += 1;
    }
    match text::read_number(&d) {
        Some(n) => if n <= usize::MAX as u128 {
            Some(n as usize)
        } else {
            None
        },
        None => None,
    }
}

// Writing

/// The lower-case hex digit of a number below sixteen.
pub open spec fn hex_char(v: nat) -> char {
    if v < 10 {
        (48 + v) as char
    } else {
        (87 + v) as char
    }
}

/// The written form of a character within a string.
pub open spec fn escaped_char(c: char) -> Seq<char> {
    if c == '"' {
        seq!['\\', '"']
    } else if c == '\\' {
        seq!['\\', '\\']
    } else if c == '\n' {
        seq!['\\', 'n']
    } else if c == '\r' {
        seq!['\\', 'r']
    } else if c == '\t' {
        seq!['\\', 't']
    } else if c == '\u{8}' {
        seq!['\\', 'b']
    } else if c == '\u{C}' {
        seq!['\\', 'f']
    } else if (c as u32) < 0x20 {
        seq!['\\', 'u', '0', '0', hex_char(c as nat / 16), hex_char(c as nat % 16)]
    } else {
        seq![c]
    }
}

/// The written form of characters within a string.
pub open spec fn escaped(s: Seq<char>) -> Seq<char>
    decreases s.len(),
{
    if s.len() == 0 {
        Seq::empty()
    } else {
        escaped(s.drop_last()) + escaped_char(s.last())
    }
}

/// The written form of a string.
pub open spec fn quoted(s: Seq<char>) -> Seq<char> {
    seq!['"'] + escaped(s) + seq!['"']
}

/// Whether bits are those of a finite real.
pub open spec fn is_finite(b: u64) -> bool {
    b % 0x8000_0000_0000_0000 < 0x7FF0_0000_0000_0000
}

/// The written form of a number: its text, but that a zero has no sign and what is
/// not finite is null.
pub open spec fn number_text(b: u64, texts: numeric::RealTextFacts) -> Seq<char> {
    if !is_finite(b) {
        "null"@
    } else if numeric::real_zero(b) {
        "0"@
    } else {
        numeric::real_text(texts, b)
    }
}

/// The compact form of a value.
pub open spec fn compact(t: Tree, texts: numeric::RealTextFacts) -> Seq<char>
    decreases t, 0nat,
{
    match t {
        Tree::Null => "null"@,
        Tree::Bool(b) => if b {
            "true"@
        } else {
            "false"@
        },
        Tree::Number(n) => number_text(n, texts),
        Tree::Text(s) => quoted(s),
        Tree::Array(a) => "["@ + compact_items(a, texts) + "]"@,
        Tree::Object(m) => "{"@ + compact_members(m, texts) + "}"@,
    }
}

/// The compact form of items, with commas between them.
pub open spec fn compact_items(a: Seq<Tree>, texts: numeric::RealTextFacts) -> Seq<char>
    decreases a, 1nat,
{
    if a.len() == 0 {
        Seq::empty()
    } else {
        compact(a[0], texts) + compact_rest(a.skip(1), texts)
    }
}

/// The compact form of further items, with a comma before each.
pub open spec fn compact_rest(a: Seq<Tree>, texts: numeric::RealTextFacts) -> Seq<char>
    decreases a, 1nat,
{
    if a.len() == 0 {
        Seq::empty()
    } else {
        ","@ + compact(a[0], texts) + compact_rest(a.skip(1), texts)
    }
}

/// The compact form of members, with commas between them.
pub open spec fn compact_members(m: Seq<(Seq<char>, Tree)>, texts: numeric::RealTextFacts) -> Seq<char>
    decreases m, 1nat,
{
    if m.len() == 0 {
        Seq::empty()
    } else {
        quoted(m[0].0) + ":"@ + compact(m[0].1, texts) + members_rest(m.skip(1), texts)
    }
}

/// The compact form of further members, with a comma before each.
pub open spec fn members_rest(m: Seq<(Seq<char>, Tree)>, texts: numeric::RealTextFacts) -> Seq<char>
    decreases m, 1nat,
{
    if m.len() == 0 {
        Seq::empty()
    } else {
        ","@ + quoted(m[0].0) + ":"@ + compact(m[0].1, texts) + members_rest(m.skip(1), texts)
    }
}

/// The form of a value over several lines, whose later lines start with `pad`.
pub open spec fn pretty(t: Tree, pad: Seq<char>, texts: numeric::RealTextFacts) -> Seq<char>
    decreases t, 0nat,
{
    match t {
        Tree::Array(a) => if a.len() == 0 {
            compact(t, texts)
        } else {
            "[\n"@ + pretty_items(a, pad + "  "@, texts) + pad + "]"@
        },
        Tree::Object(m) => if m.len() == 0 {
            compact(t, texts)
        } else {
            "{\n"@ + pretty_members(m, pad + "  "@, texts) + pad + "}"@
        },
        _ => compact(t, texts),
    }
}

/// What ends the line of an item or a member: all but the last have a comma.
pub open spec fn line_end(last: bool) -> Seq<char> {
    if last {
        "\n"@
    } else {
        ",\n"@
    }
}

/// Items on lines of their own.
pub open spec fn pretty_items(a: Seq<Tree>, pad: Seq<char>, texts: numeric::RealTextFacts) -> Seq<char>
    decreases a, 1nat,
{
    if a.len() == 0 {
        Seq::empty()
    } else {
        pad + pretty(a[0], pad, texts) + line_end(a.len() == 1) + pretty_items(a.skip(1), pad, texts)
    }
}

/// Members on lines of their own.
pub open spec fn pretty_members(m: Seq<(Seq<char>, Tree)>, pad: Seq<char>, texts: numeric::RealTextFacts) -> Seq<char>
    decreases m, 1nat,
{
    if m.len() == 0 {
        Seq::empty()
    } else {
        pad + (quoted(m[0].0) + ": "@) + pretty(m[0].1, pad, texts) + line_end(m.len() == 1) + pretty_members(
            m.skip(1),
            pad,
            texts,
        )
    }
}

fn put_hex(s: &mut String, v: u32)
    requires
        v < 16,
    ensures
        final(s)@ == old(s)@.push(hex_char(v as nat)),
{
    let d: u8 = v as u8;
    let c: u8 = if d < 10 {
        48 + d
    } else {
        87 + d
    };
    s.push(c as char);
}

fn write_char(out: &mut String, c: char)
    ensures
        final(out)@ == old(out)@ + escaped_char(c),
{
    let ghost was = out@;
    if c == '"' || c == '\\' {
        out.push('\\');
        out.push(c);
    } else if c == '\n' {
        out.push('\\');
        out.push('n');
    } else if c == '\r' {
        out.push('\\');
        out.push('r');
    } else if c == '\t' {
        out.push('\\');
        out.push('t');
    } else if c == '\u{8}' {
        out.push('\\');
        out.push('b');
    } else if c == '\u{C}' {
        out.push('\\');
        out.push('f');
    } else if (c as u32) < 0x20 {
        let u = c as u32;
        out.push('\\');
        out.push('u');
        out.push('0');
        out.push('0');
        put_hex(out, u / 16);
        put_hex(out, u % 16);
    } else {
        out.push(c);
    }
    assert(out@ =~= was + escaped_char(c));
}

fn write_json_string(out: &mut String, s: &str)
    ensures
        final(out)@ == old(out)@ + quoted(s@),
{
    let ghost was = out@;
    out.push('"');
    let v = text::chars_of(s);
    let mut i: usize = 0;
    assert(out@ =~= was + (seq!['"'] + escaped(v@.take(0))));
    while i < v.len()
        invariant
            i <= v@.len(),
            out@ == was + (seq!['"'] + escaped(v@.take(i as int))),
        decreases v@.len() - i,
    {
        assert(v@.take(i + 1).drop_last() =~= v@.take(i as int));
        write_char(out, v[i]);
        assert(out@ =~= was + (seq!['"'] + escaped(v@.take(i + 1))));
        i += 1;
    }
    assert(v@.take(i as int) =~= v@);
    out.push('"');
    assert(out@ =~= was + quoted(s@));
}

fn format_number(b: u64, texts: &RealTexts) -> (r: String)
    ensures
        r@ == number_text(b, texts@),
{
    if b % 0x8000_0000_0000_0000 >= 0x7FF0_0000_0000_0000 {
        String::from_str("null")
    } else if numeric::is_real_zero(b) {
        String::from_str("0")
    } else {
        texts.text(b)
    }
}

impl Json {
    /// Parse a JSON document from a string, whose bytes the machine can count.
    pub fn parse(input: &str, reals: &Reals) -> (r: Result<Json, ParseFailure>)
        requires
            vstd::utf8::encode_utf8(input@).len() < usize::MAX,
        ensures
            match r {
                Ok(j) => document(input@, reals@) == Ok::<Tree, Failure>(tree(j)),
                Err(e) => document(input@, reals@) == Err::<Tree, Failure>(e@),
            },
    {
        let v = text::chars_of(input);
        proof {
            lemma_bytes(v@);
        }
        let start = skip_ws(&v, 0);
        match parse_value(&v, start, 0, reals) {
            Err(e) => Err(e),
            Ok((j, q)) => {
                let p = skip_ws(&v, q);
                if p < v.len() {
                    Err(ParseFailure::Json(error_at("trailing characters after value", &v, p)))
                } else {
                    Ok(j)
                }
            },
        }
    }

    /// `true` if this is `null`.
    pub fn is_null(&self) -> (r: bool)
        ensures
            r == (tree(*self) is Null),
    {
        matches!(self, Json::Null)
    }

    /// Borrow as a bool.
    pub fn as_bool(&self) -> (r: Option<bool>)
        ensures
            r == (match tree(*self) {
                Tree::Bool(b) => Some(b),
                _ => None,
            }),
    {
        match self {
            Json::Bool(b) => Some(*b),
            _ => None,
        }
    }

    /// Borrow as a number, by the bits of its real.
    pub fn as_number(&self) -> (r: Option<u64>)
        ensures
            r == (match tree(*self) {
                Tree::Number(b) => Some(b),
                _ => None,
            }),
    {
        match self {
            Json::Number(b) => Some(*b),
            _ => None,
        }
    }

    /// Borrow as a string.
    pub fn as_str(&self) -> (r: Option<&str>)
        ensures
            match r {
                Some(s) => tree(*self) == Tree::Text(s@),
                None => !(tree(*self) is Text),
            },
    {
        match self {
            Json::String(s) => Some(s.as_str()),
            _ => None,
        }
    }

    /// Borrow as an array.
    pub fn as_array(&self) -> (r: Option<&[Json]>)
        ensures
            match r {
                Some(a) => tree(*self) == Tree::Array(trees(a@)),
                None => !(tree(*self) is Array),
            },
    {
        match self {
            Json::Array(a) => Some(a.as_slice()),
            _ => None,
        }
    }

    /// Look up a key in an object.
    pub fn get(&self, key: &str) -> (r: Option<&Json>)
        ensures
            match r {
                Some(j) => under(tree(*self), key@) == Some(tree(*j)),
                None => under(tree(*self), key@) is None,
            },
    {
        match self {
            Json::Object(m) => find(m, key),
            _ => None,
        }
    }

    /// Index into an array.
    pub fn at(&self, i: usize) -> (r: Option<&Json>)
        ensures
            match r {
                Some(j) => item(tree(*self), i as nat) == Some(tree(*j)),
                None => item(tree(*self), i as nat) is None,
            },
    {
        match self {
            Json::Array(a) => {
                proof {
                    lemma_trees(a@);
                }
                if i < a.len() {
                    Some(&a[i])
                } else {
                    None
                }
            },
            _ => None,
        }
    }

    /// Resolve a JSON-Pointer-like path (`/a/0/b`). An empty pointer returns
    /// `self`. Numeric tokens index arrays; other tokens key objects.
    pub fn pointer(&self, pointer: &str) -> (r: Option<&Json>)
        ensures
            match r {
                Some(j) => pointed(tree(*self), pointer@) == Some(tree(*j)),
                None => pointed(tree(*self), pointer@) is None,
            },
    {
        let v = text::chars_of(pointer);
        if v.len() == 0 {
            return Some(self);
        }
        let mut start: usize = 0;
        assert(v@.skip(0) =~= v@);
        while start < v.len() && v[start] == '/'
            invariant
                start <= v@.len(),
                bare(v@) == bare(v@.skip(start as int)),
            decreases v@.len() - start,
        {
            assert(v@.skip(start as int).skip(1) =~= v@.skip(start + 1));
            start += 1;
        }
        let ghost path = bare(v@);
        assert(path == v@.skip(start as int));
        let mut cur: &Json = self;
        let mut from: usize = start;
        loop
            invariant
                v@ == pointer@,
                v@.len() > 0,
                path == bare(v@),
                start <= from <= v@.len(),
                walked(tree(*self), path) == walked(tree(*cur), v@.skip(from as int)),
            decreases v@.len() - from,
        {
            let mut to: usize = from;
            while to < v.len() && v[to] != '/'
                invariant
                    from <= to <= v@.len(),
                    token_end(v@.skip(from as int)) == to - from + token_end(v@.skip(to as int)),
                decreases v@.len() - to,
            {
                assert(v@.skip(to as int).skip(1) =~= v@.skip(to + 1));
                to += 1;
            }
            let raw = text::slice_chars(&v, from, to);
            let ghost s = v@.skip(from as int);
            assert(token_end(s) == to - from);
            assert(s.take(to - from) =~= raw@);
            let one = replaced(&raw, '1', '/');
            let token = replaced(&one, '0', '~');
            let next = match cur {
                Json::Object(m) => {
                    let key = text::string_of(&token);
                    find(m, key.as_str())
                },
                Json::Array(a) => match read_index(&token) {
                    Some(i) => {
                        proof {
                            lemma_trees(a@);
                        }
                        if i < a.len() {
                            Some(&a[i])
                        } else {
                            None
                        }
                    },
                    None => None,
                },
                _ => None,
            };
            match next {
                None => return None,
                Some(j) => {
                    if to == v.len() {
                        return Some(j);
                    }
                    assert(s.skip(to - from + 1) =~= v@.skip(to + 1));
                    cur = j;
                    from = to + 1;
                },
            }
        }
    }

    /// Serialize compactly (no extra whitespace).
    pub fn to_string_compact(&self, texts: &RealTexts) -> (r: String)
        ensures
            r@ == compact(tree(*self), texts@),
    {
        let mut out = String::new();
        self.write_compact(&mut out, texts);
        assert(out@ =~= compact(tree(*self), texts@));
        out
    }

    /// Serialize with two-space indentation.
    pub fn to_string_pretty(&self, texts: &RealTexts) -> (r: String)
        ensures
            r@ == pretty(tree(*self), Seq::empty(), texts@),
    {
        let mut out = String::new();
        let pad = String::new();
        assert(pad@ =~= Seq::empty());
        self.write_pretty(&mut out, &pad, texts);
        assert(out@ =~= pretty(tree(*self), Seq::empty(), texts@));
        out
    }

    #[verifier::rlimit(60)]
    fn write_compact(&self, out: &mut String, texts: &RealTexts)
        ensures
            final(out)@ == old(out)@ + compact(tree(*self), texts@),
        decreases self,
    {
        let ghost was = out@;
        match self {
            Json::Null => out.append("null"),
            Json::Bool(b) => if *b {
                out.append("true");
            } else {
                out.append("false");
            },
            Json::Number(n) => {
                let t = format_number(*n, texts);
                out.append(t.as_str());
            },
            Json::String(s) => write_json_string(out, s.as_str()),
            Json::Array(a) => {
                out.append("[");
                let ghost ts = trees(a@);
                let ghost head = out@;
                proof {
                    lemma_trees(a@);
                }
                let mut i: usize = 0;
                assert(ts.skip(0) =~= ts);
                while i < a.len()
                    invariant
                        i <= a@.len(),
                        ts == trees(a@),
                        ts.len() == a@.len(),
                        forall|k: int| 0 <= k < a@.len() ==> #[trigger] ts[k] == tree(a@[k]),
                        decreases_to!(self => a@),
                        out@ + (if i == 0 {
                            compact_items(ts, texts@)
                        } else {
                            compact_rest(ts.skip(i as int), texts@)
                        }) == head + compact_items(ts, texts@),
                    decreases a@.len() - i,
                {
                    let ghost mid = out@;
                    let ghost u = ts.skip(i as int);
                    let ghost rest = compact_rest(ts.skip(i + 1), texts@);
                    assert(u[0] == ts[i as int]);
                    assert(u.skip(1) =~= ts.skip(i + 1));
                    if i > 0 {
                        out.append(",");
                        assert(compact_rest(u, texts@) == ","@ + compact(u[0], texts@) + rest);
                    }
                    a[i].write_compact(out, texts);
                    assert(out@ + rest =~= head + compact_items(ts, texts@)) by {
                        if i == 0 {
                            assert(u =~= ts);
                            assert(out@ + rest =~= mid + (compact(u[0], texts@) + rest));
                        } else {
                            assert(out@ + rest =~= mid + (","@ + compact(u[0], texts@) + rest));
                        }
                    }
                    i += 1;
                }
                assert(ts.skip(i as int).len() == 0);
                assert(out@ =~= head + compact_items(ts, texts@));
                out.append("]");
                assert(out@ =~= was + ("["@ + compact_items(ts, texts@) + "]"@));
            },
            Json::Object(m) => {
                out.append("{");
                let ghost ts = members(m@);
                let ghost head = out@;
                proof {
                    lemma_members(m@);
                }
                let mut i: usize = 0;
                assert(ts.skip(0) =~= ts);
                while i < m.len()
                    invariant
                        i <= m@.len(),
                        ts == members(m@),
                        ts.len() == m@.len(),
                        forall|k: int| 0 <= k < m@.len() ==> #[trigger] ts[k] == (m@[k].0@, tree(m@[k].1)),
                        decreases_to!(self => m@),
                        out@ + (if i == 0 {
                            compact_members(ts, texts@)
                        } else {
                            members_rest(ts.skip(i as int), texts@)
                        }) == head + compact_members(ts, texts@),
                    decreases m@.len() - i,
                {
                    let ghost mid = out@;
                    let ghost u = ts.skip(i as int);
                    let ghost rest = members_rest(ts.skip(i + 1), texts@);
                    let ghost k = quoted(u[0].0) + ":"@;
                    assert(u[0] == ts[i as int]);
                    assert(u.skip(1) =~= ts.skip(i + 1));
                    if i > 0 {
                        out.append(",");
                        assert(members_rest(u, texts@) == ","@ + quoted(u[0].0) + ":"@ + compact(u[0].1, texts@) + rest);
                    }
                    write_json_string(out, m[i].0.as_str());
                    out.append(":");
                    m[i].1.write_compact(out, texts);
                    assert(out@ + rest =~= head + compact_members(ts, texts@)) by {
                        if i == 0 {
                            assert(u =~= ts);
                            assert(out@ + rest =~= mid + (quoted(u[0].0) + ":"@ + compact(u[0].1, texts@) + rest));
                        } else {
                            assert(out@ + rest =~= mid + (","@ + quoted(u[0].0) + ":"@ + compact(u[0].1, texts@) + rest));
                        }
                    }
                    i += 1;
                }
                assert(ts.skip(i as int).len() == 0);
                assert(out@ =~= head + compact_members(ts, texts@));
                out.append("}");
                assert(out@ =~= was + ("{"@ + compact_members(ts, texts@) + "}"@));
            },
        }
    }

    #[verifier::rlimit(100)]
    fn write_pretty(&self, out: &mut String, pad: &String, texts: &RealTexts)
        ensures
            final(out)@ == old(out)@ + pretty(tree(*self), pad@, texts@),
        decreases self,
    {
        let ghost was = out@;
        let mut deeper = String::new();
        deeper.append(pad.as_str());
        deeper.append("  ");
        let ghost inner = pad@ + "  "@;
        assert(deeper@ =~= inner);
        match self {
            Json::Array(a) => {
                proof {
                    lemma_trees(a@);
                }
                if a.len() == 0 {
                    self.write_compact(out, texts);
                    return ;
                }
                out.append("[\n");
                let ghost ts = trees(a@);
                let ghost head = out@;
                let mut i: usize = 0;
                assert(ts.skip(0) =~= ts);
                while i < a.len()
                    invariant
                        i <= a@.len(),
                        deeper@ == inner,
                        ts == trees(a@),
                        ts.len() == a@.len(),
                        forall|k: int| 0 <= k < a@.len() ==> #[trigger] ts[k] == tree(a@[k]),
                        decreases_to!(self => a@),
                        out@ + pretty_items(ts.skip(i as int), inner, texts@) == head + pretty_items(ts, inner, texts@),
                    decreases a@.len() - i,
                {
                    let ghost mid = out@;
                    let ghost u = ts.skip(i as int);
                    let ghost rest = pretty_items(ts.skip(i + 1), inner, texts@);
                    assert(u[0] == ts[i as int]);
                    assert(u.skip(1) =~= ts.skip(i + 1));
                    out.append(deeper.as_str());
                    a[i].write_pretty(out, &deeper, texts);
                    if i + 1 < a.len() {
                        out.append(",\n");
                    } else {
                        out.append("\n");
                    }
                    assert(out@ + rest =~= mid + pretty_items(u, inner, texts@));
                    i += 1;
                }
                assert(out@ + pretty_items(ts.skip(i as int), inner, texts@) =~= out@);
                out.append(pad.as_str());
                out.append("]");
                assert(out@ =~= was + pretty(Tree::Array(ts), pad@, texts@));
            },
            Json::Object(m) => {
                proof {
                    lemma_members(m@);
                }
                if m.len() == 0 {
                    self.write_compact(out, texts);
                    return ;
                }
                out.append("{\n");
                let ghost ts = members(m@);
                let ghost head = out@;
                let mut i: usize = 0;
                assert(ts.skip(0) =~= ts);
                while i < m.len()
                    invariant
                        i <= m@.len(),
                        deeper@ == inner,
                        ts == members(m@),
                        ts.len() == m@.len(),
                        forall|k: int| 0 <= k < m@.len() ==> #[trigger] ts[k] == (m@[k].0@, tree(m@[k].1)),
                        decreases_to!(self => m@),
                        out@ + pretty_members(ts.skip(i as int), inner, texts@) == head + pretty_members(
                            ts,
                            inner,
                            texts@,
                        ),
                    decreases m@.len() - i,
                {
                    let ghost mid = out@;
                    let ghost u = ts.skip(i as int);
                    let ghost rest = pretty_members(ts.skip(i + 1), inner, texts@);
                    assert(u[0] == ts[i as int]);
                    assert(u.skip(1) =~= ts.skip(i + 1));
                    out.append(deeper.as_str());
                    write_json_string(out, m[i].0.as_str());
                    out.append(": ");
                    m[i].1.write_pretty(out, &deeper, texts);
                    if i + 1 < m.len() {
                        out.append(",\n");
                    } else {
                        out.append("\n");
                    }
                    assert(out@ + rest =~= mid + pretty_members(u, inner, texts@));
                    i += 1;
                }
                assert(out@ + pretty_members(ts.skip(i as int), inner, texts@) =~= out@);
                out.append(pad.as_str());
                out.append("}");
                assert(out@ =~= was + pretty(Tree::Object(ts), pad@, texts@));
            },
            _ => self.write_compact(out, texts),
        }
    }
}

// Laws

proof fn lemma_escaped_front(s: Seq<char>)
    requires
        s.len() > 0,
    ensures
        escaped(s) == escaped_char(s[0]) + escaped(s.drop_first()),
    decreases s.len(),
{
    if s.len() > 1 {
        lemma_escaped_front(s.drop_last());
        assert(s.drop_last().drop_first() =~= s.drop_first().drop_last());
        assert(escaped(s) =~= escaped_char(s[0]) + escaped(s.drop_first()));
    } else {
        assert(escaped(s.drop_last()) =~= Seq::empty());
        assert(escaped(s.drop_first()) =~= Seq::empty());
        assert(escaped(s) =~= escaped_char(s[0]) + escaped(s.drop_first()));
    }
}

proof fn lemma_char_read(s: Seq<char>, p: int, c: char, out: Seq<char>)
    requires
        0 <= p,
        p + escaped_char(c).len() <= s.len(),
        s.subrange(p, p + escaped_char(c).len()) == escaped_char(c),
    ensures
        string_of(s, p, out) == string_of(s, p + escaped_char(c).len(), out.push(c)),
{
    let e = escaped_char(c);
    assert forall|i: int| 0 <= i < e.len() implies s[p + i] == e[i] by {
        assert(s.subrange(p, p + e.len())[i] == e[i]);
    }
    assert(s[p + 0] == e[0]);
    if e.len() > 1 {
        assert(s[p + 1] == e[1]);
        if e.len() == 6 {
            assert(s[p + 2] == e[2] && s[p + 3] == e[3] && s[p + 4] == e[4] && s[p + 5] == e[5]);
            let v = c as nat;
            reveal_with_fuel(hex_of, 5);
            assert(hex_digit(hex_char(v / 16)) == Some(v / 16));
            assert(hex_digit(hex_char(v % 16)) == Some(v % 16));
            assert(hex_of(s, p + 2, 4, 0) == Ok::<nat, Fault>(v));
            assert(char_or_mark(v) == c);
            assert(coded(s, p + 2) == Ok::<(char, int), Fault>((c, p + 6)));
        }
    }
}

proof fn lemma_text_read(pre: Seq<char>, t: Seq<char>, post: Seq<char>, out: Seq<char>)
    ensures
        string_of(pre + escaped(t) + seq!['"'] + post, pre.len() as int, out) == Ok::<(Seq<char>, int), Fault>(
            (out + t, (pre.len() + escaped(t).len() + 1) as int),
        ),
    decreases t.len(),
{
    let s = pre + escaped(t) + seq!['"'] + post;
    let p = pre.len() as int;
    if t.len() == 0 {
        assert(s[p] == '"');
        assert(out + t =~= out);
    } else {
        lemma_escaped_front(t);
        let e = escaped_char(t[0]);
        let u = t.drop_first();
        let next = pre + e;
        assert(s =~= next + escaped(u) + seq!['"'] + post);
        assert(s.subrange(p, p + e.len()) =~= e);
        lemma_char_read(s, p, t[0], out);
        lemma_text_read(next, u, post, out.push(t[0]));
        assert(out.push(t[0]) + u =~= out + t);
    }
}

/// Reading a written string gives it back, and stops at its closing quote.
pub proof fn lemma_string_round_trip(t: Seq<char>, post: Seq<char>)
    ensures
        string_of(quoted(t) + post, 1, Seq::empty()) == Ok::<(Seq<char>, int), Fault>((t, quoted(t).len() as int)),
{
    lemma_text_read(seq!['"'], t, post, Seq::empty());
    assert(quoted(t) + post =~= seq!['"'] + escaped(t) + seq!['"'] + post);
    assert(Seq::<char>::empty() + t =~= t);
}

/// What may follow a value within a document.
pub open spec fn delimited(post: Seq<char>) -> bool {
    post.len() == 0 || post[0] == ',' || post[0] == ']' || post[0] == '}' || post[0] == '\n'
}

/// Whether a text is read as the number with these bits.
pub open spec fn number_reads(x: Seq<char>, b: u64, reals: numeric::RealFacts) -> bool {
    &&& x.len() > 0
    &&& x[0] == '-' || text::is_digit(x[0])
    &&& number_end(x, 0) == x.len()
    &&& numeric::is_real_text(x)
    &&& numeric::first(reals.texts, x) == Some(b)
}

/// Whether the keys of members ascend.
pub open spec fn ascending(m: Seq<(Seq<char>, Tree)>) -> bool {
    forall|i: int, j: int| 0 <= i < j < m.len() ==> catalog::sooner((#[trigger] m[i]).0, (#[trigger] m[j]).0)
}

/// Whether a value within `depth` others can be read back: it is not too deep, its
/// keys ascend, and the texts of its numbers are read as these numbers.
pub open spec fn readable(t: Tree, depth: nat, texts: numeric::RealTextFacts, reals: numeric::RealFacts) -> bool
    decreases t,
{
    match t {
        Tree::Number(b) => is_finite(b) && number_reads(number_text(b, texts), b, reals),
        Tree::Array(a) => depth < MAX_DEPTH && items_readable(a, depth + 1, texts, reals),
        Tree::Object(m) => depth < MAX_DEPTH && ascending(m) && members_readable(m, depth + 1, texts, reals),
        _ => true,
    }
}

pub open spec fn items_readable(
    a: Seq<Tree>,
    depth: nat,
    texts: numeric::RealTextFacts,
    reals: numeric::RealFacts,
) -> bool
    decreases a,
{
    a.len() == 0 || readable(a[0], depth, texts, reals) && items_readable(a.skip(1), depth, texts, reals)
}

pub open spec fn members_readable(
    m: Seq<(Seq<char>, Tree)>,
    depth: nat,
    texts: numeric::RealTextFacts,
    reals: numeric::RealFacts,
) -> bool
    decreases m,
{
    m.len() == 0 || readable(m[0].1, depth, texts, reals) && members_readable(m.skip(1), depth, texts, reals)
}

proof fn lemma_words()
    ensures
        "null"@ == seq!['n', 'u', 'l', 'l'],
        "true"@ == seq!['t', 'r', 'u', 'e'],
        "false"@ == seq!['f', 'a', 'l', 's', 'e'],
        "["@ == seq!['['],
        "]"@ == seq![']'],
        "{"@ == seq!['{'],
        "}"@ == seq!['}'],
        ","@ == seq![','],
        ":"@ == seq![':'],
{
    reveal_strlit("null");
    reveal_strlit("true");
    reveal_strlit("false");
    reveal_strlit("[");
    reveal_strlit("]");
    reveal_strlit("{");
    reveal_strlit("}");
    reveal_strlit(",");
    reveal_strlit(":");
    assert("null"@ =~= seq!['n', 'u', 'l', 'l']);
    assert("true"@ =~= seq!['t', 'r', 'u', 'e']);
    assert("false"@ =~= seq!['f', 'a', 'l', 's', 'e']);
    assert("["@ =~= seq!['[']);
    assert("]"@ =~= seq![']']);
    assert("{"@ =~= seq!['{']);
    assert("}"@ =~= seq!['}']);
    assert(","@ =~= seq![',']);
    assert(":"@ =~= seq![':']);
}

/// A written value starts with a character that is none of those between values.
proof fn lemma_first(t: Tree, depth: nat, texts: numeric::RealTextFacts, reals: numeric::RealFacts)
    requires
        readable(t, depth, texts, reals),
    ensures
        compact(t, texts).len() > 0,
        !is_blank(compact(t, texts)[0]),
        compact(t, texts)[0] != ']',
        compact(t, texts)[0] != '}',
{
    lemma_words();
    match t {
        Tree::Text(s) => {
            assert(quoted(s)[0] == '"');
        },
        Tree::Array(a) => {
            assert(compact(t, texts)[0] == '[');
        },
        Tree::Object(m) => {
            assert(compact(t, texts)[0] == '{');
        },
        _ => {},
    }
}

proof fn lemma_digits_shift(pre: Seq<char>, x: Seq<char>, post: Seq<char>, i: int)
    requires
        0 <= i <= x.len(),
        delimited(post),
    ensures
        digits_end(pre + x + post, pre.len() + i) == pre.len() + digits_end(x, i),
        i <= digits_end(x, i) <= x.len(),
    decreases x.len() - i,
{
    let s = pre + x + post;
    if i < x.len() {
        assert(s[pre.len() + i] == x[i]);
        if text::is_digit(x[i]) {
            lemma_digits_shift(pre, x, post, i + 1);
        }
    } else if post.len() > 0 {
        assert(s[pre.len() + i] == post[0]);
    }
}

proof fn lemma_char_shift(pre: Seq<char>, x: Seq<char>, post: Seq<char>, i: int, c: char)
    requires
        0 <= i <= x.len(),
        delimited(post),
        c != ',' && c != ']' && c != '}' && c != '\n',
    ensures
        char_at(pre + x + post, pre.len() + i, c) == char_at(x, i, c),
{
    let s = pre + x + post;
    if i < x.len() {
        assert(s[pre.len() + i] == x[i]);
    } else if post.len() > 0 {
        assert(s[pre.len() + i] == post[0]);
    }
}

proof fn lemma_number_shift(pre: Seq<char>, x: Seq<char>, post: Seq<char>)
    requires
        delimited(post),
    ensures
        number_end(pre + x + post, pre.len() as int) == pre.len() + number_end(x, 0),
{
    let n = pre.len() as int;
    lemma_char_shift(pre, x, post, 0, '-');
    let i: int = if char_at(x, 0, '-') {
        1
    } else {
        0
    };
    lemma_digits_shift(pre, x, post, i);
    let a = digits_end(x, i);
    lemma_char_shift(pre, x, post, a, '.');
    if char_at(x, a, '.') {
        lemma_digits_shift(pre, x, post, a + 1);
    }
    let c = fraction_end(x, 0);
    lemma_char_shift(pre, x, post, c, 'e');
    lemma_char_shift(pre, x, post, c, 'E');
    if char_at(x, c, 'e') || char_at(x, c, 'E') {
        lemma_char_shift(pre, x, post, c + 1, '+');
        lemma_char_shift(pre, x, post, c + 1, '-');
        if char_at(x, c + 1, '+') || char_at(x, c + 1, '-') {
            lemma_digits_shift(pre, x, post, c + 2);
        } else {
            lemma_digits_shift(pre, x, post, c + 1);
        }
    }
}

#[verifier::spinoff_prover]
#[verifier::rlimit(100)]
proof fn lemma_value_read(
    t: Tree,
    pre: Seq<char>,
    post: Seq<char>,
    depth: nat,
    texts: numeric::RealTextFacts,
    reals: numeric::RealFacts,
)
    requires
        readable(t, depth, texts, reals),
        delimited(post),
    ensures
        value_of(pre + compact(t, texts) + post, pre.len() as int, depth, reals) == Ok::<(Tree, int), Failure>(
            (t, (pre.len() + compact(t, texts).len()) as int),
        ),
    decreases t, 0nat,
{
    let c = compact(t, texts);
    let s = pre + c + post;
    let p = pre.len() as int;
    lemma_words();
    lemma_first(t, depth, texts, reals);
    assert(s[p] == c[0]);
    assert(skipped(s, p) == p);
    match t {
        Tree::Null => {
            assert(s.subrange(p, p + 4) =~= c);
        },
        Tree::Bool(b) => {
            if b {
                assert(s.subrange(p, p + 4) =~= c);
            } else {
                assert(s[p + 0] == 'f');
                if word_at(s, p, seq!['t', 'r', 'u', 'e']) {
                    assert(s.subrange(p, p + 4)[0] == 't');
                }
                assert(s.subrange(p, p + 5) =~= c);
            }
        },
        Tree::Number(b) => {
            lemma_number_shift(pre, c, post);
            assert(s.subrange(p, p + c.len()) =~= c);
        },
        Tree::Text(x) => {
            let q = seq!['"'];
            lemma_text_read(pre + q, x, post, Seq::empty());
            assert(s =~= pre + q + escaped(x) + seq!['"'] + post);
            assert(Seq::<char>::empty() + x =~= x);
            assert(s[p] == '"');
        },
        Tree::Array(a) => {
            assert(s[p] == '[');
            if a.len() == 0 {
                assert(a =~= Seq::empty());
                assert(s[p + 1] == ']');
                assert(skipped(s, p + 1) == p + 1);
            } else {
                lemma_first(a[0], depth + 1, texts, reals);
                assert(s[p + 1] == compact(a[0], texts)[0]);
                assert(skipped(s, p + 1) == p + 1);
                lemma_items_read(a, Seq::empty(), pre + "["@, post, depth + 1, texts, reals);
                assert(s =~= pre + "["@ + compact_items(a, texts) + "]"@ + post);
                assert(Seq::<Tree>::empty() + a =~= a);
            }
        },
        Tree::Object(m) => {
            assert(s[p] == '{');
            if m.len() == 0 {
                assert(m =~= Seq::empty());
                assert(s[p + 1] == '}');
                assert(skipped(s, p + 1) == p + 1);
            } else {
                assert(s[p + 1] == '"') by {
                    assert(compact_members(m, texts)[0] == quoted(m[0].0)[0]);
                }
                assert(skipped(s, p + 1) == p + 1);
                assert(Seq::<(Seq<char>, Tree)>::empty() + m =~= m);
                lemma_members_read(m, Seq::empty(), pre + "{"@, post, depth + 1, texts, reals);
                assert(s =~= pre + "{"@ + compact_members(m, texts) + "}"@ + post);
            }
        },
    }
}

/// One item of an array, up to the comma or bracket after it.
proof fn lemma_item_step(
    s: Seq<char>,
    p: int,
    depth: nat,
    done: Seq<Tree>,
    x: Tree,
    q: int,
    reals: numeric::RealFacts,
)
    requires
        value_of(s, p, depth, reals) == Ok::<(Tree, int), Failure>((x, q)),
        0 <= p < q < s.len(),
        s[q] == ',' || s[q] == ']',
    ensures
        items_of(s, p, depth, done, reals) == if s[q] == ',' {
            items_of(s, q + 1, depth, done.push(x), reals)
        } else {
            Ok((Tree::Array(done.push(x)), q + 1))
        },
{
    assert(skipped(s, q) == q);
}

/// One member of an object, up to the comma or brace after it.
proof fn lemma_member_step(
    s: Seq<char>,
    p: int,
    depth: nat,
    done: Seq<(Seq<char>, Tree)>,
    key: Seq<char>,
    k: int,
    x: Tree,
    q: int,
    reals: numeric::RealFacts,
)
    requires
        key_of(s, p) == Ok::<(Seq<char>, int), Fault>((key, k)),
        value_of(s, k, depth, reals) == Ok::<(Tree, int), Failure>((x, q)),
        0 <= p < q < s.len(),
        s[q] == ',' || s[q] == '}',
    ensures
        members_of(s, p, depth, done, reals) == if s[q] == ',' {
            members_of(s, q + 1, depth, with_member(done, key, x), reals)
        } else {
            Ok((Tree::Object(with_member(done, key, x)), q + 1))
        },
{
    assert(skipped(s, q) == q);
}

/// A text in its parts, however they are grouped.
proof fn lemma_grouped(a: Seq<char>, b: Seq<char>, c: Seq<char>, d: Seq<char>, e: Seq<char>, f: Seq<char>, g: Seq<char>)
    ensures
        a + (b + c + d + e) + f + g == a + (b + c) + d + (e + f + g),
        a + (b + c + d + e) + f + g == a + b + c + (d + (e + f + g)),
{
    assert(a + (b + c + d + e) + f + g =~= a + (b + c) + d + (e + f + g));
    assert(a + (b + c + d + e) + f + g =~= a + b + c + (d + (e + f + g)));
}

/// A text in two parts, the second of which is regrouped.
proof fn lemma_chained(a: Seq<char>, b: Seq<char>, c: Seq<char>, d: Seq<char>, e: Seq<char>, f: Seq<char>)
    ensures
        a + b + (c + d + e + f) == a + b + c + d + e + f,
{
    assert(a + b + (c + d + e + f) =~= a + b + c + d + e + f);
}

/// A text in three parts, with the last one split.
proof fn lemma_parts(a: Seq<char>, b: Seq<char>, c: Seq<char>, d: Seq<char>, e: Seq<char>)
    ensures
        a + (b + c) + d + e == a + b + (c + d + e),
{
    assert(a + (b + c) + d + e =~= a + b + (c + d + e));
}

proof fn lemma_rest_items(t: Seq<Tree>, texts: numeric::RealTextFacts)
    requires
        t.len() > 0,
    ensures
        compact_rest(t, texts) == ","@ + compact_items(t, texts),
{
    assert(compact_rest(t, texts) =~= ","@ + compact_items(t, texts));
}

proof fn lemma_rest_members(t: Seq<(Seq<char>, Tree)>, texts: numeric::RealTextFacts)
    requires
        t.len() > 0,
    ensures
        members_rest(t, texts) == ","@ + compact_members(t, texts),
{
    assert(members_rest(t, texts) =~= ","@ + compact_members(t, texts));
}

proof fn lemma_rest_first(t: Seq<Tree>, post: Seq<char>, texts: numeric::RealTextFacts)
    ensures
        (compact_rest(t, texts) + "]"@ + post).len() > 0,
        (compact_rest(t, texts) + "]"@ + post)[0] == if t.len() == 0 {
            ']'
        } else {
            ','
        },
{
    lemma_words();
}

proof fn lemma_members_first(t: Seq<(Seq<char>, Tree)>, post: Seq<char>, texts: numeric::RealTextFacts)
    ensures
        (members_rest(t, texts) + "}"@ + post).len() > 0,
        (members_rest(t, texts) + "}"@ + post)[0] == if t.len() == 0 {
            '}'
        } else {
            ','
        },
{
    lemma_words();
}

#[verifier::spinoff_prover]
#[verifier::rlimit(60)]
proof fn lemma_items_read(
    a: Seq<Tree>,
    done: Seq<Tree>,
    pre: Seq<char>,
    post: Seq<char>,
    depth: nat,
    texts: numeric::RealTextFacts,
    reals: numeric::RealFacts,
)
    requires
        a.len() > 0,
        items_readable(a, depth, texts, reals),
    ensures
        items_of(pre + compact_items(a, texts) + "]"@ + post, pre.len() as int, depth, done, reals) == Ok::<
            (Tree, int),
            Failure,
        >((Tree::Array(done + a), (pre.len() + compact_items(a, texts).len() + 1) as int)),
    decreases a, 1nat,
{
    let s = pre + compact_items(a, texts) + "]"@ + post;
    let c = compact(a[0], texts);
    let t = a.skip(1);
    let more = compact_rest(t, texts);
    let rest = more + "]"@ + post;
    let q = (pre.len() + c.len()) as int;
    lemma_parts(pre, c, more, "]"@, post);
    assert(s == pre + c + rest);
    lemma_first(a[0], depth, texts, reals);
    lemma_rest_first(t, post, texts);
    lemma_value_read(a[0], pre, rest, depth, texts, reals);
    assert(s[q] == rest[0]);
    lemma_item_step(s, pre.len() as int, depth, done, a[0], q, reals);
    assert("]"@.len() == 1 && ","@.len() == 1) by {
        lemma_words();
    }
    if t.len() == 0 {
        assert(done.push(a[0]) =~= done + a);
    } else {
        let next = pre + c + ","@;
        let tail = compact_items(t, texts);
        lemma_items_read(t, done.push(a[0]), next, post, depth, texts, reals);
        lemma_rest_items(t, texts);
        lemma_chained(pre, c, ","@, tail, "]"@, post);
        assert(s == next + tail + "]"@ + post);
        assert(done.push(a[0]) + t =~= done + a);
    }
}

proof fn lemma_key_read(pre: Seq<char>, key: Seq<char>, after: Seq<char>)
    ensures
        key_of(pre + quoted(key) + ":"@ + after, pre.len() as int) == Ok::<(Seq<char>, int), Fault>(
            (key, (pre.len() + quoted(key).len() + 1) as int),
        ),
{
    lemma_words();
    let s = pre + quoted(key) + ":"@ + after;
    let p = pre.len() as int;
    let quote = seq!['"'];
    assert(s =~= pre + quote + escaped(key) + seq!['"'] + (":"@ + after));
    lemma_text_read(pre + quote, key, ":"@ + after, Seq::empty());
    assert(Seq::<char>::empty() + key =~= key);
    assert(s[p] == '"');
    assert(skipped(s, p) == p);
    let k = (pre.len() + quoted(key).len()) as int;
    assert(s[k] == ':');
    assert(skipped(s, k) == k);
}

proof fn lemma_member_last(done: Seq<(Seq<char>, Tree)>, m: Seq<(Seq<char>, Tree)>)
    requires
        m.len() > 0,
        ascending(done + m),
    ensures
        with_member(done, m[0].0, m[0].1) == done.push(m[0]),
{
    let all = done + m;
    let key = m[0].0;
    assert forall|i: int| 0 <= i < done.len() implies (#[trigger] done[i]).0 != key && !catalog::sooner(
        key,
        done[i].0,
    ) by {
        assert(all[i] == done[i] && all[done.len() as int] == m[0]);
        let x = vstd::utf8::encode_utf8(done[i].0);
        let y = vstd::utf8::encode_utf8(key);
        lex::lemma_order(x, y, x);
    }
    lemma_with_member(done, done.len() as int, key, m[0].1);
    assert(done.insert(done.len() as int, (key, m[0].1)) =~= done.push(m[0]));
}

#[verifier::spinoff_prover]
#[verifier::rlimit(100)]
proof fn lemma_members_read(
    m: Seq<(Seq<char>, Tree)>,
    done: Seq<(Seq<char>, Tree)>,
    pre: Seq<char>,
    post: Seq<char>,
    depth: nat,
    texts: numeric::RealTextFacts,
    reals: numeric::RealFacts,
)
    requires
        m.len() > 0,
        ascending(done + m),
        members_readable(m, depth, texts, reals),
    ensures
        members_of(pre + compact_members(m, texts) + "}"@ + post, pre.len() as int, depth, done, reals) == Ok::<
            (Tree, int),
            Failure,
        >((Tree::Object(done + m), (pre.len() + compact_members(m, texts).len() + 1) as int)),
    decreases m, 1nat,
{
    let s = pre + compact_members(m, texts) + "}"@ + post;
    let key = m[0].0;
    let c = compact(m[0].1, texts);
    let t = m.skip(1);
    let more = members_rest(t, texts);
    let rest = more + "}"@ + post;
    let named = quoted(key) + ":"@;
    let front = pre + named;
    let q = (front.len() + c.len()) as int;
    assert("}"@.len() == 1 && ","@.len() == 1 && ":"@.len() == 1) by {
        lemma_words();
    }
    lemma_grouped(pre, quoted(key), ":"@, c, more, "}"@, post);
    assert(s == front + c + rest);
    assert(s == pre + quoted(key) + ":"@ + (c + rest));
    lemma_key_read(pre, key, c + rest);
    lemma_first(m[0].1, depth, texts, reals);
    lemma_members_first(t, post, texts);
    lemma_value_read(m[0].1, front, rest, depth, texts, reals);
    assert(s[q] == rest[0]);
    lemma_member_step(s, pre.len() as int, depth, done, key, front.len() as int, m[0].1, q, reals);
    lemma_member_last(done, m);
    let all = done.push(m[0]);
    if t.len() == 0 {
        assert(all =~= done + m);
    } else {
        let next = front + c + ","@;
        let tail = compact_members(t, texts);
        assert(all + t =~= done + m);
        lemma_members_read(t, all, next, post, depth, texts, reals);
        lemma_rest_members(t, texts);
        lemma_chained(front, c, ","@, tail, "}"@, post);
        assert(s == next + tail + "}"@ + post);
    }
}

/// Parsing the compact form of a value gives the value back.
pub proof fn lemma_compact_round_trip(t: Tree, texts: numeric::RealTextFacts, reals: numeric::RealFacts)
    requires
        readable(t, 0, texts, reals),
    ensures
        document(compact(t, texts), reals) == Ok::<Tree, Failure>(t),
{
    let s = compact(t, texts);
    let none = Seq::<char>::empty();
    lemma_first(t, 0, texts, reals);
    lemma_value_read(t, none, none, 0, texts, reals);
    assert(none + s + none =~= s);
    assert(skipped(s, 0) == 0);
}

/// Whether every character is white space.
pub open spec fn all_blank(s: Seq<char>) -> bool {
    forall|i: int| 0 <= i < s.len() ==> is_blank(#[trigger] s[i])
}

proof fn lemma_skip_run(s: Seq<char>, p: int, n: int)
    requires
        0 <= p <= n <= s.len(),
        forall|i: int| p <= i < n ==> is_blank(#[trigger] s[i]),
        n < s.len() ==> !is_blank(s[n]),
    ensures
        skipped(s, p) == n,
    decreases n - p,
{
    if p < n {
        assert(is_blank(s[p]));
        lemma_skip_run(s, p + 1, n);
    }
}

/// A value is the same wherever before it the white space starts.
proof fn lemma_value_skip(s: Seq<char>, f: int, p: int, depth: nat, reals: numeric::RealFacts)
    requires
        skipped(s, f) == p,
        skipped(s, p) == p,
    ensures
        value_of(s, f, depth, reals) == value_of(s, p, depth, reals),
{
}

proof fn lemma_lines()
    ensures
        "[\n"@ == seq!['[', '\n'],
        "{\n"@ == seq!['{', '\n'],
        "\n"@ == seq!['\n'],
        ",\n"@ == seq![',', '\n'],
        "  "@ == seq![' ', ' '],
        ": "@ == seq![':', ' '],
{
    reveal_strlit("[\n");
    reveal_strlit("{\n");
    reveal_strlit("\n");
    reveal_strlit(",\n");
    reveal_strlit("  ");
    reveal_strlit(": ");
    assert("[\n"@ =~= seq!['[', '\n']);
    assert("{\n"@ =~= seq!['{', '\n']);
    assert("\n"@ =~= seq!['\n']);
    assert(",\n"@ =~= seq![',', '\n']);
    assert("  "@ =~= seq![' ', ' ']);
    assert(": "@ =~= seq![':', ' ']);
}

proof fn lemma_pretty_first(
    t: Tree,
    pad: Seq<char>,
    depth: nat,
    texts: numeric::RealTextFacts,
    reals: numeric::RealFacts,
)
    requires
        readable(t, depth, texts, reals),
    ensures
        pretty(t, pad, texts).len() > 0,
        !is_blank(pretty(t, pad, texts)[0]),
        pretty(t, pad, texts)[0] != ']',
        pretty(t, pad, texts)[0] != '}',
{
    lemma_first(t, depth, texts, reals);
    lemma_lines();
    match t {
        Tree::Array(a) => {
            if a.len() > 0 {
                assert(pretty(t, pad, texts)[0] == '[');
            }
        },
        Tree::Object(m) => {
            if m.len() > 0 {
                assert(pretty(t, pad, texts)[0] == '{');
            }
        },
        _ => {},
    }
}

#[verifier::spinoff_prover]
#[verifier::rlimit(100)]
proof fn lemma_pretty_read(
    t: Tree,
    pad: Seq<char>,
    pre: Seq<char>,
    post: Seq<char>,
    depth: nat,
    texts: numeric::RealTextFacts,
    reals: numeric::RealFacts,
)
    requires
        readable(t, depth, texts, reals),
        delimited(post),
        all_blank(pad),
    ensures
        value_of(pre + pretty(t, pad, texts) + post, pre.len() as int, depth, reals) == Ok::<(Tree, int), Failure>(
            (t, (pre.len() + pretty(t, pad, texts).len()) as int),
        ),
    decreases t, 0nat,
{
    lemma_lines();
    let inner = pad + "  "@;
    assert(all_blank(inner));
    let p = pre.len() as int;
    let s = pre + pretty(t, pad, texts) + post;
    match t {
        Tree::Array(a) if a.len() > 0 => {
            let body = pretty_items(a, inner, texts);
            let tail = pad + "]"@ + post;
            let front = pre + "[\n"@;
            assert(s == front + body + tail) by {
                lemma_chunks(pre, "[\n"@, body, pad, "]"@, post);
            }
            lemma_pretty_first(a[0], inner, depth + 1, texts, reals);
            let f = front.len() + inner.len();
            assert(body[inner.len() as int] == pretty(a[0], inner, texts)[0]);
            assert(s[p] == '[' && s[p + 1] == '\n');
            assert forall|i: int| p + 1 <= i < f implies is_blank(#[trigger] s[i]) by {
                if i >= front.len() {
                    assert(s[i] == inner[i - front.len()]);
                }
            }
            assert(s[f as int] == body[inner.len() as int]);
            lemma_skip_run(s, p + 1, f as int);
            lemma_skip_run(s, f as int, f as int);
            assert(skipped(s, p) == p);
            assert("]"@.len() == 1) by {
                lemma_words();
            }
            assert(!char_at(s, f as int, ']'));
            lemma_lines_read(a, Seq::empty(), inner, pad, front, post, f as int, depth + 1, texts, reals);
            assert(Seq::<Tree>::empty() + a =~= a);
            assert(value_of(s, p, depth, reals) == items_of(s, f as int, depth + 1, Seq::empty(), reals));
        },
        Tree::Object(m) if m.len() > 0 => {
            let body = pretty_members(m, inner, texts);
            let tail = pad + "}"@ + post;
            let front = pre + "{\n"@;
            assert(s == front + body + tail) by {
                lemma_chunks(pre, "{\n"@, body, pad, "}"@, post);
            }
            let f = front.len() + inner.len();
            assert(quoted(m[0].0)[0] == '"');
            assert(body[inner.len() as int] == '"');
            assert(s[p] == '{' && s[p + 1] == '\n');
            assert forall|i: int| p + 1 <= i < f implies is_blank(#[trigger] s[i]) by {
                if i >= front.len() {
                    assert(s[i] == inner[i - front.len()]);
                }
            }
            assert(s[f as int] == body[inner.len() as int]);
            lemma_skip_run(s, p + 1, f as int);
            lemma_skip_run(s, f as int, f as int);
            assert(skipped(s, p) == p);
            assert(Seq::<(Seq<char>, Tree)>::empty() + m =~= m);
            assert("}"@.len() == 1) by {
                lemma_words();
            }
            lemma_fields_read(m, Seq::empty(), inner, pad, front, post, f as int, depth + 1, texts, reals);
            assert(value_of(s, p, depth, reals) == members_of(s, f as int, depth + 1, Seq::empty(), reals));
        },
        _ => {
            lemma_value_read(t, pre, post, depth, texts, reals);
        },
    }
}

proof fn lemma_chunks(a: Seq<char>, b: Seq<char>, c: Seq<char>, d: Seq<char>, e: Seq<char>, f: Seq<char>)
    ensures
        a + (b + c + d + e) + f == a + b + c + (d + e + f),
{
    assert(a + (b + c + d + e) + f =~= a + b + c + (d + e + f));
}

proof fn lemma_line_parts(a: Seq<char>, b: Seq<char>, c: Seq<char>, d: Seq<char>, e: Seq<char>, f: Seq<char>)
    ensures
        a + (b + c + d + e) + f == (a + b) + c + (d + e + f),
        a + (b + c + d + e) + f == (a + b + c + d) + e + f,
{
    assert(a + (b + c + d + e) + f =~= (a + b) + c + (d + e + f));
    assert(a + (b + c + d + e) + f =~= (a + b + c + d) + e + f);
}

/// After a value on a line of its own: the comma or, past the next line's
/// indentation, the closing sign.
proof fn lemma_line_ends(
    s: Seq<char>,
    q: int,
    last: bool,
    pad: Seq<char>,
    sign: char,
    rest: Seq<char>,
    done: Seq<char>,
)
    requires
        0 <= q == done.len(),
        all_blank(pad),
        !is_blank(sign),
        s == done + (line_end(last) + rest),
        last ==> rest.len() > pad.len() && rest.take(pad.len() as int) == pad && rest[pad.len() as int] == sign,
    ensures
        skipped(s, q) == if last {
            q + 1 + pad.len()
        } else {
            q
        },
        q < s.len(),
        last ==> q + 1 + pad.len() < s.len() && s[q + 1 + pad.len()] == sign,
        !last ==> s[q] == ',',
{
    lemma_lines();
    if last {
        let n = q + 1 + pad.len();
        assert(s[n] == rest[pad.len() as int]);
        assert forall|i: int| q <= i < n implies is_blank(#[trigger] s[i]) by {
            if i == q {
                assert(s[i] == '\n');
            } else {
                assert(s[i] == rest[i - q - 1]);
                assert(rest.take(pad.len() as int)[i - q - 1] == pad[i - q - 1]);
            }
        }
        lemma_skip_run(s, q, n);
    } else {
        assert(s[q] == ',');
    }
}

#[verifier::spinoff_prover]
#[verifier::rlimit(100)]
proof fn lemma_lines_read(
    a: Seq<Tree>,
    done: Seq<Tree>,
    inner: Seq<char>,
    pad: Seq<char>,
    pre: Seq<char>,
    post: Seq<char>,
    f: int,
    depth: nat,
    texts: numeric::RealTextFacts,
    reals: numeric::RealFacts,
)
    requires
        a.len() > 0,
        items_readable(a, depth, texts, reals),
        all_blank(inner),
        all_blank(pad),
        0 <= f <= pre.len() + inner.len(),
        skipped(pre + pretty_items(a, inner, texts) + (pad + "]"@ + post), f) == pre.len() + inner.len(),
    ensures
        items_of(pre + pretty_items(a, inner, texts) + (pad + "]"@ + post), f, depth, done, reals) == Ok::<
            (Tree, int),
            Failure,
        >((Tree::Array(done + a), (pre.len() + pretty_items(a, inner, texts).len() + pad.len() + 1) as int)),
    decreases a, 1nat,
{
    let tail = pad + "]"@ + post;
    let s = pre + pretty_items(a, inner, texts) + tail;
    let c = pretty(a[0], inner, texts);
    let t = a.skip(1);
    let more = pretty_items(t, inner, texts);
    let end = line_end(a.len() == 1);
    let p = (pre.len() + inner.len()) as int;
    let q = p + c.len();
    lemma_line_parts(pre, inner, c, end, more, tail);
    lemma_pretty_first(a[0], inner, depth, texts, reals);
    assert(s[p] == c[0]);
    lemma_skip_run(s, p, p);
    let after = end + more + tail;
    assert(delimited(after)) by {
        lemma_lines();
    }
    lemma_pretty_read(a[0], inner, pre + inner, after, depth, texts, reals);
    lemma_value_skip(s, f, p, depth, reals);
    assert(value_of(s, f, depth, reals) == Ok::<(Tree, int), Failure>((a[0], q)));
    let rest = more + tail;
    assert(s == pre + inner + c + (end + rest)) by {
        assert(end + more + tail =~= end + rest);
    }
    if t.len() == 0 {
        assert(rest =~= tail);
        assert(rest.take(pad.len() as int) =~= pad);
        assert(rest[pad.len() as int] == ']') by {
            lemma_words();
        }
        assert(rest.len() > pad.len()) by {
            lemma_words();
        }
    }
    lemma_line_ends(s, q, a.len() == 1, pad, ']', rest, pre + inner + c);
    if t.len() == 0 {
        assert(done.push(a[0]) =~= done + a);
        assert(end.len() == 1) by {
            lemma_lines();
        }
    } else {
        let next = pre + inner + c + end;
        assert(s == next + more + tail);
        assert(items_readable(t, depth, texts, reals));
        lemma_pretty_first(t[0], inner, depth, texts, reals);
        let g = q + 1;
        let h = (next.len() + inner.len()) as int;
        assert(end.len() == 2 && end[1] == '\n') by {
            lemma_lines();
        }
        assert(more[inner.len() as int] == pretty(t[0], inner, texts)[0]);
        assert(s[h] == more[inner.len() as int]);
        assert forall|i: int| g <= i < h implies is_blank(#[trigger] s[i]) by {
            if i == g {
                assert(s[i] == end[1]);
            } else {
                assert(s[i] == more[i - next.len()]);
                assert(more[i - next.len()] == inner[i - next.len()]);
            }
        }
        lemma_skip_run(s, g, h);
        lemma_lines_read(t, done.push(a[0]), inner, pad, next, post, g, depth, texts, reals);
        assert(done.push(a[0]) + t =~= done + a);
    }
}

proof fn lemma_field_parts(
    a: Seq<char>,
    b: Seq<char>,
    k: Seq<char>,
    c: Seq<char>,
    d: Seq<char>,
    e: Seq<char>,
    f: Seq<char>,
)
    ensures
        a + (b + (k + ": "@) + c + d + e) + f == a + b + k + ":"@ + (seq![' '] + c + (d + (e + f))),
        a + (b + (k + ": "@) + c + d + e) + f == (a + b + (k + ": "@)) + c + (d + (e + f)),
        a + (b + (k + ": "@) + c + d + e) + f == (a + b + (k + ": "@) + c + d) + e + f,
{
    lemma_words();
    lemma_lines();
    let s = a + (b + (k + ": "@) + c + d + e) + f;
    assert(": "@ =~= ":"@ + seq![' ']);
    assert(s =~= a + b + k + ":"@ + (seq![' '] + c + (d + (e + f))));
    assert(s =~= (a + b + (k + ": "@)) + c + (d + (e + f)));
    assert(s =~= (a + b + (k + ": "@) + c + d) + e + f);
}

/// Behind a line's end, the blanks before the next member are skipped.
#[verifier::spinoff_prover]
proof fn lemma_next_field(
    s: Seq<char>,
    next: Seq<char>,
    t: Seq<(Seq<char>, Tree)>,
    inner: Seq<char>,
    texts: numeric::RealTextFacts,
    tail: Seq<char>,
)
    requires
        t.len() > 0,
        all_blank(inner),
        next.len() > 0,
        is_blank(next.last()),
        s == next + pretty_members(t, inner, texts) + tail,
    ensures
        skipped(s, next.len() - 1) == next.len() + inner.len(),
{
    let more = pretty_members(t, inner, texts);
    let g = next.len() - 1;
    let h = (next.len() + inner.len()) as int;
    assert(quoted(t[0].0)[0] == '"');
    assert(more[inner.len() as int] == '"');
    assert(s[h] == more[inner.len() as int]);
    assert forall|i: int| g <= i < h implies is_blank(#[trigger] s[i]) by {
        if i == g {
            assert(s[i] == next.last());
        } else {
            assert(s[i] == more[i - next.len()]);
            assert(more[i - next.len()] == inner[i - next.len()]);
        }
    }
    lemma_skip_run(s, g, h);
}

/// The key of a member, from the blanks before it.
#[verifier::spinoff_prover]
proof fn lemma_field_key(s: Seq<char>, front: Seq<char>, key: Seq<char>, after: Seq<char>, f: int)
    requires
        s == front + quoted(key) + ":"@ + after,
        skipped(s, f) == front.len(),
    ensures
        key_of(s, f) == Ok::<(Seq<char>, int), Fault>((key, (front.len() + quoted(key).len() + 1) as int)),
{
    let p = front.len() as int;
    assert(s[p] == quoted(key)[0]);
    lemma_skip_run(s, p, p);
    lemma_key_read(front, key, after);
    assert(key_of(s, f) == key_of(s, p));
}

/// The value of a member, from the blank before it.
#[verifier::spinoff_prover]
#[verifier::rlimit(30)]
proof fn lemma_field_value(
    s: Seq<char>,
    front: Seq<char>,
    x: Tree,
    inner: Seq<char>,
    after: Seq<char>,
    depth: nat,
    texts: numeric::RealTextFacts,
    reals: numeric::RealFacts,
)
    requires
        readable(x, depth, texts, reals),
        all_blank(inner),
        delimited(after),
        front.len() > 0,
        front.last() == ' ',
        s == front + pretty(x, inner, texts) + after,
    ensures
        value_of(s, front.len() - 1, depth, reals) == Ok::<(Tree, int), Failure>(
            (x, (front.len() + pretty(x, inner, texts).len()) as int),
        ),
    decreases x, 1nat,
{
    let c = pretty(x, inner, texts);
    let v = front.len() as int;
    lemma_pretty_first(x, inner, depth, texts, reals);
    assert(s[v] == c[0]);
    assert(s[v - 1] == front.last());
    lemma_skip_run(s, v - 1, v);
    lemma_skip_run(s, v, v);
    lemma_pretty_read(x, inner, front, after, depth, texts, reals);
    lemma_value_skip(s, v - 1, v, depth, reals);
}

#[verifier::spinoff_prover]
#[verifier::rlimit(100)]
proof fn lemma_fields_read(
    m: Seq<(Seq<char>, Tree)>,
    done: Seq<(Seq<char>, Tree)>,
    inner: Seq<char>,
    pad: Seq<char>,
    pre: Seq<char>,
    post: Seq<char>,
    f: int,
    depth: nat,
    texts: numeric::RealTextFacts,
    reals: numeric::RealFacts,
)
    requires
        m.len() > 0,
        ascending(done + m),
        members_readable(m, depth, texts, reals),
        all_blank(inner),
        all_blank(pad),
        0 <= f <= pre.len() + inner.len(),
        skipped(pre + pretty_members(m, inner, texts) + (pad + "}"@ + post), f) == pre.len() + inner.len(),
    ensures
        members_of(pre + pretty_members(m, inner, texts) + (pad + "}"@ + post), f, depth, done, reals) == Ok::<
            (Tree, int),
            Failure,
        >((Tree::Object(done + m), (pre.len() + pretty_members(m, inner, texts).len() + pad.len() + 1) as int)),
    decreases m, 1nat,
{
    let tail = pad + "}"@ + post;
    let s = pre + pretty_members(m, inner, texts) + tail;
    let key = m[0].0;
    let name = quoted(key) + ": "@;
    let c = pretty(m[0].1, inner, texts);
    let t = m.skip(1);
    let more = pretty_members(t, inner, texts);
    let end = line_end(m.len() == 1);
    let p = (pre.len() + inner.len()) as int;
    let k = p + quoted(key).len();
    let v = k + 2;
    let q = v + c.len();
    let rest = more + tail;
    lemma_field_parts(pre, inner, quoted(key), c, end, more, tail);
    assert(": "@.len() == 2) by {
        lemma_lines();
    }
    // The key.
    lemma_field_key(s, pre + inner, key, seq![' '] + c + (end + rest), f);
    assert(key_of(s, f) == Ok::<(Seq<char>, int), Fault>((key, k + 1)));
    // The value.
    assert(delimited(end + rest)) by {
        lemma_lines();
    }
    assert((pre + inner + name).last() == ' ') by {
        lemma_lines();
    }
    lemma_field_value(s, pre + inner + name, m[0].1, inner, end + rest, depth, texts, reals);
    assert(value_of(s, k + 1, depth, reals) == Ok::<(Tree, int), Failure>((m[0].1, q)));
    if t.len() == 0 {
        assert(rest =~= tail);
        assert(rest.take(pad.len() as int) =~= pad);
        assert(rest[pad.len() as int] == '}') by {
            lemma_words();
        }
        assert(rest.len() > pad.len()) by {
            lemma_words();
        }
    }
    lemma_line_ends(s, q, m.len() == 1, pad, '}', rest, pre + inner + name + c);
    lemma_member_last(done, m);
    let all = done.push(m[0]);
    if t.len() == 0 {
        assert(all =~= done + m);
        assert(end.len() == 1) by {
            lemma_lines();
        }
    } else {
        let next = pre + inner + name + c + end;
        assert(s == next + more + tail);
        let g = q + 1;
        assert(end.len() == 2 && end[1] == '\n') by {
            lemma_lines();
        }
        assert(next.last() == end[1] && g == next.len() - 1);
        lemma_next_field(s, next, t, inner, texts, tail);
        assert(all + t =~= done + m);
        lemma_fields_read(t, all, inner, pad, next, post, g, depth, texts, reals);
    }
}

/// Parsing the indented form of a value gives the value back.
pub proof fn lemma_pretty_round_trip(t: Tree, texts: numeric::RealTextFacts, reals: numeric::RealFacts)
    requires
        readable(t, 0, texts, reals),
    ensures
        document(pretty(t, Seq::empty(), texts), reals) == Ok::<Tree, Failure>(t),
{
    let none = Seq::<char>::empty();
    let s = pretty(t, none, texts);
    lemma_pretty_first(t, none, 0, texts, reals);
    lemma_pretty_read(t, none, none, none, 0, texts, reals);
    assert(none + s + none =~= s);
    assert(skipped(s, 0) == 0);
}

} // verus!
