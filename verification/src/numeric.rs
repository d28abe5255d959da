//! Arithmetic on numbers as expressions see them.
//!
//! Integers wrap. Of a real the library holds the bits: it knows its sign and
//! whether it is zero, and how its text is formed; what a text or an operation
//! gives is looked up in a [`Reals`] table, which the caller fills in answer to a
//! [`RealNeed`].

use vstd::prelude::*;

use crate::text;
use crate::value;

verus! {

/// An arithmetic operator.
#[derive(Debug, Clone, Copy, PartialEq, Eq, Structural)]
pub enum ArithOp {
    Add,
    Sub,
    Mul,
    Div,
    Mod,
}

impl ArithOp {
    pub open spec fn sign(self) -> char {
        match self {
            ArithOp::Add => '+',
            ArithOp::Sub => '-',
            ArithOp::Mul => '*',
            ArithOp::Div => '/',
            ArithOp::Mod => '%',
        }
    }

    pub fn name(self) -> (r: &'static str)
        ensures
            r@ == seq![self.sign()],
    {
        let r = match self {
            ArithOp::Add => "+",
            ArithOp::Sub => "-",
            ArithOp::Mul => "*",
            ArithOp::Div => "/",
            ArithOp::Mod => "%",
        };
        proof {
            reveal_strlit("+");
            reveal_strlit("-");
            reveal_strlit("*");
            reveal_strlit("/");
            reveal_strlit("%");
            assert(r@ =~= seq![self.sign()]);
        }
        r
    }
}

/// The result of an operation on two integers. It wraps; a quotient drops its
/// fraction and a remainder has the dividend's sign.
pub open spec fn int_result(op: ArithOp, a: i64, b: i64) -> i64 {
    match op {
        ArithOp::Add => a.wrapping_add(b),
        ArithOp::Sub => a.wrapping_sub(b),
        ArithOp::Mul => a.wrapping_mul(b),
        ArithOp::Div => match a.checked_div(b) {
            Some(q) => q,
            None => a,
        },
        ArithOp::Mod => match a.checked_rem(b) {
            Some(r) => r,
            None => 0,
        },
    }
}

/// Arithmetic on two integers: a result that fits is the exact one, and a quotient
/// and a remainder put their dividend together again.
pub proof fn lemma_int_result(i: i64, j: i64)
    ensures
        i64::MIN <= i + j <= i64::MAX ==> int_result(ArithOp::Add, i, j) == i + j,
        i64::MIN <= i - j <= i64::MAX ==> int_result(ArithOp::Sub, i, j) == i - j,
        i64::MIN <= i * j <= i64::MAX ==> int_result(ArithOp::Mul, i, j) == i * j,
        j != 0 && !(i == i64::MIN && j == -1) ==> {
            let q = int_result(ArithOp::Div, i, j);
            let r = int_result(ArithOp::Mod, i, j);
            &&& i == q * j + r
            &&& -(if j < 0 { -j } else { j as int }) < r < (if j < 0 { -j } else { j as int })
            &&& (i >= 0 ==> r >= 0) && (i <= 0 ==> r <= 0)
        },
{
    if j != 0 && !(i == i64::MIN && j == -1) {
        let x = if i < 0 {
            -i
        } else {
            i as int
        };
        let d = if j < 0 {
            -j
        } else {
            j as int
        };
        let n = x / d;
        let e = x % d;
        assert(x == n * d + e && 0 <= e < d && 0 <= n <= x) by (nonlinear_arith)
            requires
                n == x / d,
                e == x % d,
                d > 0,
                x >= 0,
        ;
        assert(x == i64::MAX + 1 ==> d != 1 ==> n <= i64::MAX) by (nonlinear_arith)
            requires
                x == n * d + e,
                0 <= e,
                d > 0,
        ;
        let q = int_result(ArithOp::Div, i, j);
        let r = int_result(ArithOp::Mod, i, j);
        if (i < 0) == (j < 0) || i == 0 {
            assert(q == n);
        } else {
            assert(q == -n);
        }
        assert(r == if i < 0 {
            -e
        } else {
            e
        });
        assert(i == q * j + r) by (nonlinear_arith)
            requires
                x == n * d + e,
                x == (if i < 0 {
                    -i
                } else {
                    i as int
                }),
                d == (if j < 0 {
                    -j
                } else {
                    j as int
                }),
                r == (if i < 0 {
                    -e
                } else {
                    e
                }),
                q == (if (i < 0) == (j < 0) || i == 0 {
                    n
                } else {
                    -n
                }),
                0 <= n,
                0 <= e,
                d > 0,
        ;
    }
}

pub fn int_arith(op: ArithOp, a: i64, b: i64) -> (r: i64)
    ensures
        r == int_result(op, a, b),
{
    match op {
        ArithOp::Add => a.wrapping_add(b),
        ArithOp::Sub => a.wrapping_sub(b),
        ArithOp::Mul => a.wrapping_mul(b),
        ArithOp::Div => match a.checked_div(b) {
            Some(q) => q,
            None => a,
        },
        ArithOp::Mod => match a.checked_rem(b) {
            Some(r) => r,
            None => 0,
        },
    }
}

/// The negative of an integer; the smallest one is its own.
pub open spec fn int_negated(a: i64) -> i64 {
    if a == i64::MIN {
        a
    } else {
        (-a) as i64
    }
}

pub fn int_neg(a: i64) -> (r: i64)
    ensures
        r == int_negated(a),
{
    if a == i64::MIN {
        a
    } else {
        -a
    }
}

/// A real with its sign turned.
pub open spec fn real_negated(b: u64) -> u64 {
    if b >= 0x8000_0000_0000_0000 {
        (b - 0x8000_0000_0000_0000) as u64
    } else {
        (b + 0x8000_0000_0000_0000) as u64
    }
}

pub fn real_neg(b: u64) -> (r: u64)
    ensures
        r == real_negated(b),
{
    if b >= 0x8000_0000_0000_0000 {
        b - 0x8000_0000_0000_0000
    } else {
        b + 0x8000_0000_0000_0000
    }
}

/// Whether a real is zero, of either sign.
pub open spec fn real_zero(b: u64) -> bool {
    b == 0 || b == 0x8000_0000_0000_0000
}

pub fn is_real_zero(b: u64) -> (r: bool)
    ensures
        r == real_zero(b),
{
    b == 0 || b == 0x8000_0000_0000_0000
}

/// What an evaluation has to be told about reals.
#[derive(Debug, Clone, PartialEq, Eq)]
pub enum RealNeed {
    /// The bits of the real that a text denotes.
    Text(String),
    /// The bits of the result of an operation on two reals.
    Arith(ArithOp, u64, u64),
    /// The bits of a function's value for a real.
    Apply(RealFn, u64),
}

/// A function of a real.
#[derive(Debug, Clone, Copy, PartialEq, Eq, Structural)]
pub enum RealFn {
    Sqrt,
    Log2,
}

/// A [`RealNeed`] with its text as characters.
pub enum Need {
    Text(Seq<char>),
    Arith(ArithOp, u64, u64),
    Apply(RealFn, u64),
}

impl View for RealNeed {
    type V = Need;

    open spec fn view(&self) -> Need {
        match self {
            RealNeed::Text(t) => Need::Text(t@),
            RealNeed::Arith(op, a, b) => Need::Arith(*op, *a, *b),
            RealNeed::Apply(f, a) => Need::Apply(*f, *a),
        }
    }
}

/// What is known about reals.
#[derive(Debug, Clone)]
pub struct Reals {
    texts: Vec<(String, u64)>,
    results: Vec<((ArithOp, u64, u64), u64)>,
    images: Vec<((RealFn, u64), u64)>,
}

/// What a [`Reals`] table holds, oldest entry first.
pub struct RealFacts {
    pub texts: Seq<(Seq<char>, u64)>,
    pub results: Seq<((ArithOp, u64, u64), u64)>,
    pub images: Seq<((RealFn, u64), u64)>,
}

/// The first entry under a key.
pub open spec fn first<K>(s: Seq<(K, u64)>, k: K) -> Option<u64>
    decreases s.len(),
{
    if s.len() == 0 {
        None
    } else if s[0].0 == k {
        Some(s[0].1)
    } else {
        first(s.skip(1), k)
    }
}

impl View for Reals {
    type V = RealFacts;

    closed spec fn view(&self) -> RealFacts {
        RealFacts {
            texts: Seq::new(self.texts@.len(), |i: int| (self.texts@[i].0@, self.texts@[i].1)),
            results: self.results@,
            images: self.images@,
        }
    }
}

/// A table that holds nothing.
pub open spec fn no_reals() -> RealFacts {
    RealFacts { texts: Seq::empty(), results: Seq::empty(), images: Seq::empty() }
}

impl Reals {
    /// An empty table.
    pub fn new() -> (r: Reals)
        ensures
            r@ == no_reals(),
    {
        let r = Reals { texts: Vec::new(), results: Vec::new(), images: Vec::new() };
        proof {
            assert(r@.texts =~= Seq::empty());
            assert(r@.results =~= Seq::empty());
            assert(r@.images =~= Seq::empty());
        }
        r
    }

    /// Note the bits of the real that a text denotes.
    pub fn note_text(&mut self, t: &str, bits: u64)
        ensures
            final(self)@ == (RealFacts { texts: old(self)@.texts.push((t@, bits)), ..old(self)@ }),
    {
        let ghost was = self@;
        let c = text::chars_of(t);
        self.texts.push((text::string_of(&c), bits));
        assert(self@.texts =~= was.texts.push((t@, bits)));
    }

    /// Note the bits of an operation's result.
    pub fn note_result(&mut self, op: ArithOp, a: u64, b: u64, bits: u64)
        ensures
            final(self)@ == (RealFacts { results: old(self)@.results.push(((op, a, b), bits)), ..old(self)@ }),
    {
        let ghost was = self@;
        self.results.push(((op, a, b), bits));
        assert(self@.texts =~= was.texts);
    }

    /// Note the bits of a function's value.
    pub fn note_image(&mut self, f: RealFn, a: u64, bits: u64)
        ensures
            final(self)@ == (RealFacts { images: old(self)@.images.push(((f, a), bits)), ..old(self)@ }),
    {
        let ghost was = self@;
        self.images.push(((f, a), bits));
        assert(self@.texts =~= was.texts);
    }

    /// The bits of a function's value, where they are known.
    pub fn image(&self, f: RealFn, a: u64) -> (r: Option<u64>)
        ensures
            r == first(self@.images, (f, a)),
    {
        let ghost s = self@.images;
        let mut i: usize = 0;
        assert(s.skip(0) =~= s);
        while i < self.images.len()
            invariant
                i <= self.images.len(),
                s == self@.images,
                first(s, (f, a)) == first(s.skip(i as int), (f, a)),
            decreases self.images.len() - i,
        {
            assert(s.skip(i as int).skip(1) =~= s.skip(i + 1));
            assert(s.skip(i as int)[0] == s[i as int]);
            let k = self.images[i].0;
            if k.0 == f && k.1 == a {
                return Some(self.images[i].1);
            }
            i += 1;
        }
        None
    }

    /// The bits of the real that a text denotes, where they are known.
    pub fn text(&self, t: &str) -> (r: Option<u64>)
        ensures
            r == first(self@.texts, t@),
    {
        let ghost s = self@.texts;
        let mut i: usize = 0;
        assert(s.skip(0) =~= s);
        while i < self.texts.len()
            invariant
                i <= self.texts.len(),
                s == self@.texts,
                first(s, t@) == first(s.skip(i as int), t@),
            decreases self.texts.len() - i,
        {
            assert(s.skip(i as int).skip(1) =~= s.skip(i + 1));
            assert(s.skip(i as int)[0] == s[i as int]);
            if text::same_text(self.texts[i].0.as_str(), t) {
                return Some(self.texts[i].1);
            }
            i += 1;
        }
        None
    }

    /// The bits of an operation's result, where they are known.
    pub fn result(&self, op: ArithOp, a: u64, b: u64) -> (r: Option<u64>)
        ensures
            r == first(self@.results, (op, a, b)),
    {
        let ghost s = self@.results;
        let mut i: usize = 0;
        assert(s.skip(0) =~= s);
        while i < self.results.len()
            invariant
                i <= self.results.len(),
                s == self@.results,
                first(s, (op, a, b)) == first(s.skip(i as int), (op, a, b)),
            decreases self.results.len() - i,
        {
            assert(s.skip(i as int).skip(1) =~= s.skip(i + 1));
            assert(s.skip(i as int)[0] == s[i as int]);
            let k = self.results[i].0;
            if k.0 == op && k.1 == a && k.2 == b {
                return Some(self.results[i].1);
            }
            i += 1;
        }
        None
    }
}

// Comparing reals

/// The bits of one.
pub const ONE: u64 = 0x3FF0_0000_0000_0000;

/// Whether a real is smaller than another; a NaN is not.
pub open spec fn real_less(a: u64, b: u64) -> bool {
    !value::is_nan(a) && !value::is_nan(b) && value::real_key(a) < value::real_key(b)
}

/// The greater of two reals; a NaN gives way.
pub open spec fn real_max(a: u64, b: u64) -> u64 {
    if value::is_nan(a) || real_less(a, b) {
        b
    } else {
        a
    }
}

/// The smaller of two reals; a NaN gives way.
pub open spec fn real_min(a: u64, b: u64) -> u64 {
    if value::is_nan(a) || real_less(b, a) {
        b
    } else {
        a
    }
}

/// A real brought within bounds.
pub open spec fn real_clamp(a: u64, lo: u64, hi: u64) -> u64 {
    if real_less(a, lo) {
        lo
    } else if real_less(hi, a) {
        hi
    } else {
        a
    }
}

fn nan(b: u64) -> (r: bool)
    ensures
        r == value::is_nan(b),
{
    b % 0x8000_0000_0000_0000 > 0x7FF0_0000_0000_0000
}

pub fn less_real(a: u64, b: u64) -> (r: bool)
    ensures
        r == real_less(a, b),
{
    !nan(a) && !nan(b) && matches!(value::real_side(a, b), value::Side::Below)
}

pub fn max_real(a: u64, b: u64) -> (r: u64)
    ensures
        r == real_max(a, b),
{
    if nan(a) || less_real(a, b) {
        b
    } else {
        a
    }
}

pub fn min_real(a: u64, b: u64) -> (r: u64)
    ensures
        r == real_min(a, b),
{
    if nan(a) || less_real(b, a) {
        b
    } else {
        a
    }
}

pub fn clamp_real(a: u64, lo: u64, hi: u64) -> (r: u64)
    ensures
        r == real_clamp(a, lo, hi),
{
    if less_real(a, lo) {
        lo
    } else if less_real(hi, a) {
        hi
    } else {
        a
    }
}

/// What a step that needs a real stands for.
pub open spec fn asked(r: Result<u64, RealNeed>) -> Result<u64, Need> {
    match r {
        Ok(b) => Ok(b),
        Err(n) => Err(n@),
    }
}

/// The result of an operation on two reals, or that it is needed.
pub open spec fn real_op(op: ArithOp, a: u64, b: u64, reals: RealFacts) -> Result<u64, Need> {
    match first(reals.results, (op, a, b)) {
        Some(x) => Ok(x),
        None => Err(Need::Arith(op, a, b)),
    }
}

/// A function's value for a real, or that it is needed.
pub open spec fn real_fn(f: RealFn, a: u64, reals: RealFacts) -> Result<u64, Need> {
    match first(reals.images, (f, a)) {
        Some(x) => Ok(x),
        None => Err(Need::Apply(f, a)),
    }
}

pub fn do_real_op(op: ArithOp, a: u64, b: u64, reals: &Reals) -> (r: Result<u64, RealNeed>)
    ensures
        asked(r) == real_op(op, a, b, reals@),
{
    match reals.result(op, a, b) {
        Some(x) => Ok(x),
        None => Err(RealNeed::Arith(op, a, b)),
    }
}

pub fn do_real_fn(f: RealFn, a: u64, reals: &Reals) -> (r: Result<u64, RealNeed>)
    ensures
        asked(r) == real_fn(f, a, reals@),
{
    match reals.image(f, a) {
        Some(x) => Ok(x),
        None => Err(RealNeed::Apply(f, a)),
    }
}

/// The ratio of two counts, or that it is needed.
pub open spec fn ratio_of(a: nat, b: nat, reals: RealFacts) -> Result<u64, Need> {
    real_op(ArithOp::Div, value::real_of_nat(a) as u64, value::real_of_nat(b) as u64, reals)
}

pub fn ratio(a: u64, b: u64, reals: &Reals) -> (r: Result<u64, RealNeed>)
    ensures
        asked(r) == ratio_of(a as nat, b as nat, reals@),
{
    do_real_op(ArithOp::Div, value::nat_to_real(a), value::nat_to_real(b), reals)
}

// The text of a real

/// How many leading characters are digits.
pub open spec fn digit_run(s: Seq<char>) -> nat
    decreases s.len(),
{
    if s.len() == 0 || !text::is_digit(s[0]) {
        0
    } else {
        1 + digit_run(s.skip(1))
    }
}

/// An exponent, or nothing.
pub open spec fn is_exponent(s: Seq<char>) -> bool {
    s.len() == 0 || {
        &&& s[0] == 'e' || s[0] == 'E'
        &&& {
            let t = s.skip(1);
            let u = if t.len() > 0 && (t[0] == '+' || t[0] == '-') {
                t.skip(1)
            } else {
                t
            };
            u.len() > 0 && digit_run(u) == u.len()
        }
    }
}

/// The text of a real without a sign: digits with a point among or around them,
/// or none, and an exponent; or a name for what is no number or has no bound.
pub open spec fn is_unsigned_real(s: Seq<char>) -> bool {
    let n = digit_run(s) as int;
    let r = s.skip(n);
    ||| n > 0 && is_exponent(r)
    ||| r.len() > 0 && r[0] == '.' && {
        let m = digit_run(r.skip(1)) as int;
        n + m > 0 && is_exponent(r.skip(1).skip(m))
    }
    ||| text::lowered(s) == seq!['i', 'n', 'f']
    ||| text::lowered(s) == seq!['i', 'n', 'f', 'i', 'n', 'i', 't', 'y']
    ||| text::lowered(s) == seq!['n', 'a', 'n']
}

/// The text of a real.
pub open spec fn is_real_text(s: Seq<char>) -> bool {
    if s.len() > 0 && (s[0] == '+' || s[0] == '-') {
        is_unsigned_real(s.skip(1))
    } else {
        is_unsigned_real(s)
    }
}

fn run_to(v: &Vec<char>, from: usize) -> (to: usize)
    requires
        from <= v.len(),
    ensures
        to == from + digit_run(v@.skip(from as int)),
        from <= to <= v.len(),
{
    let mut i: usize = from;
    while i < v.len()
        invariant
            from <= i <= v.len(),
            from + digit_run(v@.skip(from as int)) == i + digit_run(v@.skip(i as int)),
        decreases v.len() - i,
    {
        assert(v@.skip(i as int)[0] == v@[i as int]);
        assert(v@.skip(i as int).skip(1) =~= v@.skip(i + 1));
        if !text::digit(v[i]) {
            return i;
        }
        i += 1;
    }
    i
}

fn exponent_from(v: &Vec<char>, from: usize) -> (r: bool)
    requires
        from <= v.len(),
    ensures
        r == is_exponent(v@.skip(from as int)),
{
    let ghost s = v@.skip(from as int);
    if from == v.len() {
        return true;
    }
    assert(s[0] == v@[from as int]);
    if v[from] != 'e' && v[from] != 'E' {
        return false;
    }
    assert(s.skip(1) =~= v@.skip(from + 1));
    let mut i: usize = from + 1;
    if i < v.len() && (v[i] == '+' || v[i] == '-') {
        assert(v@.skip(i as int)[0] == v@[i as int]);
        assert(v@.skip(i as int).skip(1) =~= v@.skip(i + 1));
        i += 1;
    } else {
        if i < v.len() {
            assert(v@.skip(i as int)[0] == v@[i as int]);
        }
    }
    i < v.len() && run_to(v, i) == v.len()
}

/// Whether characters, in lower case, are the given ones.
fn lowers_to(v: &Vec<char>, from: usize, w: &[char]) -> (r: bool)
    requires
        from <= v.len(),
    ensures
        r == (text::lowered(v@.skip(from as int)) == w@),
{
    let ghost s = text::lowered(v@.skip(from as int));
    if v.len() - from != w.len() {
        assert(s.len() == v@.len() - from);
        return false;
    }
    let mut i: usize = 0;
    while i < w.len()
        invariant
            from <= v.len(),
            i <= w@.len(),
            v.len() - from == w@.len(),
            s == text::lowered(v@.skip(from as int)),
            forall|k: int| 0 <= k < i ==> s[k] == w@[k],
        decreases w@.len() - i,
    {
        assert(s[i as int] == text::lower_char(v@[from + i]));
        if text::to_lower(v[from + i]) != w[i] {
            return false;
        }
        i += 1;
    }
    assert(s =~= w@);
    true
}

/// Whether characters are the text of a real.
pub fn reads_as_real(v: &Vec<char>) -> (r: bool)
    ensures
        r == is_real_text(v@),
{
    let from: usize = if v.len() > 0 && (v[0] == '+' || v[0] == '-') {
        1
    } else {
        0
    };
    let ghost s = v@.skip(from as int);
    assert(v@.skip(0) =~= v@);
    let n = run_to(v, from);
    assert(s.skip(n - from) =~= v@.skip(n as int));
    if n > from && exponent_from(v, n) {
        return true;
    }
    if n < v.len() && v[n] == '.' {
        assert(v@.skip(n as int)[0] == v@[n as int]);
        assert(v@.skip(n as int).skip(1) =~= v@.skip(n + 1));
        let m = run_to(v, n + 1);
        assert(v@.skip(n + 1).skip(m - n - 1) =~= v@.skip(m as int));
        if (n > from || m > n + 1) && exponent_from(v, m) {
            return true;
        }
    } else if n < v.len() {
        assert(v@.skip(n as int)[0] == v@[n as int]);
    }
    let inf: [char; 3] = ['i', 'n', 'f'];
    let infinity: [char; 8] = ['i', 'n', 'f', 'i', 'n', 'i', 't', 'y'];
    let nan: [char; 3] = ['n', 'a', 'n'];
    assert(inf@ =~= seq!['i', 'n', 'f']);
    assert(infinity@ =~= seq!['i', 'n', 'f', 'i', 'n', 'i', 't', 'y']);
    assert(nan@ =~= seq!['n', 'a', 'n']);
    lowers_to(v, from, &inf) || lowers_to(v, from, &infinity) || lowers_to(v, from, &nan)
}

// The text of an integer

/// The integer that a text denotes: a sign, or none, and digits.
pub open spec fn int_value(s: Seq<char>) -> Option<i64> {
    let signed = s.len() > 0 && (s[0] == '+' || s[0] == '-');
    let d = if signed {
        s.skip(1)
    } else {
        s
    };
    let n = text::number(d) as int;
    let m = if signed && s[0] == '-' {
        -n
    } else {
        n
    };
    if d.len() > 0 && digit_run(d) == d.len() && i64::MIN <= m <= i64::MAX {
        Some(m as i64)
    } else {
        None
    }
}

proof fn lemma_digit_run(s: Seq<char>)
    ensures
        digit_run(s) <= s.len(),
        forall|i: int| 0 <= i < digit_run(s) ==> text::is_digit(#[trigger] s[i]),
    decreases s.len(),
{
    if s.len() > 0 && text::is_digit(s[0]) {
        lemma_digit_run(s.skip(1));
        assert forall|i: int| 0 <= i < digit_run(s) implies text::is_digit(#[trigger] s[i]) by {
            if i > 0 {
                assert(s.skip(1)[i - 1] == s[i]);
            }
        }
    }
}

/// An integer is read back from its text.
pub proof fn lemma_int_read_back(i: i64)
    ensures
        int_value(text::int_text(i as int)) == Some(i),
{
    let n = if i < 0 {
        (-i) as nat
    } else {
        i as nat
    };
    let d = text::digits(n);
    text::lemma_digits(n);
    assert(text::is_digit(d[0]));
    lemma_run_full(d);
    let t = text::int_text(i as int);
    if i < 0 {
        assert(t.skip(1) =~= d);
        assert(t[0] == '-');
    } else {
        assert(t == d);
    }
}

/// How the text of an integer is read: a digit is its number, one more digit behind
/// a text is one more decimal place, and a sign in front negates or keeps.
pub proof fn lemma_int_places(s: Seq<char>, c: char)
    requires
        '0' <= c <= '9',
    ensures
        int_value(seq![c]) == Some((c as int - '0' as int) as i64),
        s.len() > 0 && '0' <= s[0] <= '9' ==> (int_value(s.push(c)) matches Some(n) ==> int_value(s) matches Some(m) && n
            == 10 * m + (c as int - '0' as int)),
        s.len() > 0 && '0' <= s[0] <= '9' ==> (int_value(s) matches Some(n) ==> int_value(seq!['-'] + s) == Some((-n) as i64)
            && int_value(seq!['+'] + s) == Some(n)),
        int_value(Seq::empty()) is None,
{
    let one = seq![c];
    assert(one.drop_last() =~= Seq::<char>::empty());
    assert(one.skip(1) =~= Seq::<char>::empty());
    assert(text::number(one.drop_last()) == 0);
    assert(digit_run(one.skip(1)) == 0);
    assert(digit_run(one) == 1);
    let t = s.push(c);
    if s.len() > 0 && '0' <= s[0] <= '9' {
        assert(t.drop_last() =~= s);
        lemma_digit_run(t);
        lemma_digit_run(s);
        if int_value(t) is Some {
            lemma_run_all(t);
            assert forall|k: int| 0 <= k < s.len() implies text::is_digit(#[trigger] s[k]) by {
                assert(text::is_digit(t[k]));
            }
            lemma_run_full(s);
            text::lemma_number_prefix(t, s.len() as int);
            assert(t.subrange(0, s.len() as int) =~= s);
        }
        assert((seq!['-'] + s).skip(1) =~= s);
        assert((seq!['+'] + s).skip(1) =~= s);
    }
}

/// A text of digits is one run.
proof fn lemma_run_full(s: Seq<char>)
    requires
        forall|k: int| 0 <= k < s.len() ==> text::is_digit(#[trigger] s[k]),
    ensures
        digit_run(s) == s.len(),
    decreases s.len(),
{
    if s.len() > 0 {
        let t = s.skip(1);
        assert forall|k: int| 0 <= k < t.len() implies text::is_digit(#[trigger] t[k]) by {
            assert(t[k] == s[k + 1]);
        }
        lemma_run_full(t);
        assert(text::is_digit(s[0]));
    }
}

/// A run of digits as long as the text is all of it.
proof fn lemma_run_all(s: Seq<char>)
    requires
        digit_run(s) == s.len(),
    ensures
        forall|k: int| 0 <= k < s.len() ==> text::is_digit(#[trigger] s[k]),
    decreases s.len(),
{
    if s.len() > 0 {
        let t = s.skip(1);
        lemma_run_all(t);
        assert forall|k: int| 0 <= k < s.len() implies text::is_digit(#[trigger] s[k]) by {
            if k > 0 {
                assert(t[k - 1] == s[k]);
            }
        }
    }
}

/// The integer that characters denote, where one does.
pub fn read_int(v: &Vec<char>) -> (r: Option<i64>)
    ensures
        r == int_value(v@),
{
    let from: usize = if v.len() > 0 && (v[0] == '+' || v[0] == '-') {
        1
    } else {
        0
    };
    let ghost d = v@.skip(from as int);
    assert(v@.skip(0) =~= v@);
    let n = run_to(v, from);
    if n == from || n < v.len() {
        return None;
    }
    proof {
        lemma_digit_run(d);
    }
    let t = text::slice_chars(v, from, v.len());
    assert(t@ =~= d);
    match text::read_number(&t) {
        None => None,
        Some(m) => {
            if from == 1 && v[0] == '-' {
                if m < 0x8000_0000_0000_0000 {
                    Some(-(m as i64))
                } else if m == 0x8000_0000_0000_0000 {
                    Some(i64::MIN)
                } else {
                    None
                }
            } else if m < 0x8000_0000_0000_0000 {
                Some(m as i64)
            } else {
                None
            }
        },
    }
}

// The texts of reals

/// The texts of reals, under their bits.
#[derive(Debug, Clone)]
pub struct RealTexts {
    entries: Vec<(u64, String)>,
}

/// What a [`RealTexts`] table holds, oldest entry first.
pub type RealTextFacts = Seq<(u64, Seq<char>)>;

/// The text of a real; of one that the table lacks, none.
pub open spec fn real_text(s: RealTextFacts, b: u64) -> Seq<char>
    decreases s.len(),
{
    if s.len() == 0 {
        Seq::empty()
    } else if s[0].0 == b {
        s[0].1
    } else {
        real_text(s.skip(1), b)
    }
}

/// The table holds the text of a real.
pub open spec fn knows(s: RealTextFacts, b: u64) -> bool {
    exists|i: int| 0 <= i < s.len() && (#[trigger] s[i]).0 == b
}

impl View for RealTexts {
    type V = RealTextFacts;

    closed spec fn view(&self) -> RealTextFacts {
        Seq::new(self.entries@.len(), |i: int| (self.entries@[i].0, self.entries@[i].1@))
    }
}

impl RealTexts {
    /// An empty table.
    pub fn new() -> (r: RealTexts)
        ensures
            r@ == Seq::<(u64, Seq<char>)>::empty(),
    {
        let r = RealTexts { entries: Vec::new() };
        assert(r@ =~= Seq::<(u64, Seq<char>)>::empty());
        r
    }

    /// Note a real's text.
    pub fn note(&mut self, bits: u64, t: &str)
        ensures
            final(self)@ == old(self)@.push((bits, t@)),
    {
        let ghost was = self@;
        let v = text::chars_of(t);
        self.entries.push((bits, text::string_of(&v)));
        assert(self@ =~= was.push((bits, t@)));
    }

    /// Whether a real's text is there.
    pub fn known(&self, bits: u64) -> (r: bool)
        ensures
            r == knows(self@, bits),
    {
        let mut i: usize = 0;
        while i < self.entries.len()
            invariant
                i <= self.entries@.len(),
                forall|k: int| 0 <= k < i ==> (#[trigger] self@[k]).0 != bits,
            decreases self.entries@.len() - i,
        {
            if self.entries[i].0 == bits {
                assert(self@[i as int].0 == bits);
                return true;
            }
            i += 1;
        }
        false
    }

    /// A real's text.
    pub fn text(&self, bits: u64) -> (r: String)
        ensures
            r@ == real_text(self@, bits),
    {
        let ghost s = self@;
        let mut i: usize = 0;
        assert(s.skip(0) =~= s);
        while i < self.entries.len()
            invariant
                i <= self.entries@.len(),
                s == self@,
                real_text(s, bits) == real_text(s.skip(i as int), bits),
            decreases self.entries@.len() - i,
        {
            assert(s.skip(i as int).skip(1) =~= s.skip(i + 1));
            assert(s.skip(i as int)[0] == s[i as int]);
            if self.entries[i].0 == bits {
                let v = text::chars_of(self.entries[i].1.as_str());
                return text::string_of(&v);
            }
            i += 1;
        }
        let r = String::new();
        assert(r@ =~= Seq::<char>::empty());
        r
    }
}

/// An integer's text.
pub fn int_string(i: i64) -> (r: String)
    ensures
        r@ == text::int_text(i as int),
{
    let mut v: Vec<char> = Vec::new();
    if i < 0 {
        v.push('-');
        let m: u128 = (-(i as i128)) as u128;
        text::push_number(&mut v, m);
    } else {
        text::push_number(&mut v, i as u128);
    }
    assert(v@ =~= text::int_text(i as int));
    text::string_of(&v)
}

} // verus!
