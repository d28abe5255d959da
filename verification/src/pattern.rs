//! Pattern matching for `LIKE` and a small glob/regex subset.
//!
//! Predicate pushdown needs to evaluate `LIKE` patterns and simple wildcard
//! globs against text columns. This module compiles a pattern once into a
//! token program and then matches it against many strings, which is much
//! cheaper than re-parsing per row. Three surfaces are supported:
//!
//! - SQL `LIKE`: `%` matches any run, `_` matches one character, `\` escapes.
//! - Shell glob: `*`, `?`, and `[a-z]` character classes.
//! - A tiny regex subset: literals, `.`, `*` (greedy, applied to the previous
//!   atom), `^`/`$` anchors, and `[...]` classes.

use crate::text;
use vstd::prelude::*;

verus! {

/// A compiled `LIKE` pattern.
#[derive(Debug, Clone, PartialEq, Eq)]
pub struct Like {
    tokens: Vec<LikeToken>,
}

#[derive(Debug, Clone, Copy, PartialEq, Eq, Structural)]
pub enum LikeToken {
    Literal(char),
    /// `_`
    Any,
    /// `%`
    AnyRun,
}

/// The tokens of a `LIKE` pattern.
pub open spec fn like_tokens(p: Seq<char>) -> Seq<LikeToken> {
    like_from(p, Seq::empty())
}

/// The tokens `done` followed by those of the rest of a pattern.
pub open spec fn like_from(p: Seq<char>, done: Seq<LikeToken>) -> Seq<LikeToken>
    decreases p.len(),
{
    if p.len() == 0 {
        done
    } else if p[0] == '\\' {
        if p.len() >= 2 {
            like_from(p.skip(2), done.push(LikeToken::Literal(p[1])))
        } else {
            done.push(LikeToken::Literal('\\'))
        }
    } else if p[0] == '%' {
        if done.len() > 0 && done.last() == LikeToken::AnyRun {
            like_from(p.skip(1), done)
        } else {
            like_from(p.skip(1), done.push(LikeToken::AnyRun))
        }
    } else if p[0] == '_' {
        like_from(p.skip(1), done.push(LikeToken::Any))
    } else {
        like_from(p.skip(1), done.push(LikeToken::Literal(p[0])))
    }
}

/// Tokens match a text.
pub open spec fn likes(t: Seq<LikeToken>, s: Seq<char>) -> bool
    decreases t.len(),
{
    if t.len() == 0 {
        s.len() == 0
    } else {
        match t[0] {
            LikeToken::Literal(c) => s.len() > 0 && s[0] == c && likes(t.skip(1), s.skip(1)),
            LikeToken::Any => s.len() > 0 && likes(t.skip(1), s.skip(1)),
            LikeToken::AnyRun => exists|k: int| 0 <= k <= s.len() && likes(t.skip(1), #[trigger] s.skip(k)),
        }
    }
}

/// A second `%` beside a first changes nothing.
pub proof fn lemma_percent_collapses(t: Seq<LikeToken>, s: Seq<char>)
    requires
        t.len() > 0,
        t[0] == LikeToken::AnyRun,
    ensures
        likes(seq![LikeToken::AnyRun] + t, s) == likes(t, s),
{
    let u = seq![LikeToken::AnyRun] + t;
    assert(u.skip(1) =~= t);
    assert(u[0] == LikeToken::AnyRun);
    assert(s.skip(0) =~= s);
    if likes(t, s) {
        assert(likes(u.skip(1), s.skip(0)));
    }
    if likes(u, s) {
        let k = choose|k: int| 0 <= k <= s.len() && likes(u.skip(1), #[trigger] s.skip(k));
        assert(likes(t, s.skip(k)));
        let j = choose|j: int| 0 <= j <= s.skip(k).len() && likes(t.skip(1), #[trigger] s.skip(k).skip(j));
        assert(s.skip(k).skip(j) =~= s.skip(k + j));
        assert(likes(t.skip(1), s.skip(k + j)));
    }
}

/// Tokens that are all literals match the text they spell, and no other.
pub proof fn lemma_literal_like(t: Seq<LikeToken>, s: Seq<char>)
    requires
        forall|i: int| 0 <= i < t.len() ==> (#[trigger] t[i]) is Literal,
    ensures
        likes(t, s) == (s == Seq::new(t.len(), |i: int| t[i]->Literal_0)),
    decreases t.len(),
{
    let w = Seq::new(t.len(), |i: int| t[i]->Literal_0);
    if t.len() == 0 {
        assert(w =~= Seq::empty());
        assert(s.len() == 0 ==> s =~= w);
    } else {
        assert(t[0] is Literal);
        let u = t.skip(1);
        let v = Seq::new(u.len(), |i: int| u[i]->Literal_0);
        assert(v =~= w.skip(1));
        assert(likes(u, s.skip(1)) == (s.skip(1) == v)) by {
            assert forall|i: int| 0 <= i < u.len() implies (#[trigger] u[i]) is Literal by {
                assert(u[i] == t[i + 1]);
            }
            lemma_literal_like(u, s.skip(1));
        }
        if likes(t, s) {
            assert(s =~= seq![s[0]] + s.skip(1));
            assert(s =~= w);
        }
    }
}

impl Like {
    pub closed spec fn toks(self) -> Seq<LikeToken> {
        self.tokens@
    }

    /// Compile a `LIKE` pattern with `\` as the escape character.
    pub fn compile(pattern: &str) -> (r: Like)
        ensures
            r.toks() == like_tokens(pattern@),
    {
        let chars = text::chars_of(pattern);
        let mut tokens: Vec<LikeToken> = Vec::new();
        let mut i: usize = 0;
        assert(chars@.skip(0) =~= chars@);
        assert(tokens@ =~= Seq::<LikeToken>::empty());
        while i < chars.len()
            invariant
                i <= chars@.len(),
                like_from(chars@.skip(i as int), tokens@) == like_tokens(chars@),
            decreases chars@.len() - i,
        {
            let c: char = chars[i];
            let ghost p = chars@.skip(i as int);
            assert(p[0] == c);
            assert(p.skip(1) =~= chars@.skip(i + 1));
            i += 1;
            if c == '\\' {
                if i < chars.len() {
                    assert(p[1] == chars@[i as int]);
                    assert(p.skip(2) =~= chars@.skip(i + 1));
                    tokens.push(LikeToken::Literal(chars[i]));
                    i += 1;
                } else {
                    tokens.push(LikeToken::Literal('\\'));
                    assert(chars@.skip(i as int).len() == 0);
                }
            } else if c == '%' {
                if tokens.len() == 0 || tokens[tokens.len() - 1] != LikeToken::AnyRun {
                    tokens.push(LikeToken::AnyRun);
                }
            } else if c == '_' {
                tokens.push(LikeToken::Any);
            } else {
                tokens.push(LikeToken::Literal(c));
            }
        }
        assert(chars@.skip(i as int).len() == 0);
        Like { tokens }
    }

    /// `true` if `text` matches the pattern.
    pub fn matches(&self, text: &str) -> (r: bool)
        ensures
            r == likes(self.toks(), text@),
    {
        let chars = text::chars_of(text);
        assert(self.tokens@.skip(0) =~= self.tokens@);
        assert(chars@.skip(0) =~= chars@);
        like_match(&self.tokens, 0, &chars, 0)
    }
}

fn like_match(tokens: &Vec<LikeToken>, ti: usize, text: &Vec<char>, si: usize) -> (r: bool)
    requires
        ti <= tokens@.len(),
        si <= text@.len(),
    ensures
        r == likes(tokens@.skip(ti as int), text@.skip(si as int)),
    decreases tokens@.len() - ti,
{
    let ghost t = tokens@.skip(ti as int);
    let ghost s = text@.skip(si as int);
    if ti == tokens.len() {
        return si == text.len();
    }
    assert(t[0] == tokens@[ti as int]);
    assert(t.skip(1) =~= tokens@.skip(ti + 1));
    if si < text.len() {
        assert(s[0] == text@[si as int]);
        assert(s.skip(1) =~= text@.skip(si + 1));
    }
    match tokens[ti] {
        LikeToken::Literal(c) => si < text.len() && text[si] == c && like_match(tokens, ti + 1, text, si + 1),
        LikeToken::Any => si < text.len() && like_match(tokens, ti + 1, text, si + 1),
        LikeToken::AnyRun => {
            let next: usize = ti + 1;
            let mut skip: usize = si;
            loop
                invariant
                    ti < tokens@.len(),
                    next == ti + 1,
                    si <= skip <= text@.len(),
                    t == tokens@.skip(ti as int),
                    t.skip(1) == tokens@.skip(ti + 1),
                    t[0] == LikeToken::AnyRun,
                    t.len() > 0,
                    s == text@.skip(si as int),
                    forall|k: int| 0 <= k < skip - si ==> !likes(t.skip(1), #[trigger] s.skip(k)),
                decreases text@.len() - skip,
            {
                assert(s.skip(skip - si) =~= text@.skip(skip as int));
                if like_match(tokens, next, text, skip) {
                    assert(likes(t.skip(1), s.skip(skip - si)));
                    return true;
                }
                if skip == text.len() {
                    return false;
                }
                skip += 1;
            }
        },
    }
}

/// A character class: what it holds, or, negated, what it does not.
#[derive(Debug, Clone)]
pub struct Class {
    pub negated: bool,
    pub ranges: Vec<(char, char)>,
}

/// The model of a character class.
#[verifier::ext_equal]
pub struct ClassModel {
    pub negated: bool,
    pub ranges: Seq<(char, char)>,
}

/// A class holds a character.
pub open spec fn in_class(m: ClassModel, c: char) -> bool {
    (exists|i: int| 0 <= i < m.ranges.len() && in_range(#[trigger] m.ranges[i], c)) != m.negated
}

pub open spec fn in_range(r: (char, char), c: char) -> bool {
    r.0 as int <= c as int <= r.1 as int
}

/// The ranges `done` followed by those of a class body, and the length read, the
/// closing bracket counted.
pub open spec fn class_ranges(p: Seq<char>, at: int, done: Seq<(char, char)>) -> (Seq<(char, char)>, int)
    decreases p.len() - at,
{
    if at < 0 || at >= p.len() {
        (done, at)
    } else if p[at] == ']' {
        (done, at + 1)
    } else if at + 1 < p.len() && p[at + 1] == '-' {
        if at + 2 < p.len() && p[at + 2] != ']' {
            class_ranges(p, at + 3, done.push((p[at], p[at + 2])))
        } else {
            class_ranges(p, at + 2, done.push((p[at], p[at])).push(('-', '-')))
        }
    } else {
        class_ranges(p, at + 1, done.push((p[at], p[at])))
    }
}

/// The class whose body starts at `at`, and where the pattern goes on.
pub open spec fn class_at(p: Seq<char>, at: int) -> (ClassModel, int) {
    let negated = at < p.len() && (p[at] == '!' || p[at] == '^');
    let (ranges, end) = class_ranges(
        p,
        if negated {
            at + 1
        } else {
            at
        },
        Seq::empty(),
    );
    (ClassModel { negated, ranges }, end)
}

pub proof fn lemma_class_end(p: Seq<char>, at: int, done: Seq<(char, char)>)
    requires
        0 <= at <= p.len(),
    ensures
        at <= class_ranges(p, at, done).1 <= p.len(),
    decreases p.len() - at,
{
    if at < p.len() && p[at] != ']' {
        if at + 1 < p.len() && p[at + 1] == '-' {
            if at + 2 < p.len() && p[at + 2] != ']' {
                lemma_class_end(p, at + 3, done.push((p[at], p[at + 2])));
            } else {
                lemma_class_end(p, at + 2, done.push((p[at], p[at])).push(('-', '-')));
            }
        } else {
            lemma_class_end(p, at + 1, done.push((p[at], p[at])));
        }
    }
}

impl Class {
    pub open spec fn model(self) -> ClassModel {
        ClassModel { negated: self.negated, ranges: self.ranges@ }
    }

    /// Whether the class holds a character.
    pub fn holds(&self, c: char) -> (r: bool)
        ensures
            r == in_class(self.model(), c),
    {
        let mut hit = false;
        let mut i: usize = 0;
        while i < self.ranges.len()
            invariant
                i <= self.ranges@.len(),
                hit == (exists|j: int| 0 <= j < i && in_range(#[trigger] self.ranges@[j], c)),
            decreases self.ranges@.len() - i,
        {
            let r = self.ranges[i];
            if r.0 <= c && c <= r.1 {
                assert(in_range(self.ranges@[i as int], c));
                hit = true;
            }
            i += 1;
        }
        assert(self.model().ranges == self.ranges@);
        assert(hit == (exists|j: int| 0 <= j < self.model().ranges.len() && in_range(#[trigger] self.model().ranges[j], c)));
        hit != self.negated
    }
}

fn parse_class(chars: &Vec<char>, start: usize) -> (r: (Class, usize))
    requires
        start <= chars@.len(),
    ensures
        (r.0.model(), r.1 as int) == class_at(chars@, start as int),
        start <= r.1 <= chars@.len(),
{
    let mut at: usize = start;
    let negated: bool = at < chars.len() && (chars[at] == '!' || chars[at] == '^');
    if negated {
        at += 1;
    }
    let mut ranges: Vec<(char, char)> = Vec::new();
    let ghost whole = class_ranges(chars@, at as int, Seq::empty());
    proof {
        lemma_class_end(chars@, at as int, Seq::empty());
        assert(ranges@ =~= Seq::<(char, char)>::empty());
    }
    while at < chars.len() && chars[at] != ']'
        invariant
            start <= at <= chars@.len(),
            class_ranges(chars@, at as int, ranges@) == whole,
        decreases chars@.len() - at,
    {
        let c: char = chars[at];
        if at + 1 < chars.len() && chars[at + 1] == '-' {
            if at + 2 < chars.len() && chars[at + 2] != ']' {
                ranges.push((c, chars[at + 2]));
                at += 3;
            } else {
                ranges.push((c, c));
                ranges.push(('-', '-'));
                at += 2;
            }
        } else {
            ranges.push((c, c));
            at += 1;
        }
    }
    if at < chars.len() {
        at += 1;
    }
    (Class { negated, ranges }, at)
}

/// A compiled glob pattern.
#[derive(Debug, Clone)]
pub struct Glob {
    tokens: Vec<GlobToken>,
}

#[derive(Debug, Clone)]
pub enum GlobToken {
    Literal(char),
    /// `?`
    Any,
    /// `*`
    Star,
    Class(Class),
}

/// The model of a glob token.
pub enum GlobModel {
    Literal(char),
    Any,
    Star,
    Class(ClassModel),
}

impl GlobToken {
    pub open spec fn model(self) -> GlobModel {
        match self {
            GlobToken::Literal(c) => GlobModel::Literal(c),
            GlobToken::Any => GlobModel::Any,
            GlobToken::Star => GlobModel::Star,
            GlobToken::Class(k) => GlobModel::Class(k.model()),
        }
    }
}

pub open spec fn glob_models(t: Seq<GlobToken>) -> Seq<GlobModel> {
    Seq::new(t.len(), |i: int| t[i].model())
}

/// The tokens `done` followed by those of the pattern from `at` on.
pub open spec fn glob_from(p: Seq<char>, at: int, done: Seq<GlobModel>) -> Seq<GlobModel>
    decreases p.len() - at,
{
    if at < 0 || at >= p.len() {
        done
    } else if p[at] == '*' {
        if done.len() > 0 && done.last() is Star {
            glob_from(p, at + 1, done)
        } else {
            glob_from(p, at + 1, done.push(GlobModel::Star))
        }
    } else if p[at] == '?' {
        glob_from(p, at + 1, done.push(GlobModel::Any))
    } else if p[at] == '[' {
        let (class, end) = class_at(p, at + 1);
        if end <= at || end > p.len() {
            done
        } else {
            glob_from(p, end, done.push(GlobModel::Class(class)))
        }
    } else if p[at] == '\\' {
        if at + 1 < p.len() {
            glob_from(p, at + 2, done.push(GlobModel::Literal(p[at + 1])))
        } else {
            done
        }
    } else {
        glob_from(p, at + 1, done.push(GlobModel::Literal(p[at])))
    }
}

/// Glob tokens match a text.
pub open spec fn globs(t: Seq<GlobModel>, s: Seq<char>) -> bool
    decreases t.len(),
{
    if t.len() == 0 {
        s.len() == 0
    } else {
        match t[0] {
            GlobModel::Literal(c) => s.len() > 0 && s[0] == c && globs(t.skip(1), s.skip(1)),
            GlobModel::Any => s.len() > 0 && globs(t.skip(1), s.skip(1)),
            GlobModel::Class(m) => s.len() > 0 && in_class(m, s[0]) && globs(t.skip(1), s.skip(1)),
            GlobModel::Star => exists|k: int| 0 <= k <= s.len() && globs(t.skip(1), #[trigger] s.skip(k)),
        }
    }
}

impl Glob {
    pub closed spec fn toks(self) -> Seq<GlobModel> {
        glob_models(self.tokens@)
    }

    /// Compile a shell-style glob.
    pub fn compile(pattern: &str) -> (r: Glob)
        ensures
            r.toks() == glob_from(pattern@, 0, Seq::empty()),
    {
        let chars = text::chars_of(pattern);
        let mut tokens: Vec<GlobToken> = Vec::new();
        let mut i: usize = 0;
        assert(glob_models(tokens@) =~= Seq::<GlobModel>::empty());
        while i < chars.len()
            invariant
                i <= chars@.len(),
                glob_from(chars@, i as int, glob_models(tokens@)) == glob_from(chars@, 0, Seq::empty()),
            decreases chars@.len() - i,
        {
            let c: char = chars[i];
            let ghost was = tokens@;
            i += 1;
            if c == '*' {
                let starred: bool = tokens.len() > 0 && is_star(&tokens[tokens.len() - 1]);
                if !starred {
                    tokens.push(GlobToken::Star);
                    assert(glob_models(tokens@) =~= glob_models(was).push(GlobModel::Star));
                }
            } else if c == '?' {
                tokens.push(GlobToken::Any);
                assert(glob_models(tokens@) =~= glob_models(was).push(GlobModel::Any));
            } else if c == '[' {
                let (class, end) = parse_class(&chars, i);
                i = end;
                tokens.push(GlobToken::Class(class));
                assert(glob_models(tokens@) =~= glob_models(was).push(GlobModel::Class(class.model())));
            } else if c == '\\' {
                if i < chars.len() {
                    let token = literal(chars[i]);
                    tokens.push(token);
                    assert(glob_models(tokens@) =~= glob_models(was).push(token.model()));
                    i += 1;
                }
            } else {
                let token = literal(c);
                tokens.push(token);
                assert(glob_models(tokens@) =~= glob_models(was).push(token.model()));
            }
        }
        Glob { tokens }
    }

    /// `true` if `text` matches.
    pub fn matches(&self, text: &str) -> (r: bool)
        ensures
            r == globs(self.toks(), text@),
    {
        let chars = text::chars_of(text);
        assert(glob_models(self.tokens@).skip(0) =~= glob_models(self.tokens@));
        assert(chars@.skip(0) =~= chars@);
        glob_match(&self.tokens, 0, &chars, 0)
    }
}

fn literal(c: char) -> (r: GlobToken)
    ensures
        r == GlobToken::Literal(c),
{
    GlobToken::Literal(c)
}

fn is_star(t: &GlobToken) -> (r: bool)
    ensures
        r == (t.model() is Star),
{
    match t {
        GlobToken::Star => true,
        _ => false,
    }
}

fn glob_match(tokens: &Vec<GlobToken>, ti: usize, text: &Vec<char>, si: usize) -> (r: bool)
    requires
        ti <= tokens@.len(),
        si <= text@.len(),
    ensures
        r == globs(glob_models(tokens@).skip(ti as int), text@.skip(si as int)),
    decreases tokens@.len() - ti,
{
    let ghost t = glob_models(tokens@).skip(ti as int);
    let ghost s = text@.skip(si as int);
    if ti == tokens.len() {
        return si == text.len();
    }
    assert(t[0] == tokens@[ti as int].model());
    assert(t.skip(1) =~= glob_models(tokens@).skip(ti + 1));
    if si < text.len() {
        assert(s[0] == text@[si as int]);
        assert(s.skip(1) =~= text@.skip(si + 1));
    }
    match &tokens[ti] {
        GlobToken::Literal(c) => si < text.len() && text[si] == *c && glob_match(tokens, ti + 1, text, si + 1),
        GlobToken::Any => si < text.len() && glob_match(tokens, ti + 1, text, si + 1),
        GlobToken::Class(class) => si < text.len() && class.holds(text[si]) && glob_match(
            tokens,
            ti + 1,
            text,
            si + 1,
        ),
        GlobToken::Star => {
            let next: usize = ti + 1;
            let mut skip: usize = si;
            loop
                invariant
                    ti < tokens@.len(),
                    next == ti + 1,
                    si <= skip <= text@.len(),
                    t == glob_models(tokens@).skip(ti as int),
                    t.skip(1) == glob_models(tokens@).skip(ti + 1),
                    t[0] is Star,
                    t.len() > 0,
                    s == text@.skip(si as int),
                    forall|k: int| 0 <= k < skip - si ==> !globs(t.skip(1), #[trigger] s.skip(k)),
                decreases text@.len() - skip,
            {
                assert(s.skip(skip - si) =~= text@.skip(skip as int));
                if glob_match(tokens, next, text, skip) {
                    assert(globs(t.skip(1), s.skip(skip - si)));
                    return true;
                }
                if skip == text.len() {
                    return false;
                }
                skip += 1;
            }
        },
    }
}

/// A compiled tiny regex.
#[derive(Debug, Clone)]
pub struct Regex {
    atoms: Vec<Atom>,
    anchored_start: bool,
    anchored_end: bool,
}

#[derive(Debug, Clone)]
pub struct Atom {
    pub kind: AtomKind,
    pub star: bool,
}

#[derive(Debug, Clone)]
pub enum AtomKind {
    Literal(char),
    Dot,
    Class(Class),
}

/// The model of an atom.
pub struct AtomModel {
    pub kind: AtomKindModel,
    pub star: bool,
}

pub enum AtomKindModel {
    Literal(char),
    Dot,
    Class(ClassModel),
}

/// The model of a regex.
#[verifier::ext_equal]
pub struct RegexModel {
    pub atoms: Seq<AtomModel>,
    pub anchored_start: bool,
    pub anchored_end: bool,
}

impl Atom {
    pub open spec fn model(self) -> AtomModel {
        AtomModel {
            kind: match self.kind {
                AtomKind::Literal(c) => AtomKindModel::Literal(c),
                AtomKind::Dot => AtomKindModel::Dot,
                AtomKind::Class(k) => AtomKindModel::Class(k.model()),
            },
            star: self.star,
        }
    }
}

pub open spec fn atom_models(a: Seq<Atom>) -> Seq<AtomModel> {
    Seq::new(a.len(), |i: int| a[i].model())
}

/// The kind of the atom at `at`, and where it ends.
pub open spec fn kind_at(p: Seq<char>, at: int) -> (AtomKindModel, int) {
    if p[at] == '.' {
        (AtomKindModel::Dot, at + 1)
    } else if p[at] == '[' {
        let (class, end) = class_at(p, at + 1);
        (AtomKindModel::Class(class), end)
    } else if p[at] == '\\' {
        if at + 1 < p.len() {
            (AtomKindModel::Literal(p[at + 1]), at + 2)
        } else {
            (AtomKindModel::Literal('\\'), at + 1)
        }
    } else {
        (AtomKindModel::Literal(p[at]), at + 1)
    }
}

/// The atoms `done` followed by those of the pattern from `at` on, and whether
/// the pattern ends in an anchor.
pub open spec fn atoms_from(p: Seq<char>, at: int, done: Seq<AtomModel>) -> (Seq<AtomModel>, bool)
    decreases p.len() - at,
{
    if at < 0 || at >= p.len() {
        (done, false)
    } else if p[at] == '$' && at + 1 == p.len() {
        (done, true)
    } else {
        let (kind, end) = kind_at(p, at);
        let star = end < p.len() && p[end] == '*';
        if end <= at || end > p.len() {
            (done, false)
        } else {
            atoms_from(
                p,
                if star {
                    end + 1
                } else {
                    end
                },
                done.push(AtomModel { kind, star }),
            )
        }
    }
}

/// What a pattern compiles to.
pub open spec fn regex_of(p: Seq<char>) -> RegexModel {
    let anchored_start = p.len() > 0 && p[0] == '^';
    let (atoms, anchored_end) = atoms_from(
        p,
        if anchored_start {
            1
        } else {
            0
        },
        Seq::empty(),
    );
    RegexModel { atoms, anchored_start, anchored_end }
}

/// An atom takes a character.
pub open spec fn takes(k: AtomKindModel, c: char) -> bool {
    match k {
        AtomKindModel::Literal(l) => l == c,
        AtomKindModel::Dot => true,
        AtomKindModel::Class(m) => in_class(m, c),
    }
}

/// An atom takes each of the first `n` characters.
pub open spec fn takes_run(k: AtomKindModel, s: Seq<char>, n: int) -> bool {
    &&& 0 <= n <= s.len()
    &&& forall|i: int| 0 <= i < n ==> takes(k, #[trigger] s[i])
}

/// Atoms match the front of a text, or all of it where the end is anchored.
pub open spec fn fits(a: Seq<AtomModel>, anchored_end: bool, s: Seq<char>) -> bool
    decreases a.len(),
{
    if a.len() == 0 {
        !anchored_end || s.len() == 0
    } else if a[0].star {
        exists|n: int| takes_run(a[0].kind, s, n) && fits(a.skip(1), anchored_end, #[trigger] s.skip(n))
    } else {
        s.len() > 0 && takes(a[0].kind, s[0]) && fits(a.skip(1), anchored_end, s.skip(1))
    }
}

/// A regex is found in a text.
pub open spec fn found_in(r: RegexModel, s: Seq<char>) -> bool {
    if r.anchored_start {
        fits(r.atoms, r.anchored_end, s)
    } else {
        exists|k: int| 0 <= k <= s.len() && fits(r.atoms, r.anchored_end, #[trigger] s.skip(k))
    }
}

impl Regex {
    pub closed spec fn model(self) -> RegexModel {
        RegexModel {
            atoms: atom_models(self.atoms@),
            anchored_start: self.anchored_start,
            anchored_end: self.anchored_end,
        }
    }

    /// Compile a tiny regex subset. A class without its closing bracket runs to
    /// the end of the pattern.
    pub fn compile(pattern: &str) -> (r: Regex)
        ensures
            r.model() == regex_of(pattern@),
    {
        let chars = text::chars_of(pattern);
        let mut atoms: Vec<Atom> = Vec::new();
        let mut at: usize = 0;
        let anchored_start: bool = chars.len() > 0 && chars[0] == '^';
        if anchored_start {
            at = 1;
        }
        let ghost whole = atoms_from(chars@, at as int, Seq::empty());
        assert(atom_models(atoms@) =~= Seq::<AtomModel>::empty());
        while at < chars.len()
            invariant
                at <= chars@.len(),
                whole == atoms_from(
                    chars@,
                    if anchored_start {
                        1
                    } else {
                        0
                    },
                    Seq::empty(),
                ),
                anchored_start == (chars@.len() > 0 && chars@[0] == '^'),
                chars@ == pattern@,
                atoms_from(chars@, at as int, atom_models(atoms@)) == whole,
            decreases chars@.len() - at,
        {
            let c: char = chars[at];
            let ghost was = atoms@;
            if c == '$' && at + 1 == chars.len() {
                return Regex { atoms, anchored_start, anchored_end: true };
            }
            let ghost from = at as int;
            at += 1;
            let kind = if c == '.' {
                AtomKind::Dot
            } else if c == '[' {
                let (class, end) = parse_class(&chars, at);
                at = end;
                AtomKind::Class(class)
            } else if c == '\\' {
                if at < chars.len() {
                    at += 1;
                    AtomKind::Literal(chars[at - 1])
                } else {
                    AtomKind::Literal('\\')
                }
            } else {
                AtomKind::Literal(c)
            };
            let star: bool = at < chars.len() && chars[at] == '*';
            let atom = Atom::new(kind, star);
            assert((atom.model().kind, at as int) == kind_at(chars@, from));
            if star {
                at += 1;
            }
            atoms.push(atom);
            assert(atom_models(atoms@) =~= atom_models(was).push(atom.model()));
        }
        Regex { atoms, anchored_start, anchored_end: false }
    }

    /// `true` if the regex matches anywhere in `text` (respecting anchors).
    pub fn is_match(&self, text: &str) -> (r: bool)
        ensures
            r == found_in(self.model(), text@),
    {
        let chars = text::chars_of(text);
        let ghost a = atom_models(self.atoms@);
        assert(a.skip(0) =~= a);
        assert(chars@.skip(0) =~= chars@);
        if self.anchored_start {
            return self.match_from(0, &chars, 0);
        }
        let mut start: usize = 0;
        loop
            invariant
                start <= chars@.len(),
                chars@ == text@,
                self.model().atoms == a,
                !self.anchored_start,
                a == atom_models(self.atoms@),
                a.skip(0) == a,
                forall|k: int| 0 <= k < start ==> !fits(a, self.anchored_end, #[trigger] chars@.skip(k)),
            decreases chars@.len() - start,
        {
            if self.match_from(0, &chars, start) {
                assert(fits(a, self.anchored_end, chars@.skip(start as int)));
                return true;
            }
            if start == chars.len() {
                return false;
            }
            start += 1;
        }
    }

    fn match_from(&self, ai: usize, text: &Vec<char>, si: usize) -> (r: bool)
        requires
            ai <= self.atoms@.len(),
            si <= text@.len(),
        ensures
            r == fits(atom_models(self.atoms@).skip(ai as int), self.anchored_end, text@.skip(si as int)),
        decreases self.atoms@.len() - ai,
    {
        let ghost a = atom_models(self.atoms@).skip(ai as int);
        let ghost s = text@.skip(si as int);
        if ai == self.atoms.len() {
            return !self.anchored_end || si == text.len();
        }
        let atom = &self.atoms[ai];
        assert(a[0] == atom.model());
        assert(a.skip(1) =~= atom_models(self.atoms@).skip(ai + 1));
        if si < text.len() {
            assert(s[0] == text@[si as int]);
            assert(s.skip(1) =~= text@.skip(si + 1));
        }
        if atom.star {
            let mut count: usize = 0;
            while count < text.len() - si && atom.accepts(text[si + count])
                invariant
                    si + count <= text@.len(),
                    s == text@.skip(si as int),
                    takes_run(atom.model().kind, s, count as int),
                decreases text@.len() - si - count,
            {
                assert(s[count as int] == text@[si + count]);
                count += 1;
            }
            proof {
                assert(count < s.len() ==> !takes(atom.model().kind, s[count as int]));
                assert forall|n: int| n > count implies !#[trigger] takes_run(a[0].kind, s, n) by {
                    if takes_run(a[0].kind, s, n) {
                        assert(takes(a[0].kind, s[count as int]));
                    }
                }
            }
            let next: usize = ai + 1;
            let mut take: usize = count;
            let ghost most = count as int;
            loop
                invariant
                    ai < self.atoms@.len(),
                    next == ai + 1,
                    take <= most,
                    most == count,
                    si + count <= text.len(),
                    si + most <= text@.len(),
                    s == text@.skip(si as int),
                    a == atom_models(self.atoms@).skip(ai as int),
                    a.skip(1) == atom_models(self.atoms@).skip(ai + 1),
                    a.len() > 0,
                    a[0].star,
                    takes_run(a[0].kind, s, most),
                    forall|n: int| n > most ==> !#[trigger] takes_run(a[0].kind, s, n),
                    forall|n: int| take < n <= most ==> !fits(a.skip(1), self.anchored_end, #[trigger] s.skip(n)),
                decreases take,
            {
                assert(s.skip(take as int) =~= text@.skip(si + take));
                if self.match_from(next, text, si + take) {
                    assert(takes_run(a[0].kind, s, take as int));
                    assert(fits(a.skip(1), self.anchored_end, s.skip(take as int)));
                    return true;
                }
                if take == 0 {
                    assert forall|n: int| takes_run(a[0].kind, s, n) implies !fits(
                        a.skip(1),
                        self.anchored_end,
                        #[trigger] s.skip(n),
                    ) by {
                    }
                    return false;
                }
                take -= 1;
            }
        } else if si < text.len() && atom.accepts(text[si]) {
            self.match_from(ai + 1, text, si + 1)
        } else {
            false
        }
    }
}

impl Atom {
    fn new(kind: AtomKind, star: bool) -> (r: Atom)
        ensures
            r == (Atom { kind, star }),
    {
        Atom { kind, star }
    }

    /// Whether the atom takes a character.
    pub fn accepts(&self, c: char) -> (r: bool)
        ensures
            r == takes(self.model().kind, c),
    {
        match &self.kind {
            AtomKind::Literal(l) => *l == c,
            AtomKind::Dot => true,
            AtomKind::Class(class) => class.holds(c),
        }
    }
}

// What patterns mean

/// The tokens of a pattern behind others: a run of any characters beside another one is
/// not repeated.
proof fn lemma_like_behind(p: Seq<char>, done: Seq<LikeToken>)
    ensures
        ({
            let t = like_from(p, Seq::empty());
            like_from(p, done) == if done.len() > 0 && done.last() == LikeToken::AnyRun && t.len() > 0 && t[0]
                == LikeToken::AnyRun {
                done + t.skip(1)
            } else {
                done + t
            }
        }),
    decreases p.len(), 1int,
{
    let none = Seq::<LikeToken>::empty();
    let t = like_from(p, none);
    if p.len() == 0 {
        assert(done + t =~= done);
    } else if p[0] == '\\' && p.len() < 2 {
        assert(none.push(LikeToken::Literal('\\')) =~= seq![LikeToken::Literal('\\')]);
        assert(done + t =~= done.push(LikeToken::Literal('\\')));
    } else if p[0] == '%' {
        let q = p.skip(1);
        let u = like_from(q, none);
        let one = none.push(LikeToken::AnyRun);
        lemma_like_behind(q, one);
        lemma_like_behind(q, done);
        lemma_like_behind(q, done.push(LikeToken::AnyRun));
        assert(one =~= seq![LikeToken::AnyRun]);
        if u.len() > 0 && u[0] == LikeToken::AnyRun {
            assert(one + u.skip(1) =~= u);
            if done.len() > 0 && done.last() == LikeToken::AnyRun {
                assert(t =~= u);
            } else {
                assert(done.push(LikeToken::AnyRun) + u.skip(1) =~= done + t);
            }
        } else {
            if done.len() > 0 && done.last() == LikeToken::AnyRun {
                assert(t.skip(1) =~= u);
            } else {
                assert(done.push(LikeToken::AnyRun) + u =~= done + t);
            }
        }
    } else {
        let x = if p[0] == '\\' {
            LikeToken::Literal(p[1])
        } else if p[0] == '_' {
            LikeToken::Any
        } else {
            LikeToken::Literal(p[0])
        };
        let n: int = if p[0] == '\\' {
            2
        } else {
            1
        };
        lemma_like_other(p, done, x, n);
    }
}

/// The tokens of a pattern that does not begin with a run, behind others.
proof fn lemma_like_other(p: Seq<char>, done: Seq<LikeToken>, x: LikeToken, n: int)
    requires
        p.len() >= n,
        p[0] == '\\' && n == 2 && x == LikeToken::Literal(p[1]) || n == 1 && p[0] == '_' && x == LikeToken::Any || n == 1 && p[0]
            != '\\' && p[0] != '%' && p[0] != '_' && x == LikeToken::Literal(p[0]),
    ensures
        like_from(p, done) == done + like_from(p, Seq::empty()),
        like_from(p, Seq::empty()).len() > 0,
        like_from(p, Seq::empty())[0] == x,
    decreases p.len(), 0int,
{
    let none = Seq::<LikeToken>::empty();
    let q = p.skip(n);
    let u = like_from(q, none);
    lemma_like_step(p, none, x, n);
    lemma_like_step(p, done, x, n);
    lemma_like_behind(q, none.push(x));
    lemma_like_behind(q, done.push(x));
    lemma_like_front(none, x, u);
    lemma_like_front(done, x, u);
}

/// A token behind others and before others stands between them.
proof fn lemma_like_front(done: Seq<LikeToken>, x: LikeToken, u: Seq<LikeToken>)
    ensures
        done.push(x).last() == x,
        done.push(x).len() == done.len() + 1,
        done.push(x) + u == done + (Seq::<LikeToken>::empty().push(x) + u),
        (Seq::<LikeToken>::empty().push(x) + u)[0] == x,
{
    assert(done.push(x) + u =~= done + (Seq::<LikeToken>::empty().push(x) + u));
}

proof fn lemma_like_step(p: Seq<char>, done: Seq<LikeToken>, x: LikeToken, n: int)
    requires
        p.len() >= n,
        p[0] == '\\' && n == 2 && x == LikeToken::Literal(p[1]) || n == 1 && p[0] == '_' && x == LikeToken::Any || n == 1 && p[0]
            != '\\' && p[0] != '%' && p[0] != '_' && x == LikeToken::Literal(p[0]),
    ensures
        like_from(p, done) == like_from(p.skip(n), done.push(x)),
{
}

/// What a `LIKE` pattern matches, from its front: nothing matches nothing; `_` any one
/// character; `%` any number of them; a character behind a backslash itself; and any
/// other character itself.
pub proof fn lemma_like(c: char, p: Seq<char>, s: Seq<char>)
    ensures
        likes(like_tokens(Seq::empty()), s) <==> s.len() == 0,
        likes(like_tokens(seq!['_'] + p), s) <==> s.len() > 0 && likes(like_tokens(p), s.skip(1)),
        likes(like_tokens(seq!['%'] + p), s) <==> exists|k: int| 0 <= k <= s.len() && likes(like_tokens(p), #[trigger] s.skip(k)),
        likes(like_tokens(seq!['\\', c] + p), s) <==> s.len() > 0 && s[0] == c && likes(like_tokens(p), s.skip(1)),
        c != '_' && c != '%' && c != '\\' ==> (likes(like_tokens(seq![c] + p), s) <==> s.len() > 0 && s[0] == c && likes(
            like_tokens(p),
            s.skip(1),
        )),
{
    let none = Seq::<LikeToken>::empty();
    let t = like_tokens(p);
    lemma_like_behind(p, none.push(LikeToken::Any));
    lemma_like_behind(p, none.push(LikeToken::AnyRun));
    lemma_like_behind(p, none.push(LikeToken::Literal(c)));
    assert((seq!['_'] + p).skip(1) =~= p);
    assert((seq!['%'] + p).skip(1) =~= p);
    assert((seq!['\\', c] + p).skip(2) =~= p);
    assert((seq![c] + p).skip(1) =~= p);
    assert(none.push(LikeToken::Any) + t =~= seq![LikeToken::Any] + t);
    assert(none.push(LikeToken::Literal(c)) + t =~= seq![LikeToken::Literal(c)] + t);
    assert((seq![LikeToken::Any] + t).skip(1) =~= t);
    assert((seq![LikeToken::Literal(c)] + t).skip(1) =~= t);
    let u = seq![LikeToken::AnyRun] + t;
    assert(u.skip(1) =~= t);
    assert(likes(u, s) <==> exists|k: int| 0 <= k <= s.len() && likes(t, #[trigger] s.skip(k)));
    if t.len() > 0 && t[0] == LikeToken::AnyRun {
        lemma_percent_collapses(t, s);
        assert(none.push(LikeToken::AnyRun) + t.skip(1) =~= t);
    } else {
        assert(none.push(LikeToken::AnyRun) + t =~= u);
    }
}

/// What glob tokens match, from their front: a star any number of characters, `?` any
/// one, a class one that it holds, and a character itself.
pub proof fn lemma_globs(c: char, m: ClassModel, t: Seq<GlobModel>, s: Seq<char>)
    ensures
        globs(Seq::empty(), s) <==> s.len() == 0,
        globs(seq![GlobModel::Star] + t, s) <==> exists|k: int| 0 <= k <= s.len() && globs(t, #[trigger] s.skip(k)),
        globs(seq![GlobModel::Any] + t, s) <==> s.len() > 0 && globs(t, s.skip(1)),
        globs(seq![GlobModel::Class(m)] + t, s) <==> s.len() > 0 && in_class(m, s[0]) && globs(t, s.skip(1)),
        globs(seq![GlobModel::Literal(c)] + t, s) <==> s.len() > 0 && s[0] == c && globs(t, s.skip(1)),
{
    assert((seq![GlobModel::Star] + t).skip(1) =~= t);
    assert((seq![GlobModel::Any] + t).skip(1) =~= t);
    assert((seq![GlobModel::Class(m)] + t).skip(1) =~= t);
    assert((seq![GlobModel::Literal(c)] + t).skip(1) =~= t);
}

/// Classes: one of ranges holds what lies in a range, ends included; a negated one holds
/// what lies in none.
pub proof fn lemma_class(lo: char, hi: char, c: char, ranges: Seq<(char, char)>)
    ensures
        in_class((ClassModel { negated: false, ranges: seq![(lo, hi)] }), c) <==> lo <= c <= hi,
        in_class((ClassModel { negated: true, ranges }), c) <==> !in_class((ClassModel { negated: false, ranges }), c),
        in_class((ClassModel { negated: false, ranges: ranges.push((lo, hi)) }), c) <==> lo <= c <= hi || in_class(
            (ClassModel { negated: false, ranges }),
            c,
        ),
        !in_class((ClassModel { negated: false, ranges: Seq::empty() }), c),
{
    let one = seq![(lo, hi)];
    let more = ranges.push((lo, hi));
    let m1 = ClassModel { negated: false, ranges: one };
    let mp = ClassModel { negated: false, ranges };
    let mn = ClassModel { negated: true, ranges };
    let mm = ClassModel { negated: false, ranges: more };
    assert(m1.ranges[0] == (lo, hi));
    assert(mm.ranges[ranges.len() as int] == (lo, hi));
    if lo <= c <= hi {
        assert(in_range(m1.ranges[0], c));
        assert(in_range(mm.ranges[ranges.len() as int], c));
    }
    if in_class(m1, c) {
        let i = choose|i: int| 0 <= i < m1.ranges.len() && in_range(#[trigger] m1.ranges[i], c);
        assert(i == 0);
    }
    if in_class(mp, c) {
        let i = choose|i: int| 0 <= i < mp.ranges.len() && in_range(#[trigger] mp.ranges[i], c);
        assert(mm.ranges[i] == mp.ranges[i]);
        assert(in_range(mn.ranges[i], c));
    }
    if !in_class(mn, c) {
        let i = choose|i: int| 0 <= i < mn.ranges.len() && in_range(#[trigger] mn.ranges[i], c);
        assert(in_range(mp.ranges[i], c));
    }
    if in_class(mm, c) {
        let i = choose|i: int| 0 <= i < mm.ranges.len() && in_range(#[trigger] mm.ranges[i], c);
        if i < ranges.len() {
            assert(in_range(mp.ranges[i], c));
        }
    }
}

/// How the text of a class is read: a range with a dash, a character by itself, and a
/// `!` or `^` in front that negates; the bracket ends it.
pub proof fn lemma_class_text(a: char, b: char)
    requires
        a != ']' && b != ']' && a != '-' && b != '-' && a != '!' && a != '^' && b != '!' && b != '^',
    ensures
        class_at(seq![a, '-', b, ']'], 0) == (ClassModel { negated: false, ranges: seq![(a, b)] }, 4int),
        class_at(seq![a, b, ']'], 0) == (ClassModel { negated: false, ranges: seq![(a, a), (b, b)] }, 3int),
        class_at(seq!['!', a, ']'], 0) == (ClassModel { negated: true, ranges: seq![(a, a)] }, 3int),
        class_at(seq!['^', a, ']'], 0) == (ClassModel { negated: true, ranges: seq![(a, a)] }, 3int),
{
    reveal_with_fuel(class_ranges, 4);
    let none = Seq::<(char, char)>::empty();
    assert(none.push((a, b)) =~= seq![(a, b)]);
    assert(none.push((a, a)) =~= seq![(a, a)]);
    assert(none.push((a, a)).push((b, b)) =~= seq![(a, a), (b, b)]);
}

/// What a regex matches from its front: an atom one character that it takes, a starred
/// atom any number of them, none included; at the end of the atoms anything may follow,
/// or nothing where the end is anchored.
pub proof fn lemma_fits(k: AtomKindModel, a: Seq<AtomModel>, s: Seq<char>, c: char, m: ClassModel)
    ensures
        fits(Seq::empty(), false, s),
        fits(Seq::empty(), true, s) <==> s.len() == 0,
        fits(seq![AtomModel { kind: k, star: false }] + a, true, s) <==> s.len() > 0 && takes(k, s[0]) && fits(
            a,
            true,
            s.skip(1),
        ),
        fits(a, true, s) ==> fits(seq![AtomModel { kind: k, star: true }] + a, true, s),
        s.len() > 0 && takes(k, s[0]) && fits(seq![AtomModel { kind: k, star: true }] + a, true, s.skip(1)) ==> fits(
            seq![AtomModel { kind: k, star: true }] + a,
            true,
            s,
        ),
        fits(seq![AtomModel { kind: k, star: true }] + a, true, s) ==> fits(a, true, s) || s.len() > 0 && takes(k, s[0]),
        takes(AtomKindModel::Dot, c),
        forall|l: char| #[trigger] takes(AtomKindModel::Literal(l), c) <==> l == c,
        takes(AtomKindModel::Class(m), c) <==> in_class(m, c),
{
    let one = AtomModel { kind: k, star: false };
    let many = AtomModel { kind: k, star: true };
    assert((seq![one] + a).skip(1) =~= a);
    let t = seq![many] + a;
    assert(t.skip(1) =~= a);
    assert(t[0] == many);
    assert(s.skip(0) =~= s);
    if fits(a, true, s) {
        assert(takes_run(k, s, 0) && fits(a, true, s.skip(0)));
    }
    if s.len() > 0 && takes(k, s[0]) && fits(t, true, s.skip(1)) {
        let r = s.skip(1);
        let n = choose|n: int| takes_run(k, r, n) && fits(a, true, #[trigger] r.skip(n));
        assert(r.skip(n) =~= s.skip(n + 1));
        assert(takes_run(k, s, n + 1)) by {
            assert forall|i: int| 0 <= i < n + 1 implies takes(k, #[trigger] s[i]) by {
                if i > 0 {
                    assert(takes(k, r[i - 1]));
                }
            }
        }
    }
    if fits(t, true, s) {
        let n = choose|n: int| takes_run(k, s, n) && fits(a, true, #[trigger] s.skip(n));
        if n > 0 {
            assert(takes(k, s[0]));
        }
    }
}

/// Where a regex is found: from the front where its start is anchored, and anywhere
/// otherwise. A caret at the front and a dollar at the end of its text anchor it.
pub proof fn lemma_found(a: Seq<AtomModel>, e: bool, s: Seq<char>, k: int)
    ensures
        found_in((RegexModel { atoms: a, anchored_start: true, anchored_end: e }), s) <==> fits(a, e, s),
        0 <= k <= s.len() && fits(a, e, s.skip(k)) ==> found_in(
            (RegexModel { atoms: a, anchored_start: false, anchored_end: e }),
            s,
        ),
        found_in((RegexModel { atoms: a, anchored_start: false, anchored_end: e }), s) ==> exists|j: int|
            0 <= j <= s.len() && fits(a, e, #[trigger] s.skip(j)),
{
}

/// How the text of a regex is read: a letter is itself, a dot any character, a star
/// repeats what is before it, a backslash takes the next as it is, and a caret in front
/// and a dollar at the end anchor.
pub proof fn lemma_regex_text(c: char)
    requires
        c != '.' && c != '[' && c != '\\' && c != '*' && c != '^' && c != '$',
    ensures
        regex_of(seq![c]) == (RegexModel {
            atoms: seq![AtomModel { kind: AtomKindModel::Literal(c), star: false }],
            anchored_start: false,
            anchored_end: false,
        }),
        regex_of(seq![c, '*']) == (RegexModel {
            atoms: seq![AtomModel { kind: AtomKindModel::Literal(c), star: true }],
            anchored_start: false,
            anchored_end: false,
        }),
        regex_of(seq!['.']) == (RegexModel {
            atoms: seq![AtomModel { kind: AtomKindModel::Dot, star: false }],
            anchored_start: false,
            anchored_end: false,
        }),
        regex_of(seq!['\\', c]) == (RegexModel {
            atoms: seq![AtomModel { kind: AtomKindModel::Literal(c), star: false }],
            anchored_start: false,
            anchored_end: false,
        }),
        regex_of(seq!['^', c, '$']) == (RegexModel {
            atoms: seq![AtomModel { kind: AtomKindModel::Literal(c), star: false }],
            anchored_start: true,
            anchored_end: true,
        }),
{
    reveal_with_fuel(atoms_from, 4);
    let none = Seq::<AtomModel>::empty();
    let x = AtomModel { kind: AtomKindModel::Literal(c), star: false };
    let y = AtomModel { kind: AtomKindModel::Literal(c), star: true };
    let z = AtomModel { kind: AtomKindModel::Dot, star: false };
    assert(none.push(x) =~= seq![x]);
    assert(none.push(y) =~= seq![y]);
    assert(none.push(z) =~= seq![z]);
}

} // verus!
