//! Human-readable result-set rendering.
//!
//! The CLI and the diagnostics dumps present query results as aligned ASCII
//! tables. This module lays out a header plus rows of [`Value`]s into a
//! box-drawn grid, computing each column's width from its widest cell, aligning
//! numbers to the right and text to the left, and truncating overly wide cells
//! with an ellipsis. It also offers a compact "expanded" one-field-per-line
//! rendering for very wide rows. The text of a real is looked up.
use vstd::prelude::*;

use crate::join;
use crate::numeric;
use crate::numeric::RealTexts;
use crate::text;
use crate::value::Value;

verus! {

/// Options controlling table rendering.
#[derive(Debug, Clone)]
pub struct RenderOptions {
    /// Maximum width of any single column before truncation.
    pub max_col_width: usize,
    /// The string used to represent null cells.
    pub null_text: String,
    /// Whether to draw the outer border.
    pub border: bool,
}

impl Default for RenderOptions {
    fn default() -> (r: RenderOptions)
        ensures
            r.max_col_width == 40,
            r.null_text@ == "NULL"@,
            r.border,
    {
        RenderOptions { max_col_width: 40, null_text: String::from_str("NULL"), border: true }
    }
}

/// A value's display text.
pub open spec fn shown(v: Value, null: Seq<char>, reals: numeric::RealTextFacts) -> Seq<char> {
    match v {
        Value::Null => null,
        Value::Bool(b) => if b {
            "true"@
        } else {
            "false"@
        },
        Value::Int(i) => text::int_text(i as int),
        Value::Real(b) => numeric::real_text(reals, b),
        Value::Text(id) => seq!['#'] + text::digits(id as nat),
    }
}

/// Render a value to its display string.
pub fn value_to_string(v: &Value, null_text: &str, reals: &RealTexts) -> (r: String)
    ensures
        r@ == shown(*v, null_text@, reals@),
{
    match v {
        Value::Null => {
            let t = text::chars_of(null_text);
            text::string_of(&t)
        },
        Value::Bool(b) => if *b {
            String::from_str("true")
        } else {
            String::from_str("false")
        },
        Value::Int(i) => numeric::int_string(*i),
        Value::Real(b) => reals.text(*b),
        Value::Text(id) => {
            let mut t: Vec<char> = Vec::new();
            t.push('#');
            text::push_number(&mut t, *id as u128);
            assert(t@ =~= seq!['#'] + text::digits(*id as nat));
            text::string_of(&t)
        },
    }
}

/// A text cut to a width, with an ellipsis for what is cut off.
pub open spec fn cut(s: Seq<char>, max: nat) -> Seq<char> {
    if s.len() <= max {
        s
    } else if max <= 1 {
        seq!['\u{2026}']
    } else {
        s.take(max - 1).push('\u{2026}')
    }
}

/// Cut a text to a width, with an ellipsis for what is cut off.
pub fn truncate(s: &str, max: usize) -> (r: String)
    ensures
        r@ == cut(s@, max as nat),
{
    let v = text::chars_of(s);
    text::string_of(&cut_chars(&v, max))
}

fn cut_chars(v: &Vec<char>, max: usize) -> (r: Vec<char>)
    ensures
        r@ == cut(v@, max as nat),
{
    if v.len() <= max {
        let r = text::slice_chars(v, 0, v.len());
        assert(r@ =~= v@);
        return r;
    }
    if max <= 1 {
        let mut r: Vec<char> = Vec::new();
        r.push('\u{2026}');
        assert(r@ =~= seq!['\u{2026}']);
        return r;
    }
    let mut r = text::slice_chars(v, 0, max - 1);
    assert(r@ =~= v@.take(max - 1));
    r.push('\u{2026}');
    r
}

/// `n` times a character.
pub open spec fn repeated(c: char, n: nat) -> Seq<char> {
    Seq::new(n, |i: int| c)
}

/// A text filled with spaces up to a width.
pub open spec fn pad_text(s: Seq<char>, width: nat, right: bool) -> Seq<char> {
    if s.len() >= width {
        s
    } else if right {
        repeated(' ', (width - s.len()) as nat) + s
    } else {
        s + repeated(' ', (width - s.len()) as nat)
    }
}

fn put_all(out: &mut Vec<char>, s: &Vec<char>)
    ensures
        final(out)@ == old(out)@ + s@,
{
    let ghost was = out@;
    let mut i: usize = 0;
    assert(was + s@.take(0) =~= was);
    while i < s.len()
        invariant
            i <= s@.len(),
            out@ == was + s@.take(i as int),
        decreases s@.len() - i,
    {
        out.push(s[i]);
        assert(s@.take(i + 1) =~= s@.take(i as int).push(s@[i as int]));
        i += 1;
    }
    assert(s@.take(s@.len() as int) =~= s@);
}

fn put_repeated(out: &mut Vec<char>, c: char, n: usize)
    ensures
        final(out)@ == old(out)@ + repeated(c, n as nat),
{
    let ghost was = out@;
    let mut i: usize = 0;
    assert(was + repeated(c, 0) =~= was);
    while i < n
        invariant
            i <= n,
            out@ == was + repeated(c, i as nat),
        decreases n - i,
    {
        out.push(c);
        assert(repeated(c, (i + 1) as nat) =~= repeated(c, i as nat).push(c));
        i += 1;
    }
}

fn put_pad(out: &mut Vec<char>, s: &Vec<char>, width: usize, right: bool)
    ensures
        final(out)@ == old(out)@ + pad_text(s@, width as nat, right),
{
    let ghost was = out@;
    if s.len() >= width {
        put_all(out, s);
    } else if right {
        put_repeated(out, ' ', width - s.len());
        put_all(out, s);
        assert(out@ =~= was + pad_text(s@, width as nat, right));
    } else {
        put_all(out, s);
        put_repeated(out, ' ', width - s.len());
        assert(out@ =~= was + pad_text(s@, width as nat, right));
    }
}

// Tables

/// What a table is made of: the headers, the cells as they are shown, and how
/// wide a cell may be.
pub struct Sheet {
    pub headers: Seq<Seq<char>>,
    pub rows: Seq<Seq<Value>>,
    pub null: Seq<char>,
    pub max: nat,
    pub reals: numeric::RealTextFacts,
}

/// A cell as it is shown.
pub open spec fn cell_text(t: Sheet, r: int, c: int) -> Seq<char> {
    cut(shown(join::cell(t.rows[r], c), t.null, t.reals), t.max)
}

/// The width of the widest of the first `n` cells of a column and its header.
pub open spec fn width_after(t: Sheet, c: int, n: nat) -> nat
    decreases n,
{
    if n == 0 {
        t.headers[c].len()
    } else {
        let w = width_after(t, c, (n - 1) as nat);
        let m = cell_text(t, n - 1, c).len();
        if m > w {
            m
        } else {
            w
        }
    }
}

/// A column's width: that of its widest cell, at most the greatest width allowed
/// or that of its header.
pub open spec fn col_width(t: Sheet, c: int) -> nat {
    let w = width_after(t, c, t.rows.len());
    let cap = if t.headers[c].len() > t.max {
        t.headers[c].len()
    } else {
        t.max
    };
    if w < cap {
        w
    } else {
        cap
    }
}

/// Whether a column holds numbers and nulls only.
pub open spec fn is_right(t: Sheet, c: int) -> bool {
    forall|r: int|
        0 <= r < t.rows.len() ==> {
            let v = join::cell(#[trigger] t.rows[r], c);
            v is Int || v is Real || v is Null
        }
}

/// A line between rows, up to column `n`.
pub open spec fn rule(t: Sheet, n: nat) -> Seq<char>
    decreases n,
{
    if n == 0 {
        seq!['+']
    } else {
        rule(t, (n - 1) as nat) + repeated('-', col_width(t, n - 1) + 2) + seq!['+']
    }
}

/// The header line, up to column `n`.
pub open spec fn head_line(t: Sheet, n: nat) -> Seq<char>
    decreases n,
{
    if n == 0 {
        seq!['|']
    } else {
        head_line(t, (n - 1) as nat) + seq![' '] + pad_text(t.headers[n - 1], col_width(t, n - 1), false) + seq![' ', '|']
    }
}

/// A row's line, up to column `n`.
pub open spec fn row_line(t: Sheet, r: int, n: nat) -> Seq<char>
    decreases n,
{
    if n == 0 {
        seq!['|']
    } else {
        row_line(t, r, (n - 1) as nat) + seq![' '] + pad_text(
            cell_text(t, r, n - 1),
            col_width(t, n - 1),
            is_right(t, n - 1),
        ) + seq![' ', '|']
    }
}

/// The lines of the first `n` rows.
pub open spec fn row_lines(t: Sheet, n: nat) -> Seq<char>
    decreases n,
{
    if n == 0 {
        Seq::empty()
    } else {
        row_lines(t, (n - 1) as nat) + row_line(t, n - 1, t.headers.len()) + seq!['\n']
    }
}

/// A table: a line, where there is a border, the headers, a line, the rows, and a
/// line where there is a border. A table without columns is empty.
pub open spec fn grid(t: Sheet, border: bool) -> Seq<char> {
    let n = t.headers.len();
    let line = rule(t, n) + seq!['\n'];
    let edge = if border {
        line
    } else {
        Seq::empty()
    };
    if n == 0 {
        Seq::empty()
    } else {
        edge + head_line(t, n) + seq!['\n'] + line + row_lines(t, t.rows.len()) + edge
    }
}

/// The texts of headers.
pub open spec fn texts(v: Seq<String>) -> Seq<Seq<char>> {
    Seq::new(v.len(), |i: int| v[i]@)
}

/// What a table is made of.
pub open spec fn sheet(h: Seq<String>, rows: Seq<Vec<Value>>, null: Seq<char>, max: nat, reals: numeric::RealTextFacts) -> Sheet {
    Sheet { headers: texts(h), rows: join::rows(rows), null, max, reals }
}

fn cell_chars(row: &Vec<Value>, c: usize, null: &str, max: usize, reals: &RealTexts) -> (r: Vec<char>)
    ensures
        r@ == cut(shown(join::cell(row@, c as int), null@, reals@), max as nat),
{
    let v = if c < row.len() {
        row[c]
    } else {
        Value::Null
    };
    let s = value_to_string(&v, null, reals);
    let t = text::chars_of(s.as_str());
    cut_chars(&t, max)
}

/// The layout of a table: the width of each column and whether it is aligned to
/// the right.
struct Layout {
    widths: Vec<usize>,
    right: Vec<bool>,
}

fn column_layout(
    headers: &[String],
    rows: &[Vec<Value>],
    c: usize,
    opts: &RenderOptions,
    reals: &RealTexts,
) -> (r: (usize, bool))
    requires
        c < headers@.len(),
    ensures
        ({
            let t = sheet(headers@, rows@, opts.null_text@, opts.max_col_width as nat, reals@);
            r.0 == col_width(t, c as int) && r.1 == is_right(t, c as int)
        }),
{
    let ghost t = sheet(headers@, rows@, opts.null_text@, opts.max_col_width as nat, reals@);
    let h = text::chars_of(headers[c].as_str());
    assert(t.headers[c as int] == h@);
    let mut w: usize = h.len();
    let mut right = true;
    let mut i: usize = 0;
    while i < rows.len()
        invariant
            i <= rows@.len(),
            c < headers@.len(),
            t == sheet(headers@, rows@, opts.null_text@, opts.max_col_width as nat, reals@),
            w == width_after(t, c as int, i as nat),
            right == (forall|r: int|
                0 <= r < i ==> {
                    let v = join::cell(#[trigger] t.rows[r], c as int);
                    v is Int || v is Real || v is Null
                }),
        decreases rows@.len() - i,
    {
        let row = &rows[i];
        assert(t.rows[i as int] == row@);
        let v = if c < row.len() {
            row[c]
        } else {
            Value::Null
        };
        let numeric = match v {
            Value::Int(_) => true,
            Value::Real(_) => true,
            Value::Null => true,
            _ => false,
        };
        if !numeric {
            right = false;
        }
        let s = cell_chars(row, c, opts.null_text.as_str(), opts.max_col_width, reals);
        assert(s@ == cell_text(t, i as int, c as int));
        if s.len() > w {
            w = s.len();
        }
        i += 1;
    }
    let cap: usize = if h.len() > opts.max_col_width {
        h.len()
    } else {
        opts.max_col_width
    };
    (
        if w < cap {
            w
        } else {
            cap
        },
        right,
    )
}

fn put_rule(out: &mut Vec<char>, widths: &Vec<usize>, Ghost(t): Ghost<Sheet>)
    requires
        widths@.len() == t.headers.len(),
        forall|c: int| 0 <= c < widths@.len() ==> #[trigger] widths@[c] == col_width(t, c),
    ensures
        final(out)@ == old(out)@ + (rule(t, t.headers.len()) + seq!['\n']),
{
    let ghost was = out@;
    out.push('+');
    let mut c: usize = 0;
    assert(out@ =~= was + rule(t, 0));
    while c < widths.len()
        invariant
            c <= widths@.len(),
            forall|c: int| 0 <= c < widths@.len() ==> #[trigger] widths@[c] == col_width(t, c),
            out@ == was + rule(t, c as nat),
        decreases widths@.len() - c,
    {
        put_repeated(out, '-', widths[c]);
        out.push('-');
        out.push('-');
        out.push('+');
        proof {
            let w = col_width(t, c as int);
            assert(repeated('-', w).push('-').push('-') =~= repeated('-', w + 2));
            assert(out@ =~= was + rule(t, (c + 1) as nat));
        }
        c += 1;
    }
    out.push('\n');
    assert(out@ =~= was + (rule(t, t.headers.len()) + seq!['\n']));
}

fn put_cell(out: &mut Vec<char>, s: &Vec<char>, width: usize, right: bool)
    ensures
        final(out)@ == old(out)@ + seq![' '] + pad_text(s@, width as nat, right) + seq![' ', '|'],
{
    let ghost was = out@;
    out.push(' ');
    put_pad(out, s, width, right);
    out.push(' ');
    out.push('|');
    assert(out@ =~= was + seq![' '] + pad_text(s@, width as nat, right) + seq![' ', '|']);
}

/// Render a header and rows to an aligned ASCII table.
pub fn render_table(headers: &[String], rows: &[Vec<Value>], opts: &RenderOptions, reals: &RealTexts) -> (r: String)
    ensures
        r@ == grid(sheet(headers@, rows@, opts.null_text@, opts.max_col_width as nat, reals@), opts.border),
{
    let ghost t = sheet(headers@, rows@, opts.null_text@, opts.max_col_width as nat, reals@);
    let ncols = headers.len();
    if ncols == 0 {
        let r = String::new();
        assert(r@ =~= Seq::<char>::empty());
        return r;
    }
    let mut widths: Vec<usize> = Vec::new();
    let mut right: Vec<bool> = Vec::new();
    let mut c: usize = 0;
    while c < ncols
        invariant
            c <= ncols,
            ncols == headers@.len(),
            t == sheet(headers@, rows@, opts.null_text@, opts.max_col_width as nat, reals@),
            widths@.len() == c,
            right@.len() == c,
            forall|k: int| 0 <= k < c ==> #[trigger] widths@[k] == col_width(t, k),
            forall|k: int| 0 <= k < c ==> #[trigger] right@[k] == is_right(t, k),
        decreases ncols - c,
    {
        let (w, a) = column_layout(headers, rows, c, opts, reals);
        widths.push(w);
        right.push(a);
        c += 1;
    }
    let mut out: Vec<char> = Vec::new();
    let ghost line = rule(t, ncols as nat) + seq!['\n'];
    let ghost edge = if opts.border {
        line
    } else {
        Seq::<char>::empty()
    };
    if opts.border {
        put_rule(&mut out, &widths, Ghost(t));
    }
    assert(out@ =~= edge);
    out.push('|');
    let mut c: usize = 0;
    assert(out@ =~= edge + head_line(t, 0));
    while c < ncols
        invariant
            c <= ncols,
            ncols == headers@.len(),
            widths@.len() == ncols,
            t.headers == texts(headers@),
            forall|k: int| 0 <= k < ncols ==> #[trigger] widths@[k] == col_width(t, k),
            out@ == edge + head_line(t, c as nat),
        decreases ncols - c,
    {
        let h = text::chars_of(headers[c].as_str());
        assert(t.headers[c as int] == h@);
        put_cell(&mut out, &h, widths[c], false);
        assert(out@ =~= edge + head_line(t, (c + 1) as nat));
        c += 1;
    }
    out.push('\n');
    put_rule(&mut out, &widths, Ghost(t));
    let ghost head = edge + head_line(t, ncols as nat) + seq!['\n'] + line;
    assert(out@ =~= head + row_lines(t, 0));
    let mut i: usize = 0;
    while i < rows.len()
        invariant
            i <= rows@.len(),
            ncols == headers@.len(),
            ncols == t.headers.len(),
            t == sheet(headers@, rows@, opts.null_text@, opts.max_col_width as nat, reals@),
            widths@.len() == ncols,
            right@.len() == ncols,
            forall|k: int| 0 <= k < ncols ==> #[trigger] widths@[k] == col_width(t, k),
            forall|k: int| 0 <= k < ncols ==> #[trigger] right@[k] == is_right(t, k),
            out@ == head + row_lines(t, i as nat),
        decreases rows@.len() - i,
    {
        let ghost mid = out@;
        assert(t.rows[i as int] == rows@[i as int]@);
        out.push('|');
        let mut c: usize = 0;
        assert(out@ =~= mid + row_line(t, i as int, 0));
        while c < ncols
            invariant
                i < rows@.len(),
                c <= ncols,
                t == sheet(headers@, rows@, opts.null_text@, opts.max_col_width as nat, reals@),
                t.rows[i as int] == rows@[i as int]@,
                widths@.len() == ncols,
                right@.len() == ncols,
                forall|k: int| 0 <= k < ncols ==> #[trigger] widths@[k] == col_width(t, k),
                forall|k: int| 0 <= k < ncols ==> #[trigger] right@[k] == is_right(t, k),
                out@ == mid + row_line(t, i as int, c as nat),
            decreases ncols - c,
        {
            let s = cell_chars(&rows[i], c, opts.null_text.as_str(), opts.max_col_width, reals);
            assert(s@ == cell_text(t, i as int, c as int));
            put_cell(&mut out, &s, widths[c], right[c]);
            assert(out@ =~= mid + row_line(t, i as int, (c + 1) as nat));
            c += 1;
        }
        out.push('\n');
        assert(out@ =~= head + row_lines(t, (i + 1) as nat));
        i += 1;
    }
    if opts.border {
        put_rule(&mut out, &widths, Ghost(t));
    }
    assert(out@ =~= grid(t, opts.border));
    text::string_of(&out)
}

// One field per line

/// The width of the widest header.
pub open spec fn name_width(h: Seq<Seq<char>>) -> nat
    decreases h.len(),
{
    if h.len() == 0 {
        0
    } else {
        let w = name_width(h.drop_last());
        if h.last().len() > w {
            h.last().len()
        } else {
            w
        }
    }
}

/// The lines of a row's first `n` fields.
pub open spec fn field_lines(t: Sheet, r: int, n: nat) -> Seq<char>
    decreases n,
{
    if n == 0 {
        Seq::empty()
    } else {
        field_lines(t, r, (n - 1) as nat) + pad_text(t.headers[n - 1], name_width(t.headers), false) + seq![' ', '|', ' ']
            + shown(join::cell(t.rows[r], n - 1), t.null, t.reals) + seq!['\n']
    }
}

/// The blocks of the first `n` rows.
pub open spec fn blocks(t: Sheet, n: nat) -> Seq<char>
    decreases n,
{
    if n == 0 {
        Seq::empty()
    } else {
        blocks(t, (n - 1) as nat) + "-[ row "@ + text::digits(n) + " ]-\n"@ + field_lines(t, n - 1, t.headers.len())
    }
}

/// Render each row as a block of `name: value` lines (for wide result sets).
pub fn render_expanded(headers: &[String], rows: &[Vec<Value>], null_text: &str, reals: &RealTexts) -> (r: String)
    ensures
        r@ == blocks(sheet(headers@, rows@, null_text@, 0, reals@), rows@.len()),
{
    let ghost t = sheet(headers@, rows@, null_text@, 0, reals@);
    let ncols = headers.len();
    let mut w: usize = 0;
    let mut c: usize = 0;
    while c < ncols
        invariant
            c <= ncols,
            ncols == headers@.len(),
            t.headers == texts(headers@),
            w == name_width(t.headers.take(c as int)),
        decreases ncols - c,
    {
        assert(t.headers.take(c + 1).drop_last() =~= t.headers.take(c as int));
        assert(t.headers.take(c + 1).last() == headers@[c as int]@);
        let h = text::chars_of(headers[c].as_str());
        if h.len() > w {
            w = h.len();
        }
        c += 1;
    }
    assert(t.headers.take(t.headers.len() as int) =~= t.headers);
    let start = text::chars_of("-[ row ");
    let stop = text::chars_of(" ]-\n");
    let mut out: Vec<char> = Vec::new();
    let mut i: usize = 0;
    assert(out@ =~= blocks(t, 0));
    while i < rows.len()
        invariant
            i <= rows@.len(),
            ncols == headers@.len(),
            t == sheet(headers@, rows@, null_text@, 0, reals@),
            w == name_width(t.headers),
            start@ == "-[ row "@,
            stop@ == " ]-\n"@,
            out@ == blocks(t, i as nat),
        decreases rows@.len() - i,
    {
        put_all(&mut out, &start);
        text::push_number(&mut out, i as u128 + 1);
        put_all(&mut out, &stop);
        let ghost mid = out@;
        let row = &rows[i];
        assert(t.rows[i as int] == row@);
        let mut c: usize = 0;
        assert(mid + field_lines(t, i as int, 0) =~= mid);
        while c < ncols
            invariant
                c <= ncols,
                ncols == headers@.len(),
                i < rows@.len(),
                t == sheet(headers@, rows@, null_text@, 0, reals@),
                t.rows[i as int] == row@,
                w == name_width(t.headers),
                out@ == mid + field_lines(t, i as int, c as nat),
            decreases ncols - c,
        {
            let h = text::chars_of(headers[c].as_str());
            assert(t.headers[c as int] == h@);
            put_pad(&mut out, &h, w, false);
            out.push(' ');
            out.push('|');
            out.push(' ');
            let v = if c < row.len() {
                row[c]
            } else {
                Value::Null
            };
            let s = value_to_string(&v, null_text, reals);
            let s = text::chars_of(s.as_str());
            put_all(&mut out, &s);
            out.push('\n');
            assert(out@ =~= mid + field_lines(t, i as int, (c + 1) as nat));
            c += 1;
        }
        assert(out@ =~= blocks(t, (i + 1) as nat));
        i += 1;
    }
    text::string_of(&out)
}

/// A cut text is never wider than the width, unless only the ellipsis is left.
pub proof fn lemma_cut(s: Seq<char>, max: nat)
    ensures
        max >= 1 ==> cut(s, max).len() <= max,
        s.len() > max && max >= 1 ==> cut(s, max).len() == max && cut(s, max).last() == '\u{2026}',
{
}

/// A padded text has the width, or is wider already.
proof fn lemma_pad_len(s: Seq<char>, width: nat, right: bool)
    ensures
        s.len() <= width ==> pad_text(s, width, right).len() == width,
{
}

/// The length of a line of a table, up to column `n`.
pub open spec fn line_len(t: Sheet, n: nat) -> nat
    decreases n,
{
    if n == 0 {
        1
    } else {
        line_len(t, (n - 1) as nat) + col_width(t, n - 1) + 3
    }
}

proof fn lemma_width_covers(t: Sheet, c: int, n: nat, r: int)
    requires
        0 <= r < n,
    ensures
        cell_text(t, r, c).len() <= width_after(t, c, n),
    decreases n,
{
    if r < n - 1 {
        lemma_width_covers(t, c, (n - 1) as nat, r);
    }
}

proof fn lemma_width_header(t: Sheet, c: int, n: nat)
    ensures
        t.headers[c].len() <= width_after(t, c, n),
    decreases n,
{
    if n > 0 {
        lemma_width_header(t, c, (n - 1) as nat);
    }
}

/// Every line of a table has the same length, where a column can be a character
/// wide.
pub proof fn lemma_aligned(t: Sheet, r: int, n: nat)
    requires
        0 <= r < t.rows.len(),
        n <= t.headers.len(),
        t.max >= 1,
    ensures
        rule(t, n).len() == line_len(t, n),
        head_line(t, n).len() == line_len(t, n),
        row_line(t, r, n).len() == line_len(t, n),
    decreases n,
{
    if n > 0 {
        lemma_aligned(t, r, (n - 1) as nat);
        let c = n - 1;
        lemma_width_covers(t, c, t.rows.len(), r);
        lemma_width_header(t, c, t.rows.len());
        lemma_cut(shown(join::cell(t.rows[r], c), t.null, t.reals), t.max);
        lemma_pad_len(t.headers[c], col_width(t, c), false);
        lemma_pad_len(cell_text(t, r, c), col_width(t, c), is_right(t, c));
    }
}

/// A padded text is the text with spaces before it, or behind it, up to the width; a
/// text that is as wide stays as it is.
pub proof fn lemma_padded(s: Seq<char>, width: nat)
    ensures
        s.len() >= width ==> pad_text(s, width, true) == s && pad_text(s, width, false) == s,
        s.len() < width ==> {
            let r = pad_text(s, width, true);
            let l = pad_text(s, width, false);
            let n = width - s.len();
            &&& r.len() == width && l.len() == width
            &&& r.skip(n) == s && forall|i: int| 0 <= i < n ==> #[trigger] r[i] == ' '
            &&& l.take(s.len() as int) == s && forall|i: int| s.len() <= i < width ==> #[trigger] l[i] == ' '
        },
{
    if s.len() < width {
        let n = (width - s.len()) as nat;
        lemma_pad_len(s, width, true);
        lemma_pad_len(s, width, false);
        assert(pad_text(s, width, true).skip(n as int) =~= s);
        assert(pad_text(s, width, false).take(s.len() as int) =~= s);
    }
}

} // verus!
