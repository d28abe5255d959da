//! CSV import and export.
//!
//! CSV is the lowest-common-denominator bulk load/dump format. This module
//! implements an RFC-4180-style reader (quoted fields, embedded delimiters and
//! newlines, doubled quotes) and a matching writer, plus a type-inference pass
//! that turns a header + rows of strings into typed columns. Text columns are
//! interned into a string dictionary so the resulting [`crate::array::Array`]s
//! carry dictionary ids the rest of the engine understands.
//!
//! [`lemma_read_back`] says that the reader gives back the rows that the writer
//! wrote.
use vstd::prelude::*;

use crate::array;
use crate::array::{Array, ArrayBuilder, RecordBatch};
use crate::numeric;
use crate::numeric::Reals;
use crate::schema::ColKind;
use crate::sql;
use crate::text;
use crate::value::Value;

verus! {

/// CSV reader/writer options.
#[derive(Debug, Clone)]
pub struct CsvOptions {
    /// Field delimiter (default `,`).
    pub delimiter: u8,
    /// Quote character (default `"`).
    pub quote: u8,
    /// Whether the first row is a header.
    pub has_header: bool,
    /// String that denotes a null field (default empty string).
    pub null_token: String,
}

impl Default for CsvOptions {
    fn default() -> (r: CsvOptions)
        ensures
            r.delimiter == 44,
            r.quote == 34,
            r.has_header,
            r.null_token@ == Seq::<char>::empty(),
    {
        CsvOptions { delimiter: 44, quote: 34, has_header: true, null_token: String::new() }
    }
}

impl CsvOptions {
    /// The delimiter as a character.
    pub open spec fn d(self) -> char {
        self.delimiter as char
    }

    /// The quote as a character.
    pub open spec fn q(self) -> char {
        self.quote as char
    }
}

/// A CSV parse error.
#[derive(Debug, Clone, PartialEq, Eq)]
pub struct CsvError {
    pub message: String,
    pub row: usize,
}

impl CsvError {
    /// The message for this error.
    pub fn to_string(&self) -> (r: String)
        ensures
            r@ == self.message@ + " (row "@ + text::digits(self.row as nat) + ")"@,
    {
        let mut s = sql::copy_text(&self.message);
        s.append(" (row ");
        let mut v: Vec<char> = Vec::new();
        text::push_number(&mut v, self.row as u128);
        assert(v@ =~= text::digits(self.row as nat));
        let n = text::string_of(&v);
        s.append(n.as_str());
        s.append(")");
        s
    }
}

// Reading

/// Where reading stands: rows that are done, the fields of the row at hand, the
/// characters of the field at hand, whether it is inside quotes, and whether the
/// row has begun.
pub struct Reading {
    pub rows: Seq<Seq<Seq<char>>>,
    pub record: Seq<Seq<char>>,
    pub field: Seq<char>,
    pub quoted: bool,
    pub started: bool,
}

/// Nothing read.
pub open spec fn fresh() -> Reading {
    Reading { rows: Seq::empty(), record: Seq::empty(), field: Seq::empty(), quoted: false, started: false }
}

/// Whether there is anything of a row.
pub open spec fn begun(r: Reading) -> bool {
    r.started || r.field.len() > 0 || r.record.len() > 0
}

/// The end of a row. A row of nothing is no row.
pub open spec fn ended(r: Reading) -> Reading {
    if begun(r) {
        Reading {
            rows: r.rows.push(r.record.push(r.field)),
            record: Seq::empty(),
            field: Seq::empty(),
            started: false,
            ..r
        }
    } else {
        r
    }
}

/// How many characters the next step takes.
pub open spec fn stride(s: Seq<char>, r: Reading, d: char, q: char) -> int {
    if r.quoted {
        if s[0] == q && s.len() > 1 && s[1] == q {
            2
        } else {
            1
        }
    } else if s[0] == q && r.field.len() == 0 || s[0] == d {
        1
    } else if s[0] == '\r' && s.len() > 1 && s[1] == '\n' {
        2
    } else {
        1
    }
}

/// What the next step makes of the reading.
pub open spec fn step(s: Seq<char>, r: Reading, d: char, q: char) -> Reading {
    if r.quoted {
        if s[0] == q {
            if s.len() > 1 && s[1] == q {
                Reading { field: r.field.push(q), ..r }
            } else {
                Reading { quoted: false, ..r }
            }
        } else {
            Reading { field: r.field.push(s[0]), ..r }
        }
    } else if s[0] == q && r.field.len() == 0 {
        Reading { quoted: true, started: true, ..r }
    } else if s[0] == d {
        Reading { record: r.record.push(r.field), field: Seq::empty(), started: true, ..r }
    } else if s[0] == '\n' || s[0] == '\r' {
        ended(r)
    } else {
        Reading { field: r.field.push(s[0]), started: true, ..r }
    }
}

/// The reading of a text from where it stands.
pub open spec fn scanned(s: Seq<char>, r: Reading, d: char, q: char) -> Reading
    decreases s.len(),
{
    if s.len() == 0 {
        r
    } else {
        scanned(s.skip(stride(s, r, d, q)), step(s, r, d, q), d, q)
    }
}

/// The rows of a text; where a quoted field has no end, how many rows came before
/// it.
pub open spec fn records(s: Seq<char>, d: char, q: char) -> Result<Seq<Seq<Seq<char>>>, nat> {
    let r = scanned(s, fresh(), d, q);
    if r.quoted {
        Err(r.rows.len())
    } else {
        Ok(ended(r).rows)
    }
}

/// The texts of a row.
pub open spec fn texts(v: Seq<String>) -> Seq<Seq<char>> {
    Seq::new(v.len(), |i: int| v[i]@)
}

/// The texts of rows.
pub open spec fn table(v: Seq<Vec<String>>) -> Seq<Seq<Seq<char>>> {
    Seq::new(v.len(), |i: int| texts(v[i]@))
}

struct Reader {
    rows: Vec<Vec<String>>,
    record: Vec<String>,
    field: Vec<char>,
    quoted: bool,
    started: bool,
}

impl Reader {
    spec fn at(self) -> Reading {
        Reading {
            rows: table(self.rows@),
            record: texts(self.record@),
            field: self.field@,
            quoted: self.quoted,
            started: self.started,
        }
    }

    fn end_field(&mut self)
        ensures
            final(self).at() == (Reading {
                record: old(self).at().record.push(old(self).at().field),
                field: Seq::empty(),
                ..old(self).at()
            }),
    {
        let ghost was = self.at();
        self.record.push(text::string_of(&self.field));
        self.field = Vec::new();
        proof {
            assert(self.at().record =~= was.record.push(was.field));
            assert(self.at().field =~= Seq::empty());
        }
    }

    fn end_row(&mut self)
        ensures
            final(self).at() == ended(old(self).at()),
    {
        if self.started || self.field.len() > 0 || self.record.len() > 0 {
            let ghost was = self.at();
            self.end_field();
            let mut done: Vec<String> = Vec::new();
            std::mem::swap(&mut done, &mut self.record);
            self.rows.push(done);
            self.started = false;
            proof {
                assert(self.at().rows =~= was.rows.push(was.record.push(was.field)));
                assert(self.at().record =~= Seq::empty());
            }
        }
    }
}

fn read(v: &Vec<char>, d: char, q: char) -> (r: Reader)
    ensures
        r.at() == scanned(v@, fresh(), d, q),
{
    let mut r = Reader { rows: Vec::new(), record: Vec::new(), field: Vec::new(), quoted: false, started: false };
    proof {
        assert(r.at().rows =~= fresh().rows);
        assert(r.at().record =~= fresh().record);
        assert(r.at().field =~= fresh().field);
        assert(v@.skip(0) =~= v@);
    }
    let mut i: usize = 0;
    while i < v.len()
        invariant
            i <= v@.len(),
            scanned(v@.skip(i as int), r.at(), d, q) == scanned(v@, fresh(), d, q),
        decreases v@.len() - i,
    {
        let ghost s = v@.skip(i as int);
        let ghost was = r.at();
        let c = v[i];
        let next = i + 1 < v.len();
        proof {
            assert(s[0] == c);
            if next {
                assert(s[1] == v@[i + 1]);
                assert(s.skip(2) =~= v@.skip(i + 2));
            }
            assert(s.skip(1) =~= v@.skip(i + 1));
        }
        let mut k: usize = 1;
        if r.quoted {
            if c == q {
                if next && v[i + 1] == q {
                    r.field.push(q);
                    k = 2;
                } else {
                    r.quoted = false;
                }
            } else {
                r.field.push(c);
            }
        } else if c == q && r.field.len() == 0 {
            r.quoted = true;
            r.started = true;
        } else if c == d {
            r.end_field();
            r.started = true;
        } else if c == '\n' || c == '\r' {
            if c == '\r' && next && v[i + 1] == '\n' {
                k = 2;
            }
            r.end_row();
        } else {
            r.started = true;
            r.field.push(c);
        }
        assert(r.at() == step(s, was, d, q));
        i += k;
    }
    r
}

/// Parse CSV text into a header (if present) and rows of string fields.
pub fn parse_records(input: &str, opts: &CsvOptions) -> (r: Result<
    (Option<Vec<String>>, Vec<Vec<String>>),
    CsvError,
>)
    ensures
        match (r, records(input@, opts.d(), opts.q())) {
            (Ok((h, rows)), Ok(all)) => if opts.has_header && all.len() > 0 {
                h is Some && texts(h.unwrap()@) == all[0] && table(rows@) == all.skip(1)
            } else {
                h is None && table(rows@) == all
            },
            (Err(e), Err(n)) => e.message@ == "unterminated quoted field"@ && e.row == n,
            _ => false,
        },
{
    let v = text::chars_of(input);
    let mut r = read(&v, opts.delimiter as char, opts.quote as char);
    if r.quoted {
        return Err(CsvError { message: String::from_str("unterminated quoted field"), row: r.rows.len() });
    }
    r.end_row();
    let mut rows = r.rows;
    let ghost all = table(rows@);
    if opts.has_header && rows.len() > 0 {
        let header = rows.remove(0);
        assert(table(rows@) =~= all.skip(1));
        Ok((Some(header), rows))
    } else {
        Ok((None, rows))
    }
}

// Writing

/// Whether a character makes a field need quotes.
pub open spec fn special(c: char, d: char, q: char) -> bool {
    c == d || c == q || c == '\n' || c == '\r'
}

/// Whether a field needs quotes.
pub open spec fn needs_quotes(f: Seq<char>, d: char, q: char) -> bool {
    exists|i: int| 0 <= i < f.len() && special(#[trigger] f[i], d, q)
}

/// A field with each quote doubled.
pub open spec fn doubled(f: Seq<char>, q: char) -> Seq<char>
    decreases f.len(),
{
    if f.len() == 0 {
        Seq::empty()
    } else if f[0] == q {
        seq![q, q] + doubled(f.skip(1), q)
    } else {
        seq![f[0]] + doubled(f.skip(1), q)
    }
}

/// A field as it is written.
pub open spec fn field_text(f: Seq<char>, d: char, q: char) -> Seq<char> {
    if needs_quotes(f, d, q) {
        seq![q] + doubled(f, q) + seq![q]
    } else {
        f
    }
}

/// The fields of a row with delimiters between them.
pub open spec fn fields_text(row: Seq<Seq<char>>, d: char, q: char) -> Seq<char>
    decreases row.len(),
{
    if row.len() == 0 {
        Seq::empty()
    } else if row.len() == 1 {
        field_text(row[0], d, q)
    } else {
        field_text(row[0], d, q) + seq![d] + fields_text(row.skip(1), d, q)
    }
}

/// A row as it is written.
pub open spec fn row_text(row: Seq<Seq<char>>, d: char, q: char) -> Seq<char> {
    fields_text(row, d, q) + seq!['\n']
}

/// Rows as they are written.
pub open spec fn written(rows: Seq<Seq<Seq<char>>>, d: char, q: char) -> Seq<char>
    decreases rows.len(),
{
    if rows.len() == 0 {
        Seq::empty()
    } else {
        written(rows.drop_last(), d, q) + row_text(rows.last(), d, q)
    }
}

fn write_field(out: &mut Vec<char>, cell: &String, d: char, q: char)
    ensures
        final(out)@ == old(out)@ + field_text(cell@, d, q),
{
    let v = text::chars_of(cell.as_str());
    let mut special = false;
    let mut i: usize = 0;
    while i < v.len()
        invariant
            i <= v@.len(),
            special == exists|k: int| 0 <= k < i && self::special(#[trigger] v@[k], d, q),
        decreases v@.len() - i,
    {
        let c = v[i];
        if c == d || c == q || c == '\n' || c == '\r' {
            assert(self::special(v@[i as int], d, q));
            special = true;
        }
        i += 1;
    }
    let ghost was = out@;
    if special {
        out.push(q);
        let ghost f = v@;
        let mut k: usize = 0;
        assert(f.skip(0) =~= f);
        while k < v.len()
            invariant
                k <= v@.len(),
                f == v@,
                out@ + doubled(f.skip(k as int), q) == was.push(q) + doubled(f, q),
            decreases v@.len() - k,
        {
            let ghost mid = out@;
            let c = v[k];
            proof {
                assert(f.skip(k as int)[0] == c);
                assert(f.skip(k as int).skip(1) =~= f.skip(k + 1));
            }
            if c == q {
                out.push(q);
            }
            out.push(c);
            assert(out@ + doubled(f.skip(k + 1), q) =~= mid + doubled(f.skip(k as int), q));
            k += 1;
        }
        assert(out@ + doubled(f.skip(f.len() as int), q) =~= out@);
        out.push(q);
        assert(out@ =~= was + field_text(cell@, d, q));
    } else {
        let mut k: usize = 0;
        assert(was + v@.take(0) =~= was);
        while k < v.len()
            invariant
                k <= v@.len(),
                out@ == was + v@.take(k as int),
            decreases v@.len() - k,
        {
            out.push(v[k]);
            assert(v@.take(k + 1) =~= v@.take(k as int).push(v@[k as int]));
            k += 1;
        }
        assert(v@.take(v@.len() as int) =~= v@);
    }
}

fn write_row(out: &mut Vec<char>, cells: &[String], opts: &CsvOptions)
    ensures
        final(out)@ == old(out)@ + row_text(texts(cells@), opts.d(), opts.q()),
{
    let d = opts.delimiter as char;
    let q = opts.quote as char;
    let ghost was = out@;
    let ghost row = texts(cells@);
    let mut i: usize = 0;
    assert(row.skip(0) =~= row);
    while i < cells.len()
        invariant
            i <= cells@.len(),
            row == texts(cells@),
            d == opts.d(),
            q == opts.q(),
            out@ + (if 0 < i < row.len() {
                seq![d]
            } else {
                Seq::empty()
            }) + fields_text(row.skip(i as int), d, q) == was + fields_text(row, d, q),
        decreases cells@.len() - i,
    {
        let ghost mid = out@;
        let ghost rest = row.skip(i as int);
        proof {
            assert(rest[0] == cells@[i as int]@);
            assert(rest.skip(1) =~= row.skip(i + 1));
        }
        if i > 0 {
            out.push(d);
        }
        write_field(out, &cells[i], d, q);
        i += 1;
        proof {
            let f = field_text(rest[0], d, q);
            let t = fields_text(row.skip(i as int), d, q);
            if i < row.len() {
                assert(fields_text(rest, d, q) == f + seq![d] + t);
            } else {
                assert(t =~= Seq::empty());
            }
            assert(out@ + (if 0 < i < row.len() {
                seq![d]
            } else {
                Seq::empty()
            }) + t =~= mid + (if 0 < i - 1 < row.len() {
                seq![d]
            } else {
                Seq::empty()
            }) + fields_text(rest, d, q));
        }
    }
    assert(fields_text(row.skip(row.len() as int), d, q) =~= Seq::empty());
    assert(out@ =~= was + fields_text(row, d, q));
    out.push('\n');
    assert(out@ =~= was + row_text(row, d, q));
}

// Law

/// Whether a row survives: one of a lone empty field, and one of nothing, are
/// written as an empty line, which is no row.
pub open spec fn survives(row: Seq<Seq<char>>) -> bool {
    row.len() > 0 && !(row.len() == 1 && row[0].len() == 0)
}

/// Whether the two signs can be told from one another and from line ends.
pub open spec fn distinct(d: char, q: char) -> bool {
    d != q && d != '\n' && d != '\r' && q != '\n' && q != '\r'
}

proof fn lemma_scanned_concat(a: Seq<char>, b: Seq<char>, r: Reading, d: char, q: char, t: Reading)
    requires
        a.len() > 0,
        a.len() == 1 ==> b.len() == 0 || !(a[0] == q && r.quoted && b[0] == q) && !(a[0] == '\r' && b[0] == '\n'),
        a.len() <= 2,
        a.len() == 2 ==> r.quoted && a[0] == q && a[1] == q,
        t == step(a, r, d, q),
    ensures
        scanned(a + b, r, d, q) == scanned(b, t, d, q),
{
    let s = a + b;
    assert(s[0] == a[0]);
    if a.len() == 2 {
        assert(s[1] == a[1]);
        assert(s.skip(2) =~= b);
    } else {
        assert(s.skip(1) =~= b);
        if b.len() > 0 {
            assert(s[1] == b[0]);
        }
    }
    assert(step(s, r, d, q) == t);
}

/// Reading the inside of a quoted field, whose closing quote no other quote
/// follows.
proof fn lemma_inside(f: Seq<char>, b: Seq<char>, r: Reading, d: char, q: char)
    requires
        distinct(d, q),
        r.quoted,
        b.len() > 0,
        b[0] != q,
    ensures
        scanned(doubled(f, q) + seq![q] + b, r, d, q) == scanned(
            b,
            Reading { field: r.field + f, quoted: false, ..r },
            d,
            q,
        ),
    decreases f.len(),
{
    let t = Reading { field: r.field + f, quoted: false, ..r };
    if f.len() == 0 {
        assert(doubled(f, q) + seq![q] + b =~= seq![q] + b);
        assert(r.field + f =~= r.field);
        lemma_scanned_concat(seq![q], b, r, d, q, t);
    } else {
        let g = f.skip(1);
        let u = Reading { field: r.field.push(f[0]), ..r };
        let rest = doubled(g, q) + seq![q] + b;
        lemma_inside(g, b, u, d, q);
        assert(r.field.push(f[0]) + g =~= r.field + f);
        if f[0] == q {
            assert(doubled(f, q) + seq![q] + b =~= seq![q, q] + rest);
            lemma_scanned_concat(seq![q, q], rest, r, d, q, u);
        } else {
            let s = doubled(f, q) + seq![q] + b;
            assert(s =~= seq![f[0]] + rest);
            assert(s[0] == f[0]);
            assert(s.skip(1) =~= rest);
            assert(step(s, r, d, q) == u);
        }
    }
}

/// Reading a field without special characters.
proof fn lemma_plain(f: Seq<char>, b: Seq<char>, r: Reading, d: char, q: char)
    requires
        distinct(d, q),
        !r.quoted,
        !needs_quotes(f, d, q),
    ensures
        scanned(f + b, r, d, q) == scanned(
            b,
            Reading { field: r.field + f, started: r.started || f.len() > 0, ..r },
            d,
            q,
        ),
    decreases f.len(),
{
    if f.len() == 0 {
        assert(f + b =~= b);
        assert(r.field + f =~= r.field);
    } else {
        let g = f.skip(1);
        let u = Reading { field: r.field.push(f[0]), started: true, ..r };
        assert(!special(f[0], d, q));
        assert(!needs_quotes(g, d, q)) by {
            assert forall|i: int| 0 <= i < g.len() implies !special(#[trigger] g[i], d, q) by {
                assert(!special(f[i + 1], d, q));
            }
        }
        lemma_plain(g, b, u, d, q);
        assert(r.field.push(f[0]) + g =~= r.field + f);
        let s = f + b;
        assert(s[0] == f[0]);
        assert(s.skip(1) =~= g + b);
        assert(step(s, r, d, q) == u);
    }
}

/// Reading a field as it is written.
proof fn lemma_field(f: Seq<char>, b: Seq<char>, r: Reading, d: char, q: char)
    requires
        distinct(d, q),
        !r.quoted,
        r.field.len() == 0,
        b.len() > 0,
        b[0] != q,
    ensures
        scanned(field_text(f, d, q) + b, r, d, q) == scanned(
            b,
            Reading { field: f, started: r.started || f.len() > 0, ..r },
            d,
            q,
        ),
{
    assert(r.field + f =~= f);
    if needs_quotes(f, d, q) {
        let u = Reading { quoted: true, started: true, ..r };
        let rest = doubled(f, q) + seq![q] + b;
        let s = field_text(f, d, q) + b;
        assert(s =~= seq![q] + rest);
        assert(s[0] == q);
        assert(s.skip(1) =~= rest);
        assert(step(s, r, d, q) == u);
        lemma_inside(f, b, u, d, q);
    } else {
        lemma_plain(f, b, r, d, q);
    }
}

/// Reading the fields of a row, up to the end of its line.
proof fn lemma_fields(row: Seq<Seq<char>>, b: Seq<char>, r: Reading, d: char, q: char)
    requires
        distinct(d, q),
        row.len() > 0,
        !r.quoted,
        r.field.len() == 0,
        row.len() == 1 && row[0].len() == 0 ==> begun(r),
    ensures
        scanned(fields_text(row, d, q) + seq!['\n'] + b, r, d, q) == scanned(
            b,
            Reading {
                rows: r.rows.push(r.record + row),
                record: Seq::empty(),
                field: Seq::empty(),
                quoted: false,
                started: false,
            },
            d,
            q,
        ),
    decreases row.len(),
{
    let f = row[0];
    if row.len() == 1 {
        let tail = seq!['\n'] + b;
        assert(fields_text(row, d, q) + seq!['\n'] + b =~= field_text(f, d, q) + tail);
        lemma_field(f, tail, r, d, q);
        let u = Reading { field: f, started: r.started || f.len() > 0, ..r };
        let t = ended(u);
        assert(begun(u));
        lemma_scanned_concat(seq!['\n'], b, u, d, q, t);
        assert(r.record.push(f) =~= r.record + row);
    } else {
        let rest = row.skip(1);
        let more = fields_text(rest, d, q) + seq!['\n'] + b;
        let tail = seq![d] + more;
        assert(fields_text(row, d, q) + seq!['\n'] + b =~= field_text(f, d, q) + tail);
        lemma_field(f, tail, r, d, q);
        let u = Reading { field: f, started: r.started || f.len() > 0, ..r };
        let t = Reading { record: r.record.push(f), field: Seq::empty(), started: true, ..r };
        assert(tail[0] == d);
        assert(tail.skip(1) =~= more);
        assert(step(tail, u, d, q) == t);
        lemma_fields(rest, b, t, d, q);
        assert(r.record.push(f) + rest =~= r.record + row);
    }
}

/// Reading gives back what was written: every row that is not written as an empty
/// line, as long as the delimiter, the quote and line ends are told apart.
pub proof fn lemma_read_back(rows: Seq<Seq<Seq<char>>>, d: char, q: char)
    requires
        distinct(d, q),
        forall|i: int| 0 <= i < rows.len() ==> survives(#[trigger] rows[i]),
    ensures
        records(written(rows, d, q), d, q) == Ok::<Seq<Seq<Seq<char>>>, nat>(rows),
{
    lemma_read_rows(rows, Seq::empty(), d, q);
    assert(written(rows, d, q) + Seq::<char>::empty() =~= written(rows, d, q));
}

proof fn lemma_read_rows(rows: Seq<Seq<Seq<char>>>, b: Seq<char>, d: char, q: char)
    requires
        distinct(d, q),
        forall|i: int| 0 <= i < rows.len() ==> survives(#[trigger] rows[i]),
    ensures
        scanned(written(rows, d, q) + b, fresh(), d, q) == scanned(b, Reading { rows, ..fresh() }, d, q),
    decreases rows.len(),
{
    if rows.len() == 0 {
        assert(written(rows, d, q) + b =~= b);
        assert(rows =~= Seq::empty());
    } else {
        let head = rows.drop_last();
        let row = rows.last();
        assert forall|i: int| 0 <= i < head.len() implies survives(#[trigger] head[i]) by {
            assert(head[i] == rows[i]);
        }
        assert(survives(rows[rows.len() - 1]));
        let tail = fields_text(row, d, q) + seq!['\n'] + b;
        assert(written(rows, d, q) + b =~= written(head, d, q) + tail);
        lemma_read_rows(head, tail, d, q);
        let r = Reading { rows: head, ..fresh() };
        lemma_fields(row, b, r, d, q);
        assert(r.record + row =~= row);
        assert(head.push(row) =~= rows);
    }
}

// Columns

/// Whether a text is a truth value.
pub open spec fn is_bool_text(s: Seq<char>) -> bool {
    let l = text::lowered(s);
    l == "true"@ || l == "false"@ || l == "0"@ || l == "1"@
}

/// The kind of a column with these texts; those that stand for null do not count,
/// and a column of nothing else is text.
pub open spec fn kind_of(s: Seq<Seq<char>>, null: Seq<char>) -> ColKind {
    if forall|i: int| 0 <= i < s.len() ==> #[trigger] s[i] == null {
        ColKind::Text
    } else if forall|i: int| 0 <= i < s.len() ==> #[trigger] s[i] == null || numeric::int_value(s[i]) is Some {
        ColKind::Int
    } else if forall|i: int| 0 <= i < s.len() ==> #[trigger] s[i] == null || numeric::is_real_text(s[i]) {
        ColKind::Real
    } else if forall|i: int| 0 <= i < s.len() ==> #[trigger] s[i] == null || is_bool_text(s[i]) {
        ColKind::Bool
    } else {
        ColKind::Text
    }
}

/// The texts of a list of samples.
pub open spec fn sampled(v: Seq<&str>) -> Seq<Seq<char>> {
    Seq::new(v.len(), |i: int| v[i]@)
}

/// Infer the [`ColKind`] of a column from its string samples.
pub fn infer_kind(samples: &[&str], null_token: &str) -> (r: ColKind)
    ensures
        r == kind_of(sampled(samples@), null_token@),
{
    let ghost s = sampled(samples@);
    let ghost null = null_token@;
    let mut all_int = true;
    let mut all_real = true;
    let mut all_bool = true;
    let mut any = false;
    let mut i: usize = 0;
    while i < samples.len()
        invariant
            i <= samples@.len(),
            s == sampled(samples@),
            null == null_token@,
            any == !(forall|k: int| 0 <= k < i ==> #[trigger] s[k] == null),
            all_int == (forall|k: int| 0 <= k < i ==> #[trigger] s[k] == null || numeric::int_value(s[k]) is Some),
            all_real == (forall|k: int| 0 <= k < i ==> #[trigger] s[k] == null || numeric::is_real_text(s[k])),
            all_bool == (forall|k: int| 0 <= k < i ==> #[trigger] s[k] == null || is_bool_text(s[k])),
        decreases samples@.len() - i,
    {
        let t = samples[i];
        assert(s[i as int] == t@);
        if !text::same_text(t, null_token) {
            any = true;
            let v = text::chars_of(t);
            if numeric::read_int(&v).is_none() {
                all_int = false;
            }
            if !numeric::reads_as_real(&v) {
                all_real = false;
            }
            if !bool_text(t) {
                all_bool = false;
            }
        }
        i += 1;
    }
    if !any {
        ColKind::Text
    } else if all_int {
        ColKind::Int
    } else if all_real {
        ColKind::Real
    } else if all_bool {
        ColKind::Bool
    } else {
        ColKind::Text
    }
}

fn bool_text(t: &str) -> (r: bool)
    ensures
        r == is_bool_text(t@),
{
    text::is_lowered(t, "true") || text::is_lowered(t, "false") || text::is_lowered(t, "0") || text::is_lowered(t, "1")
}

/// A string dictionary that assigns stable ids in first-seen order.
#[derive(Debug, Clone)]
pub struct StringDict {
    values: Vec<String>,
}

impl View for StringDict {
    type V = Seq<Seq<char>>;

    closed spec fn view(&self) -> Seq<Seq<char>> {
        texts(self.values@)
    }
}

/// The words of a dictionary after one more is interned.
pub open spec fn interned(d: Seq<Seq<char>>, w: Seq<char>) -> Seq<Seq<char>> {
    if d.contains(w) {
        d
    } else {
        d.push(w)
    }
}

impl Default for StringDict {
    fn default() -> (r: StringDict)
        ensures
            r@ == Seq::<Seq<char>>::empty(),
    {
        StringDict::new()
    }
}

impl StringDict {
    /// Each word has one id.
    pub open spec fn wf(&self) -> bool {
        self@.no_duplicates()
    }

    /// A fresh empty dictionary.
    pub fn new() -> (r: StringDict)
        ensures
            r.wf(),
            r@ == Seq::<Seq<char>>::empty(),
    {
        let r = StringDict { values: Vec::new() };
        assert(r@ =~= Seq::<Seq<char>>::empty());
        r
    }

    /// Intern a string, returning its id. Ids are 32 bits wide.
    pub fn intern(&mut self, s: &str) -> (id: u32)
        requires
            old(self).wf(),
            old(self)@.len() <= u32::MAX,
        ensures
            final(self).wf(),
            final(self)@ == interned(old(self)@, s@),
            id < final(self)@.len(),
            final(self)@[id as int] == s@,
    {
        let ghost was = self@;
        let mut i: usize = 0;
        while i < self.values.len()
            invariant
                i <= self.values@.len(),
                self@ == was,
                was.len() == self.values@.len(),
                was.len() <= u32::MAX,
                was == old(self)@,
                self.wf(),
                forall|k: int| 0 <= k < i ==> #[trigger] was[k] != s@,
            decreases self.values@.len() - i,
        {
            if text::same_text(self.values[i].as_str(), s) {
                assert(was[i as int] == s@);
                return i as u32;
            }
            i += 1;
        }
        assert(!was.contains(s@));
        let id = self.values.len() as u32;
        let v = text::chars_of(s);
        self.values.push(text::string_of(&v));
        assert(self@ =~= was.push(s@));
        id
    }

    /// Resolve an id back to its string.
    pub fn resolve(&self, id: u32) -> (r: Option<&str>)
        ensures
            match r {
                Some(t) => id < self@.len() && t@ == self@[id as int],
                None => id >= self@.len(),
            },
    {
        if (id as usize) < self.values.len() {
            Some(self.values[id as usize].as_str())
        } else {
            None
        }
    }

    /// Number of distinct strings.
    pub fn len(&self) -> (r: usize)
        ensures
            r == self@.len(),
    {
        self.values.len()
    }

    /// `true` if empty.
    pub fn is_empty(&self) -> (r: bool)
        ensures
            r == (self@.len() == 0),
    {
        self.values.len() == 0
    }
}

/// A word resolves to itself, and every id given before keeps its word.
pub proof fn lemma_interned(d: Seq<Seq<char>>, w: Seq<char>)
    ensures
        interned(d, w).contains(w),
        forall|i: int| 0 <= i < d.len() ==> #[trigger] interned(d, w)[i] == d[i],
{
    if !d.contains(w) {
        assert(d.push(w)[d.len() as int] == w);
    }
}

// Import

/// The result of importing CSV: a typed batch plus the text dictionary used to
/// intern any text columns.
pub struct CsvImport {
    pub batch: RecordBatch,
    pub dict: StringDict,
}

/// A row's text in a column; a row that is too short has an empty one.
pub open spec fn cell(row: Seq<Seq<char>>, c: int) -> Seq<char> {
    if 0 <= c < row.len() {
        row[c]
    } else {
        Seq::empty()
    }
}

/// The texts of a column.
pub open spec fn column_cells(rows: Seq<Seq<Seq<char>>>, c: int) -> Seq<Seq<char>> {
    Seq::new(rows.len(), |i: int| cell(rows[i], c))
}

/// The words that a text column interns, one after the other.
pub open spec fn words_after(d: Seq<Seq<char>>, s: Seq<Seq<char>>, null: Seq<char>) -> Seq<Seq<char>>
    decreases s.len(),
{
    if s.len() == 0 {
        d
    } else {
        let e = words_after(d, s.drop_last(), null);
        if s.last() == null {
            e
        } else {
            interned(e, s.last())
        }
    }
}

/// What a text is in a column that is no text column. A real that the table lacks
/// is null.
pub open spec fn typed_cell(kind: ColKind, t: Seq<char>, reals: numeric::RealFacts) -> Value {
    match kind {
        ColKind::Int => match numeric::int_value(t) {
            Some(i) => Value::Int(i),
            None => Value::Null,
        },
        ColKind::Real => match numeric::first(reals.texts, t) {
            Some(b) => Value::Real(b),
            None => Value::Null,
        },
        ColKind::Bool => Value::Bool(text::lowered(t) == "true"@ || text::lowered(t) == "1"@),
        ColKind::Text => Value::Null,
    }
}

/// Whether a column's values are what its texts say, with the words of `d` behind
/// its ids.
pub open spec fn tells(
    v: Seq<Value>,
    kind: ColKind,
    s: Seq<Seq<char>>,
    null: Seq<char>,
    d: Seq<Seq<char>>,
    reals: numeric::RealFacts,
) -> bool {
    &&& v.len() == s.len()
    &&& forall|i: int|
        0 <= i < s.len() ==> cell_tells(#[trigger] v[i], kind, s[i], null, d, reals)
}

pub open spec fn cell_tells(
    v: Value,
    kind: ColKind,
    t: Seq<char>,
    null: Seq<char>,
    d: Seq<Seq<char>>,
    reals: numeric::RealFacts,
) -> bool {
    if t == null {
        v is Null
    } else if kind == ColKind::Text {
        v matches Value::Text(id) && id < d.len() && d[id as int] == t
    } else {
        v == typed_cell(kind, t, reals)
    }
}

/// The width of the widest row.
pub open spec fn widest(rows: Seq<Seq<Seq<char>>>) -> nat
    decreases rows.len(),
{
    if rows.len() == 0 {
        0
    } else {
        let w = widest(rows.drop_last());
        if rows.last().len() > w {
            rows.last().len()
        } else {
            w
        }
    }
}

/// The words that the text columns before `n` intern.
pub open spec fn dict_after(rows: Seq<Seq<Seq<char>>>, null: Seq<char>, n: nat) -> Seq<Seq<char>>
    decreases n,
{
    if n == 0 {
        Seq::empty()
    } else {
        let d = dict_after(rows, null, (n - 1) as nat);
        let s = column_cells(rows, n - 1);
        if kind_of(s, null) == ColKind::Text {
            words_after(d, s, null)
        } else {
            d
        }
    }
}

/// The name of a column without one.
pub open spec fn default_name(i: nat) -> Seq<char> {
    "col"@ + text::digits(i)
}

/// The name of column `i`.
pub open spec fn column_name(h: Option<Seq<Seq<char>>>, i: int) -> Seq<char> {
    match h {
        Some(n) => if i < n.len() {
            n[i]
        } else {
            default_name(i as nat)
        },
        None => default_name(i as nat),
    }
}

/// Whether a batch and a dictionary are what rows under a header say.
pub open spec fn imports(
    b: array::BatchModel,
    d: Seq<Seq<char>>,
    h: Option<Seq<Seq<char>>>,
    rows: Seq<Seq<Seq<char>>>,
    null: Seq<char>,
    reals: numeric::RealFacts,
) -> bool {
    let n = widest(rows);
    &&& b.columns.len() == n
    &&& b.names.len() == n
    &&& b.rows == (if n == 0 {
        0
    } else {
        rows.len()
    })
    &&& d == dict_after(rows, null, n)
    &&& forall|c: int| 0 <= c < n ==> #[trigger] b.names[c] == column_name(h, c)
    &&& forall|c: int|
        0 <= c < n ==> (#[trigger] b.columns[c]).kind == kind_of(column_cells(rows, c), null) && tells(
            b.columns[c].values,
            b.columns[c].kind,
            column_cells(rows, c),
            null,
            d,
            reals,
        )
}

fn cell_of<'a>(rows: &'a Vec<Vec<String>>, i: usize, c: usize) -> (r: &'a str)
    requires
        i < rows@.len(),
    ensures
        r@ == cell(table(rows@)[i as int], c as int),
{
    let row = &rows[i];
    if c < row.len() {
        row[c].as_str()
    } else {
        proof {
            reveal_strlit("");
        }
        assert(""@ =~= Seq::<char>::empty());
        ""
    }
}

/// The samples of a column.
fn samples<'a>(rows: &'a Vec<Vec<String>>, c: usize) -> (v: Vec<&'a str>)
    ensures
        sampled(v@) == column_cells(table(rows@), c as int),
{
    let mut v: Vec<&'a str> = Vec::new();
    let mut i: usize = 0;
    while i < rows.len()
        invariant
            i <= rows@.len(),
            v@.len() == i,
            forall|k: int| 0 <= k < i ==> (#[trigger] v@[k])@ == cell(table(rows@)[k], c as int),
        decreases rows@.len() - i,
    {
        v.push(cell_of(rows, i, c));
        i += 1;
    }
    assert(sampled(v@) =~= column_cells(table(rows@), c as int));
    v
}

proof fn lemma_words_kept(d: Seq<Seq<char>>, s: Seq<Seq<char>>, null: Seq<char>)
    ensures
        d.len() <= words_after(d, s, null).len() <= d.len() + s.len(),
        forall|i: int| 0 <= i < d.len() ==> #[trigger] words_after(d, s, null)[i] == d[i],
    decreases s.len(),
{
    if s.len() > 0 {
        lemma_words_kept(d, s.drop_last(), null);
        lemma_interned(words_after(d, s.drop_last(), null), s.last());
        assert forall|i: int| 0 <= i < d.len() implies #[trigger] words_after(d, s, null)[i] == d[i] by {
            assert(words_after(d, s.drop_last(), null)[i] == d[i]);
        }
    }
}

/// Fill one column.
fn fill(rows: &Vec<Vec<String>>, c: usize, kind: ColKind, null: &str, reals: &Reals, dict: &mut StringDict) -> (a: Array)
    requires
        old(dict).wf(),
        old(dict)@.len() + rows@.len() <= u32::MAX,
    ensures
        final(dict).wf(),
        final(dict)@ == (if kind == ColKind::Text {
            words_after(old(dict)@, column_cells(table(rows@), c as int), null@)
        } else {
            old(dict)@
        }),
        a.wf(),
        a@.kind == kind,
        tells(a@.values, kind, column_cells(table(rows@), c as int), null@, final(dict)@, reals@),
{
    let ghost s = column_cells(table(rows@), c as int);
    let ghost first = dict@;
    let mut b = ArrayBuilder::new(kind);
    let mut i: usize = 0;
    while i < rows.len()
        invariant
            i <= rows@.len(),
            s == column_cells(table(rows@), c as int),
            first.len() + rows@.len() <= u32::MAX,
            dict.wf(),
            dict@ == (if kind == ColKind::Text {
                words_after(first, s.take(i as int), null@)
            } else {
                first
            }),
            dict@.len() <= first.len() + i,
            b.wf(),
            b@.kind == kind,
            b@.values.len() == i,
            forall|k: int| 0 <= k < i ==> cell_tells(#[trigger] b@.values[k], kind, s[k], null@, dict@, reals@),
        decreases rows@.len() - i,
    {
        let t = cell_of(rows, i, c);
        let ghost held = dict@;
        let ghost before = b@.values;
        proof {
            assert(s[i as int] == t@);
            assert(s.take(i + 1).drop_last() =~= s.take(i as int));
            assert(s.take(i + 1).last() == t@);
        }
        if text::same_text(t, null) {
            b.push_null();
        } else {
            let v = match kind {
                ColKind::Int => {
                    let w = text::chars_of(t);
                    match numeric::read_int(&w) {
                        Some(i) => Value::Int(i),
                        None => Value::Null,
                    }
                },
                ColKind::Real => match reals.text(t) {
                    Some(x) => Value::Real(x),
                    None => Value::Null,
                },
                ColKind::Bool => Value::Bool(text::is_lowered(t, "true") || text::is_lowered(t, "1")),
                ColKind::Text => {
                    let id = dict.intern(t);
                    proof {
                        lemma_interned(held, t@);
                    }
                    Value::Text(id)
                },
            };
            b.push(v);
        }
        proof {
            assert forall|k: int| 0 <= k < i + 1 implies cell_tells(
                #[trigger] b@.values[k],
                kind,
                s[k],
                null@,
                dict@,
                reals@,
            ) by {
                if k < i {
                    assert(cell_tells(before[k], kind, s[k], null@, held, reals@));
                    assert(b@.values[k] == before[k]);
                }
            }
        }
        i += 1;
    }
    assert(s.take(s.len() as int) =~= s);
    b.finish()
}

/// The texts of a header.
pub open spec fn header_texts(h: Option<Vec<String>>) -> Option<Seq<Seq<char>>> {
    match h {
        Some(v) => Some(texts(v@)),
        None => None,
    }
}

fn name_for(header: &Option<Vec<String>>, c: usize) -> (r: String)
    ensures
        r@ == column_name(
            header_texts(*header),
            c as int,
        ),
{
    if let Some(h) = header {
        if c < h.len() {
            return sql::copy_text(&h[c]);
        }
    }
    let mut v = text::chars_of("col");
    text::push_number(&mut v, c as u128);
    text::string_of(&v)
}

/// The rows of data: all but the header.
pub open spec fn data_rows(all: Seq<Seq<Seq<char>>>, has_header: bool) -> Seq<Seq<Seq<char>>> {
    if has_header && all.len() > 0 {
        all.skip(1)
    } else {
        all
    }
}

/// Import CSV text into a typed [`RecordBatch`], inferring column types. Reals
/// are looked up in `reals`; the dictionary's ids number all cells.
pub fn import(input: &str, opts: &CsvOptions, reals: &Reals) -> (r: Result<CsvImport, CsvError>)
    requires
        records(input@, opts.d(), opts.q()) matches Ok(all) ==> data_rows(all, opts.has_header).len() * widest(
            data_rows(all, opts.has_header),
        ) <= u32::MAX,
    ensures
        match (r, records(input@, opts.d(), opts.q())) {
            (Ok(x), Ok(all)) => x.batch.wf() && x.dict.wf() && if opts.has_header && all.len() > 0 {
                imports(x.batch@, x.dict@, Some(all[0]), all.skip(1), opts.null_token@, reals@)
            } else {
                imports(x.batch@, x.dict@, None, all, opts.null_token@, reals@)
            },
            (Err(e), Err(n)) => e.message@ == "unterminated quoted field"@ && e.row == n,
            _ => false,
        },
{
    let (header, rows) = match parse_records(input, opts) {
        Err(e) => return Err(e),
        Ok(p) => p,
    };
    assert(table(rows@) =~= data_rows(records(input@, opts.d(), opts.q())->Ok_0, opts.has_header));
    Ok(import_rows(&header, &rows, opts.null_token.as_str(), reals))
}

/// Turn rows under a header into typed columns.
pub fn import_rows(header: &Option<Vec<String>>, rows: &Vec<Vec<String>>, null: &str, reals: &Reals) -> (r: CsvImport)
    requires
        rows@.len() * widest(table(rows@)) <= u32::MAX,
    ensures
        r.batch.wf(),
        r.dict.wf(),
        imports(
            r.batch@,
            r.dict@,
            header_texts(*header),
            table(rows@),
            null@,
            reals@,
        ),
{
    let ghost t = table(rows@);
    let ghost h = header_texts(*header);
    let mut ncols: usize = 0;
    let mut i: usize = 0;
    while i < rows.len()
        invariant
            i <= rows@.len(),
            t == table(rows@),
            ncols == widest(t.take(i as int)),
        decreases rows@.len() - i,
    {
        assert(t.take(i + 1).drop_last() =~= t.take(i as int));
        assert(t.take(i + 1).last() == texts(rows@[i as int]@));
        let n = rows[i].len();
        if n > ncols {
            ncols = n;
        }
        i += 1;
    }
    assert(t.take(t.len() as int) =~= t);
    let mut dict = StringDict::new();
    let mut pairs: Vec<(String, Array)> = Vec::new();
    let mut c: usize = 0;
    while c < ncols
        invariant
            c <= ncols,
            t == table(rows@),
            ncols == widest(t),
            rows@.len() * ncols <= u32::MAX,
            h == header_texts(*header),
            dict.wf(),
            dict@ == dict_after(t, null@, c as nat),
            dict@.len() <= rows@.len() * c,
            pairs@.len() == c,
            forall|k: int|
                0 <= k < c ==> (#[trigger] pairs@[k]).1.wf() && pairs@[k].0@ == column_name(h, k) && pairs@[k].1@.kind
                    == kind_of(column_cells(t, k), null@) && tells(
                    pairs@[k].1@.values,
                    pairs@[k].1@.kind,
                    column_cells(t, k),
                    null@,
                    dict@,
                    reals@,
                ),
        decreases ncols - c,
    {
        let ghost held = dict@;
        let ghost before = pairs@;
        let s = samples(rows, c);
        let kind = infer_kind(s.as_slice(), null);
        proof {
            let n = rows@.len() as int;
            assert(n * c + n == n * (c + 1) && n * (c + 1) <= n * ncols) by (nonlinear_arith)
                requires
                    n >= 0,
                    c + 1 <= ncols,
            ;
        }
        let a = fill(rows, c, kind, null, reals, &mut dict);
        proof {
            lemma_words_kept(held, column_cells(t, c as int), null@);
        }
        pairs.push((name_for(header, c), a));
        proof {
            assert forall|k: int| 0 <= k < c + 1 implies (#[trigger] pairs@[k]).1.wf() && pairs@[k].0@ == column_name(
                h,
                k,
            ) && pairs@[k].1@.kind == kind_of(column_cells(t, k), null@) && tells(
                pairs@[k].1@.values,
                pairs@[k].1@.kind,
                column_cells(t, k),
                null@,
                dict@,
                reals@,
            ) by {
                if k < c {
                    let v = before[k].1@;
                    assert(pairs@[k] == before[k]);
                    assert(tells(v.values, v.kind, column_cells(t, k), null@, held, reals@));
                    assert forall|j: int| 0 <= j < column_cells(t, k).len() implies cell_tells(
                        #[trigger] v.values[j],
                        v.kind,
                        column_cells(t, k)[j],
                        null@,
                        dict@,
                        reals@,
                    ) by {
                        assert(cell_tells(v.values[j], v.kind, column_cells(t, k)[j], null@, held, reals@));
                        if let Value::Text(id) = v.values[j] {
                            assert(id < held.len() ==> dict@[id as int] == held[id as int]);
                        }
                    }
                }
            }
        }
        c += 1;
    }
    let ghost p = pairs@;
    proof {
        lemma_even(p, t.len());
    }
    let batch = RecordBatch::new(pairs);
    proof {
        let b = batch@;
        assert forall|c: int| 0 <= c < ncols implies (#[trigger] b.columns[c]) == p[c].1@ by {
            array_even(p[c].1@, t.len());
            assert(p[c].1@.values.len() == t.len());
        }
    }
    CsvImport { batch, dict }
}

/// A column of full length is not padded.
proof fn array_even(a: array::ArrayModel, n: nat)
    requires
        a.values.len() == n,
    ensures
        array::padded(a, n) == a,
{
    assert(array::padded(a, n).values =~= a.values);
}

proof fn lemma_even(p: Seq<(String, Array)>, n: nat)
    requires
        forall|i: int| 0 <= i < p.len() ==> (#[trigger] p[i]).1@.values.len() == n,
    ensures
        array::longest(p) == (if p.len() == 0 {
            0
        } else {
            n
        }),
    decreases p.len(),
{
    if p.len() > 0 {
        let d = p.drop_last();
        assert forall|i: int| 0 <= i < d.len() implies (#[trigger] d[i]).1@.values.len() == n by {
            assert(d[i] == p[i]);
        }
        lemma_even(d, n);
        assert(p[p.len() - 1].1@.values.len() == n);
    }
}

// Export

/// A value as a field; a real's text is looked up, and one that is missing, or a
/// word that the dictionary lacks, is empty.
pub open spec fn value_field(v: Value, d: Seq<Seq<char>>, null: Seq<char>, reals: numeric::RealTextFacts) -> Seq<char> {
    match v {
        Value::Null => null,
        Value::Bool(b) => if b {
            "true"@
        } else {
            "false"@
        },
        Value::Int(i) => text::int_text(i as int),
        Value::Real(b) => numeric::real_text(reals, b),
        Value::Text(id) => if id < d.len() {
            d[id as int]
        } else {
            Seq::empty()
        },
    }
}

/// The fields of a row of a batch.
pub open spec fn batch_row(
    b: array::BatchModel,
    r: int,
    d: Seq<Seq<char>>,
    null: Seq<char>,
    reals: numeric::RealTextFacts,
) -> Seq<Seq<char>> {
    Seq::new(b.columns.len(), |c: int| value_field(array::nth(b.columns[c].values, r), d, null, reals))
}

/// The rows that an export writes: the names, where there is a header, and the
/// rows of the batch.
pub open spec fn exported(
    b: array::BatchModel,
    d: Seq<Seq<char>>,
    has_header: bool,
    null: Seq<char>,
    reals: numeric::RealTextFacts,
) -> Seq<Seq<Seq<char>>> {
    (if has_header {
        seq![b.names]
    } else {
        Seq::empty()
    }) + Seq::new(b.rows, |r: int| batch_row(b, r, d, null, reals))
}

fn cell_to_string(v: Value, dict: &StringDict, null: &String, reals: &numeric::RealTexts) -> (s: String)
    ensures
        s@ == value_field(v, dict@, null@, reals@),
{
    match v {
        Value::Null => sql::copy_text(null),
        Value::Bool(b) => if b {
            String::from_str("true")
        } else {
            String::from_str("false")
        },
        Value::Int(i) => numeric::int_string(i),
        Value::Real(b) => reals.text(b),
        Value::Text(id) => match dict.resolve(id) {
            Some(t) => {
                let v = text::chars_of(t);
                text::string_of(&v)
            },
            None => {
                let s = String::new();
                assert(s@ =~= Seq::<char>::empty());
                s
            },
        },
    }
}

/// Export a [`RecordBatch`] to CSV, resolving text ids through `dict` and reals
/// through their texts.
pub fn export(batch: &RecordBatch, dict: &StringDict, opts: &CsvOptions, reals: &numeric::RealTexts) -> (s: String)
    requires
        batch.wf(),
    ensures
        s@ == written(
            exported(batch@, dict@, opts.has_header, opts.null_token@, reals@),
            opts.d(),
            opts.q(),
        ),
{
    let ghost all = exported(batch@, dict@, opts.has_header, opts.null_token@, reals@);
    let ghost d = opts.d();
    let ghost q = opts.q();
    let ghost lead: int = if opts.has_header {
        1
    } else {
        0
    };
    let mut out: Vec<char> = Vec::new();
    proof {
        assert(out@ =~= written(all.take(0), d, q));
    }
    if opts.has_header {
        let names = batch.names();
        write_row(&mut out, names, opts);
        proof {
            assert(texts(names@) =~= batch@.names);
            assert(all.take(1).drop_last() =~= all.take(0));
            assert(all.take(1).last() == batch@.names);
        }
    }
    let n = batch.rows();
    let w = batch.width();
    let mut r: usize = 0;
    while r < n
        invariant
            r <= n,
            n == batch@.rows,
            w == batch@.columns.len(),
            batch.wf(),
            d == opts.d(),
            q == opts.q(),
            lead == (if opts.has_header {
                1int
            } else {
                0
            }),
            all == exported(batch@, dict@, opts.has_header, opts.null_token@, reals@),
            out@ == written(all.take(lead + r), d, q),
        decreases n - r,
    {
        let ghost row = batch_row(batch@, r as int, dict@, opts.null_token@, reals@);
        let vals = batch.row(r);
        let mut cells: Vec<String> = Vec::new();
        let mut c: usize = 0;
        while c < vals.len()
            invariant
                c <= vals@.len(),
                row == batch_row(batch@, r as int, dict@, opts.null_token@, reals@),
                vals@ == Seq::new(batch@.columns.len(), |c: int| array::nth(batch@.columns[c].values, r as int)),
                texts(cells@) == row.take(c as int),
            decreases vals@.len() - c,
        {
            let ghost was = texts(cells@);
            cells.push(cell_to_string(vals[c], dict, &opts.null_token, reals));
            assert(texts(cells@) =~= was.push(row[c as int]));
            assert(row.take(c + 1) =~= row.take(c as int).push(row[c as int]));
            c += 1;
        }
        assert(row.take(row.len() as int) =~= row);
        write_row(&mut out, cells.as_slice(), opts);
        proof {
            assert(all.take(lead + r + 1).drop_last() =~= all.take(lead + r));
            assert(all.take(lead + r + 1).last() == row);
        }
        r += 1;
    }
    assert(all.take(lead + n) =~= all);
    text::string_of(&out)
}

// What the tables lack

/// A field of a real column that the table of texts lacks.
pub open spec fn lacks(t: Seq<char>, null: Seq<char>, reals: numeric::RealFacts) -> bool {
    t != null && numeric::first(reals.texts, t) is None
}

/// The fields of a column that the table lacks, in order.
pub open spec fn column_lacks(s: Seq<Seq<char>>, null: Seq<char>, reals: numeric::RealFacts) -> Seq<Seq<char>>
    decreases s.len(),
{
    if s.len() == 0 {
        Seq::empty()
    } else {
        let before = column_lacks(s.drop_last(), null, reals);
        if lacks(s.last(), null, reals) {
            before.push(s.last())
        } else {
            before
        }
    }
}

/// The fields of the real columns among the first `n` that the table lacks, column
/// by column.
pub open spec fn table_lacks(rows: Seq<Seq<Seq<char>>>, null: Seq<char>, reals: numeric::RealFacts, n: nat) -> Seq<
    Seq<char>,
>
    decreases n,
{
    if n == 0 {
        Seq::empty()
    } else {
        let s = column_cells(rows, n - 1);
        table_lacks(rows, null, reals, (n - 1) as nat) + if kind_of(s, null) == ColKind::Real {
            column_lacks(s, null, reals)
        } else {
            Seq::empty()
        }
    }
}

/// Where nothing is lacking, every field of a real column but the null token is a
/// real.
pub proof fn lemma_nothing_lacks(rows: Seq<Seq<Seq<char>>>, null: Seq<char>, reals: numeric::RealFacts, n: nat)
    requires
        table_lacks(rows, null, reals, n).len() == 0,
    ensures
        forall|c: int, i: int|
            0 <= c < n && 0 <= i < rows.len() && kind_of(column_cells(rows, c), null) == ColKind::Real && cell(
                rows[i],
                c,
            ) != null ==> #[trigger] typed_cell(ColKind::Real, cell(rows[i], c), reals) is Real,
    decreases n,
{
    if n > 0 {
        lemma_nothing_lacks(rows, null, reals, (n - 1) as nat);
        assert forall|c: int, i: int|
            0 <= c < n && 0 <= i < rows.len() && kind_of(column_cells(rows, c), null) == ColKind::Real && cell(
                rows[i],
                c,
            ) != null implies #[trigger] typed_cell(ColKind::Real, cell(rows[i], c), reals) is Real by {
            if c == n - 1 {
                let s = column_cells(rows, c);
                lemma_column_lacks(s, null, reals, i);
            }
        }
    }
}

proof fn lemma_column_lacks(s: Seq<Seq<char>>, null: Seq<char>, reals: numeric::RealFacts, i: int)
    requires
        column_lacks(s, null, reals).len() == 0,
        0 <= i < s.len(),
    ensures
        !lacks(s[i], null, reals),
    decreases s.len(),
{
    if i < s.len() - 1 {
        lemma_column_lacks(s.drop_last(), null, reals, i);
    }
}

fn width_of(rows: &Vec<Vec<String>>) -> (n: usize)
    ensures
        n == widest(table(rows@)),
{
    let ghost t = table(rows@);
    let mut n: usize = 0;
    let mut i: usize = 0;
    assert(t.take(0) =~= Seq::empty());
    while i < rows.len()
        invariant
            i <= rows@.len(),
            t == table(rows@),
            n == widest(t.take(i as int)),
        decreases rows@.len() - i,
    {
        assert(t.take(i + 1).drop_last() =~= t.take(i as int));
        assert(t.take(i + 1).last() == texts(rows@[i as int]@));
        let w = rows[i].len();
        if w > n {
            n = w;
        }
        i += 1;
    }
    assert(t.take(t.len() as int) =~= t);
    n
}

/// The fields that an import would look up in the table of reals in vain.
pub fn missing_reals(rows: &Vec<Vec<String>>, null: &str, reals: &Reals) -> (r: Vec<String>)
    ensures
        texts(r@) == table_lacks(table(rows@), null@, reals@, widest(table(rows@))),
{
    let ghost t = table(rows@);
    let n = width_of(rows);
    let mut out: Vec<String> = Vec::new();
    let mut c: usize = 0;
    assert(texts(out@) =~= Seq::empty());
    while c < n
        invariant
            c <= n,
            t == table(rows@),
            texts(out@) == table_lacks(t, null@, reals@, c as nat),
        decreases n - c,
    {
        let ghost held = texts(out@);
        let ghost all = column_cells(t, c as int);
        let s = samples(rows, c);
        if infer_kind(s.as_slice(), null) == ColKind::Real {
            let mut i: usize = 0;
            assert(held + column_lacks(all.take(0), null@, reals@) =~= held);
            while i < s.len()
                invariant
                    i <= s@.len(),
                    all == sampled(s@),
                    texts(out@) == held + column_lacks(all.take(i as int), null@, reals@),
                decreases s@.len() - i,
            {
                let ghost now = texts(out@);
                assert(all.take(i + 1).drop_last() =~= all.take(i as int));
                assert(all.take(i + 1).last() == s@[i as int]@);
                if !text::same_text(s[i], null) && reals.text(s[i]).is_none() {
                    let v = text::chars_of(s[i]);
                    out.push(text::string_of(&v));
                    assert(texts(out@) =~= now.push(s@[i as int]@));
                    assert(texts(out@) =~= held + column_lacks(all.take(i + 1), null@, reals@));
                }
                i += 1;
            }
            assert(all.take(all.len() as int) =~= all);
        } else {
            assert(texts(out@) =~= held + Seq::<Seq<char>>::empty());
        }
        c += 1;
    }
    out
}

/// Why an import did not come about.
pub enum ImportFault {
    /// The text is no CSV.
    Text(CsvError),
    /// There are more cells than the dictionary can number.
    TooLarge,
    /// The table of reals lacks these fields.
    Lacking(Vec<String>),
}

/// Import CSV text where it can be read, where its cells can be numbered and
/// where every real is known; otherwise say what is in the way.
pub fn try_import(input: &str, opts: &CsvOptions, reals: &Reals) -> (r: Result<CsvImport, ImportFault>)
    ensures
        match records(input@, opts.d(), opts.q()) {
            Err(n) => r matches Err(ImportFault::Text(e)) && e.message@ == "unterminated quoted field"@ && e.row == n,
            Ok(all) => {
                let rows = data_rows(all, opts.has_header);
                let missing = table_lacks(rows, opts.null_token@, reals@, widest(rows));
                if rows.len() * widest(rows) > u32::MAX {
                    r matches Err(ImportFault::TooLarge)
                } else if missing.len() > 0 {
                    r matches Err(ImportFault::Lacking(v)) && texts(v@) == missing
                } else {
                    &&& r matches Ok(x)
                    &&& x.batch.wf()
                    &&& x.dict.wf()
                    &&& imports(
                        x.batch@,
                        x.dict@,
                        if opts.has_header && all.len() > 0 {
                            Some(all[0])
                        } else {
                            None
                        },
                        rows,
                        opts.null_token@,
                        reals@,
                    )
                }
            },
        },
{
    let (header, rows) = match parse_records(input, opts) {
        Err(e) => return Err(ImportFault::Text(e)),
        Ok(p) => p,
    };
    assert(table(rows@) =~= data_rows(records(input@, opts.d(), opts.q())->Ok_0, opts.has_header));
    let n = width_of(&rows);
    let size: u128 = wide(rows.len(), n);
    if size > 0xFFFF_FFFF {
        return Err(ImportFault::TooLarge);
    }
    let missing = missing_reals(&rows, opts.null_token.as_str(), reals);
    assert(texts(missing@).len() == missing@.len());
    if missing.len() > 0 {
        return Err(ImportFault::Lacking(missing));
    }
    Ok(import_rows(&header, &rows, opts.null_token.as_str(), reals))
}

fn wide(a: usize, b: usize) -> (r: u128)
    ensures
        r == a * b,
{
    let x = a as u128;
    let y = b as u128;
    assert(x * y <= 0xFFFF_FFFF_FFFF_FFFFu128 * 0xFFFF_FFFF_FFFF_FFFFu128) by (nonlinear_arith)
        requires
            x <= 0xFFFF_FFFF_FFFF_FFFFu128,
            y <= 0xFFFF_FFFF_FFFF_FFFFu128,
    ;
    x * y
}

/// A value that an export can write: no real, or one whose text is known.
pub open spec fn writable(v: Value, reals: numeric::RealTextFacts) -> bool {
    v matches Value::Real(b) ==> numeric::knows(reals, b)
}

/// Export a batch where the text of every real in it is known; otherwise give a
/// real whose text is missing.
pub fn try_export(
    batch: &RecordBatch,
    dict: &StringDict,
    opts: &CsvOptions,
    reals: &numeric::RealTexts,
) -> (r: Result<String, u64>)
    requires
        batch.wf(),
    ensures
        match r {
            Ok(s) => s@ == written(
                exported(batch@, dict@, opts.has_header, opts.null_token@, reals@),
                opts.d(),
                opts.q(),
            ) && forall|i: int, c: int|
                0 <= i < batch@.rows && 0 <= c < batch@.columns.len() ==> writable(
                    #[trigger] array::nth(batch@.columns[c].values, i),
                    reals@,
                ),
            Err(b) => !numeric::knows(reals@, b) && exists|i: int, c: int|
                0 <= i < batch@.rows && 0 <= c < batch@.columns.len() && #[trigger] array::nth(
                    batch@.columns[c].values,
                    i,
                ) == Value::Real(b),
        },
{
    let n = batch.rows();
    let mut i: usize = 0;
    while i < n
        invariant
            i <= n,
            n == batch@.rows,
            batch.wf(),
            forall|k: int, c: int|
                0 <= k < i && 0 <= c < batch@.columns.len() ==> writable(
                    #[trigger] array::nth(batch@.columns[c].values, k),
                    reals@,
                ),
        decreases n - i,
    {
        let vals = batch.row(i);
        let mut c: usize = 0;
        while c < vals.len()
            invariant
                c <= vals@.len(),
                i < n,
                n == batch@.rows,
                vals@ == Seq::new(batch@.columns.len(), |c: int| array::nth(batch@.columns[c].values, i as int)),
                forall|k: int| 0 <= k < c ==> writable(#[trigger] vals@[k], reals@),
            decreases vals@.len() - c,
        {
            if let Value::Real(b) = vals[c] {
                if !reals.known(b) {
                    assert(array::nth(batch@.columns[c as int].values, i as int) == Value::Real(b));
                    return Err(b);
                }
            }
            c += 1;
        }
        assert forall|c: int| 0 <= c < batch@.columns.len() implies writable(
            #[trigger] array::nth(batch@.columns[c].values, i as int),
            reals@,
        ) by {
            assert(writable(vals@[c], reals@));
        }
        i += 1;
    }
    Ok(export(batch, dict, opts, reals))
}

// What imports and exports are for

/// The texts of truth values: `true` and `1` are true, `false` and `0` are false,
/// in letters of either case.
pub proof fn lemma_truth_texts(t: Seq<char>, reals: numeric::RealFacts)
    ensures
        t.len() == 4 && (t[0] == 't' || t[0] == 'T') && (t[1] == 'r' || t[1] == 'R') && (t[2] == 'u' || t[2] == 'U') && (t[3]
            == 'e' || t[3] == 'E') ==> typed_cell(ColKind::Bool, t, reals) == Value::Bool(true) && is_bool_text(t),
        t.len() == 5 && (t[0] == 'f' || t[0] == 'F') && (t[1] == 'a' || t[1] == 'A') && (t[2] == 'l' || t[2] == 'L') && (t[3]
            == 's' || t[3] == 'S') && (t[4] == 'e' || t[4] == 'E') ==> typed_cell(ColKind::Bool, t, reals) == Value::Bool(
            false,
        ) && is_bool_text(t),
        t == seq!['1'] ==> typed_cell(ColKind::Bool, t, reals) == Value::Bool(true) && is_bool_text(t),
        t == seq!['0'] ==> typed_cell(ColKind::Bool, t, reals) == Value::Bool(false) && is_bool_text(t),
{
    reveal_strlit("true");
    reveal_strlit("false");
    reveal_strlit("0");
    reveal_strlit("1");
    let l = text::lowered(t);
    assert(l.len() == t.len());
    if t.len() == 4 && (t[0] == 't' || t[0] == 'T') && (t[1] == 'r' || t[1] == 'R') && (t[2] == 'u' || t[2] == 'U') && (t[3]
        == 'e' || t[3] == 'E') {
        assert(l =~= "true"@);
    }
    if t.len() == 5 && (t[0] == 'f' || t[0] == 'F') && (t[1] == 'a' || t[1] == 'A') && (t[2] == 'l' || t[2] == 'L') && (t[3]
        == 's' || t[3] == 'S') && (t[4] == 'e' || t[4] == 'E') {
        assert(l =~= "false"@);
    }
    if t == seq!['1'] {
        assert(l =~= "1"@);
    }
    if t == seq!['0'] {
        assert(l =~= "0"@);
    }
    assert("true"@ != "false"@) by {
        assert("true"@.len() != "false"@.len());
    }
    assert("true"@.len() == 4 && "false"@.len() == 5 && "0"@.len() == 1 && "1"@.len() == 1);
    assert("0"@[0] != "1"@[0]);
}

/// What an import makes of its cells. The text that stands for null is null; in a
/// column of truth values `true` and `1` are true, and `false` and `0` false; in a
/// column of integers a text is the integer that it spells; and the id in a column
/// of texts is that of the cell's own text. Column `c` is told by the `c`-th cell of
/// each row, in the order of the rows.
pub proof fn lemma_imported_cells(
    b: array::BatchModel,
    d: Seq<Seq<char>>,
    h: Option<Seq<Seq<char>>>,
    rows: Seq<Seq<Seq<char>>>,
    null: Seq<char>,
    reals: numeric::RealFacts,
    r: int,
    c: int,
)
    requires
        imports(b, d, h, rows, null, reals),
        0 <= r < rows.len(),
        0 <= c < rows[r].len(),
    ensures
        c < b.columns.len(),
        r < b.columns[c].values.len(),
        b.columns[c].values.len() == rows.len() == b.rows,
        h matches Some(n) ==> c < n.len() ==> b.names[c] == n[c],
        ({
            let v = b.columns[c].values[r];
            let t = rows[r][c];
            let kind = b.columns[c].kind;
            &&& t == null ==> v is Null
            &&& t != null && kind == ColKind::Bool && (t == seq!['t', 'r', 'u', 'e'] || t == seq!['1']) ==> v == Value::Bool(true)
            &&& t != null && kind == ColKind::Bool && (t == seq!['f', 'a', 'l', 's', 'e'] || t == seq!['0']) ==> v
                == Value::Bool(false)
            &&& t != null && kind == ColKind::Int ==> v is Int && forall|i: i64| t == #[trigger] text::int_text(i as int)
                ==> v == Value::Int(i)
            &&& t != null && kind == ColKind::Text ==> (v matches Value::Text(id) && id < d.len() && d[id as int] == t)
        }),
{
    lemma_widest(rows, r);
    let s = column_cells(rows, c);
    assert(s[r] == rows[r][c]);
    let t = rows[r][c];
    assert(cell_tells(b.columns[c].values[r], b.columns[c].kind, s[r], null, d, reals));
    lemma_truth_texts(t, reals);
    assert forall|i: i64| t == #[trigger] text::int_text(i as int) implies numeric::int_value(t) == Some(i) by {
        numeric::lemma_int_read_back(i);
    }
    assert(b.names[c] == column_name(h, c));
}

proof fn lemma_widest(rows: Seq<Seq<Seq<char>>>, r: int)
    requires
        0 <= r < rows.len(),
    ensures
        rows[r].len() <= widest(rows),
    decreases rows.len(),
{
    if r < rows.len() - 1 {
        lemma_widest(rows.drop_last(), r);
        assert(rows.drop_last()[r] == rows[r]);
    }
}

/// A cell is read back from the field that was written for it: the value itself, and
/// of a text the same word.
pub proof fn lemma_cell_read_back(
    v: Value,
    kind: ColKind,
    d: Seq<Seq<char>>,
    null: Seq<char>,
    texts: numeric::RealTextFacts,
    reals: numeric::RealFacts,
    e: Seq<Seq<char>>,
    w: Value,
)
    requires
        match v {
            Value::Null => true,
            Value::Bool(_) => kind == ColKind::Bool,
            Value::Int(_) => kind == ColKind::Int,
            Value::Real(b) => kind == ColKind::Real && numeric::first(reals.texts, numeric::real_text(texts, b)) == Some(b),
            Value::Text(id) => kind == ColKind::Text && id < d.len(),
        },
        v is Null || value_field(v, d, null, texts) != null,
        cell_tells(w, kind, value_field(v, d, null, texts), null, e, reals),
    ensures
        match v {
            Value::Text(id) => w matches Value::Text(k) && k < e.len() && e[k as int] == d[id as int],
            _ => w == v,
        },
{
    let t = value_field(v, d, null, texts);
    match v {
        Value::Bool(b) => {
            reveal_strlit("true");
            reveal_strlit("false");
            lemma_truth_texts(t, reals);
        },
        Value::Int(i) => {
            numeric::lemma_int_read_back(i);
        },
        _ => {},
    }
}

/// Importing what an export writes gives the batch back: its names, its rows and
/// every value, a text by its word. This leaves out a batch with a column whose
/// texts, as far as they are not null, are those of another kind, or whose values'
/// texts cannot be told from null.
pub proof fn lemma_imported_export(
    b: array::BatchModel,
    d: Seq<Seq<char>>,
    null: Seq<char>,
    texts: numeric::RealTextFacts,
    reals: numeric::RealFacts,
    a: array::BatchModel,
    e: Seq<Seq<char>>,
    r: int,
    c: int,
)
    requires
        b.names.len() == b.columns.len(),
        forall|k: int| 0 <= k < b.columns.len() ==> (#[trigger] b.columns[k]).values.len() == b.rows,
        imports(
            a,
            e,
            Some(exported(b, d, true, null, texts)[0]),
            exported(b, d, true, null, texts).skip(1),
            null,
            reals,
        ),
        0 <= r < b.rows,
        0 <= c < b.columns.len(),
        ({
            let v = b.columns[c].values[r];
            match v {
                Value::Null => true,
                Value::Bool(_) => b.columns[c].kind == ColKind::Bool,
                Value::Int(_) => b.columns[c].kind == ColKind::Int,
                Value::Real(x) => b.columns[c].kind == ColKind::Real && numeric::first(
                    reals.texts,
                    numeric::real_text(texts, x),
                ) == Some(x),
                Value::Text(id) => b.columns[c].kind == ColKind::Text && id < d.len(),
            }
        }),
        b.columns[c].values[r] is Null || value_field(b.columns[c].values[r], d, null, texts) != null,
        kind_of(
            Seq::new(b.rows, |k: int| value_field(b.columns[c].values[k], d, null, texts)),
            null,
        ) == b.columns[c].kind,
    ensures
        a.rows == b.rows,
        a.columns.len() == b.columns.len(),
        a.names[c] == b.names[c],
        a.columns[c].kind == b.columns[c].kind,
        a.columns[c].values.len() == b.rows,
        match b.columns[c].values[r] {
            Value::Text(id) => a.columns[c].values[r] matches Value::Text(k) && k < e.len() && e[k as int] == d[id as int],
            _ => a.columns[c].values[r] == b.columns[c].values[r],
        },
{
    let all = exported(b, d, true, null, texts);
    let rows = all.skip(1);
    assert(all[0] == b.names);
    assert forall|k: int| 0 <= k < b.rows implies #[trigger] rows[k] == batch_row(b, k, d, null, texts) by {
        assert(rows[k] == all[k + 1]);
    }
    assert(rows.len() == b.rows);
    lemma_width_of(rows, b.columns.len());
    let s = column_cells(rows, c);
    assert(s =~= Seq::new(b.rows, |k: int| value_field(b.columns[c].values[k], d, null, texts))) by {
        assert forall|k: int| 0 <= k < b.rows implies #[trigger] s[k] == value_field(b.columns[c].values[k], d, null, texts) by {
            assert(rows[k] == batch_row(b, k, d, null, texts));
        }
    }
    assert(a.names[c] == column_name(Some(all[0]), c));
    assert(a.columns[c].kind == kind_of(s, null));
    assert(cell_tells(a.columns[c].values[r], a.columns[c].kind, s[r], null, e, reals));
    lemma_cell_read_back(
        b.columns[c].values[r],
        b.columns[c].kind,
        d,
        null,
        texts,
        reals,
        e,
        a.columns[c].values[r],
    );
}

proof fn lemma_width_of(rows: Seq<Seq<Seq<char>>>, n: nat)
    requires
        forall|k: int| 0 <= k < rows.len() ==> (#[trigger] rows[k]).len() == n,
    ensures
        rows.len() > 0 ==> widest(rows) == n,
        rows.len() == 0 ==> widest(rows) == 0,
    decreases rows.len(),
{
    if rows.len() > 0 {
        let d = rows.drop_last();
        assert forall|k: int| 0 <= k < d.len() implies (#[trigger] d[k]).len() == n by {
            assert(d[k] == rows[k]);
        }
        lemma_width_of(d, n);
        assert(rows[rows.len() - 1].len() == n);
    }
}

/// What the texts of a column say of its kind: integers make it one of integers,
/// truth values that are no numbers one of truth values, and nothing but nulls one of
/// texts; a text that is none of these makes it one of texts.
pub proof fn lemma_kinds_inferred(s: Seq<Seq<char>>, null: Seq<char>, k: int)
    requires
        0 <= k < s.len(),
        s[k] != null,
    ensures
        (forall|i: int| 0 <= i < s.len() ==> #[trigger] s[i] == null || exists|n: i64| s[i] == #[trigger] text::int_text(n as int))
            ==> kind_of(s, null) == ColKind::Int,
        (forall|i: int|
            0 <= i < s.len() ==> #[trigger] s[i] == null || s[i] == seq!['t', 'r', 'u', 'e'] || s[i] == seq!['f', 'a', 'l', 's', 'e'])
            ==> kind_of(s, null) == ColKind::Bool,
        numeric::int_value(s[k]) is None && !numeric::is_real_text(s[k]) && !is_bool_text(s[k]) ==> kind_of(s, null)
            == ColKind::Text,
        numeric::int_value(s[k]) is None ==> kind_of(s, null) != ColKind::Int,
{
    if forall|i: int| 0 <= i < s.len() ==> #[trigger] s[i] == null || exists|n: i64| s[i] == #[trigger] text::int_text(n as int) {
        assert forall|i: int| 0 <= i < s.len() implies #[trigger] s[i] == null || numeric::int_value(s[i]) is Some by {
            if s[i] != null {
                let n = choose|n: i64| s[i] == #[trigger] text::int_text(n as int);
                numeric::lemma_int_read_back(n);
            }
        }
    }
    if forall|i: int|
        0 <= i < s.len() ==> #[trigger] s[i] == null || s[i] == seq!['t', 'r', 'u', 'e'] || s[i] == seq!['f', 'a', 'l', 's', 'e'] {
        let no_reals = numeric::RealFacts { texts: Seq::empty(), results: Seq::empty(), images: Seq::empty() };
        assert forall|i: int| 0 <= i < s.len() implies #[trigger] s[i] == null || is_bool_text(s[i]) by {
            lemma_truth_texts(s[i], no_reals);
        }
        let t = s[k];
        assert(t[0] == 't' || t[0] == 'f');
        assert(numeric::digit_run(t) == 0);
        assert(numeric::int_value(t) is None);
        lemma_truth_is_no_real(t);
    }
}

proof fn lemma_truth_is_no_real(t: Seq<char>)
    requires
        t == seq!['t', 'r', 'u', 'e'] || t == seq!['f', 'a', 'l', 's', 'e'],
    ensures
        !numeric::is_real_text(t),
{
}

} // verus!
