//! Diagnostics and pretty-printing.
//!
//! Small helpers used by the CLI and by tests to inspect a database's shape:
//! the page set, the row count, the index/dictionary state, and a tabular
//! dump of the rows. The text of a real is looked up.
use vstd::prelude::*;

use crate::database;
use crate::database::Database;
use crate::dict;
use crate::index;
use crate::numeric;
use crate::numeric::RealTexts;
use crate::pager;
use crate::pretty;
use crate::query;
use crate::query::Row;
use crate::text;
use crate::value::Value;

verus! {

/// A number in decimal.
pub open spec fn num(n: nat) -> Seq<char> {
    text::digits(n)
}

/// A one-line summary of a database.
pub open spec fn summary_text(m: database::DbModel) -> Seq<char> {
    "schist db: "@ + num(m.pager.pages.len()) + " pages, "@ + num(m.rows.len()) + " rows, next_row_id="@ + num(
        m.next_row_id as nat,
    ) + ", inserts="@ + num(m.stats.inserts as nat) + " updates="@ + num(m.stats.updates as nat) + " deletes="@ + num(
        m.stats.deletes as nat,
    ) + " compactions="@ + num(m.stats.compactions as nat) + " scans="@ + num(m.stats.scans as nat)
        + " index_scans="@ + num(m.stats.index_scans as nat)
}

/// A page's line.
pub open spec fn page_text(p: pager::PageModel) -> Seq<char> {
    "page "@ + pretty::pad_text(num(p.id as nat), 3, true) + " "@ + pretty::pad_text(p.kind.spec_name(), 8, true)
        + " gen="@ + pretty::pad_text(num(p.gen as nat), 3, false) + " buf="@ + pretty::pad_text(
        num(p.buf.len()),
        5,
        false,
    ) + " slots="@ + num(p.dir().len())
}

/// A dictionary's line.
pub open spec fn dict_text(c: nat, d: dict::DictModel) -> Seq<char> {
    "col "@ + num(c) + " dict page="@ + num(d.page_id as nat) + " gen="@ + num(d.gen as nat) + " entries="@ + num(
        d.entries.len(),
    )
}

/// An index's line.
pub open spec fn index_text(x: index::IndexModel) -> Seq<char> {
    "index col="@ + x.column + " dict_page="@ + num(x.dict_page as nat) + " entries="@ + num(x.entries.len())
}

/// The lines of the dictionaries there are, by column.
pub open spec fn dict_texts(s: Seq<Option<dict::DictModel>>) -> Seq<Seq<char>>
    decreases s.len(),
{
    if s.len() == 0 {
        Seq::empty()
    } else {
        match s.last() {
            Some(d) => dict_texts(s.drop_last()).push(dict_text((s.len() - 1) as nat, d)),
            None => dict_texts(s.drop_last()),
        }
    }
}

/// The lines of the indexes there are, by column.
pub open spec fn index_texts(s: Seq<Option<index::IndexModel>>) -> Seq<Seq<char>>
    decreases s.len(),
{
    if s.len() == 0 {
        Seq::empty()
    } else {
        match s.last() {
            Some(x) => index_texts(s.drop_last()).push(index_text(x)),
            None => index_texts(s.drop_last()),
        }
    }
}

/// A row's line: its id and its values with tabs between them.
pub open spec fn row_text(r: query::RowModel, reals: numeric::RealTextFacts) -> Seq<char> {
    num(r.id as nat) + cells_text(r.values, reals)
}

pub open spec fn cells_text(s: Seq<Value>, reals: numeric::RealTextFacts) -> Seq<char>
    decreases s.len(),
{
    if s.len() == 0 {
        Seq::empty()
    } else {
        cells_text(s.drop_last(), reals) + seq!['\t'] + pretty::shown(s.last(), "null"@, reals)
    }
}

/// Lines, each with its end.
pub open spec fn ended(s: Seq<Seq<char>>) -> Seq<char>
    decreases s.len(),
{
    if s.len() == 0 {
        Seq::empty()
    } else {
        ended(s.drop_last()) + s.last() + "\n"@
    }
}

/// The texts of lines.
pub open spec fn lines(v: Seq<String>) -> Seq<Seq<char>> {
    Seq::new(v.len(), |i: int| v[i]@)
}

/// The lines of a database's pages.
pub open spec fn page_texts(m: pager::PagerModel) -> Seq<Seq<char>> {
    Seq::new(m.pages.len(), |i: int| page_text(m.pages[i].1))
}

/// The lines of a database's rows.
pub open spec fn row_texts(m: database::DbModel, reals: numeric::RealTextFacts) -> Seq<Seq<char>> {
    let r = query::all_rows(m);
    Seq::new(r.len(), |i: int| row_text(r[i], reals))
}

/// The whole report.
pub open spec fn report(m: database::DbModel, reals: numeric::RealTextFacts) -> Seq<char> {
    summary_text(m) + "\n"@ + ended(page_texts(m.pager)) + ended(dict_texts(m.dicts)) + ended(index_texts(m.indexes))
        + "--- rows ---\n"@ + ended(row_texts(m, reals))
}

fn put_num(s: &mut String, n: u64)
    ensures
        final(s)@ == old(s)@ + num(n as nat),
{
    let mut v: Vec<char> = Vec::new();
    text::push_number(&mut v, n as u128);
    assert(v@ =~= num(n as nat));
    let t = text::string_of(&v);
    s.append(t.as_str());
}

fn put_padded(s: &mut String, v: &Vec<char>, width: usize, right: bool)
    ensures
        final(s)@ == old(s)@ + pretty::pad_text(v@, width as nat, right),
{
    let mut out: Vec<char> = Vec::new();
    let n = v.len();
    if right && n < width {
        let mut i: usize = 0;
        while i < width - n
            invariant
                i <= width - n,
                n < width,
                out@ == pretty::repeated(' ', i as nat),
            decreases width - n - i,
        {
            out.push(' ');
            assert(out@ =~= pretty::repeated(' ', (i + 1) as nat));
            i += 1;
        }
    }
    let ghost lead = out@;
    let mut k: usize = 0;
    assert(lead + v@.take(0) =~= lead);
    while k < n
        invariant
            k <= n,
            n == v@.len(),
            out@ == lead + v@.take(k as int),
        decreases n - k,
    {
        out.push(v[k]);
        assert(v@.take(k + 1) =~= v@.take(k as int).push(v@[k as int]));
        k += 1;
    }
    assert(v@.take(n as int) =~= v@);
    if !right && n < width {
        let ghost mid = out@;
        let mut i: usize = 0;
        assert(mid + pretty::repeated(' ', 0) =~= mid);
        while i < width - n
            invariant
                i <= width - n,
                n < width,
                out@ == mid + pretty::repeated(' ', i as nat),
            decreases width - n - i,
        {
            out.push(' ');
            assert(out@ =~= mid + pretty::repeated(' ', (i + 1) as nat));
            i += 1;
        }
    }
    assert(out@ =~= pretty::pad_text(v@, width as nat, right));
    let t = text::string_of(&out);
    s.append(t.as_str());
}

fn num_chars(n: u64) -> (v: Vec<char>)
    ensures
        v@ == num(n as nat),
{
    let mut v: Vec<char> = Vec::new();
    text::push_number(&mut v, n as u128);
    assert(v@ =~= num(n as nat));
    v
}

/// A one-line summary of the database.
pub fn summary(db: &Database) -> (r: String)
    ensures
        r@ == summary_text(db@),
{
    let mut s = String::from_str("schist db: ");
    put_num(&mut s, db.pager.count() as u64);
    s.append(" pages, ");
    put_num(&mut s, db.rowid_map.len() as u64);
    s.append(" rows, next_row_id=");
    put_num(&mut s, db.next_row_id);
    s.append(", inserts=");
    put_num(&mut s, db.stats.inserts);
    s.append(" updates=");
    put_num(&mut s, db.stats.updates);
    s.append(" deletes=");
    put_num(&mut s, db.stats.deletes);
    s.append(" compactions=");
    put_num(&mut s, db.stats.compactions);
    s.append(" scans=");
    put_num(&mut s, db.stats.scans);
    s.append(" index_scans=");
    put_num(&mut s, db.stats.index_scans);
    s
}

/// List every page with its kind, generation, buffer size, and slot count.
pub fn page_list(db: &Database) -> (out: Vec<String>)
    ensures
        lines(out@) == page_texts(db@.pager),
{
    let ghost all = page_texts(db@.pager);
    let mut out: Vec<String> = Vec::new();
    let n = db.pager.count();
    let mut i: usize = 0;
    while i < n
        invariant
            i <= n,
            n == db@.pager.pages.len(),
            all == page_texts(db@.pager),
            lines(out@) == all.take(i as int),
        decreases n - i,
    {
        let page = db.pager.page_at(i);
        let mut s = String::from_str("page ");
        put_padded(&mut s, &num_chars(page.id as u64), 3, true);
        s.append(" ");
        let k = text::chars_of(page.kind.name());
        put_padded(&mut s, &k, 8, true);
        s.append(" gen=");
        put_padded(&mut s, &num_chars(page.gen), 3, false);
        s.append(" buf=");
        put_padded(&mut s, &num_chars(page.buf.len() as u64), 5, false);
        s.append(" slots=");
        put_num(&mut s, page.slot_count() as u64);
        assert(s@ =~= page_text(page@));
        let ghost was = lines(out@);
        out.push(s);
        assert(lines(out@) =~= was.push(all[i as int]));
        assert(all.take(i + 1) =~= all.take(i as int).push(all[i as int]));
        i += 1;
    }
    assert(all.take(n as int) =~= all);
    out
}

/// List each dictionary mirror's page, generation, and entry count.
pub fn dict_list(db: &Database) -> (out: Vec<String>)
    ensures
        lines(out@) == dict_texts(db@.dicts),
{
    let ghost all = db@.dicts;
    let mut out: Vec<String> = Vec::new();
    let mut i: usize = 0;
    assert(lines(out@) =~= dict_texts(all.take(0)));
    while i < db.dicts.len()
        invariant
            i <= db.dicts@.len(),
            all == db@.dicts,
            lines(out@) == dict_texts(all.take(i as int)),
        decreases db.dicts@.len() - i,
    {
        proof {
            assert(all.take(i + 1).drop_last() =~= all.take(i as int));
            assert(all.take(i + 1).last() == all[i as int]);
        }
        if let Some(d) = &db.dicts[i] {
            let mut s = String::from_str("col ");
            put_num(&mut s, i as u64);
            s.append(" dict page=");
            put_num(&mut s, d.page() as u64);
            s.append(" gen=");
            put_num(&mut s, d.generation());
            s.append(" entries=");
            put_num(&mut s, d.len() as u64);
            assert(s@ =~= dict_text(i as nat, d@));
            let ghost was = lines(out@);
            out.push(s);
            assert(lines(out@) =~= was.push(dict_text(i as nat, d@)));
        }
        i += 1;
    }
    assert(all.take(all.len() as int) =~= all);
    out
}

/// List each index cache's column, dict page, and entry count.
pub fn index_list(db: &Database) -> (out: Vec<String>)
    ensures
        lines(out@) == index_texts(db@.indexes),
{
    let ghost all = db@.indexes;
    let mut out: Vec<String> = Vec::new();
    let mut i: usize = 0;
    assert(lines(out@) =~= index_texts(all.take(0)));
    while i < db.indexes.len()
        invariant
            i <= db.indexes@.len(),
            all == db@.indexes,
            lines(out@) == index_texts(all.take(i as int)),
        decreases db.indexes@.len() - i,
    {
        proof {
            assert(all.take(i + 1).drop_last() =~= all.take(i as int));
            assert(all.take(i + 1).last() == all[i as int]);
        }
        if let Some(x) = &db.indexes[i] {
            let mut s = String::from_str("index col=");
            s.append(x.column.as_str());
            s.append(" dict_page=");
            put_num(&mut s, x.dict_page as u64);
            s.append(" entries=");
            put_num(&mut s, x.len() as u64);
            assert(s@ =~= index_text(x@));
            let ghost was = lines(out@);
            out.push(s);
            assert(lines(out@) =~= was.push(index_text(x@)));
        }
        i += 1;
    }
    assert(all.take(all.len() as int) =~= all);
    out
}

/// Render a row as a tab-separated line.
pub fn render_row(row: &Row, reals: &RealTexts) -> (r: String)
    ensures
        r@ == row_text(row@, reals@),
{
    let mut s = String::new();
    put_num(&mut s, row.id);
    let ghost id = num(row.id as nat);
    let ghost v = row.values@;
    let mut i: usize = 0;
    assert(s@ =~= id + cells_text(v.take(0), reals@));
    while i < row.values.len()
        invariant
            i <= row.values@.len(),
            v == row.values@,
            s@ == id + cells_text(v.take(i as int), reals@),
        decreases row.values@.len() - i,
    {
        assert(v.take(i + 1).drop_last() =~= v.take(i as int));
        s.push('\t');
        let t = render_value(row.values[i], reals);
        s.append(t.as_str());
        assert(s@ =~= id + cells_text(v.take(i + 1), reals@));
        i += 1;
    }
    assert(v.take(v.len() as int) =~= v);
    s
}

pub fn render_value(v: Value, reals: &RealTexts) -> (r: String)
    ensures
        r@ == pretty::shown(v, "null"@, reals@),
{
    pretty::value_to_string(&v, "null", reals)
}

/// Dump all rows (via a full scan) as text. The scan must still be countable.
pub fn dump_rows(db: &mut Database, reals: &RealTexts) -> (out: Vec<String>)
    requires
        old(db).wf(),
        old(db)@.stats.scans < u64::MAX,
    ensures
        final(db).wf(),
        final(db)@ == query::scan_counted(old(db)@),
        lines(out@) == row_texts(old(db)@, reals@),
{
    let ghost all = row_texts(db@, reals@);
    let rows = query::scan_all(db);
    let mut out: Vec<String> = Vec::new();
    let mut i: usize = 0;
    while i < rows.len()
        invariant
            i <= rows@.len(),
            rows@.len() == all.len(),
            forall|k: int| 0 <= k < rows@.len() ==> #[trigger] all[k] == row_text(rows@[k]@, reals@),
            lines(out@) == all.take(i as int),
        decreases rows@.len() - i,
    {
        let s = render_row(&rows[i], reals);
        let ghost was = lines(out@);
        out.push(s);
        assert(lines(out@) =~= was.push(all[i as int]));
        assert(all.take(i + 1) =~= all.take(i as int).push(all[i as int]));
        i += 1;
    }
    assert(all.take(all.len() as int) =~= all);
    out
}

fn put_lines(s: &mut String, v: &Vec<String>)
    ensures
        final(s)@ == old(s)@ + ended(lines(v@)),
{
    let ghost was = s@;
    let ghost all = lines(v@);
    let mut i: usize = 0;
    assert(was + ended(all.take(0)) =~= was);
    while i < v.len()
        invariant
            i <= v@.len(),
            all == lines(v@),
            s@ == was + ended(all.take(i as int)),
        decreases v@.len() - i,
    {
        assert(all.take(i + 1).drop_last() =~= all.take(i as int));
        assert(all.take(i + 1).last() == v@[i as int]@);
        s.append(v[i].as_str());
        s.append("\n");
        assert(s@ =~= was + ended(all.take(i + 1)));
        i += 1;
    }
    assert(all.take(all.len() as int) =~= all);
}

/// Full diagnostic text. The scan must still be countable.
pub fn full_report(db: &mut Database, reals: &RealTexts) -> (r: String)
    requires
        old(db).wf(),
        old(db)@.stats.scans < u64::MAX,
    ensures
        final(db).wf(),
        final(db)@ == query::scan_counted(old(db)@),
        r@ == report(old(db)@, reals@),
{
    let mut out = summary(db);
    out.append("\n");
    let pages = page_list(db);
    put_lines(&mut out, &pages);
    let dicts = dict_list(db);
    put_lines(&mut out, &dicts);
    let indexes = index_list(db);
    put_lines(&mut out, &indexes);
    out.append("--- rows ---\n");
    let rows = dump_rows(db, reals);
    put_lines(&mut out, &rows);
    out
}

} // verus!
