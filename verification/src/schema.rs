//! The column model, value types, and column encodings.
//!
//! A schema is stored as a count followed by its columns:
//!
//! ```text
//!   [u32 num_cols]
//!   for each column:
//!     [u8 kind][u8 encoding][u8 flags][u32 dict_page][u32 index_page]
//!     [u32 name_len][name_len bytes of UTF-8]
//! ```
//!
//! Flag 1 says that the dictionary page is there, flag 2 that the index page is.

use crate::bytes;
use crate::error::DecodeError;
use crate::text;
use vstd::prelude::*;
use vstd::string::*;

verus! {

/// The type of a column's values.
#[derive(Debug, Clone, Copy, PartialEq, Eq, Structural)]
pub enum ColKind {
    Bool,
    Int,
    Real,
    Text,
}

/// How a column's values are stored in a page.
#[derive(Debug, Clone, Copy, PartialEq, Eq, Structural)]
pub enum Encoding {
    Plain,
    Dictionary,
    Rle,
}

/// The stored number of a kind.
pub open spec fn kind_code(k: ColKind) -> u8 {
    match k {
        ColKind::Bool => 0,
        ColKind::Int => 1,
        ColKind::Real => 2,
        ColKind::Text => 3,
    }
}

/// The stored number of an encoding.
pub open spec fn encoding_code(e: Encoding) -> u8 {
    match e {
        Encoding::Plain => 0,
        Encoding::Dictionary => 1,
        Encoding::Rle => 2,
    }
}

/// The kind that a number stands for.
pub open spec fn kind_of(b: u8) -> Option<ColKind> {
    match b {
        0 => Some(ColKind::Bool),
        1 => Some(ColKind::Int),
        2 => Some(ColKind::Real),
        3 => Some(ColKind::Text),
        _ => None,
    }
}

/// The encoding that a number stands for.
pub open spec fn encoding_of(b: u8) -> Option<Encoding> {
    match b {
        0 => Some(Encoding::Plain),
        1 => Some(Encoding::Dictionary),
        2 => Some(Encoding::Rle),
        _ => None,
    }
}

impl ColKind {
    pub fn as_u8(self) -> (r: u8)
        ensures
            r == kind_code(self),
            kind_of(r) == Some(self),
    {
        match self {
            ColKind::Bool => 0,
            ColKind::Int => 1,
            ColKind::Real => 2,
            ColKind::Text => 3,
        }
    }

    pub fn from_u8(b: u8) -> (r: Option<ColKind>)
        ensures
            r == kind_of(b),
    {
        match b {
            0 => Some(ColKind::Bool),
            1 => Some(ColKind::Int),
            2 => Some(ColKind::Real),
            3 => Some(ColKind::Text),
            _ => None,
        }
    }

    pub fn name(self) -> (r: &'static str)
        ensures
            r@ == (match self {
                ColKind::Bool => "bool"@,
                ColKind::Int => "int"@,
                ColKind::Real => "real"@,
                ColKind::Text => "text"@,
            }),
    {
        match self {
            ColKind::Bool => "bool",
            ColKind::Int => "int",
            ColKind::Real => "real",
            ColKind::Text => "text",
        }
    }
}

impl Encoding {
    pub fn as_u8(self) -> (r: u8)
        ensures
            r == encoding_code(self),
            encoding_of(r) == Some(self),
    {
        match self {
            Encoding::Plain => 0,
            Encoding::Dictionary => 1,
            Encoding::Rle => 2,
        }
    }

    pub fn from_u8(b: u8) -> (r: Option<Encoding>)
        ensures
            r == encoding_of(b),
    {
        match b {
            0 => Some(Encoding::Plain),
            1 => Some(Encoding::Dictionary),
            2 => Some(Encoding::Rle),
            _ => None,
        }
    }
}

/// One column of a schema.
#[derive(Debug, Clone, PartialEq, Eq)]
pub struct Column {
    pub name: String,
    pub kind: ColKind,
    pub encoding: Encoding,
    /// The page that holds the column's dictionary.
    pub dict_page: Option<u32>,
    /// Set on an indexed column.
    pub index_page: Option<u32>,
}

/// The model of a column.
#[verifier::ext_equal]
pub struct ColumnModel {
    pub name: Seq<char>,
    pub kind: ColKind,
    pub encoding: Encoding,
    pub dict_page: Option<u32>,
    pub index_page: Option<u32>,
}

impl View for Column {
    type V = ColumnModel;

    open spec fn view(&self) -> ColumnModel {
        ColumnModel {
            name: self.name@,
            kind: self.kind,
            encoding: self.encoding,
            dict_page: self.dict_page,
            index_page: self.index_page,
        }
    }
}

impl Column {
    /// A column without a dictionary or an index.
    pub fn new(name: &str, kind: ColKind, encoding: Encoding) -> (r: Column)
        ensures
            r@ == (ColumnModel { name: name@, kind, encoding, dict_page: None, index_page: None }),
    {
        Column { name: name.to_owned(), kind, encoding, dict_page: None, index_page: None }
    }

    /// The row-id column.
    pub fn row_id() -> (r: Column)
        ensures
            r@ == (ColumnModel {
                name: "id"@,
                kind: ColKind::Int,
                encoding: Encoding::Plain,
                dict_page: None,
                index_page: None,
            }),
    {
        Column::new("id", ColKind::Int, Encoding::Plain)
    }
}

/// A database schema.
#[derive(Debug, Clone, PartialEq, Eq)]
pub struct Schema {
    pub columns: Vec<Column>,
}

/// The models of columns.
pub open spec fn column_models(c: Seq<Column>) -> Seq<ColumnModel> {
    Seq::new(c.len(), |i: int| c[i]@)
}

impl View for Schema {
    type V = Seq<ColumnModel>;

    open spec fn view(&self) -> Seq<ColumnModel> {
        column_models(self.columns@)
    }
}

// Storage

/// An optional page number as stored.
pub open spec fn page_or_zero(p: Option<u32>) -> u32 {
    match p {
        Some(x) => x,
        None => 0,
    }
}

pub open spec fn flags_of(c: ColumnModel) -> u8 {
    (if c.dict_page is Some {
        1int
    } else {
        0
    } + if c.index_page is Some {
        2int
    } else {
        0
    }) as u8
}

/// The stored form of a column.
pub open spec fn column_bytes(c: ColumnModel) -> Seq<u8> {
    let name = vstd::utf8::encode_utf8(c.name);
    seq![kind_code(c.kind), encoding_code(c.encoding), flags_of(c)] + bytes::le32(page_or_zero(c.dict_page))
        + bytes::le32(page_or_zero(c.index_page)) + bytes::le32(name.len() as u32) + name
}

/// The stored form of columns.
pub open spec fn columns_bytes(c: Seq<ColumnModel>) -> Seq<u8>
    decreases c.len(),
{
    if c.len() == 0 {
        Seq::empty()
    } else {
        column_bytes(c[0]) + columns_bytes(c.skip(1))
    }
}

/// The stored form of a schema.
pub open spec fn schema_bytes(c: Seq<ColumnModel>) -> Seq<u8> {
    bytes::le32(c.len() as u32) + columns_bytes(c)
}

/// A schema whose lengths fit the stored form.
pub open spec fn storable(c: Seq<ColumnModel>) -> bool {
    &&& c.len() <= u32::MAX
    &&& forall|i: int| 0 <= i < c.len() ==> vstd::utf8::encode_utf8((#[trigger] c[i]).name).len() <= u32::MAX
}

/// The column that stands at the front of `s`, and its length.
pub open spec fn column_of(s: Seq<u8>) -> Option<(ColumnModel, int)> {
    if s.len() < 15 {
        None
    } else {
        let n = bytes::u32_at(s, 11) as int;
        let name = s.subrange(15, 15 + n);
        if kind_of(s[0]) is None || encoding_of(s[1]) is None || s[2] > 3 || 15 + n > s.len()
            || !vstd::utf8::valid_utf8(name) {
            None
        } else {
            Some(
                (
                    ColumnModel {
                        name: vstd::utf8::decode_utf8(name),
                        kind: kind_of(s[0])->0,
                        encoding: encoding_of(s[1])->0,
                        dict_page: if s[2] % 2 == 1 {
                            Some(bytes::u32_at(s, 3))
                        } else {
                            None
                        },
                        index_page: if s[2] >= 2 {
                            Some(bytes::u32_at(s, 7))
                        } else {
                            None
                        },
                    },
                    15 + n,
                ),
            )
        }
    }
}

/// The next `n` columns of `s`.
pub open spec fn columns_of(s: Seq<u8>, n: nat) -> Option<Seq<ColumnModel>>
    decreases n,
{
    if n == 0 {
        Some(Seq::empty())
    } else {
        match column_of(s) {
            None => None,
            Some((c, len)) => match columns_of(s.skip(len), (n - 1) as nat) {
                None => None,
                Some(rest) => Some(seq![c] + rest),
            },
        }
    }
}

/// The schema stored in `s`.
pub open spec fn schema_of(s: Seq<u8>) -> Option<Seq<ColumnModel>> {
    if s.len() < 4 {
        None
    } else {
        columns_of(s.skip(4), bytes::u32_at(s, 0) as nat)
    }
}

proof fn lemma_column(c: ColumnModel, rest: Seq<u8>)
    requires
        vstd::utf8::encode_utf8(c.name).len() <= u32::MAX,
    ensures
        column_of(column_bytes(c) + rest) == Some((c, column_bytes(c).len() as int)),
{
    let name = vstd::utf8::encode_utf8(c.name);
    let head = seq![kind_code(c.kind), encoding_code(c.encoding), flags_of(c)];
    let d = bytes::le32(page_or_zero(c.dict_page));
    let x = bytes::le32(page_or_zero(c.index_page));
    let l = bytes::le32(name.len() as u32);
    let s = column_bytes(c) + rest;
    bytes::lemma_u32_between(head, page_or_zero(c.dict_page), x + l + name + rest);
    assert(s =~= head + d + (x + l + name + rest));
    bytes::lemma_u32_between(head + d, page_or_zero(c.index_page), l + name + rest);
    assert(s =~= head + d + x + (l + name + rest));
    bytes::lemma_u32_between(head + d + x, name.len() as u32, name + rest);
    assert(s =~= head + d + x + l + (name + rest));
    assert(s.subrange(15, 15 + name.len() as int) =~= name);
    vstd::utf8::encode_utf8_valid_utf8(c.name);
    vstd::utf8::encode_utf8_decode_utf8(c.name);
    assert(s[0] == head[0] && s[1] == head[1] && s[2] == head[2]);
    let r = column_of(s)->0;
    assert(r.0 =~= c);
}

proof fn lemma_columns(c: Seq<ColumnModel>, rest: Seq<u8>)
    requires
        storable(c),
    ensures
        columns_of(columns_bytes(c) + rest, c.len()) == Some(c),
    decreases c.len(),
{
    if c.len() > 0 {
        let t = c.skip(1);
        assert(storable(t)) by {
            assert forall|i: int| 0 <= i < t.len() implies vstd::utf8::encode_utf8((#[trigger] t[i]).name).len()
                <= u32::MAX by {
                assert(t[i] == c[i + 1]);
            }
        }
        lemma_columns(t, rest);
        lemma_column(c[0], columns_bytes(t) + rest);
        let s = columns_bytes(c) + rest;
        assert(s =~= column_bytes(c[0]) + (columns_bytes(t) + rest));
        assert(s.skip(column_bytes(c[0]).len() as int) =~= columns_bytes(t) + rest);
        assert(seq![c[0]] + t =~= c);
    } else {
        assert(c =~= Seq::empty());
    }
}

/// Reading a stored schema gives it back.
pub proof fn lemma_schema_round_trip(c: Seq<ColumnModel>)
    requires
        storable(c),
    ensures
        schema_of(schema_bytes(c)) == Some(c),
{
    let s = schema_bytes(c);
    bytes::lemma_u32_between(Seq::empty(), c.len() as u32, columns_bytes(c));
    assert(s =~= Seq::<u8>::empty() + bytes::le32(c.len() as u32) + columns_bytes(c));
    lemma_columns(c, Seq::empty());
    assert(s.skip(4) =~= columns_bytes(c) + Seq::empty());
}

proof fn lemma_columns_split(c: Seq<ColumnModel>, i: int)
    requires
        0 <= i < c.len(),
    ensures
        columns_bytes(c.take(i + 1)) == columns_bytes(c.take(i)) + column_bytes(c[i]),
    decreases i,
{
    let a = c.take(i + 1);
    let b = c.take(i);
    if i == 0 {
        assert(a.skip(1) =~= Seq::empty());
        assert(b =~= Seq::empty());
        assert(columns_bytes(a) =~= columns_bytes(b) + column_bytes(c[0]));
    } else {
        lemma_columns_split(c.skip(1), i - 1);
        assert(a.skip(1) =~= c.skip(1).take(i));
        assert(b.skip(1) =~= c.skip(1).take(i - 1));
        assert(columns_bytes(a) =~= columns_bytes(b) + column_bytes(c[i]));
    }
}

fn put_column(out: &mut Vec<u8>, col: &Column)
    requires
        vstd::utf8::encode_utf8(col@.name).len() <= u32::MAX,
    ensures
        final(out)@ == old(out)@ + column_bytes(col@),
{
    let name = col.name.as_str().as_bytes();
    let (d, df): (u32, u8) = match col.dict_page {
        Some(p) => (p, 1),
        None => (0, 0),
    };
    let (x, xf): (u32, u8) = match col.index_page {
        Some(p) => (p, 2),
        None => (0, 0),
    };
    let ghost head = seq![kind_code(col.kind), encoding_code(col.encoding), flags_of(col@)];
    out.push(col.kind.as_u8());
    out.push(col.encoding.as_u8());
    out.push(df + xf);
    assert(out@ =~= old(out)@ + head);
    bytes::put_u32(out, d);
    bytes::put_u32(out, x);
    bytes::put_u32(out, name.len() as u32);
    bytes::put_bytes(out, name);
    assert(out@ =~= old(out)@ + (head + bytes::le32(d) + bytes::le32(x) + bytes::le32(name@.len() as u32) + name@));
}

impl Schema {
    pub fn new(columns: Vec<Column>) -> (r: Schema)
        ensures
            r@ == column_models(columns@),
    {
        Schema { columns }
    }

    /// Number of columns.
    pub fn arity(&self) -> (r: usize)
        ensures
            r == self@.len(),
    {
        self.columns.len()
    }

    /// The place of the row-id column.
    pub fn row_id_index(&self) -> (r: usize)
        ensures
            r == 0,
    {
        0
    }

    /// Store the schema.
    pub fn encode(&self) -> (out: Vec<u8>)
        requires
            storable(self@),
        ensures
            out@ == schema_bytes(self@),
    {
        let mut out: Vec<u8> = Vec::new();
        bytes::put_u32(&mut out, self.columns.len() as u32);
        let ghost c = self@;
        assert(out@ =~= bytes::le32(c.len() as u32) + columns_bytes(c.take(0)));
        let mut i: usize = 0;
        while i < self.columns.len()
            invariant
                i <= self.columns@.len(),
                c == self@,
                c.len() == self.columns@.len(),
                storable(c),
                out@ == bytes::le32(c.len() as u32) + columns_bytes(c.take(i as int)),
            decreases self.columns@.len() - i,
        {
            let col = &self.columns[i];
            assert(c[i as int] == col@);
            put_column(&mut out, col);
            proof {
                lemma_columns_split(c, i as int);
                assert(out@ =~= bytes::le32(c.len() as u32) + columns_bytes(c.take(i + 1)));
            }
            i += 1;
        }
        assert(c.take(i as int) =~= c);
        out
    }

    /// Read a stored schema.
    pub fn decode(buf: &[u8]) -> (r: Result<Schema, DecodeError>)
        ensures
            match r {
                Ok(s) => schema_of(buf@) == Some(s@),
                Err(e) => schema_of(buf@) is None && e == DecodeError::BadSchema,
            },
    {
        if buf.len() < 4 {
            return Err(DecodeError::BadSchema);
        }
        let n: u32 = bytes::get_u32(buf, 0);
        let mut columns: Vec<Column> = Vec::new();
        let mut pos: usize = 4;
        let mut i: u32 = 0;
        while i < n
            invariant
                i <= n,
                4 <= pos <= buf@.len(),
                n == bytes::u32_at(buf@, 0),
                match columns_of(buf@.skip(pos as int), (n - i) as nat) {
                    None => schema_of(buf@) is None,
                    Some(rest) => schema_of(buf@) == Some(column_models(columns@) + rest),
                },
            decreases n - i,
        {
            let ghost s = buf@.skip(pos as int);
            let ghost was = columns@;
            if buf.len() - pos < 15 {
                return Err(DecodeError::BadSchema);
            }
            proof {
                bytes::lemma_at_skip(buf@, pos as int, 3);
                bytes::lemma_at_skip(buf@, pos as int, 7);
                bytes::lemma_at_skip(buf@, pos as int, 11);
            }
            let kind = match ColKind::from_u8(buf[pos]) {
                Some(k) => k,
                None => return Err(DecodeError::BadSchema),
            };
            let encoding = match Encoding::from_u8(buf[pos + 1]) {
                Some(e) => e,
                None => return Err(DecodeError::BadSchema),
            };
            let flags: u8 = buf[pos + 2];
            let len: u32 = bytes::get_u32(buf, pos + 11);
            if flags > 3 || buf.len() - pos - 15 < len as usize {
                return Err(DecodeError::BadSchema);
            }
            let start: usize = pos + 15;
            let end: usize = start + len as usize;
            assert(s.subrange(15, 15 + len as int) =~= buf@.subrange(start as int, end as int));
            let name = match text::utf8_text(bytes::copy_range(buf, start, end)) {
                Some(t) => t,
                None => return Err(DecodeError::BadSchema),
            };
            let col = Column {
                name,
                kind,
                encoding,
                dict_page: if flags % 2 == 1 {
                    Some(bytes::get_u32(buf, pos + 3))
                } else {
                    None
                },
                index_page: if flags >= 2 {
                    Some(bytes::get_u32(buf, pos + 7))
                } else {
                    None
                },
            };
            let ghost model = col@;
            columns.push(col);
            proof {
                assert(column_of(s) == Some((model, 15 + len as int)));
                assert(s.skip(15 + len as int) =~= buf@.skip(end as int));
                assert(column_models(columns@) =~= column_models(was).push(model));
                match columns_of(buf@.skip(end as int), (n - i - 1) as nat) {
                    None => {},
                    Some(rest) => {
                        assert(column_models(columns@) + rest =~= column_models(was) + (seq![model] + rest));
                    },
                }
            }
            pos = end;
            i += 1;
        }
        assert(column_models(columns@) + Seq::<ColumnModel>::empty() =~= column_models(columns@));
        Ok(Schema { columns })
    }
}

} // verus!
