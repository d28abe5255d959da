//! The system catalog.
//!
//! While a single `.sht` file holds exactly one table's worth of columnar data,
//! a running engine tracks metadata about many objects: table definitions,
//! their columns and constraints, secondary indexes, sequences that hand out
//! surrogate keys, and named views (stored query text). The catalog is the
//! in-memory registry for that metadata. It assigns stable object ids, enforces
//! name uniqueness within a namespace, and answers the lookups the planner and
//! the DDL statements need.
use vstd::prelude::*;
use vstd::string::*;

use crate::lex;
use crate::schema::{ColKind, Encoding};
use crate::sort;
use crate::sort::Ranked;
use crate::sql;
use crate::text;

verus! {

/// A stable identifier for a catalog object.
pub type ObjectId = u32;

/// A column definition within a table.
#[derive(Debug, Clone, PartialEq, Eq)]
pub struct ColumnDef {
    pub name: String,
    pub kind: ColKind,
    pub encoding: Encoding,
    pub nullable: bool,
    pub primary_key: bool,
    pub default: Option<String>,
}

fn owned(s: &str) -> (r: String)
    ensures
        r@ == s@,
{
    let v = text::chars_of(s);
    text::string_of(&v)
}

impl ColumnDef {
    /// A nullable column with plain encoding.
    pub fn new(name: &str, kind: ColKind) -> (r: ColumnDef)
        ensures
            r.name@ == name@,
            r.kind == kind,
            r.encoding == Encoding::Plain,
            r.nullable,
            !r.primary_key,
            r.default is None,
    {
        ColumnDef {
            name: owned(name),
            kind,
            encoding: Encoding::Plain,
            nullable: true,
            primary_key: false,
            default: None,
        }
    }

    /// Builder: set the encoding.
    pub fn with_encoding(self, enc: Encoding) -> (r: ColumnDef)
        ensures
            r == (ColumnDef { encoding: enc, ..self }),
    {
        let mut c = self;
        c.encoding = enc;
        c
    }

    /// Builder: mark not-null.
    pub fn not_null(self) -> (r: ColumnDef)
        ensures
            r == (ColumnDef { nullable: false, ..self }),
    {
        let mut c = self;
        c.nullable = false;
        c
    }

    /// Builder: mark as primary key (implies not-null).
    pub fn primary_key(self) -> (r: ColumnDef)
        ensures
            r == (ColumnDef { primary_key: true, nullable: false, ..self }),
    {
        let mut c = self;
        c.primary_key = true;
        c.nullable = false;
        c
    }
}

/// A table's definition.
#[derive(Debug, Clone, PartialEq, Eq)]
pub struct TableDef {
    pub id: ObjectId,
    pub name: String,
    pub columns: Vec<ColumnDef>,
    /// Data page ids that hold this table's rows (opaque to the catalog).
    pub page_ids: Vec<u32>,
    pub row_estimate: u64,
}

/// The place of the first column with a name.
pub open spec fn column_place(s: Seq<ColumnDef>, name: Seq<char>) -> Option<int>
    decreases s.len(),
{
    if s.len() == 0 {
        None
    } else {
        match column_place(s.drop_last(), name) {
            Some(i) => Some(i),
            None => if s.last().name@ == name {
                Some(s.len() - 1)
            } else {
                None
            },
        }
    }
}

proof fn lemma_column_place(s: Seq<ColumnDef>, name: Seq<char>, n: int)
    requires
        0 <= n <= s.len(),
    ensures
        column_place(s.take(n), name) is Some ==> column_place(s, name) == column_place(s.take(n), name),
        column_place(s.take(n), name) matches Some(i) ==> 0 <= i < n,
    decreases s.len() - n, n,
{
    if n > 0 {
        assert(s.take(n).drop_last() =~= s.take(n - 1));
    }
    lemma_column_range(s.take(n), name);
    if n < s.len() {
        assert(s.take(n + 1).drop_last() =~= s.take(n));
        lemma_column_place(s, name, n + 1);
    } else {
        assert(s.take(n) =~= s);
    }
}

proof fn lemma_column_range(s: Seq<ColumnDef>, name: Seq<char>)
    ensures
        column_place(s, name) matches Some(i) ==> 0 <= i < s.len() && s[i].name@ == name,
    decreases s.len(),
{
    if s.len() > 0 {
        lemma_column_range(s.drop_last(), name);
    }
}

/// The places of the primary-key columns, in order.
pub open spec fn key_places(s: Seq<ColumnDef>) -> Seq<usize>
    decreases s.len(),
{
    if s.len() == 0 {
        Seq::empty()
    } else if s.last().primary_key {
        key_places(s.drop_last()).push((s.len() - 1) as usize)
    } else {
        key_places(s.drop_last())
    }
}

impl TableDef {
    /// Column position by name.
    pub fn column_index(&self, name: &str) -> (r: Option<usize>)
        ensures
            match (r, column_place(self.columns@, name@)) {
                (Some(i), Some(k)) => i == k && i < self.columns@.len(),
                (None, None) => true,
                _ => false,
            },
    {
        let ghost s = self.columns@;
        let mut i: usize = 0;
        while i < self.columns.len()
            invariant
                i <= s.len(),
                s == self.columns@,
                column_place(s.take(i as int), name@) is None,
            decreases s.len() - i,
        {
            assert(s.take(i + 1).drop_last() =~= s.take(i as int));
            if text::same_text(self.columns[i].name.as_str(), name) {
                proof {
                    lemma_column_place(s, name@, i + 1);
                }
                return Some(i);
            }
            i += 1;
        }
        assert(s.take(s.len() as int) =~= s);
        None
    }

    /// Borrow a column by name.
    pub fn column(&self, name: &str) -> (r: Option<&ColumnDef>)
        ensures
            match (r, column_place(self.columns@, name@)) {
                (Some(c), Some(k)) => *c == self.columns@[k],
                (None, None) => true,
                _ => false,
            },
    {
        match self.column_index(name) {
            Some(i) => Some(&self.columns[i]),
            None => None,
        }
    }

    /// The primary-key column positions.
    pub fn primary_key_columns(&self) -> (r: Vec<usize>)
        ensures
            r@ == key_places(self.columns@),
    {
        let ghost s = self.columns@;
        let mut r: Vec<usize> = Vec::new();
        let mut i: usize = 0;
        while i < self.columns.len()
            invariant
                i <= s.len(),
                s == self.columns@,
                r@ == key_places(s.take(i as int)),
            decreases s.len() - i,
        {
            assert(s.take(i + 1).drop_last() =~= s.take(i as int));
            if self.columns[i].primary_key {
                r.push(i);
            }
            i += 1;
        }
        assert(s.take(s.len() as int) =~= s);
        r
    }
}

/// The kind of a secondary index.
#[derive(Debug, Clone, Copy, PartialEq, Eq, Structural)]
pub enum IndexKind {
    BTree,
    Hash,
    Bitmap,
}

/// A secondary index definition.
#[derive(Debug, Clone, PartialEq, Eq)]
pub struct IndexDef {
    pub id: ObjectId,
    pub name: String,
    pub table: ObjectId,
    pub columns: Vec<usize>,
    pub kind: IndexKind,
    pub unique: bool,
}

/// A sequence generator.
#[derive(Debug, Clone, PartialEq, Eq)]
pub struct Sequence {
    pub id: ObjectId,
    pub name: String,
    pub next: i64,
    pub step: i64,
}

/// A sum that stops at the bounds.
pub open spec fn bounded_sum(a: i64, b: i64) -> i64 {
    if a + b > i64::MAX {
        i64::MAX
    } else if a + b < i64::MIN {
        i64::MIN
    } else {
        (a + b) as i64
    }
}

impl Sequence {
    /// Hand out the next value and advance.
    pub fn advance(&mut self) -> (v: i64)
        ensures
            v == old(self).next,
            *final(self) == (Sequence { next: bounded_sum(old(self).next, old(self).step), ..*old(self) }),
    {
        let v = self.next;
        let s: i128 = self.next as i128 + self.step as i128;
        self.next = if s > i64::MAX as i128 {
            i64::MAX
        } else if s < i64::MIN as i128 {
            i64::MIN
        } else {
            s as i64
        };
        v
    }
}

/// A named view (stored query text).
#[derive(Debug, Clone, PartialEq, Eq)]
pub struct ViewDef {
    pub id: ObjectId,
    pub name: String,
    pub query: String,
}

/// An error from a catalog operation.
#[derive(Debug, Clone, PartialEq, Eq)]
pub enum CatalogError {
    DuplicateName(String),
    UnknownTable(String),
    UnknownIndex(String),
    UnknownColumn { table: String, column: String },
    DependencyExists { object: String, dependent: String },
}

/// A [`CatalogError`] with its texts as characters.
pub enum CatalogFault {
    DuplicateName(Seq<char>),
    UnknownTable(Seq<char>),
    UnknownIndex(Seq<char>),
    UnknownColumn(Seq<char>, Seq<char>),
    DependencyExists(Seq<char>, Seq<char>),
}

impl View for CatalogError {
    type V = CatalogFault;

    open spec fn view(&self) -> CatalogFault {
        match self {
            CatalogError::DuplicateName(n) => CatalogFault::DuplicateName(n@),
            CatalogError::UnknownTable(n) => CatalogFault::UnknownTable(n@),
            CatalogError::UnknownIndex(n) => CatalogFault::UnknownIndex(n@),
            CatalogError::UnknownColumn { table, column } => CatalogFault::UnknownColumn(table@, column@),
            CatalogError::DependencyExists { object, dependent } => CatalogFault::DependencyExists(
                object@,
                dependent@,
            ),
        }
    }
}

/// The message for an error.
pub open spec fn message(e: CatalogFault) -> Seq<char> {
    match e {
        CatalogFault::DuplicateName(n) => "object '"@ + n + "' already exists"@,
        CatalogFault::UnknownTable(n) => "unknown table '"@ + n + "'"@,
        CatalogFault::UnknownIndex(n) => "unknown index '"@ + n + "'"@,
        CatalogFault::UnknownColumn(t, c) => "unknown column '"@ + c + "' on table '"@ + t + "'"@,
        CatalogFault::DependencyExists(o, d) => "cannot drop '"@ + o + "': '"@ + d + "' depends on it"@,
    }
}

impl CatalogError {
    /// The message for this error.
    pub fn to_string(&self) -> (r: String)
        ensures
            r@ == message(self@),
    {
        match self {
            CatalogError::DuplicateName(n) => {
                let mut s = String::from_str("object '");
                s.append(n.as_str());
                s.append("' already exists");
                s
            },
            CatalogError::UnknownTable(n) => {
                let mut s = String::from_str("unknown table '");
                s.append(n.as_str());
                s.append("'");
                s
            },
            CatalogError::UnknownIndex(n) => {
                let mut s = String::from_str("unknown index '");
                s.append(n.as_str());
                s.append("'");
                s
            },
            CatalogError::UnknownColumn { table, column } => {
                let mut s = String::from_str("unknown column '");
                s.append(column.as_str());
                s.append("' on table '");
                s.append(table.as_str());
                s.append("'");
                s
            },
            CatalogError::DependencyExists { object, dependent } => {
                let mut s = String::from_str("cannot drop '");
                s.append(object.as_str());
                s.append("': '");
                s.append(dependent.as_str());
                s.append("' depends on it");
                s
            },
        }
    }
}

// Registers

/// Objects under their names, in the order in which they came.
#[derive(Debug)]
struct Register<T> {
    names: Vec<String>,
    items: Vec<T>,
}

/// What a register holds.
pub struct Entries<T> {
    pub names: Seq<Seq<char>>,
    pub items: Seq<T>,
}

pub open spec fn texts(v: Seq<String>) -> Seq<Seq<char>> {
    Seq::new(v.len(), |i: int| v[i]@)
}

impl<T> Entries<T> {
    /// Each name is there once.
    pub open spec fn wf(self) -> bool {
        self.names.len() == self.items.len() && self.names.no_duplicates()
    }

    pub open spec fn holds(self, name: Seq<char>) -> bool {
        self.names.contains(name)
    }

    /// What is under a name.
    pub open spec fn at(self, name: Seq<char>) -> Option<T> {
        if self.holds(name) {
            Some(self.items[self.names.index_of(name)])
        } else {
            None
        }
    }

    pub open spec fn with(self, name: Seq<char>, x: T) -> Entries<T> {
        Entries { names: self.names.push(name), items: self.items.push(x) }
    }

    pub open spec fn without(self, name: Seq<char>) -> Entries<T> {
        let i = self.names.index_of(name);
        Entries { names: self.names.remove(i), items: self.items.remove(i) }
    }

    pub open spec fn changed(self, name: Seq<char>, x: T) -> Entries<T> {
        Entries { items: self.items.update(self.names.index_of(name), x), ..self }
    }
}

impl<T> Register<T> {
    spec fn model(self) -> Entries<T> {
        Entries { names: texts(self.names@), items: self.items@ }
    }

    fn new() -> (r: Register<T>)
        ensures
            r.model() == (Entries { names: Seq::<Seq<char>>::empty(), items: Seq::<T>::empty() }),
    {
        let r = Register { names: Vec::new(), items: Vec::new() };
        assert(r.model().names =~= Seq::<Seq<char>>::empty());
        assert(r.model().items =~= Seq::<T>::empty());
        r
    }

    /// The place of a name.
    fn find(&self, name: &str) -> (r: Option<usize>)
        requires
            self.model().wf(),
        ensures
            match r {
                Some(i) => self.model().holds(name@) && i == self.model().names.index_of(name@) && i
                    < self.items@.len(),
                None => !self.model().holds(name@),
            },
    {
        let ghost s = texts(self.names@);
        let mut i: usize = 0;
        while i < self.names.len()
            invariant
                i <= self.names@.len(),
                s == texts(self.names@),
                self.model().wf(),
                forall|k: int| 0 <= k < i ==> #[trigger] s[k] != name@,
            decreases self.names@.len() - i,
        {
            if text::same_text(self.names[i].as_str(), name) {
                assert(s[i as int] == name@);
                assert(s.index_of(name@) == i);
                return Some(i);
            }
            i += 1;
        }
        None
    }

    fn put(&mut self, name: &str, x: T)
        requires
            old(self).model().wf(),
            !old(self).model().holds(name@),
        ensures
            final(self).model() == old(self).model().with(name@, x),
            final(self).model().wf(),
    {
        let ghost was = self.model();
        self.names.push(owned(name));
        self.items.push(x);
        assert(self.model().names =~= was.names.push(name@));
    }

    fn take(&mut self, i: usize, Ghost(name): Ghost<Seq<char>>)
        requires
            old(self).model().wf(),
            old(self).model().holds(name),
            i == old(self).model().names.index_of(name),
        ensures
            final(self).model() == old(self).model().without(name),
            final(self).model().wf(),
    {
        let ghost was = self.model();
        self.names.remove(i);
        self.items.remove(i);
        assert(self.model().names =~= was.names.remove(i as int));
    }
}

// Order of names

/// The bytes of a name.
struct Word {
    bytes: Vec<u8>,
}

impl Ranked for Word {
    closed spec fn before(self, other: Word) -> bool {
        lex::less(self.bytes@, other.bytes@)
    }

    proof fn lemma_weak_order(a: Word, b: Word, c: Word) {
        lex::lemma_order(a.bytes@, b.bytes@, c.bytes@);
        lex::lemma_order(c.bytes@, b.bytes@, a.bytes@);
        lex::lemma_order(a.bytes@, c.bytes@, b.bytes@);
        lex::lemma_order(b.bytes@, a.bytes@, c.bytes@);
        lex::lemma_order(a.bytes@, a.bytes@, a.bytes@);
    }

    fn is_before(&self, other: &Word) -> (r: bool) {
        lex::is_less(self.bytes.as_slice(), other.bytes.as_slice())
    }
}

/// Whether a name comes before another: by the bytes of their texts.
pub open spec fn sooner(a: Seq<char>, b: Seq<char>) -> bool {
    lex::less(vstd::utf8::encode_utf8(a), vstd::utf8::encode_utf8(b))
}

/// `p` lists the places of names in their order.
pub open spec fn alphabetical(s: Seq<Seq<char>>, p: Seq<usize>) -> bool {
    &&& p.len() == s.len()
    &&& p.no_duplicates()
    &&& forall|i: int| 0 <= i < p.len() ==> (#[trigger] p[i]) < s.len()
    &&& forall|i: int, j: int|
        0 <= i < j < p.len() ==> !sooner(s[(#[trigger] p[j]) as int], s[(#[trigger] p[i]) as int])
}

fn name_order(names: &Vec<String>) -> (p: Vec<usize>)
    ensures
        alphabetical(texts(names@), p@),
{
    let ghost s = texts(names@);
    let mut ws: Vec<Word> = Vec::new();
    let mut i: usize = 0;
    while i < names.len()
        invariant
            i <= names@.len(),
            s == texts(names@),
            ws@.len() == i,
            forall|k: int| 0 <= k < i ==> (#[trigger] ws@[k]).bytes@ == vstd::utf8::encode_utf8(s[k]),
        decreases names@.len() - i,
    {
        let b = names[i].as_str().as_bytes();
        let w = crate::bytes::copy_range(b, 0, b.len());
        assert(w@ =~= b@);
        ws.push(Word { bytes: w });
        i += 1;
    }
    let p = sort::stable_order(&ws);
    proof {
        assert forall|i: int, j: int| 0 <= i < j < p@.len() implies !sooner(
            s[(#[trigger] p@[j]) as int],
            s[(#[trigger] p@[i]) as int],
        ) by {
            assert(sort::precedes(ws@, p@[i] as int, p@[j] as int));
            Word::lemma_weak_order(ws@[p@[i] as int], ws@[p@[j] as int], ws@[p@[i] as int]);
        }
        assert(p@.no_duplicates()) by {
            assert forall|i: int, j: int| 0 <= i < j < p@.len() implies p@[i] != p@[j] by {
                assert(sort::precedes(ws@, p@[i] as int, p@[j] as int));
                Word::lemma_weak_order(ws@[p@[i] as int], ws@[p@[i] as int], ws@[p@[i] as int]);
            }
        }
    }
    p
}

// Catalog

/// The system catalog.
#[derive(Debug)]
pub struct Catalog {
    next_id: ObjectId,
    tables: Register<TableDef>,
    indexes: Register<IndexDef>,
    sequences: Register<Sequence>,
    views: Register<ViewDef>,
}

/// What a catalog holds.
pub struct CatalogModel {
    pub next_id: ObjectId,
    pub tables: Entries<TableDef>,
    pub indexes: Entries<IndexDef>,
    pub sequences: Entries<Sequence>,
    pub views: Entries<ViewDef>,
}

impl CatalogModel {
    /// Names are unique within each kind of object.
    pub open spec fn wf(self) -> bool {
        self.tables.wf() && self.indexes.wf() && self.sequences.wf() && self.views.wf()
    }

    /// How many objects of a kind there are: tables, indexes, sequences, views.
    pub open spec fn count_of(self, kind: int) -> nat {
        if kind == 0 {
            self.tables.items.len()
        } else if kind == 1 {
            self.indexes.items.len()
        } else if kind == 2 {
            self.sequences.items.len()
        } else if kind == 3 {
            self.views.items.len()
        } else {
            0
        }
    }

    /// The id of an object of a kind.
    pub open spec fn id_of(self, kind: int, i: int) -> ObjectId {
        if kind == 0 {
            self.tables.items[i].id
        } else if kind == 1 {
            self.indexes.items[i].id
        } else if kind == 2 {
            self.sequences.items[i].id
        } else {
            self.views.items[i].id
        }
    }

    /// Every object has an id of its own, which has been handed out.
    pub open spec fn numbered(self) -> bool {
        &&& forall|k: int, i: int| 0 <= i < self.count_of(k) ==> #[trigger] self.id_of(k, i) < self.next_id
        &&& forall|k: int, i: int, l: int, j: int|
            0 <= i < self.count_of(k) && 0 <= j < self.count_of(l) && (k != l || i != j) ==> #[trigger] self.id_of(k, i)
                != #[trigger] self.id_of(l, j)
    }
}

/// A new object takes the next id; the others keep theirs.
proof fn lemma_id_added(m: CatalogModel, d: CatalogModel, kind: int)
    requires
        m.next_id < u32::MAX,
        d.next_id == m.next_id + 1,
        forall|k: int| #[trigger] d.count_of(k) == m.count_of(k) + if k == kind {
            1nat
        } else {
            0nat
        },
        forall|k: int, i: int| 0 <= i < m.count_of(k) ==> #[trigger] d.id_of(k, i) == m.id_of(k, i),
        d.id_of(kind, m.count_of(kind) as int) == m.next_id,
    ensures
        m.numbered() ==> d.numbered(),
{
    if m.numbered() {
        assert forall|k: int, i: int| 0 <= i < d.count_of(k) implies #[trigger] d.id_of(k, i) < d.next_id by {
            if i < m.count_of(k) {
                assert(m.id_of(k, i) < m.next_id);
            }
        }
        assert forall|k: int, i: int, l: int, j: int|
            0 <= i < d.count_of(k) && 0 <= j < d.count_of(l) && (k != l || i != j) implies #[trigger] d.id_of(k, i)
            != #[trigger] d.id_of(l, j) by {
            if i < m.count_of(k) {
                assert(m.id_of(k, i) < m.next_id);
            }
            if j < m.count_of(l) {
                assert(m.id_of(l, j) < m.next_id);
            }
            if i < m.count_of(k) && j < m.count_of(l) {
                assert(m.id_of(k, i) != m.id_of(l, j));
            }
        }
    }
}

/// An object is gone; the others keep their ids.
proof fn lemma_id_gone(m: CatalogModel, d: CatalogModel, kind: int, at: int)
    requires
        d.next_id == m.next_id,
        0 <= at < m.count_of(kind),
        forall|k: int| #[trigger] d.count_of(k) == m.count_of(k) - if k == kind {
            1int
        } else {
            0int
        },
        forall|k: int, i: int|
            0 <= i < d.count_of(k) ==> #[trigger] d.id_of(k, i) == m.id_of(k, if k == kind && i >= at {
                i + 1
            } else {
                i
            }),
    ensures
        m.numbered() ==> d.numbered(),
{
    if m.numbered() {
        assert forall|k: int, i: int| 0 <= i < d.count_of(k) implies #[trigger] d.id_of(k, i) < d.next_id by {
            assert(d.count_of(k) <= m.count_of(k));
        }
        assert forall|k: int, i: int, l: int, j: int|
            0 <= i < d.count_of(k) && 0 <= j < d.count_of(l) && (k != l || i != j) implies #[trigger] d.id_of(k, i)
            != #[trigger] d.id_of(l, j) by {
            let a = if k == kind && i >= at {
                i + 1
            } else {
                i
            };
            let b = if l == kind && j >= at {
                j + 1
            } else {
                j
            };
            assert(m.id_of(k, a) != m.id_of(l, b));
        }
    }
}

/// Where objects keep their ids, they have ids of their own still.
proof fn lemma_ids_kept(m: CatalogModel, d: CatalogModel)
    requires
        d.next_id == m.next_id,
        forall|k: int| #[trigger] d.count_of(k) == m.count_of(k),
        forall|k: int, i: int| 0 <= i < m.count_of(k) ==> #[trigger] d.id_of(k, i) == m.id_of(k, i),
    ensures
        m.numbered() ==> d.numbered(),
{
    if m.numbered() {
        assert forall|k: int, i: int, l: int, j: int|
            0 <= i < d.count_of(k) && 0 <= j < d.count_of(l) && (k != l || i != j) implies #[trigger] d.id_of(k, i)
            != #[trigger] d.id_of(l, j) by {
            assert(m.id_of(k, i) != m.id_of(l, j));
        }
    }
}

/// The columns of a table under their names; the first name that it lacks.
pub open spec fn places(s: Seq<ColumnDef>, names: Seq<Seq<char>>) -> Result<Seq<usize>, Seq<char>>
    decreases names.len(),
{
    if names.len() == 0 {
        Ok(Seq::empty())
    } else {
        match places(s, names.drop_last()) {
            Err(n) => Err(n),
            Ok(p) => match column_place(s, names.last()) {
                Some(i) => Ok(p.push(i as usize)),
                None => Err(names.last()),
            },
        }
    }
}

proof fn lemma_places_stop(s: Seq<ColumnDef>, names: Seq<Seq<char>>, n: int)
    requires
        0 <= n <= names.len(),
        places(s, names.take(n)) is Err,
    ensures
        places(s, names) == places(s, names.take(n)),
    decreases names.len() - n,
{
    if n < names.len() {
        assert(names.take(n + 1).drop_last() =~= names.take(n));
        lemma_places_stop(s, names, n + 1);
    } else {
        assert(names.take(n) =~= names);
    }
}

/// The texts of a list of names.
pub open spec fn listed(v: Seq<&str>) -> Seq<Seq<char>> {
    Seq::new(v.len(), |i: int| v[i]@)
}

fn resolve(t: &TableDef, columns: &[&str]) -> (r: Result<Vec<usize>, String>)
    ensures
        match (r, places(t.columns@, listed(columns@))) {
            (Ok(v), Ok(p)) => v@ == p,
            (Err(e), Err(n)) => e@ == n,
            _ => false,
        },
{
    let ghost names = listed(columns@);
    let mut v: Vec<usize> = Vec::new();
    let mut i: usize = 0;
    while i < columns.len()
        invariant
            i <= columns@.len(),
            names == listed(columns@),
            places(t.columns@, names.take(i as int)) == Ok::<Seq<usize>, Seq<char>>(v@),
        decreases columns@.len() - i,
    {
        proof {
            assert(names.take(i + 1).drop_last() =~= names.take(i as int));
            assert(names.take(i + 1).last() == columns@[i as int]@);
        }
        match t.column_index(columns[i]) {
            Some(c) => v.push(c),
            None => {
                proof {
                    lemma_places_stop(t.columns@, names, i + 1);
                }
                return Err(owned(columns[i]));
            },
        }
        i += 1;
    }
    assert(names.take(names.len() as int) =~= names);
    Ok(v)
}

/// The first index on a table.
pub open spec fn first_on(s: Seq<IndexDef>, id: ObjectId) -> Option<IndexDef>
    decreases s.len(),
{
    if s.len() == 0 {
        None
    } else if s[0].table == id {
        Some(s[0])
    } else {
        first_on(s.skip(1), id)
    }
}

/// The places of the indexes on a table, in order.
pub open spec fn places_on(s: Seq<IndexDef>, id: ObjectId) -> Seq<int>
    decreases s.len(),
{
    if s.len() == 0 {
        Seq::empty()
    } else if s.last().table == id {
        places_on(s.drop_last(), id).push(s.len() - 1)
    } else {
        places_on(s.drop_last(), id)
    }
}

/// The names of the indexes at places.
pub open spec fn index_names(s: Seq<IndexDef>, p: Seq<int>) -> Seq<Seq<char>> {
    Seq::new(p.len(), |i: int| s[p[i]].name@)
}

/// `r` holds the indexes on a table, in the order of their names, which `p` gives.
pub open spec fn lists_on(s: Seq<IndexDef>, id: ObjectId, p: Seq<usize>, r: Seq<&IndexDef>) -> bool {
    let on = places_on(s, id);
    &&& alphabetical(index_names(s, on), p)
    &&& r.len() == p.len()
    &&& forall|i: int| 0 <= i < p.len() ==> *(#[trigger] r[i]) == s[on[p[i] as int]]
}

impl Default for Catalog {
    fn default() -> (r: Catalog)
        ensures
            r.model().wf(),
            r.model().numbered(),
            r.model().next_id == 0,
    {
        Catalog::new()
    }
}

impl Catalog {
    pub closed spec fn model(&self) -> CatalogModel {
        CatalogModel {
            next_id: self.next_id,
            tables: self.tables.model(),
            indexes: self.indexes.model(),
            sequences: self.sequences.model(),
            views: self.views.model(),
        }
    }

    /// A fresh, empty catalog.
    pub fn new() -> (r: Catalog)
        ensures
            r.model().wf(),
            r.model().numbered(),
            r.model().next_id == 0,
            r.model().tables.items.len() == 0,
            r.model().indexes.items.len() == 0,
            r.model().sequences.items.len() == 0,
            r.model().views.items.len() == 0,
    {
        Catalog {
            next_id: 0,
            tables: Register::new(),
            indexes: Register::new(),
            sequences: Register::new(),
            views: Register::new(),
        }
    }

    /// Register a new table. Fails if the name is taken. An id must be left.
    pub fn create_table(&mut self, name: &str, columns: Vec<ColumnDef>) -> (r: Result<ObjectId, CatalogError>)
        requires
            old(self).model().wf(),
            old(self).model().next_id < u32::MAX,
        ensures
            final(self).model().wf(),
            old(self).model().numbered() ==> final(self).model().numbered(),
            match r {
                Err(e) => old(self).model().tables.holds(name@) && e@ == CatalogFault::DuplicateName(name@) && final(self).model() == old(self).model(),
                Ok(id) => !old(self).model().tables.holds(name@) && id == old(self).model().next_id && ({
                    let t = final(self).model().tables.items.last();
                    &&& t.id == id
                    &&& t.name@ == name@
                    &&& t.columns == columns
                    &&& t.page_ids@.len() == 0
                    &&& t.row_estimate == 0
                    &&& final(self).model() == (CatalogModel {
                        next_id: (id + 1) as u32,
                        tables: old(self).model().tables.with(name@, t),
                        ..old(self).model()
                    })
                }),
            },
    {
        if self.tables.find(name).is_some() {
            return Err(CatalogError::DuplicateName(owned(name)));
        }
        let id = self.next_id;
        self.next_id = id + 1;
        let def = TableDef { id, name: owned(name), columns, page_ids: Vec::new(), row_estimate: 0 };
        self.tables.put(name, def);
        proof {
            lemma_id_added(old(self).model(), self.model(), 0);
        }
        Ok(id)
    }

    /// Borrow a table by name.
    pub fn table(&self, name: &str) -> (r: Option<&TableDef>)
        requires
            self.model().wf(),
        ensures
            match r {
                Some(t) => self.model().tables.at(name@) == Some(*t),
                None => self.model().tables.at(name@) is None,
            },
    {
        match self.tables.find(name) {
            Some(i) => Some(&self.tables.items[i]),
            None => None,
        }
    }

    /// Borrow a table by id.
    pub fn table_by_id(&self, id: ObjectId) -> (r: Option<&TableDef>)
        ensures
            match r {
                Some(t) => t.id == id && self.model().tables.items.contains(*t),
                None => forall|i: int|
                    0 <= i < self.model().tables.items.len() ==> (#[trigger] self.model().tables.items[i]).id != id,
            },
    {
        let mut i: usize = 0;
        while i < self.tables.items.len()
            invariant
                i <= self.tables.items@.len(),
                forall|k: int| 0 <= k < i ==> (#[trigger] self.tables.items@[k]).id != id,
            decreases self.tables.items@.len() - i,
        {
            if self.tables.items[i].id == id {
                assert(self.model().tables.items[i as int] == self.tables.items@[i as int]);
                return Some(&self.tables.items[i]);
            }
            i += 1;
        }
        None
    }

    /// Mutable table borrow by name.
    pub fn table_mut(&mut self, name: &str) -> (r: Option<&mut TableDef>)
        requires
            old(self).model().wf(),
        ensures
            match r {
                Some(t) => old(self).model().tables.at(name@) == Some(*t) && final(self).model() == (CatalogModel {
                    tables: old(self).model().tables.changed(name@, *final(t)),
                    ..old(self).model()
                }),
                None => old(self).model().tables.at(name@) is None && final(self).model() == old(self).model(),
            },
            final(self).model().wf(),
            old(self).model().numbered() && (r matches Some(t) ==> final(t).id == t.id) ==> final(self).model().numbered(),
    {
        proof {
            let m = self.model();
            if m.tables.holds(name@) {
                assert forall|x: TableDef| x.id == m.tables.at(name@)->0.id && m.numbered() implies (CatalogModel {
                    tables: #[trigger] m.tables.changed(name@, x),
                    ..m
                }).numbered() by {
                    lemma_table_changed(m, name@, x);
                }
            }
        }
        match self.tables.find(name) {
            Some(i) => Some(&mut self.tables.items[i]),
            None => None,
        }
    }

    /// All table names, sorted.
    pub fn table_names(&self) -> (r: Vec<String>)
        ensures
            exists|p: Seq<usize>| #[trigger]
                sort::arranged(self.model().tables.names, p) == texts(r@) && alphabetical(
                    self.model().tables.names,
                    p,
                ),
    {
        let ghost s = self.model().tables.names;
        let p = name_order(&self.tables.names);
        let mut r: Vec<String> = Vec::new();
        let mut i: usize = 0;
        while i < p.len()
            invariant
                i <= p@.len(),
                s == texts(self.tables.names@),
                alphabetical(s, p@),
                texts(r@) == sort::arranged(s, p@).take(i as int),
            decreases p@.len() - i,
        {
            assert(p@[i as int] < s.len());
            let ghost was = texts(r@);
            r.push(sql::copy_text(&self.tables.names[p[i]]));
            assert(texts(r@) =~= was.push(s[p@[i as int] as int]));
            assert(sort::arranged(s, p@).take(i + 1) =~= sort::arranged(s, p@).take(i as int).push(
                s[p@[i as int] as int],
            ));
            i += 1;
        }
        assert(texts(r@) =~= sort::arranged(s, p@));
        r
    }

    /// Drop a table. Fails if an index still references it; the first such index
    /// is named.
    pub fn drop_table(&mut self, name: &str) -> (r: Result<(), CatalogError>)
        requires
            old(self).model().wf(),
        ensures
            final(self).model().wf(),
            old(self).model().numbered() ==> final(self).model().numbered(),
            match old(self).model().tables.at(name@) {
                None => r is Err && r->Err_0@ == CatalogFault::UnknownTable(name@) && final(self).model() == old(self).model(),
                Some(t) => match first_on(old(self).model().indexes.items, t.id) {
                    Some(x) => r is Err && r->Err_0@ == CatalogFault::DependencyExists(name@, x.name@) && final(self).model() == old(self).model(),
                    None => r is Ok && final(self).model() == (CatalogModel {
                        tables: old(self).model().tables.without(name@),
                        ..old(self).model()
                    }),
                },
            },
    {
        let i = match self.tables.find(name) {
            None => return Err(CatalogError::UnknownTable(owned(name))),
            Some(i) => i,
        };
        let id = self.tables.items[i].id;
        let ghost s = self.indexes.items@;
        let mut k: usize = 0;
        assert(s.skip(0) =~= s);
        while k < self.indexes.items.len()
            invariant
                k <= self.indexes.items@.len(),
                self.model() == old(self).model(),
                self.model().wf(),
                s == self.indexes.items@,
                first_on(s, id) == first_on(s.skip(k as int), id),
                old(self).model().tables.at(name@) is Some,
                old(self).model().tables.at(name@).unwrap().id == id,
                i == self.tables.model().names.index_of(name@),
                self.tables.model().holds(name@),
            decreases self.indexes.items@.len() - k,
        {
            assert(s.skip(k as int)[0] == s[k as int]);
            assert(s.skip(k as int).skip(1) =~= s.skip(k + 1));
            if self.indexes.items[k].table == id {
                return Err(
                    CatalogError::DependencyExists {
                        object: owned(name),
                        dependent: sql::copy_text(&self.indexes.items[k].name),
                    },
                );
            }
            k += 1;
        }
        self.tables.take(i, Ghost(name@));
        proof {
            lemma_id_gone(old(self).model(), self.model(), 0, i as int);
        }
        Ok(())
    }

    /// Create a secondary index on named columns of a table. An id must be left.
    pub fn create_index(
        &mut self,
        name: &str,
        table: &str,
        columns: &[&str],
        kind: IndexKind,
        unique: bool,
    ) -> (r: Result<ObjectId, CatalogError>)
        requires
            old(self).model().wf(),
            old(self).model().next_id < u32::MAX,
        ensures
            final(self).model().wf(),
            old(self).model().numbered() ==> final(self).model().numbered(),
            r is Err ==> final(self).model() == old(self).model(),
            if old(self).model().indexes.holds(name@) {
                r is Err && r->Err_0@ == CatalogFault::DuplicateName(name@)
            } else {
                match old(self).model().tables.at(table@) {
                    None => r is Err && r->Err_0@ == CatalogFault::UnknownTable(table@),
                    Some(t) => match places(t.columns@, listed(columns@)) {
                        Err(c) => r is Err && r->Err_0@ == CatalogFault::UnknownColumn(table@, c),
                        Ok(p) => r is Ok && r->Ok_0 == old(self).model().next_id && ({
                            let x = final(self).model().indexes.items.last();
                            &&& x.id == r->Ok_0
                            &&& x.name@ == name@
                            &&& x.table == t.id
                            &&& x.columns@ == p
                            &&& x.kind == kind
                            &&& x.unique == unique
                            &&& final(self).model() == (CatalogModel {
                                next_id: (r->Ok_0 + 1) as u32,
                                indexes: old(self).model().indexes.with(name@, x),
                                ..old(self).model()
                            })
                        }),
                    },
                }
            },
    {
        if self.indexes.find(name).is_some() {
            return Err(CatalogError::DuplicateName(owned(name)));
        }
        let i = match self.tables.find(table) {
            None => return Err(CatalogError::UnknownTable(owned(table))),
            Some(i) => i,
        };
        let cols = match resolve(&self.tables.items[i], columns) {
            Err(c) => return Err(CatalogError::UnknownColumn { table: owned(table), column: c }),
            Ok(v) => v,
        };
        let tid = self.tables.items[i].id;
        let id = self.next_id;
        self.next_id = id + 1;
        let def = IndexDef { id, name: owned(name), table: tid, columns: cols, kind, unique };
        self.indexes.put(name, def);
        proof {
            lemma_id_added(old(self).model(), self.model(), 1);
        }
        Ok(id)
    }

    /// Borrow an index by name.
    pub fn index(&self, name: &str) -> (r: Option<&IndexDef>)
        requires
            self.model().wf(),
        ensures
            match r {
                Some(x) => self.model().indexes.at(name@) == Some(*x),
                None => self.model().indexes.at(name@) is None,
            },
    {
        match self.indexes.find(name) {
            Some(i) => Some(&self.indexes.items[i]),
            None => None,
        }
    }

    /// All indexes on a table, by name.
    pub fn indexes_on(&self, table: &str) -> (r: Vec<&IndexDef>)
        requires
            self.model().wf(),
        ensures
            match self.model().tables.at(table@) {
                None => r@.len() == 0,
                Some(t) => exists|p: Seq<usize>| #[trigger]
                    lists_on(self.model().indexes.items, t.id, p, r@),
            },
    {
        let mut out: Vec<&IndexDef> = Vec::new();
        let ti = match self.tables.find(table) {
            None => return out,
            Some(i) => i,
        };
        let id = self.tables.items[ti].id;
        let ghost s = self.indexes.items@;
        let mut found: Vec<usize> = Vec::new();
        let mut names: Vec<String> = Vec::new();
        let mut k: usize = 0;
        while k < self.indexes.items.len()
            invariant
                k <= s.len(),
                s == self.indexes.items@,
                found@.len() == places_on(s.take(k as int), id).len(),
                found@.len() == names@.len(),
                forall|i: int|
                    0 <= i < found@.len() ==> (#[trigger] found@[i]) == places_on(s.take(k as int), id)[i] && found@[i]
                        < k,
                forall|i: int| 0 <= i < names@.len() ==> (#[trigger] names@[i])@ == s[found@[i] as int].name@,
            decreases s.len() - k,
        {
            assert(s.take(k + 1).drop_last() =~= s.take(k as int));
            if self.indexes.items[k].table == id {
                found.push(k);
                names.push(sql::copy_text(&self.indexes.items[k].name));
            }
            k += 1;
        }
        assert(s.take(s.len() as int) =~= s);
        let ghost on = places_on(s, id);
        assert(texts(names@) =~= index_names(s, on));
        let p = name_order(&names);
        let mut i: usize = 0;
        while i < p.len()
            invariant
                i <= p@.len(),
                s == self.indexes.items@,
                on == places_on(s, id),
                alphabetical(index_names(s, on), p@),
                found@.len() == on.len(),
                forall|k: int| 0 <= k < found@.len() ==> (#[trigger] found@[k]) == on[k] && found@[k] < s.len(),
                out@.len() == i,
                forall|k: int| 0 <= k < i ==> *(#[trigger] out@[k]) == s[on[p@[k] as int]],
            decreases p@.len() - i,
        {
            assert(p@[i as int] < index_names(s, on).len());
            let f = found[p[i]];
            out.push(&self.indexes.items[f]);
            i += 1;
        }
        assert(lists_on(self.model().indexes.items, id, p@, out@));
        proof {
            let t = self.model().tables.at(table@).unwrap();
            assert(t.id == id);
            assert(lists_on(self.model().indexes.items, t.id, p@, out@));
            assert(exists|p: Seq<usize>| #[trigger] lists_on(self.model().indexes.items, t.id, p, out@));
        }
        out
    }

    /// Drop an index.
    pub fn drop_index(&mut self, name: &str) -> (r: Result<(), CatalogError>)
        requires
            old(self).model().wf(),
        ensures
            final(self).model().wf(),
            old(self).model().numbered() ==> final(self).model().numbered(),
            match r {
                Err(e) => !old(self).model().indexes.holds(name@) && e@ == CatalogFault::UnknownIndex(name@) && final(self).model() == old(self).model(),
                Ok(_) => old(self).model().indexes.holds(name@) && final(self).model() == (CatalogModel {
                    indexes: old(self).model().indexes.without(name@),
                    ..old(self).model()
                }),
            },
    {
        match self.indexes.find(name) {
            None => Err(CatalogError::UnknownIndex(owned(name))),
            Some(i) => {
                self.indexes.take(i, Ghost(name@));
                proof {
                    lemma_id_gone(old(self).model(), self.model(), 1, i as int);
                }
                Ok(())
            },
        }
    }

    /// Create a sequence. An id must be left.
    pub fn create_sequence(&mut self, name: &str, start: i64, step: i64) -> (r: Result<ObjectId, CatalogError>)
        requires
            old(self).model().wf(),
            old(self).model().next_id < u32::MAX,
        ensures
            final(self).model().wf(),
            old(self).model().numbered() ==> final(self).model().numbered(),
            match r {
                Err(e) => old(self).model().sequences.holds(name@) && e@ == CatalogFault::DuplicateName(name@)
                    && final(self).model() == old(self).model(),
                Ok(id) => !old(self).model().sequences.holds(name@) && id == old(self).model().next_id && ({
                    let x = final(self).model().sequences.items.last();
                    &&& x.id == id
                    &&& x.name@ == name@
                    &&& x.next == start
                    &&& x.step == step
                    &&& final(self).model() == (CatalogModel {
                        next_id: (id + 1) as u32,
                        sequences: old(self).model().sequences.with(name@, x),
                        ..old(self).model()
                    })
                }),
            },
    {
        if self.sequences.find(name).is_some() {
            return Err(CatalogError::DuplicateName(owned(name)));
        }
        let id = self.next_id;
        self.next_id = id + 1;
        self.sequences.put(name, Sequence { id, name: owned(name), next: start, step });
        proof {
            lemma_id_added(old(self).model(), self.model(), 2);
        }
        Ok(id)
    }

    /// Advance a sequence and return the value handed out.
    pub fn next_sequence_value(&mut self, name: &str) -> (r: Option<i64>)
        requires
            old(self).model().wf(),
        ensures
            final(self).model().wf(),
            old(self).model().numbered() ==> final(self).model().numbered(),
            match old(self).model().sequences.at(name@) {
                None => r is None && final(self).model() == old(self).model(),
                Some(x) => r == Some(x.next) && final(self).model() == (CatalogModel {
                    sequences: old(self).model().sequences.changed(
                        name@,
                        Sequence { next: bounded_sum(x.next, x.step), ..x },
                    ),
                    ..old(self).model()
                }),
            },
    {
        match self.sequences.find(name) {
            None => None,
            Some(i) => {
                let ghost was = self.sequences.items@;
                let mut x = self.sequences.items.remove(i);
                let v = x.advance();
                let ghost now = x;
                self.sequences.items.insert(i, x);
                assert(self.sequences.items@ =~= was.update(i as int, now));
                proof {
                    lemma_ids_kept(old(self).model(), self.model());
                }
                Some(v)
            },
        }
    }

    /// Create a view. An id must be left.
    pub fn create_view(&mut self, name: &str, query: &str) -> (r: Result<ObjectId, CatalogError>)
        requires
            old(self).model().wf(),
            old(self).model().next_id < u32::MAX,
        ensures
            final(self).model().wf(),
            old(self).model().numbered() ==> final(self).model().numbered(),
            match r {
                Err(e) => old(self).model().views.holds(name@) && e@ == CatalogFault::DuplicateName(name@) && final(self).model() == old(self).model(),
                Ok(id) => !old(self).model().views.holds(name@) && id == old(self).model().next_id && ({
                    let x = final(self).model().views.items.last();
                    &&& x.id == id
                    &&& x.name@ == name@
                    &&& x.query@ == query@
                    &&& final(self).model() == (CatalogModel {
                        next_id: (id + 1) as u32,
                        views: old(self).model().views.with(name@, x),
                        ..old(self).model()
                    })
                }),
            },
    {
        if self.views.find(name).is_some() {
            return Err(CatalogError::DuplicateName(owned(name)));
        }
        let id = self.next_id;
        self.next_id = id + 1;
        self.views.put(name, ViewDef { id, name: owned(name), query: owned(query) });
        proof {
            lemma_id_added(old(self).model(), self.model(), 3);
        }
        Ok(id)
    }

    /// Borrow a view by name.
    pub fn view(&self, name: &str) -> (r: Option<&ViewDef>)
        requires
            self.model().wf(),
        ensures
            match r {
                Some(x) => self.model().views.at(name@) == Some(*x),
                None => self.model().views.at(name@) is None,
            },
    {
        match self.views.find(name) {
            Some(i) => Some(&self.views.items[i]),
            None => None,
        }
    }

    /// Count of objects of each kind: (tables, indexes, sequences, views).
    pub fn object_counts(&self) -> (r: (usize, usize, usize, usize))
        ensures
            r.0 == self.model().tables.items.len(),
            r.1 == self.model().indexes.items.len(),
            r.2 == self.model().sequences.items.len(),
            r.3 == self.model().views.items.len(),
    {
        (self.tables.items.len(), self.indexes.items.len(), self.sequences.items.len(), self.views.items.len())
    }
}

/// A table that is changed but for its id leaves every object with an id of its
/// own.
pub proof fn lemma_table_changed(m: CatalogModel, name: Seq<char>, x: TableDef)
    requires
        m.wf(),
        m.numbered(),
        m.tables.holds(name),
        x.id == m.tables.at(name)->0.id,
    ensures
        (CatalogModel { tables: m.tables.changed(name, x), ..m }).numbered(),
{
    let d = CatalogModel { tables: m.tables.changed(name, x), ..m };
    assert(m.tables.names[m.tables.names.index_of(name)] == name);
    lemma_ids_kept(m, d);
}

/// What is put under a name is found there, and what is under other names stays.
pub proof fn lemma_registered<T>(e: Entries<T>, name: Seq<char>, x: T, other: Seq<char>)
    requires
        e.wf(),
        !e.holds(name),
    ensures
        e.with(name, x).at(name) == Some(x),
        other != name ==> e.with(name, x).at(other) == e.at(other),
{
    let f = e.with(name, x);
    assert(f.names[e.names.len() as int] == name);
    assert(f.names.no_duplicates());
    if other != name {
        if e.holds(other) {
            let i = e.names.index_of(other);
            assert(f.names[i] == other);
            assert(f.names.index_of(other) == i);
        } else if f.holds(other) {
            let i = choose|i: int| 0 <= i < f.names.len() && f.names[i] == other;
            assert(e.names[i] == other);
        }
    }
}

/// What is dropped is gone, and what is under other names stays.
pub proof fn lemma_dropped<T>(e: Entries<T>, name: Seq<char>, other: Seq<char>)
    requires
        e.wf(),
        e.holds(name),
    ensures
        e.without(name).wf(),
        e.without(name).at(name) is None,
        other != name ==> e.without(name).at(other) == e.at(other),
{
    let i = e.names.index_of(name);
    let f = e.without(name);
    assert(e.names[i] == name);
    assert forall|k: int| 0 <= k < f.names.len() implies #[trigger] f.names[k] == e.names[if k < i {
        k
    } else {
        k + 1
    }] by {}
    if f.holds(name) {
        let k = choose|k: int| 0 <= k < f.names.len() && f.names[k] == name;
        assert(false);
    }
    if other != name {
        if e.holds(other) {
            let j = e.names.index_of(other);
            let k = if j < i {
                j
            } else {
                j - 1
            };
            assert(f.names[k] == other);
            assert(f.names.index_of(other) == k);
            assert(f.items[k] == e.items[j]);
        } else if f.holds(other) {
            let k = choose|k: int| 0 <= k < f.names.len() && f.names[k] == other;
            assert(e.names.contains(f.names[k]));
        }
    }
}

// What names find

/// A name finds the first column of that name, and nothing where there is none.
pub proof fn lemma_column_found(s: Seq<ColumnDef>, name: Seq<char>)
    ensures
        column_place(s, name) is None <==> forall|i: int| 0 <= i < s.len() ==> (#[trigger] s[i]).name@ != name,
        column_place(s, name) matches Some(i) ==> 0 <= i < s.len() && s[i].name@ == name && forall|j: int|
            0 <= j < i ==> (#[trigger] s[j]).name@ != name,
    decreases s.len(),
{
    if s.len() > 0 {
        let d = s.drop_last();
        lemma_column_found(d, name);
        assert(forall|i: int| 0 <= i < d.len() ==> #[trigger] s[i] == d[i]);
        if column_place(s, name) is None {
            assert forall|i: int| 0 <= i < s.len() implies (#[trigger] s[i]).name@ != name by {
                if i < d.len() {
                    assert(d[i].name@ != name);
                }
            }
        } else {
            let i = column_place(s, name)->0;
            assert(s[i].name@ == name);
            assert forall|j: int| 0 <= j < i implies (#[trigger] s[j]).name@ != name by {
                assert(d[j].name@ != name);
            }
        }
    }
}

/// The primary key is made of the columns that are marked so, in their order.
pub proof fn lemma_key_places(s: Seq<ColumnDef>)
    requires
        s.len() <= usize::MAX,
    ensures
        forall|k: int| 0 <= k < key_places(s).len() ==> (#[trigger] key_places(s)[k]) < s.len() && s[key_places(s)[k] as int].primary_key,
        forall|i: int| 0 <= i < s.len() && (#[trigger] s[i]).primary_key ==> key_places(s).contains(i as usize),
        forall|a: int, b: int| 0 <= a < b < key_places(s).len() ==> key_places(s)[a] < key_places(s)[b],
    decreases s.len(),
{
    if s.len() > 0 {
        let d = s.drop_last();
        lemma_key_places(d);
        let p = key_places(s);
        let q = key_places(d);
        assert forall|k: int| 0 <= k < p.len() implies (#[trigger] p[k]) < s.len() && s[p[k] as int].primary_key by {
            if k < q.len() {
                assert(p[k] == q[k]);
                assert(s[q[k] as int] == d[q[k] as int]);
            }
        }
        assert forall|i: int| 0 <= i < s.len() && (#[trigger] s[i]).primary_key implies p.contains(i as usize) by {
            if i < d.len() {
                assert(d[i] == s[i]);
                assert(q.contains(i as usize));
                let k = q.index_of(i as usize);
                assert(p[k] == i as usize);
            } else {
                assert(p[p.len() - 1] == i as usize);
            }
        }
        assert forall|a: int, b: int| 0 <= a < b < p.len() implies p[a] < p[b] by {
            assert(p[a] == q[a]);
            if b < q.len() {
                assert(p[b] == q[b]);
            }
        }
    }
}

/// A list of names is resolved to a column of each name, or refused with a name that no
/// column has.
pub proof fn lemma_places(s: Seq<ColumnDef>, names: Seq<Seq<char>>)
    requires
        s.len() <= usize::MAX,
    ensures
        places(s, names) matches Ok(p) ==> p.len() == names.len() && forall|i: int|
            0 <= i < names.len() ==> (#[trigger] p[i]) < s.len() && s[p[i] as int].name@ == names[i],
        places(s, names) matches Err(n) ==> names.contains(n) && forall|i: int|
            0 <= i < s.len() ==> (#[trigger] s[i]).name@ != n,
    decreases names.len(),
{
    if names.len() > 0 {
        let d = names.drop_last();
        lemma_places(s, d);
        lemma_column_found(s, names.last());
        match places(s, d) {
            Err(n) => {
                let k = d.index_of(n);
                assert(names[k] == n);
            },
            Ok(q) => {
                assert(names[names.len() - 1] == names.last());
                if column_place(s, names.last()) is Some {
                    let p = places(s, names)->Ok_0;
                    assert forall|i: int| 0 <= i < names.len() implies (#[trigger] p[i]) < s.len() && s[p[i] as int].name@
                        == names[i] by {
                        if i < d.len() {
                            assert(p[i] == q[i]);
                            assert(d[i] == names[i]);
                        }
                    }
                }
            },
        }
    }
}

/// What is under a name once an entry is added, changed or dropped; other names keep
/// theirs.
pub proof fn lemma_entries<T>(e: Entries<T>, name: Seq<char>, x: T, other: Seq<char>)
    requires
        e.wf(),
        other != name,
    ensures
        !e.holds(name) ==> e.with(name, x).wf() && e.with(name, x).at(name) == Some(x) && e.with(name, x).at(other) == e.at(
            other,
        ),
        e.holds(name) ==> e.changed(name, x).wf() && e.changed(name, x).at(name) == Some(x) && e.changed(name, x).at(other)
            == e.at(other),
        e.holds(name) ==> e.without(name).wf() && e.without(name).at(name) is None && e.without(name).at(other) == e.at(
            other,
        ),
{
    let n = e.names;
    if !e.holds(name) {
        let m = n.push(name);
        assert(m[n.len() as int] == name);
        assert forall|i: int, j: int| 0 <= i < m.len() && 0 <= j < m.len() && i != j implies m[i] != m[j] by {
            if i < n.len() && j < n.len() {
                assert(n[i] != n[j]);
            } else if i < n.len() {
                assert(n.contains(n[i]));
            } else {
                assert(n.contains(n[j]));
            }
        }
        if e.holds(other) {
            let k = n.index_of(other);
            assert(m[k] == other);
            assert(m.contains(other));
        } else if m.contains(other) {
            let k = m.index_of(other);
            assert(n[k] == other);
        }
        assert(m.contains(name));
    } else {
        let at = n.index_of(name);
        let m = n.remove(at);
        assert forall|i: int, j: int| 0 <= i < m.len() && 0 <= j < m.len() && i != j implies m[i] != m[j] by {
            let a = if i < at {
                i
            } else {
                i + 1
            };
            let b = if j < at {
                j
            } else {
                j + 1
            };
            assert(m[i] == n[a] && m[j] == n[b]);
        }
        if m.contains(name) {
            let k = m.index_of(name);
            let b = if k < at {
                k
            } else {
                k + 1
            };
            assert(n[b] == name);
        }
        if e.holds(other) {
            let k = n.index_of(other);
            let b = if k < at {
                k
            } else {
                k - 1
            };
            assert(m[b] == other);
            assert(m.contains(other));
            assert(e.items.remove(at)[b] == e.items[k]);
        } else if m.contains(other) {
            let k = m.index_of(other);
            let b = if k < at {
                k
            } else {
                k + 1
            };
            assert(n[b] == other);
        }
    }
}

/// A sequence goes on by its step, and stays at the end of the integers.
pub proof fn lemma_sequence(next: i64, step: i64)
    ensures
        i64::MIN <= next + step <= i64::MAX ==> bounded_sum(next, step) == next + step,
        step >= 0 ==> bounded_sum(next, step) >= next,
        step <= 0 ==> bounded_sum(next, step) <= next,
        next + step > i64::MAX ==> bounded_sum(next, step) == i64::MAX,
        next + step < i64::MIN ==> bounded_sum(next, step) == i64::MIN,
{
}

} // verus!
