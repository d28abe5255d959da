//! A paged B+tree secondary index.
//!
//! The tree is keyed on `i64` (a column value's integer projection; text values
//! key on their dictionary id) and maps each key to a list of row ids. Row ids
//! are stored in the leaves, which are linked from left to right; internal nodes
//! store separator keys and child page ids. Nodes live in a page table keyed by
//! id.

use vstd::prelude::*;
use crate::order;
use crate::bytes;
use crate::btree_model;
use crate::btree_codec;
use std::cmp::Ordering;
use std::collections::BTreeMap;
use crate::btree_codec::TreeParts;
use crate::btree_model::{EntryModel, NodeModel, PageMap, FANOUT};

verus! {

broadcast use {vstd::std_specs::btree::group_btree_axioms, bytes::group_le_len};

/// The kind of a node page.
#[derive(Debug, Clone, Copy, PartialEq, Eq, Structural)]
pub enum NodeType {
    Leaf,
    Internal,
}

impl NodeType {
    pub open spec fn tag(self) -> u8 {
        match self {
            NodeType::Leaf => 0,
            NodeType::Internal => 1,
        }
    }

    pub fn as_u8(self) -> (r: u8)
        ensures
            r == self.tag(),
    {
        match self {
            NodeType::Leaf => 0,
            NodeType::Internal => 1,
        }
    }

    pub fn from_u8(b: u8) -> (r: NodeType)
        ensures
            r == (if b == 1 {
                NodeType::Internal
            } else {
                NodeType::Leaf
            }),
    {
        if b == 1 {
            NodeType::Internal
        } else {
            NodeType::Leaf
        }
    }
}

/// A key-to-rows entry in a leaf.
#[derive(Debug, Clone, PartialEq, Eq)]
pub struct LeafEntry {
    pub key: i64,
    pub rows: Vec<u64>,
}

impl LeafEntry {
    pub open spec fn model(self) -> EntryModel {
        (self.key, self.rows@)
    }
}

/// The models of a list of entries.
pub open spec fn entry_models(s: Seq<LeafEntry>) -> Seq<EntryModel> {
    s.map_values(|e: LeafEntry| e.model())
}

/// An in-memory node (leaf or internal).
#[derive(Debug, Clone)]
pub enum Node {
    Leaf { id: u32, entries: Vec<LeafEntry>, next: Option<u32> },
    Internal { id: u32, keys: Vec<i64>, children: Vec<u32> },
}

impl Node {
    /// What the node holds, apart from its id.
    pub open spec fn model(self) -> NodeModel {
        match self {
            Node::Leaf { id, entries, next } => NodeModel::Leaf { entries: entry_models(entries@), next },
            Node::Internal { id, keys, children } => NodeModel::Internal { keys: keys@, children: children@ },
        }
    }

    pub open spec fn page_id(self) -> u32 {
        match self {
            Node::Leaf { id, .. } => id,
            Node::Internal { id, .. } => id,
        }
    }

    pub fn id(&self) -> (r: u32)
        ensures
            r == self.page_id(),
    {
        match self {
            Node::Leaf { id, .. } => *id,
            Node::Internal { id, .. } => *id,
        }
    }

    pub fn node_type(&self) -> (r: NodeType)
        ensures
            r == (if self is Leaf {
                NodeType::Leaf
            } else {
                NodeType::Internal
            }),
    {
        match self {
            Node::Leaf { .. } => NodeType::Leaf,
            Node::Internal { .. } => NodeType::Internal,
        }
    }

    pub fn is_full(&self) -> (r: bool)
        ensures
            r == match self.model() {
                NodeModel::Leaf { entries, next } => entries.len() >= FANOUT,
                NodeModel::Internal { keys, children } => keys.len() >= FANOUT,
            },
    {
        match self {
            Node::Leaf { entries, .. } => entries.len() >= FANOUT,
            Node::Internal { keys, .. } => keys.len() >= FANOUT,
        }
    }

    /// Encode a node into a page buffer.
    pub fn encode(&self) -> (out: Vec<u8>)
        ensures
            out@ == btree_codec::node_bytes(self.model()),
    {
        let mut out: Vec<u8> = Vec::new();
        match self {
            Node::Leaf { id: _, entries, next } => {
                out.push(NodeType::Leaf.as_u8());
                bytes::put_u32(&mut out, entries.len() as u32);
                let w: u32 = match next {
                    Some(n) => *n,
                    None => u32::MAX,
                };
                bytes::put_u32(&mut out, w);
                put_entries(&mut out, entries);
                assert(out@ =~= btree_codec::node_bytes(self.model()));
            },
            Node::Internal { id: _, keys, children } => {
                out.push(NodeType::Internal.as_u8());
                bytes::put_u32(&mut out, keys.len() as u32);
                bytes::put_u32(&mut out, u32::MAX);
                put_keys(&mut out, keys);
                put_kids(&mut out, children);
                assert(out@ =~= btree_codec::node_bytes(self.model()));
            },
        }
        out
    }

    /// Decode a node from a page buffer, given its id.
    pub fn decode(id: u32, buf: &[u8]) -> (r: Option<Node>)
        ensures
            match r {
                None => btree_codec::node_read(buf@) is None,
                Some(n) => btree_codec::node_read(buf@) == Some(n.model()) && n.page_id() == id,
            },
    {
        if buf.len() < 9 {
            return None;
        }
        let n: u32 = bytes::get_u32(buf, 1);
        match NodeType::from_u8(buf[0]) {
            NodeType::Leaf => {
                let w: u32 = bytes::get_u32(buf, 5);
                let next = if w != u32::MAX {
                    Some(w)
                } else {
                    None
                };
                let entries = get_entries(buf, 9, n);
                Some(Node::Leaf { id, entries, next })
            },
            NodeType::Internal => {
                let keys = get_keys(buf, 9, n);
                let children = get_kids(buf, 9 + 8 * keys.len(), n as u64 + 1);
                Some(Node::Internal { id, keys, children })
            },
        }
    }
}

fn put_entries(out: &mut Vec<u8>, entries: &Vec<LeafEntry>)
    ensures
        final(out)@ == old(out)@ + btree_codec::entries_bytes(entry_models(entries@)),
{
    let mut i: usize = 0;
    let ghost es = entry_models(entries@);
    assert(es.skip(0) =~= es);
    while i < entries.len()
        invariant
            i <= entries.len(),
            es == entry_models(entries@),
            out@ + btree_codec::entries_bytes(es.skip(i as int)) == old(out)@ + btree_codec::entries_bytes(es),
        decreases entries.len() - i,
    {
        let ghost o = out@;
        bytes::put_i64(out, entries[i].key);
        bytes::put_u32(out, entries[i].rows.len() as u32);
        bytes::put_u64s(out, &entries[i].rows);
        proof {
            let s = es.skip(i as int);
            assert(s[0] == entries@[i as int].model());
            assert(s.drop_first() =~= es.skip(i + 1));
            assert(out@ + btree_codec::entries_bytes(s.drop_first()) =~= o + btree_codec::entries_bytes(s));
        }
        i += 1;
    }
    assert(out@ + btree_codec::entries_bytes(es.skip(i as int)) =~= out@);
}

fn put_keys(out: &mut Vec<u8>, keys: &Vec<i64>)
    ensures
        final(out)@ == old(out)@ + btree_codec::keys_bytes(keys@),
{
    let mut i: usize = 0;
    assert(keys@.skip(0) =~= keys@);
    while i < keys.len()
        invariant
            i <= keys.len(),
            out@ + btree_codec::keys_bytes(keys@.skip(i as int)) == old(out)@ + btree_codec::keys_bytes(keys@),
        decreases keys.len() - i,
    {
        let ghost o = out@;
        bytes::put_i64(out, keys[i]);
        proof {
            let s = keys@.skip(i as int);
            assert(s.drop_first() =~= keys@.skip(i + 1));
            assert(out@ + btree_codec::keys_bytes(s.drop_first()) =~= o + btree_codec::keys_bytes(s));
        }
        i += 1;
    }
    assert(out@ + btree_codec::keys_bytes(keys@.skip(i as int)) =~= out@);
}

fn put_kids(out: &mut Vec<u8>, kids: &Vec<u32>)
    ensures
        final(out)@ == old(out)@ + btree_codec::kids_bytes(kids@),
{
    let mut i: usize = 0;
    assert(kids@.skip(0) =~= kids@);
    while i < kids.len()
        invariant
            i <= kids.len(),
            out@ + btree_codec::kids_bytes(kids@.skip(i as int)) == old(out)@ + btree_codec::kids_bytes(kids@),
        decreases kids.len() - i,
    {
        let ghost o = out@;
        bytes::put_u32(out, kids[i]);
        proof {
            let s = kids@.skip(i as int);
            assert(s.drop_first() =~= kids@.skip(i + 1));
            assert(out@ + btree_codec::kids_bytes(s.drop_first()) =~= o + btree_codec::kids_bytes(s));
        }
        i += 1;
    }
    assert(out@ + btree_codec::kids_bytes(kids@.skip(i as int)) =~= out@);
}

fn get_entries(buf: &[u8], from: usize, n: u32) -> (entries: Vec<LeafEntry>)
    requires
        from <= buf@.len(),
    ensures
        entry_models(entries@) == btree_codec::entries_read(buf@.skip(from as int), n as nat),
{
    let mut entries: Vec<LeafEntry> = Vec::new();
    let mut pos: usize = from;
    let mut i: u32 = 0;
    let ghost all = btree_codec::entries_read(buf@.skip(from as int), n as nat);
    assert(entry_models(entries@) + all =~= all);
    while i < n && buf.len() - pos >= 12
        invariant
            i <= n,
            from <= pos <= buf@.len(),
            entry_models(entries@) + btree_codec::entries_read(buf@.skip(pos as int), (n - i) as nat) == all,
        decreases n - i,
    {
        let ghost e0 = entry_models(entries@);
        let ghost s = buf@.skip(pos as int);
        let key: i64 = bytes::get_i64(buf, pos);
        let rc: u32 = bytes::get_u32(buf, pos + 8);
        let rows = bytes::get_u64s(buf, pos + 12, rc);
        let len: usize = rows.len();
        let ghost m = (key, rows@);
        entries.push(LeafEntry { key, rows });
        proof {
            bytes::lemma_at_skip(buf@, pos as int, 0);
            bytes::lemma_at_skip(buf@, pos as int, 8);
            assert(s.skip(12) =~= buf@.skip(pos + 12));
            assert(s.skip(12int + 8 * len) =~= buf@.skip(pos + 12 + 8 * len));
            assert(entry_models(entries@) =~= e0.push(m));
            let rest = btree_codec::entries_read(s.skip(12int + 8 * len), (n - i - 1) as nat);
            assert(e0.push(m) + rest =~= e0 + (seq![m] + rest));
        }
        pos += 12 + 8 * len;
        i += 1;
    }
    assert(entry_models(entries@) + btree_codec::entries_read(buf@.skip(pos as int), (n - i) as nat) =~= entry_models(entries@));
    entries
}

fn get_keys(buf: &[u8], from: usize, n: u32) -> (keys: Vec<i64>)
    requires
        from <= buf@.len(),
    ensures
        keys@ == btree_codec::keys_read(buf@.skip(from as int), n as nat),
        from + 8 * keys@.len() <= buf@.len(),
{
    let mut keys: Vec<i64> = Vec::new();
    let mut pos: usize = from;
    let mut i: u32 = 0;
    let ghost all = btree_codec::keys_read(buf@.skip(from as int), n as nat);
    assert(keys@ + all =~= all);
    while i < n && buf.len() - pos >= 8
        invariant
            i <= n,
            from <= pos <= buf@.len(),
            pos == from + 8 * keys@.len(),
            keys@ + btree_codec::keys_read(buf@.skip(pos as int), (n - i) as nat) == all,
        decreases n - i,
    {
        let ghost k0 = keys@;
        let ghost s = buf@.skip(pos as int);
        let v: i64 = bytes::get_i64(buf, pos);
        keys.push(v);
        proof {
            bytes::lemma_at_skip(buf@, pos as int, 0);
            assert(s.skip(8) =~= buf@.skip(pos + 8));
            assert(keys@ + btree_codec::keys_read(s.skip(8), (n - i - 1) as nat) =~= k0 + btree_codec::keys_read(s, (n - i) as nat));
        }
        pos += 8;
        i += 1;
    }
    assert(keys@ + btree_codec::keys_read(buf@.skip(pos as int), (n - i) as nat) =~= keys@);
    keys
}

fn get_kids(buf: &[u8], from: usize, n: u64) -> (kids: Vec<u32>)
    requires
        from <= buf@.len(),
    ensures
        kids@ == btree_codec::kids_read(buf@.skip(from as int), n as nat),
{
    let mut kids: Vec<u32> = Vec::new();
    let mut pos: usize = from;
    let mut i: u64 = 0;
    let ghost all = btree_codec::kids_read(buf@.skip(from as int), n as nat);
    assert(kids@ + all =~= all);
    while i < n && buf.len() - pos >= 4
        invariant
            i <= n,
            from <= pos <= buf@.len(),
            kids@ + btree_codec::kids_read(buf@.skip(pos as int), (n - i) as nat) == all,
        decreases n - i,
    {
        let ghost k0 = kids@;
        let ghost s = buf@.skip(pos as int);
        let v: u32 = bytes::get_u32(buf, pos);
        kids.push(v);
        proof {
            bytes::lemma_at_skip(buf@, pos as int, 0);
            assert(s.skip(4) =~= buf@.skip(pos + 4));
            assert(kids@ + btree_codec::kids_read(s.skip(4), (n - i - 1) as nat) =~= k0 + btree_codec::kids_read(s, (n - i) as nat));
        }
        pos += 4;
        i += 1;
    }
    assert(kids@ + btree_codec::kids_read(buf@.skip(pos as int), (n - i) as nat) =~= kids@);
    kids
}

/// The position of the first entry whose key is not below `key`.
fn entry_position(entries: &Vec<LeafEntry>, key: i64) -> (pos: usize)
    ensures
        pos == btree_model::rank(entry_models(entries@), key),
        pos <= entries@.len(),
{
    let mut pos: usize = 0;
    let ghost es = entry_models(entries@);
    while pos < entries.len() && entries[pos].key < key
        invariant
            pos <= entries@.len(),
            es == entry_models(entries@),
            forall|i: int| 0 <= i < pos ==> (#[trigger] es[i]).0 < key,
        decreases entries.len() - pos,
    {
        assert(es[pos as int].0 < key);
        pos += 1;
    }
    proof {
        if pos < entries@.len() {
            assert(es[pos as int].0 >= key);
        }
        btree_model::lemma_rank_unique(es, key, pos as int);
    }
    pos
}

/// The position of the child that covers `key`.
fn child_position(keys: &Vec<i64>, key: i64) -> (pos: usize)
    requires
        forall|i: int, j: int| 0 <= i < j < keys@.len() ==> keys@[i] < keys@[j],
    ensures
        btree_model::covers(keys@, key, pos as int),
{
    let mut pos: usize = 0;
    while pos < keys.len() && keys[pos] <= key
        invariant
            pos <= keys@.len(),
            forall|i: int| 0 <= i < pos ==> #[trigger] keys@[i] <= key,
        decreases keys.len() - pos,
    {
        pos += 1;
    }
    pos
}

fn has_row(rows: &Vec<u64>, row: u64) -> (r: bool)
    ensures
        r == rows@.contains(row),
{
    let mut i: usize = 0;
    while i < rows.len()
        invariant
            i <= rows@.len(),
            forall|j: int| 0 <= j < i ==> rows@[j] != row,
        decreases rows.len() - i,
    {
        if rows[i] == row {
            return true;
        }
        i += 1;
    }
    false
}

/// The rows without `row`.
fn drop_row(rows: &Vec<u64>, row: u64) -> (out: Vec<u64>)
    ensures
        out@ == btree_model::without_row(rows@, row),
{
    let mut out: Vec<u64> = Vec::new();
    let mut i: usize = 0;
    while i < rows.len()
        invariant
            i <= rows@.len(),
            out@ == btree_model::without_row(rows@.subrange(0, i as int), row),
        decreases rows.len() - i,
    {
        proof {
            let s = rows@.subrange(0, i + 1);
            assert(s.drop_last() =~= rows@.subrange(0, i as int));
            assert(s.last() == rows@[i as int]);
        }
        if rows[i] != row {
            out.push(rows[i]);
        }
        i += 1;
    }
    assert(rows@.subrange(0, i as int) =~= rows@);
    out
}

/// All pairs of a key and one of its rows.
pub open spec fn pairs_of(e: EntryModel) -> Seq<(i64, u64)> {
    e.1.map_values(|r: u64| (e.0, r))
}

/// The pairs of the entries with a key in `[lo, hi]`, in order.
pub open spec fn pairs_in(s: Seq<EntryModel>, lo: i64, hi: i64) -> Seq<(i64, u64)>
    decreases s.len(),
{
    if s.len() == 0 {
        Seq::empty()
    } else {
        let p = pairs_in(s.drop_last(), lo, hi);
        if lo <= s.last().0 <= hi {
            p + pairs_of(s.last())
        } else {
            p
        }
    }
}

pub proof fn lemma_pairs_concat(a: Seq<EntryModel>, b: Seq<EntryModel>, lo: i64, hi: i64)
    ensures
        pairs_in(a + b, lo, hi) == pairs_in(a, lo, hi) + pairs_in(b, lo, hi),
    decreases b.len(),
{
    if b.len() == 0 {
        assert(a + b =~= a);
        assert(pairs_in(a, lo, hi) + pairs_in(b, lo, hi) =~= pairs_in(a, lo, hi));
    } else {
        assert((a + b).drop_last() =~= a + b.drop_last());
        assert((a + b).last() == b.last());
        lemma_pairs_concat(a, b.drop_last(), lo, hi);
        assert(pairs_in(a + b, lo, hi) =~= pairs_in(a, lo, hi) + pairs_in(b, lo, hi));
    }
}

/// Entries outside the range have no pairs in it.
pub proof fn lemma_pairs_none(s: Seq<EntryModel>, lo: i64, hi: i64)
    requires
        forall|i: int| 0 <= i < s.len() ==> (#[trigger] s[i]).0 < lo || s[i].0 > hi,
    ensures
        pairs_in(s, lo, hi) == Seq::<(i64, u64)>::empty(),
    decreases s.len(),
{
    if s.len() > 0 {
        let d = s.drop_last();
        assert forall|i: int| 0 <= i < d.len() implies (#[trigger] d[i]).0 < lo || d[i].0 > hi by {
            assert(d[i] == s[i]);
        }
        lemma_pairs_none(d, lo, hi);
        assert(s.last() == s[s.len() - 1]);
    }
}

/// The number of entries on the given pages.
pub open spec fn entry_total(p: PageMap, ids: Seq<u32>) -> nat
    decreases ids.len(),
{
    if ids.len() == 0 {
        0
    } else {
        entry_total(p, ids.drop_last()) + btree_model::leaf_entries(p, ids.last()).len()
    }
}

pub proof fn lemma_total_mono(p: PageMap, ids: Seq<u32>, n: int)
    requires
        0 <= n <= ids.len(),
    ensures
        entry_total(p, ids.subrange(0, n)) <= entry_total(p, ids),
    decreases ids.len() - n,
{
    if n == ids.len() {
        assert(ids.subrange(0, n) =~= ids);
    } else {
        let s = ids.subrange(0, n + 1);
        assert(s.drop_last() =~= ids.subrange(0, n));
        lemma_total_mono(p, ids, n + 1);
    }
}

proof fn lemma_total_concat(p: PageMap, a: Seq<u32>, b: Seq<u32>)
    ensures
        entry_total(p, a + b) == entry_total(p, a) + entry_total(p, b),
    decreases b.len(),
{
    if b.len() == 0 {
        assert(a + b =~= a);
    } else {
        assert((a + b).drop_last() =~= a + b.drop_last());
        lemma_total_concat(p, a, b.drop_last());
    }
}

/// The number of entries does not depend on the order of the pages.
proof fn lemma_total_order(p: PageMap, a: Seq<u32>, b: Seq<u32>)
    requires
        a.no_duplicates(),
        b.no_duplicates(),
        a.to_set() == b.to_set(),
    ensures
        entry_total(p, a) == entry_total(p, b),
    decreases a.len(),
{
    if a.len() == 0 {
        if b.len() > 0 {
            assert(b.to_set().contains(b[0]));
            assert(a.to_set().contains(b[0]));
        }
    } else {
        let x = a.last();
        assert(a.to_set().contains(x));
        assert(b.to_set().contains(x));
        let j = choose|j: int| 0 <= j < b.len() && b[j] == x;
        let bl = b.subrange(0, j);
        let br = b.subrange(j + 1, b.len() as int);
        let c = bl + br;
        assert(b =~= bl + seq![x] + br);
        lemma_total_concat(p, bl + seq![x], br);
        lemma_total_concat(p, bl, seq![x]);
        lemma_total_concat(p, bl, br);
        assert(seq![x].drop_last() =~= Seq::<u32>::empty());
        assert(entry_total(p, seq![x]) == btree_model::leaf_entries(p, x).len()) by {
            assert(entry_total(p, Seq::<u32>::empty()) == 0);
        }
        let d = a.drop_last();
        assert(c.no_duplicates()) by {
            assert forall|i: int, k: int| 0 <= i < c.len() && 0 <= k < c.len() && i != k implies c[i] != c[k] by {
                let i2 = if i < j {
                    i
                } else {
                    i + 1
                };
                let k2 = if k < j {
                    k
                } else {
                    k + 1
                };
                assert(c[i] == b[i2] && c[k] == b[k2]);
            }
        }
        assert(d.to_set() =~= c.to_set()) by {
            assert forall|y: u32| d.to_set().contains(y) <==> c.to_set().contains(y) by {
                if d.to_set().contains(y) {
                    let i = choose|i: int| 0 <= i < d.len() && d[i] == y;
                    assert(a[i] == y);
                    assert(a.to_set().contains(y));
                    assert(b.to_set().contains(y));
                    let k = choose|k: int| 0 <= k < b.len() && b[k] == y;
                    assert(k != j);
                    if k < j {
                        assert(c[k] == y);
                    } else {
                        assert(c[k - 1] == y);
                    }
                }
                if c.to_set().contains(y) {
                    let i = choose|i: int| 0 <= i < c.len() && c[i] == y;
                    let k = if i < j {
                        i
                    } else {
                        i + 1
                    };
                    assert(b[k] == y);
                    assert(y != x);
                    assert(b.to_set().contains(y));
                    assert(a.to_set().contains(y));
                    let l = choose|l: int| 0 <= l < a.len() && a[l] == y;
                    assert(d[l] == y);
                }
            }
        }
        lemma_total_order(p, d, c);
    }
}

/// The pages of a subtree in preorder.
spec fn page_seq(p: PageMap, id: u32, h: nat) -> Seq<u32>
    decreases h, 0nat,
{
    if h == 0 {
        seq![id]
    } else {
        seq![id] + page_seqs(p, btree_model::kids(p, id), (h - 1) as nat)
    }
}

spec fn page_seqs(p: PageMap, cs: Seq<u32>, h: nat) -> Seq<u32>
    decreases h, cs.len() + 1,
{
    if cs.len() == 0 {
        Seq::empty()
    } else {
        page_seqs(p, cs.drop_last(), h) + page_seq(p, cs.last(), h)
    }
}

proof fn lemma_distinct_concat(a: Seq<u32>, b: Seq<u32>)
    requires
        a.no_duplicates(),
        b.no_duplicates(),
        forall|x: u32| !(a.contains(x) && b.contains(x)),
    ensures
        (a + b).no_duplicates(),
        forall|x: u32| #[trigger] (a + b).contains(x) <==> a.contains(x) || b.contains(x),
{
    let s = a + b;
    assert forall|x: u32| #[trigger] s.contains(x) <==> a.contains(x) || b.contains(x) by {
        if s.contains(x) {
            let i = choose|i: int| 0 <= i < s.len() && s[i] == x;
            if i < a.len() {
                assert(a[i] == x);
            } else {
                assert(b[i - a.len()] == x);
            }
        }
        if a.contains(x) {
            let i = choose|i: int| 0 <= i < a.len() && a[i] == x;
            assert(s[i] == x);
        }
        if b.contains(x) {
            let i = choose|i: int| 0 <= i < b.len() && b[i] == x;
            assert(s[a.len() + i] == x);
        }
    }
    assert forall|i: int, j: int| 0 <= i < s.len() && 0 <= j < s.len() && i != j implies s[i] != s[j] by {
        if i < a.len() && j >= a.len() {
            assert(a.contains(s[i]) && b.contains(b[j - a.len()]));
        } else if j < a.len() && i >= a.len() {
            assert(a.contains(s[j]) && b.contains(b[i - a.len()]));
        }
    }
}

proof fn lemma_page_seq(p: PageMap, id: u32, h: nat, lo: int, hi: int)
    requires
        btree_model::wf(p, id, h, lo, hi),
    ensures
        page_seq(p, id, h).no_duplicates(),
        forall|x: u32| #[trigger] page_seq(p, id, h).contains(x) <==> btree_model::pages(p, id, h).contains(x),
        entry_total(p, page_seq(p, id, h)) == btree_model::contents(p, id, h).len(),
    decreases h,
{
    assert(seq![id].drop_last() =~= Seq::<u32>::empty());
    assert(entry_total(p, seq![id]) == btree_model::leaf_entries(p, id).len()) by {
        assert(entry_total(p, Seq::<u32>::empty()) == 0);
    }
    assert(seq![id][0] == id);
    if h == 0 {
        btree_model::lemma_entries_one(p, id);
    } else {
        match p[id] {
            NodeModel::Internal { keys, children } => {
                lemma_page_seqs(p, id, keys, children, h, lo, hi, children.len() as int);
                assert(children.subrange(0, children.len() as int) =~= children);
                let ps = page_seqs(p, children, (h - 1) as nat);
                assert(!ps.contains(id)) by {
                    btree_model::lemma_page_list(p, children, (h - 1) as nat, id);
                }
                lemma_distinct_concat(seq![id], ps);
                lemma_total_concat(p, seq![id], ps);
            },
            NodeModel::Leaf { entries, next } => {},
        }
    }
}

proof fn lemma_page_seqs(p: PageMap, id: u32, keys: Seq<i64>, cs: Seq<u32>, h: nat, lo: int, hi: int, n: int)
    requires
        btree_model::internal_ok(p, id, keys, cs, h, lo, hi),
        0 <= n <= cs.len(),
    ensures
        page_seqs(p, cs.subrange(0, n), (h - 1) as nat).no_duplicates(),
        forall|x: u32| #[trigger]
            page_seqs(p, cs.subrange(0, n), (h - 1) as nat).contains(x) <==> btree_model::page_list(
                p,
                cs.subrange(0, n),
                (h - 1) as nat,
            ).contains(x),
        entry_total(p, page_seqs(p, cs.subrange(0, n), (h - 1) as nat)) == btree_model::entries_of(
            p,
            btree_model::leaf_list(p, cs.subrange(0, n), (h - 1) as nat),
        ).len(),
    decreases h, n,
{
    let k = (h - 1) as nat;
    let r = cs.subrange(0, n);
    if n > 0 {
        let d = r.drop_last();
        assert(d =~= cs.subrange(0, n - 1));
        assert(r.last() == cs[n - 1]);
        lemma_page_seqs(p, id, keys, cs, h, lo, hi, n - 1);
        lemma_page_seq(p, cs[n - 1], k, btree_model::bound(keys, lo, hi, n - 1), btree_model::bound(keys, lo, hi, n));
        let a = page_seqs(p, d, k);
        let b = page_seq(p, cs[n - 1], k);
        assert forall|x: u32| !(a.contains(x) && b.contains(x)) by {
            if a.contains(x) && b.contains(x) {
                btree_model::lemma_page_list(p, d, k, x);
                let i = choose|i: int| 0 <= i < d.len() && btree_model::pages(p, #[trigger] d[i], k).contains(x);
                assert(d[i] == cs[i]);
                assert(btree_model::pages(p, cs[i], k).disjoint(btree_model::pages(p, cs[n - 1], k)));
            }
        }
        lemma_distinct_concat(a, b);
        lemma_total_concat(p, a, b);
        btree_model::lemma_entries_concat(p, btree_model::leaf_list(p, d, k), btree_model::leaf_ids(p, cs[n - 1], k));
    } else {
        assert(btree_model::leaf_list(p, r, k) =~= Seq::<u32>::empty());
        assert(btree_model::entries_of(p, Seq::<u32>::empty()) =~= Seq::<EntryModel>::empty());
    }
}

/// The least key bound, and the bound above every key.
pub open spec fn key_floor() -> int {
    i64::MIN as int
}

pub open spec fn key_ceiling() -> int {
    i64::MAX + 1
}

/// The pages make a balanced search tree below the root, its leaves are linked
/// from left to right, and there are no other pages.
pub open spec fn tree_ok(t: TreeParts) -> bool {
    let h = (t.height - 1) as nat;
    &&& t.height >= 1
    &&& btree_model::wf(t.pages, t.root, h, key_floor(), key_ceiling())
    &&& btree_model::chain(t.pages, btree_model::leaf_ids(t.pages, t.root, h), None)
    &&& btree_model::below(t.pages, t.next_id)
    &&& t.pages.dom() == btree_model::pages(t.pages, t.root, h)
}

/// The entries of a tree in ascending key order.
pub open spec fn tree_entries(t: TreeParts) -> Seq<EntryModel> {
    btree_model::contents(t.pages, t.root, (t.height - 1) as nat)
}

/// The tree with a row put under a key. Where the root splits, a new root with
/// the separator and the two halves takes the next page id.
pub open spec fn tree_put(t: TreeParts, key: i64, row: u64) -> TreeParts {
    let g = btree_model::put(t.pages, t.root, (t.height - 1) as nat, key, row, t.next_id);
    match g.1 {
        None => TreeParts { root: t.root, next_id: g.2, height: t.height, pages: g.0 },
        Some((sep, right)) => TreeParts {
            root: g.2,
            next_id: (g.2 + 1) as u32,
            height: t.height + 1,
            pages: g.0.insert(g.2, NodeModel::Internal { keys: seq![sep], children: seq![t.root, right] }),
        },
    }
}

/// The entries of a tree are ordered by key, and each has its rows once.
pub proof fn lemma_tree_ordered(t: TreeParts)
    requires
        tree_ok(t),
    ensures
        btree_model::entries_ok(tree_entries(t), key_floor(), key_ceiling()),
{
    btree_model::lemma_contents_ok(t.pages, t.root, (t.height - 1) as nat, key_floor(), key_ceiling());
}

/// A tree has finitely many pages.
pub proof fn lemma_tree_finite(t: TreeParts)
    requires
        tree_ok(t),
    ensures
        t.pages.dom().finite(),
{
    let h = (t.height - 1) as nat;
    lemma_page_seq(t.pages, t.root, h, key_floor(), key_ceiling());
    let b = page_seq(t.pages, t.root, h);
    vstd::seq_lib::seq_to_set_is_finite(b);
    assert(t.pages.dom() =~= b.to_set()) by {
        assert forall|x: u32| t.pages.dom().contains(x) <==> b.to_set().contains(x) by {
            assert(b.contains(x) <==> btree_model::pages(t.pages, t.root, h).contains(x));
        }
    }
}

/// The entries on all pages are the entries of the tree.
pub proof fn lemma_tree_total(t: TreeParts)
    requires
        tree_ok(t),
    ensures
        entry_total(t.pages, order::ascending32(t.pages.dom())) == tree_entries(t).len(),
{
    let h = (t.height - 1) as nat;
    lemma_page_seq(t.pages, t.root, h, key_floor(), key_ceiling());
    lemma_tree_finite(t);
    order::lemma_ascending_set32(t.pages.dom());
    let a = order::ascending32(t.pages.dom());
    let b = page_seq(t.pages, t.root, h);
    assert(a.to_set() =~= b.to_set()) by {
        assert forall|x: u32| a.to_set().contains(x) <==> b.to_set().contains(x) by {
            assert(b.contains(x) <==> btree_model::pages(t.pages, t.root, h).contains(x));
        }
    }
    lemma_total_order(t.pages, a, b);
}

/// A looked-up key has the rows that were inserted under it, and other keys
/// keep theirs.
pub proof fn lemma_insert_lookup(s: Seq<EntryModel>, key: i64, row: u64, other: i64)
    requires
        btree_model::entries_ok(s, key_floor(), key_ceiling()),
    ensures
        btree_model::rows_at(btree_model::with_entry(s, key, row), other) == (if other == key {
            btree_model::with_row(btree_model::rows_at(s, key), row)
        } else {
            btree_model::rows_at(s, other)
        }),
{
    let t = btree_model::with_entry(s, key, row);
    btree_model::lemma_rank(s, key);
    btree_model::lemma_rank(s, other);
    let p = btree_model::rank(s, key) as int;
    let o = btree_model::rank(s, other) as int;
    let present = p < s.len() && s[p].0 == key;
    let q = if !present && key < other {
        o + 1
    } else {
        o
    };
    assert forall|i: int| 0 <= i < q implies (#[trigger] t[i]).0 < other by {
        if !present {
            if i < p {
                assert(t[i] == s[i]);
                if i >= o {
                    assert(s[o].0 <= s[i].0);
                }
            } else if i > p {
                assert(t[i] == s[i - 1]);
            }
            if i == p && key >= other {
                assert(s[p].0 < other);
            }
        }
    }
    if q < t.len() {
        assert(t[q].0 >= other) by {
            if !present {
                if key < other {
                    assert(p <= o) by {
                        if p > o {
                            assert(s[o].0 < key);
                        }
                    }
                    assert(t[q] == s[o]);
                } else if q < p {
                    assert(t[q] == s[q]);
                } else if q > p {
                    assert(t[q] == s[q - 1]);
                    assert(s[p].0 < other);
                }
            }
        }
    }
    btree_model::lemma_rank_unique(t, other, q);
    assert(Seq::<u64>::empty().push(row) =~= seq![row]);
    if !present && key < other {
        assert(p <= o) by {
            if p > o {
                assert(s[o].0 < key);
            }
        }
        assert(o < s.len() ==> t[q] == s[o]);
    } else if !present && key > other {
        assert(o <= p) by {
            if o > p {
                assert(s[p].0 < other);
            }
        }
        if o < p {
            assert(t[o] == s[o]);
        } else {
            assert(t[o].0 == key);
        }
    }
}

/// A removal takes an entry away exactly where its key has the row and no other.
pub proof fn lemma_remove_len(s: Seq<EntryModel>, key: i64, row: u64)
    requires
        btree_model::entries_ok(s, key_floor(), key_ceiling()),
    ensures
        btree_model::without_entry(s, key, row).len() == s.len() - (if btree_model::rows_at(s, key) == seq![row] {
            1int
        } else {
            0int
        }),
{
    btree_model::lemma_rank(s, key);
    let p = btree_model::rank(s, key) as int;
    if p < s.len() && s[p].0 == key {
        let rows = s[p].1;
        lemma_only_row(rows, row);
    } else {
        assert(btree_model::rows_at(s, key).len() != seq![row].len());
    }
}

/// Rows that each occur once are gone with one row exactly where it is the only one.
proof fn lemma_only_row(rows: Seq<u64>, row: u64)
    requires
        rows.len() > 0,
        rows.no_duplicates(),
    ensures
        btree_model::without_row(rows, row).len() == 0 <==> rows == seq![row],
{
    let d = rows.drop_last();
    if rows.last() == row {
        if d.len() > 0 {
            assert(d[0] == rows[0] && rows[0] != rows[rows.len() - 1]);
            lemma_other_row(d, row, 0);
            assert(rows.len() != seq![row].len());
        } else {
            assert(rows =~= seq![row]);
            assert(btree_model::without_row(d, row).len() == 0);
        }
    } else {
        assert(btree_model::without_row(rows, row).len() > 0);
        assert(rows.last() != seq![row].last());
    }
}

proof fn lemma_other_row(rows: Seq<u64>, row: u64, i: int)
    requires
        0 <= i < rows.len(),
        rows[i] != row,
    ensures
        btree_model::without_row(rows, row).len() > 0,
    decreases rows.len(),
{
    if rows.last() == row {
        lemma_other_row(rows.drop_last(), row, i);
    }
}

/// A removed row is gone from its key, and other keys keep their rows.
pub proof fn lemma_remove_lookup(s: Seq<EntryModel>, key: i64, row: u64, other: i64)
    requires
        btree_model::entries_ok(s, key_floor(), key_ceiling()),
    ensures
        btree_model::rows_at(btree_model::without_entry(s, key, row), other) == (if other == key {
            btree_model::without_row(btree_model::rows_at(s, key), row)
        } else {
            btree_model::rows_at(s, other)
        }),
{
    let t = btree_model::without_entry(s, key, row);
    btree_model::lemma_rank(s, key);
    btree_model::lemma_rank(s, other);
    let p = btree_model::rank(s, key) as int;
    let o = btree_model::rank(s, other) as int;
    let present = p < s.len() && s[p].0 == key;
    if present {
        let rest = btree_model::without_row(s[p].1, row);
        if rest.len() == 0 {
            assert(rest =~= Seq::<u64>::empty());
            let q = if key < other {
                o - 1
            } else {
                o
            };
            if key < other {
                assert(p < o) by {
                    if p >= o {
                        if o < s.len() && o < p {
                            assert(s[o].0 < key);
                        }
                    }
                }
            }
            assert forall|i: int| 0 <= i < q implies (#[trigger] t[i]).0 < other by {
                if i < p {
                    assert(t[i] == s[i]);
                } else {
                    assert(t[i] == s[i + 1]);
                }
            }
            if q < t.len() {
                assert(t[q].0 >= other) by {
                    if q < p {
                        assert(t[q] == s[q]);
                    } else {
                        assert(t[q] == s[q + 1]);
                    }
                }
            }
            btree_model::lemma_rank_unique(t, other, q);
            if other == key {
                assert(q == p);
                if q < t.len() {
                    assert(t[q] == s[q + 1]);
                    assert(s[p].0 < s[p + 1].0);
                }
            } else if key < other {
                assert(o < s.len() ==> t[q] == s[o]);
            } else {
                assert(o <= p) by {
                    if o > p {
                        assert(s[p].0 < other);
                    }
                }
                if o < p {
                    assert(t[o] == s[o]);
                } else if o < t.len() {
                    assert(t[o] == s[o + 1]);
                    assert(s[p].0 < s[p + 1].0);
                }
            }
        } else {
            assert forall|i: int| 0 <= i < o implies (#[trigger] t[i]).0 < other by {
                assert(t[i].0 == s[i].0);
            }
            btree_model::lemma_rank_unique(t, other, o);
        }
    } else if other == key {
        assert(btree_model::without_row(Seq::<u64>::empty(), row) =~= Seq::<u64>::empty());
    }
}

/// The B+tree. Nodes live in an in-memory page table keyed by id; the tree
/// owns the root id.
#[derive(Debug, Clone)]
pub struct BTree {
    pages: BTreeMap<u32, Node>,
    root: u32,
    next_id: u32,
    height: usize,
}

impl BTree {
    /// The root, the next page id, the height and the pages.
    pub closed spec fn parts(&self) -> TreeParts {
        TreeParts {
            root: self.root,
            next_id: self.next_id,
            height: self.height as nat,
            pages: self.map(),
        }
    }

    closed spec fn map(&self) -> PageMap {
        Map::new(|id: u32| self.pages@.contains_key(id), |id: u32| self.pages@[id].model())
    }

    /// The tree is well-formed.
    pub open spec fn wf(&self) -> bool {
        tree_ok(self.parts())
    }

    /// The entries in ascending key order.
    pub open spec fn view(&self) -> Seq<EntryModel> {
        tree_entries(self.parts())
    }

    /// The number of entries on all pages.
    pub open spec fn total(&self) -> nat {
        entry_total(self.parts().pages, order::ascending32(self.parts().pages.dom()))
    }

    pub fn new() -> (r: BTree)
        ensures
            r.wf(),
            r@ == Seq::<EntryModel>::empty(),
            r.parts().root == 0,
            r.parts().next_id == 1,
            r.parts().height == 1,
            r.parts().pages == Map::<u32, NodeModel>::empty().insert(
                0,
                NodeModel::Leaf { entries: Seq::empty(), next: None },
            ),
    {
        let root: u32 = 0;
        let mut pages: BTreeMap<u32, Node> = BTreeMap::new();
        pages.insert(root, Node::Leaf { id: root, entries: Vec::new(), next: None });
        let r = BTree { pages, root, next_id: 1, height: 1 };
        proof {
            let p = r.map();
            let leaf = NodeModel::Leaf { entries: Seq::empty(), next: None };
            assert(entry_models(Seq::<LeafEntry>::empty()) =~= Seq::<EntryModel>::empty());
            assert(p =~= Map::<u32, NodeModel>::empty().insert(0, leaf));
            btree_model::lemma_entries_one(p, 0);
            assert(p.dom() =~= btree_model::pages(p, 0, 0));
            assert(btree_model::leaf_next(p, 0) == None::<u32>);
        }
        r
    }

    pub fn root(&self) -> (r: u32)
        ensures
            r == self.parts().root,
    {
        self.root
    }

    pub fn height(&self) -> (r: usize)
        ensures
            r == self.parts().height,
    {
        self.height
    }

    pub fn page_count(&self) -> (r: usize)
        ensures
            r == self.parts().pages.dom().len(),
    {
        assert(self.map().dom() =~= self.pages@.dom());
        self.pages.len()
    }

    /// Insert `(key, row_id)`. Splits propagate upward as needed.
    pub fn insert(&mut self, key: i64, row_id: u64)
        requires
            old(self).wf(),
            old(self).parts().next_id + old(self).parts().height < u32::MAX,
        ensures
            final(self).wf(),
            final(self)@ == btree_model::with_entry(old(self)@, key, row_id),
            final(self).parts() == tree_put(old(self).parts(), key, row_id),
            old(self).parts().height <= final(self).parts().height <= old(self).parts().height + 1,
            old(self).parts().next_id <= final(self).parts().next_id <= old(self).parts().next_id
                + old(self).parts().height + 1,
    {
        let root = self.root;
        let ghost p = self.map();
        let ghost h = (self.height - 1) as nat;
        let ghost n0 = self.next_id;
        let split = self.insert_rec(
            root,
            key,
            row_id,
            Ghost(h),
            Ghost(key_floor()),
            Ghost(key_ceiling()),
            Ghost(None),
        );
        if let Some((sep, right)) = split {
            let ghost q = self.map();
            let ghost n1 = self.next_id;
            let mut keys: Vec<i64> = Vec::new();
            keys.push(sep);
            let mut children: Vec<u32> = Vec::new();
            children.push(root);
            children.push(right);
            let new_root = self.alloc_page(Node::Internal { id: 0, keys, children });
            self.root = new_root;
            self.height = self.height + 1;
            proof {
                let r = self.map();
                let cs = seq![root, right];
                let ks = seq![sep];
                assert(keys@ =~= ks && children@ =~= cs);
                assert(r =~= q.insert(n1, NodeModel::Internal { keys: ks, children: cs }));
                lemma_new_root(p, q, r, root, right, sep, h, n0, n1, btree_model::with_entry(btree_model::contents(p, root, h), key, row_id));
            }
        } else {
            proof {
                let q = self.map();
                btree_model::lemma_pages_in_map(q, root, h, key_floor(), key_ceiling());
                assert(q.dom() =~= btree_model::pages(q, root, h));
            }
        }
    }

    fn alloc_page(&mut self, node: Node) -> (id: u32)
        requires
            old(self).next_id < u32::MAX,
        ensures
            id == old(self).next_id,
            final(self).next_id == id + 1,
            final(self).map() == old(self).map().insert(id, node.model()),
            final(self).root == old(self).root,
            final(self).height == old(self).height,
    {
        let id = self.next_id;
        self.next_id = id + 1;
        self.pages.insert(id, node);
        assert(self.map() =~= old(self).map().insert(id, node.model()));
        id
    }

    /// Insert below `id`. Returns the separator key and the new page id if the
    /// subtree split.
    #[verifier::rlimit(40)]
    fn insert_rec(
        &mut self,
        id: u32,
        key: i64,
        row_id: u64,
        Ghost(h): Ghost<nat>,
        Ghost(lo): Ghost<int>,
        Ghost(hi): Ghost<int>,
        Ghost(end): Ghost<Option<u32>>,
    ) -> (split: Option<(i64, u32)>)
        requires
            btree_model::wf(old(self).map(), id, h, lo, hi),
            btree_model::below(old(self).map(), old(self).next_id),
            btree_model::chain(old(self).map(), btree_model::leaf_ids(old(self).map(), id, h), end),
            lo <= key < hi,
            old(self).next_id + h + 1 < u32::MAX,
        ensures
            btree_model::grown(
                old(self).map(),
                final(self).map(),
                id,
                h,
                lo,
                hi,
                end,
                btree_model::with_entry(btree_model::contents(old(self).map(), id, h), key, row_id),
                split,
                old(self).next_id,
                final(self).next_id,
            ),
            (final(self).map(), split, final(self).next_id) == btree_model::put(
                old(self).map(),
                id,
                h,
                key,
                row_id,
                old(self).next_id,
            ),
            final(self).root == old(self).root,
            final(self).height == old(self).height,
        decreases h,
    {
        let ghost p = self.map();
        let ghost n0 = self.next_id;
        let is_leaf = match self.pages.get(&id) {
            Some(node) => match node {
                Node::Leaf { .. } => true,
                Node::Internal { .. } => false,
            },
            None => true,
        };
        if is_leaf {
            self.insert_leaf(id, key, row_id, Ghost(lo), Ghost(hi), Ghost(end))
        } else {
            let mut pos: usize = 0;
            let mut child: u32 = 0;
            let ghost mut keys: Seq<i64> = Seq::empty();
            let ghost mut cs: Seq<u32> = Seq::empty();
            if let Some(Node::Internal { id: _, keys: ks, children }) = self.pages.get(&id) {
                proof {
                    keys = ks@;
                    cs = children@;
                    assert(p[id] == (NodeModel::Internal { keys, children: cs }));
                    assert(btree_model::internal_ok(p, id, keys, cs, h, lo, hi));
                }
                pos = child_position(ks, key);
                child = children[pos];
            }
            proof {
                assert(p[id] == (NodeModel::Internal { keys, children: cs }));
                btree_model::lemma_descend(p, id, keys, cs, h, lo, hi, key, pos as int);
                btree_model::lemma_chain_child(p, cs, h, pos as int, end);
                btree_model::lemma_child_at(keys, key, pos as int);
            }
            let split = self.insert_rec(
                child,
                key,
                row_id,
                Ghost((h - 1) as nat),
                Ghost(btree_model::bound(keys, lo, hi, pos as int)),
                Ghost(btree_model::bound(keys, lo, hi, pos + 1)),
                Ghost(btree_model::end_of(p, cs, h, pos as int, end)),
            );
            let ghost q = self.map();
            let ghost n1 = self.next_id;
            let ghost t = btree_model::with_entry(btree_model::contents(p, id, h), key, row_id);
            proof {
                let tc = btree_model::with_entry(btree_model::contents(p, child, (h - 1) as nat), key, row_id);
                btree_model::lemma_child_step(p, q, id, keys, cs, h, lo, hi, end, pos as int, tc, split, n0, n1);
                btree_model::lemma_with_entry_around(
                    btree_model::entries_of(p, btree_model::before(p, cs, h, pos as int)),
                    btree_model::contents(p, child, (h - 1) as nat),
                    btree_model::entries_of(p, btree_model::behind(p, cs, h, pos as int)),
                    key,
                    row_id,
                );
                assert(btree_model::spread(
                    p,
                    q,
                    id,
                    btree_model::keys_after(keys, pos as int, split),
                    btree_model::kids_after(cs, pos as int, split),
                    h,
                    lo,
                    hi,
                    end,
                    t,
                    n0,
                    n1,
                ));
            }
            match split {
                None => {
                    proof {
                        assert(q =~= q.insert(id, NodeModel::Internal { keys, children: cs }));
                        btree_model::lemma_node_kept(p, q, q, id, keys, cs, h, lo, hi, end, t, n0, n1);
                    }
                    None
                },
                Some((sep, right)) => self.add_child(
                    id,
                    pos,
                    sep,
                    right,
                    Ghost(p),
                    Ghost(keys),
                    Ghost(cs),
                    Ghost(h),
                    Ghost(lo),
                    Ghost(hi),
                    Ghost(end),
                    Ghost(t),
                    Ghost(n0),
                ),
            }
        }
    }

    /// Insert into the leaf `id`, splitting it if it overflows.
    fn insert_leaf(
        &mut self,
        id: u32,
        key: i64,
        row_id: u64,
        Ghost(lo): Ghost<int>,
        Ghost(hi): Ghost<int>,
        Ghost(end): Ghost<Option<u32>>,
    ) -> (split: Option<(i64, u32)>)
        requires
            btree_model::wf(old(self).map(), id, 0, lo, hi),
            old(self).map()[id] is Leaf,
            btree_model::below(old(self).map(), old(self).next_id),
            btree_model::chain(old(self).map(), btree_model::leaf_ids(old(self).map(), id, 0), end),
            lo <= key < hi,
            old(self).next_id + 1 < u32::MAX,
        ensures
            btree_model::grown(
                old(self).map(),
                final(self).map(),
                id,
                0,
                lo,
                hi,
                end,
                btree_model::with_entry(btree_model::contents(old(self).map(), id, 0), key, row_id),
                split,
                old(self).next_id,
                final(self).next_id,
            ),
            (final(self).map(), split, final(self).next_id) == btree_model::put(
                old(self).map(),
                id,
                0,
                key,
                row_id,
                old(self).next_id,
            ),
            final(self).root == old(self).root,
            final(self).height == old(self).height,
    {
        let ghost p = self.map();
        let ghost n0 = self.next_id;
        if let Some(Node::Leaf { id: page, mut entries, next }) = self.pages.remove(&id) {
            let ghost es = entry_models(entries@);
            proof {
                assert(p[id] == (NodeModel::Leaf { entries: es, next }));
                btree_model::lemma_entries_one(p, id);
                btree_model::lemma_with_entry_ok(es, key, row_id, lo, hi);
                btree_model::lemma_rank(es, key);
                assert(btree_model::leaf_ids(p, id, 0)[0] == id);
                assert(btree_model::leaf_next(p, btree_model::leaf_ids(p, id, 0)[0]) == end);
            }
            let ghost t = btree_model::with_entry(es, key, row_id);
            add_row(&mut entries, key, row_id);
            if entries.len() > FANOUT {
                let mid: usize = entries.len() / 2;
                let ghost all = entries@;
                let right = entries.split_off(mid);
                let sep: i64 = right[0].key;
                let new_id = self.next_id;
                proof {
                    assert(entry_models(entries@) =~= t.subrange(0, mid as int));
                    assert(entry_models(right@) =~= t.subrange(mid as int, t.len() as int));
                    assert(t[mid as int] == all[mid as int].model());
                }
                self.pages.insert(id, Node::Leaf { id, entries, next: Some(new_id) });
                self.pages.insert(new_id, Node::Leaf { id: new_id, entries: right, next });
                self.next_id = new_id + 1;
                proof {
                    let r = self.map();
                    assert(r =~= p.insert(
                        id,
                        NodeModel::Leaf { entries: t.subrange(0, mid as int), next: Some(n0) },
                    ).insert(n0, NodeModel::Leaf { entries: t.subrange(mid as int, t.len() as int), next: end }));
                    btree_model::lemma_leaf_split(p, r, id, lo, hi, end, t, n0, mid as int);
                }
                Some((sep, new_id))
            } else {
                self.pages.insert(id, Node::Leaf { id: page, entries, next });
                proof {
                    let r = self.map();
                    assert(r =~= p.insert(id, NodeModel::Leaf { entries: t, next: end }));
                    btree_model::lemma_leaf_kept(p, r, id, lo, hi, end, t, n0);
                }
                None
            }
        } else {
            None
        }
    }

    /// Put a new child behind child `pos` of the internal node `id`, splitting
    /// the node if it overflows.
    #[verifier::rlimit(40)]
    fn add_child(
        &mut self,
        id: u32,
        pos: usize,
        sep: i64,
        right: u32,
        Ghost(p): Ghost<PageMap>,
        Ghost(keys): Ghost<Seq<i64>>,
        Ghost(cs): Ghost<Seq<u32>>,
        Ghost(h): Ghost<nat>,
        Ghost(lo): Ghost<int>,
        Ghost(hi): Ghost<int>,
        Ghost(end): Ghost<Option<u32>>,
        Ghost(t): Ghost<Seq<EntryModel>>,
        Ghost(n0): Ghost<u32>,
    ) -> (split: Option<(i64, u32)>)
        requires
            p.contains_key(id),
            btree_model::below(p, n0),
            keys.len() <= FANOUT,
            cs.len() == keys.len() + 1,
            pos <= keys.len(),
            old(self).map().contains_key(id),
            old(self).map()[id] == (NodeModel::Internal { keys, children: cs }),
            old(self).next_id < u32::MAX,
            btree_model::spread(
                p,
                old(self).map(),
                id,
                keys.insert(pos as int, sep),
                cs.insert(pos + 1, right),
                h,
                lo,
                hi,
                end,
                t,
                n0,
                old(self).next_id,
            ),
        ensures
            btree_model::grown(p, final(self).map(), id, h, lo, hi, end, t, split, n0, final(self).next_id),
            (final(self).map(), split, final(self).next_id) == btree_model::internal_put(
                old(self).map(),
                id,
                keys.insert(pos as int, sep),
                cs.insert(pos + 1, right),
                old(self).next_id,
            ),
            final(self).root == old(self).root,
            final(self).height == old(self).height,
    {
        let ghost q = self.map();
        let ghost n1 = self.next_id;
        let ghost keys2 = keys.insert(pos as int, sep);
        let ghost cs2 = cs.insert(pos + 1, right);
        if let Some(Node::Internal { id: page, keys: mut ks, mut children }) = self.pages.remove(&id) {
            assert(q[id] == (NodeModel::Internal { keys: ks@, children: children@ }));
            ks.insert(pos, sep);
            children.insert(pos + 1, right);
            if ks.len() > FANOUT {
                let mid: usize = ks.len() / 2;
                let mut right_keys = ks.split_off(mid);
                let sep2: i64 = right_keys.remove(0);
                let right_children = children.split_off(mid + 1);
                proof {
                    let n = keys2.len() as int;
                    assert(ks@ =~= keys2.subrange(0, mid as int));
                    assert(right_keys@ =~= keys2.subrange(mid + 1, n));
                    assert(children@ =~= cs2.subrange(0, mid + 1));
                    assert(right_children@ =~= cs2.subrange(mid + 1, cs2.len() as int));
                }
                let new_id = self.next_id;
                self.pages.insert(id, Node::Internal { id, keys: ks, children });
                self.pages.insert(new_id, Node::Internal { id: new_id, keys: right_keys, children: right_children });
                self.next_id = new_id + 1;
                proof {
                    let r = self.map();
                    let n = keys2.len() as int;
                    assert(r =~= q.insert(
                        id,
                        NodeModel::Internal {
                            keys: keys2.subrange(0, mid as int),
                            children: cs2.subrange(0, mid + 1),
                        },
                    ).insert(
                        n1,
                        NodeModel::Internal {
                            keys: keys2.subrange(mid + 1, n),
                            children: cs2.subrange(mid + 1, cs2.len() as int),
                        },
                    ));
                    btree_model::lemma_node_split(p, q, r, id, keys2, cs2, h, lo, hi, end, t, n0, n1, mid as int);
                }
                Some((sep2, new_id))
            } else {
                self.pages.insert(id, Node::Internal { id: page, keys: ks, children });
                proof {
                    let r = self.map();
                    assert(r =~= q.insert(id, NodeModel::Internal { keys: keys2, children: cs2 }));
                    btree_model::lemma_node_kept(p, q, r, id, keys2, cs2, h, lo, hi, end, t, n0, n1);
                }
                None
            }
        } else {
            None
        }
    }

    /// Look up all row ids for a key.
    pub fn lookup(&self, key: i64) -> (r: Vec<u64>)
        requires
            self.wf(),
        ensures
            r@ == btree_model::rows_at(self@, key),
    {
        let ghost p = self.map();
        let leaf = self.find_leaf(key);
        let ghost b = leaf.1@;
        proof {
            btree_model::lemma_rank_around(btree_model::entries_of(p, b.0), btree_model::leaf_entries(p, leaf.0), btree_model::entries_of(p, b.1), key);
        }
        if let Some(Node::Leaf { id: _, entries, next: _ }) = self.pages.get(&leaf.0) {
            let pos = entry_position(entries, key);
            let ghost es = entry_models(entries@);
            assert(btree_model::leaf_entries(p, leaf.0) == es);
            assert(pos < entries@.len() ==> es[pos as int] == entries@[pos as int].model());
            if pos < entries.len() && entries[pos].key == key {
                let mut out: Vec<u64> = Vec::new();
                let n = entries[pos].rows.len();
                let mut i: usize = 0;
                while i < n
                    invariant
                        i <= n,
                        pos < entries@.len(),
                        n == entries@[pos as int].rows@.len(),
                        out@ == entries@[pos as int].rows@.subrange(0, i as int),
                    decreases n - i,
                {
                    out.push(entries[pos].rows[i]);
                    i += 1;
                    assert(out@ =~= entries@[pos as int].rows@.subrange(0, i as int));
                }
                assert(out@ =~= entries@[pos as int].rows@);
                out
            } else {
                Vec::new()
            }
        } else {
            Vec::new()
        }
    }

    /// The leaf that covers a key, with the leaves before and behind it.
    fn find_leaf(&self, key: i64) -> (r: (u32, Ghost<(Seq<u32>, Seq<u32>)>))
        requires
            self.wf(),
        ensures
            self.map().contains_key(r.0),
            self.map()[r.0] is Leaf,
            self.leaves() == r.1@.0 + seq![r.0] + r.1@.1,
            self@ == btree_model::entries_of(self.map(), r.1@.0) + btree_model::leaf_entries(self.map(), r.0) + btree_model::entries_of(
                self.map(),
                r.1@.1,
            ),
            forall|i: int|
                0 <= i < btree_model::entries_of(self.map(), r.1@.0).len() ==> (#[trigger] btree_model::entries_of(self.map(), r.1@.0)[i]).0
                    < key,
            forall|i: int|
                0 <= i < btree_model::entries_of(self.map(), r.1@.1).len() ==> (#[trigger] btree_model::entries_of(self.map(), r.1@.1)[i]).0
                    > key,
    {
        let ghost p = self.map();
        let mut id = self.root;
        let ghost mut h = (self.height - 1) as nat;
        let ghost mut lo = key_floor();
        let ghost mut hi = key_ceiling();
        let ghost mut a: Seq<u32> = Seq::empty();
        let ghost mut b: Seq<u32> = Seq::empty();
        assert(self.leaves() =~= a + btree_model::leaf_ids(p, id, h) + b);
        assert(btree_model::entries_of(p, Seq::<u32>::empty()) =~= Seq::<EntryModel>::empty());
        assert(self@ =~= btree_model::entries_of(p, a) + btree_model::contents(p, id, h) + btree_model::entries_of(p, b));
        loop
            invariant
                self.wf(),
                p == self.map(),
                btree_model::wf(p, id, h, lo, hi),
                lo <= key < hi,
                self.leaves() == a + btree_model::leaf_ids(p, id, h) + b,
                self@ == btree_model::entries_of(p, a) + btree_model::contents(p, id, h) + btree_model::entries_of(p, b),
                forall|i: int| 0 <= i < btree_model::entries_of(p, a).len() ==> (#[trigger] btree_model::entries_of(p, a)[i]).0 < key,
                forall|i: int| 0 <= i < btree_model::entries_of(p, b).len() ==> (#[trigger] btree_model::entries_of(p, b)[i]).0 > key,
            decreases h,
        {
            match self.pages.get(&id) {
                Some(Node::Internal { id: _, keys, children }) => {
                    proof {
                        assert(p[id] == (NodeModel::Internal { keys: keys@, children: children@ }));
                        assert(btree_model::internal_ok(p, id, keys@, children@, h, lo, hi));
                    }
                    let pos = child_position(keys, key);
                    proof {
                        let cs = children@;
                        btree_model::lemma_descend(p, id, keys@, cs, h, lo, hi, key, pos as int);
                        let k = (h - 1) as nat;
                        let a2 = btree_model::before(p, cs, h, pos as int);
                        let b2 = btree_model::behind(p, cs, h, pos as int);
                        let c = cs[pos as int];
                        btree_model::lemma_entries_concat(p, a, a2);
                        btree_model::lemma_entries_concat(p, b2, b);
                        let ea = btree_model::entries_of(p, a);
                        let eb = btree_model::entries_of(p, b);
                        assert(self.leaves() =~= (a + a2) + btree_model::leaf_ids(p, c, k) + (b2 + b));
                        assert(self@ =~= (ea + btree_model::entries_of(p, a2)) + btree_model::contents(p, c, k) + (btree_model::entries_of(p, b2) + eb));
                        assert forall|i: int| 0 <= i < btree_model::entries_of(p, a + a2).len() implies (#[trigger] btree_model::entries_of(
                            p,
                            a + a2,
                        )[i]).0 < key by {
                            if i < ea.len() {
                                assert(btree_model::entries_of(p, a + a2)[i] == ea[i]);
                            } else {
                                assert(btree_model::entries_of(p, a + a2)[i] == btree_model::entries_of(p, a2)[i - ea.len()]);
                            }
                        }
                        assert forall|i: int| 0 <= i < btree_model::entries_of(p, b2 + b).len() implies (#[trigger] btree_model::entries_of(
                            p,
                            b2 + b,
                        )[i]).0 > key by {
                            let n = btree_model::entries_of(p, b2).len();
                            if i < n {
                                assert(btree_model::entries_of(p, b2 + b)[i] == btree_model::entries_of(p, b2)[i]);
                            } else {
                                assert(btree_model::entries_of(p, b2 + b)[i] == eb[i - n]);
                            }
                        }
                        a = a + a2;
                        b = b2 + b;
                        let lo2 = btree_model::bound(keys@, lo, hi, pos as int);
                        hi = btree_model::bound(keys@, lo, hi, pos + 1);
                        lo = lo2;
                        h = k;
                    }
                    id = children[pos];
                },
                _ => {
                    proof {
                        assert(p[id] is Leaf);
                        btree_model::lemma_entries_one(p, id);
                    }
                    return (id, Ghost((a, b)));
                },
            }
        }
    }

    /// The leaves from left to right.
    closed spec fn leaves(&self) -> Seq<u32> {
        btree_model::leaf_ids(self.map(), self.root, (self.height - 1) as nat)
    }

    /// The pairs in range of the leaf `id` and those behind it.
    fn scan(&self, id: u32, lo: i64, hi: i64, Ghost(a): Ghost<Seq<u32>>, Ghost(b): Ghost<Seq<u32>>) -> (out: Vec<
        (i64, u64),
    >)
        requires
            self.wf(),
            self.leaves() == a + seq![id] + b,
            forall|i: int|
                0 <= i < btree_model::entries_of(self.map(), a).len() ==> (#[trigger] btree_model::entries_of(self.map(), a)[i]).0 < lo,
        ensures
            out@ == pairs_in(self@, lo, hi),
    {
        let ghost p = self.map();
        let ghost ls = self.leaves();
        let ghost mut j: int = a.len() as int;
        let mut out: Vec<(i64, u64)> = Vec::new();
        let mut cur = id;
        let ghost h = (self.height - 1) as nat;
        proof {
            lemma_pairs_none(btree_model::entries_of(p, a), lo, hi);
            assert(ls.subrange(0, j) =~= a);
            assert(ls[j] == id);
            btree_model::lemma_leaves(p, self.root, h, key_floor(), key_ceiling());
            btree_model::lemma_contents_ok(p, self.root, h, key_floor(), key_ceiling());
        }
        loop
            invariant
                self.wf(),
                p == self.map(),
                ls == self.leaves(),
                h == (self.height - 1) as nat,
                0 <= j < ls.len(),
                ls[j] == cur,
                btree_model::entries_ok(self@, key_floor(), key_ceiling()),
                forall|i: int|
                    0 <= i < ls.len() ==> btree_model::pages(p, self.root, h).contains(#[trigger] ls[i]) && p[ls[i]] is Leaf,
                out@ == pairs_in(btree_model::entries_of(p, ls.subrange(0, j)), lo, hi),
            decreases ls.len() - j,
        {
            let ghost done = btree_model::entries_of(p, ls.subrange(0, j));
            let ghost rest = btree_model::entries_of(p, ls.subrange(j + 1, ls.len() as int));
            let ghost es = btree_model::leaf_entries(p, cur);
            proof {
                assert(ls =~= ls.subrange(0, j) + seq![cur] + ls.subrange(j + 1, ls.len() as int));
                btree_model::lemma_entries_concat(p, ls.subrange(0, j) + seq![cur], ls.subrange(j + 1, ls.len() as int));
                btree_model::lemma_entries_concat(p, ls.subrange(0, j), seq![cur]);
                btree_model::lemma_entries_one(p, cur);
                assert(self@ == done + es + rest);
                assert(btree_model::pages(p, self.root, h).contains(ls[j]));
                assert(p.contains_key(cur));
                assert(p[cur] is Leaf);
            }
            match self.pages.get(&cur) {
                Some(Node::Leaf { id: _, entries, next }) => {
                    assert(es == entry_models(entries@));
                    let mut i: usize = 0;
                    assert(done + es.subrange(0, 0) =~= done);
                    while i < entries.len()
                        invariant
                            i <= entries@.len(),
                            es == entry_models(entries@),
                            self@ == done + es + rest,
                            btree_model::entries_ok(self@, key_floor(), key_ceiling()),
                            out@ == pairs_in(done + es.subrange(0, i as int), lo, hi),
                        decreases entries.len() - i,
                    {
                        let ghost o = out@;
                        let ghost s = done + es.subrange(0, i + 1);
                        let ghost e = es[i as int];
                        proof {
                            assert(s.drop_last() =~= done + es.subrange(0, i as int));
                            assert(s.last() == e);
                            assert(e == entries@[i as int].model());
                        }
                        let key: i64 = entries[i].key;
                        if key > hi {
                            proof {
                                let tail = es.subrange(i as int, es.len() as int) + rest;
                                assert(self@ =~= (done + es.subrange(0, i as int)) + tail);
                                let k0 = done.len() + i;
                                assert(self@[k0 as int] == e);
                                assert forall|k: int| 0 <= k < tail.len() implies (#[trigger] tail[k]).0 < lo || tail[k].0
                                    > hi by {
                                    assert(tail[k] == self@[k0 + k]);
                                    assert(self@[k0 as int].0 <= self@[k0 + k].0);
                                }
                                lemma_pairs_none(tail, lo, hi);
                                lemma_pairs_concat(done + es.subrange(0, i as int), tail, lo, hi);
                                assert(out@ =~= pairs_in(self@, lo, hi));
                            }
                            return out;
                        }
                        if key >= lo {
                            push_pairs(&mut out, key, &entries[i].rows);
                        }
                        i += 1;
                    }
                    proof {
                        assert(es.subrange(0, i as int) =~= es);
                        lemma_chain_next(p, ls, j);
                        assert(ls.subrange(0, j + 1) =~= ls.subrange(0, j) + seq![cur]);
                    }
                    match next {
                        Some(n) => {
                            proof {
                                assert(btree_model::leaf_next(p, cur) == Some(*n));
                                j = j + 1;
                            }
                            cur = *n;
                        },
                        None => {
                            proof {
                                assert(btree_model::leaf_next(p, cur) == None::<u32>);
                                assert(rest =~= Seq::<EntryModel>::empty());
                                assert(self@ =~= done + es);
                            }
                            return out;
                        },
                    }
                },
                _ => {
                    return out;
                },
            }
        }
    }

    /// Range scan: all row ids whose key is in `[lo, hi]`.
    pub fn range(&self, lo: i64, hi: i64) -> (r: Vec<(i64, u64)>)
        requires
            self.wf(),
        ensures
            r@ == pairs_in(self@, lo, hi),
    {
        let (leaf, g) = self.find_leaf(lo);
        self.scan(leaf, lo, hi, Ghost(g@.0), Ghost(g@.1))
    }

    /// All (key, row_id) pairs in ascending key order.
    pub fn iter(&self) -> (r: Vec<(i64, u64)>)
        requires
            self.wf(),
        ensures
            r@ == pairs_in(self@, i64::MIN, i64::MAX),
    {
        let (leaf, g) = self.find_leaf(i64::MIN);
        self.scan(leaf, i64::MIN, i64::MAX, Ghost(g@.0), Ghost(g@.1))
    }

    /// Remove a single `(key, row_id)` pair. Returns `true` if it was present.
    pub fn remove(&mut self, key: i64, row_id: u64) -> (r: bool)
        requires
            old(self).wf(),
        ensures
            final(self).wf(),
            final(self)@ == btree_model::without_entry(old(self)@, key, row_id),
            r == btree_model::rows_at(old(self)@, key).contains(row_id),
            final(self).parts().root == old(self).parts().root,
            final(self).parts().next_id == old(self).parts().next_id,
            final(self).parts().height == old(self).parts().height,
            final(self).parts().pages.dom() == old(self).parts().pages.dom(),
            old(self).total() == old(self)@.len(),
            final(self).total() == old(self).total() - (if btree_model::rows_at(old(self)@, key) == seq![row_id] {
                1int
            } else {
                0int
            }),
    {
        let root = self.root;
        let ghost p = self.map();
        let ghost h = (self.height - 1) as nat;
        proof {
            lemma_tree_total(self.parts());
            lemma_tree_ordered(self.parts());
            lemma_remove_len(self@, key, row_id);
        }
        let r = self.remove_rec(
            root,
            key,
            row_id,
            Ghost(h),
            Ghost(key_floor()),
            Ghost(key_ceiling()),
            Ghost(None),
        );
        proof {
            let q = self.map();
            btree_model::lemma_pages_in_map(q, root, h, key_floor(), key_ceiling());
            assert(q.dom() =~= btree_model::pages(q, root, h));
            assert(q.dom() =~= p.dom());
            lemma_tree_total(self.parts());
        }
        r
    }

    fn remove_rec(
        &mut self,
        id: u32,
        key: i64,
        row_id: u64,
        Ghost(h): Ghost<nat>,
        Ghost(lo): Ghost<int>,
        Ghost(hi): Ghost<int>,
        Ghost(end): Ghost<Option<u32>>,
    ) -> (r: bool)
        requires
            btree_model::wf(old(self).map(), id, h, lo, hi),
            btree_model::below(old(self).map(), old(self).next_id),
            btree_model::chain(old(self).map(), btree_model::leaf_ids(old(self).map(), id, h), end),
            lo <= key < hi,
        ensures
            btree_model::grown(
                old(self).map(),
                final(self).map(),
                id,
                h,
                lo,
                hi,
                end,
                btree_model::without_entry(btree_model::contents(old(self).map(), id, h), key, row_id),
                None,
                old(self).next_id,
                old(self).next_id,
            ),
            r == btree_model::rows_at(btree_model::contents(old(self).map(), id, h), key).contains(row_id),
            final(self).map().dom() == old(self).map().dom(),
            final(self).next_id == old(self).next_id,
            final(self).root == old(self).root,
            final(self).height == old(self).height,
        decreases h,
    {
        let ghost p = self.map();
        let ghost n0 = self.next_id;
        let is_leaf = match self.pages.get(&id) {
            Some(node) => match node {
                Node::Leaf { .. } => true,
                Node::Internal { .. } => false,
            },
            None => true,
        };
        if is_leaf {
            self.remove_leaf(id, key, row_id, Ghost(lo), Ghost(hi), Ghost(end))
        } else {
            let mut pos: usize = 0;
            let mut child: u32 = 0;
            let ghost mut keys: Seq<i64> = Seq::empty();
            let ghost mut cs: Seq<u32> = Seq::empty();
            if let Some(Node::Internal { id: _, keys: ks, children }) = self.pages.get(&id) {
                proof {
                    keys = ks@;
                    cs = children@;
                    assert(p[id] == (NodeModel::Internal { keys, children: cs }));
                    assert(btree_model::internal_ok(p, id, keys, cs, h, lo, hi));
                }
                pos = child_position(ks, key);
                child = children[pos];
            }
            proof {
                assert(p[id] == (NodeModel::Internal { keys, children: cs }));
                btree_model::lemma_descend(p, id, keys, cs, h, lo, hi, key, pos as int);
                btree_model::lemma_chain_child(p, cs, h, pos as int, end);
            }
            let r = self.remove_rec(
                child,
                key,
                row_id,
                Ghost((h - 1) as nat),
                Ghost(btree_model::bound(keys, lo, hi, pos as int)),
                Ghost(btree_model::bound(keys, lo, hi, pos + 1)),
                Ghost(btree_model::end_of(p, cs, h, pos as int, end)),
            );
            proof {
                let q = self.map();
                let m = btree_model::contents(p, child, (h - 1) as nat);
                let t = btree_model::without_entry(btree_model::contents(p, id, h), key, row_id);
                let tc = btree_model::without_entry(m, key, row_id);
                let ea = btree_model::entries_of(p, btree_model::before(p, cs, h, pos as int));
                let eb = btree_model::entries_of(p, btree_model::behind(p, cs, h, pos as int));
                btree_model::lemma_child_step(p, q, id, keys, cs, h, lo, hi, end, pos as int, tc, None, n0, n0);
                btree_model::lemma_with_entry_around(ea, m, eb, key, row_id);
                btree_model::lemma_rank_around(ea, m, eb, key);
                assert(q =~= q.insert(id, NodeModel::Internal { keys, children: cs }));
                btree_model::lemma_node_kept(p, q, q, id, keys, cs, h, lo, hi, end, t, n0, n0);
            }
            r
        }
    }

    /// Remove from the leaf `id`.
    fn remove_leaf(
        &mut self,
        id: u32,
        key: i64,
        row_id: u64,
        Ghost(lo): Ghost<int>,
        Ghost(hi): Ghost<int>,
        Ghost(end): Ghost<Option<u32>>,
    ) -> (r: bool)
        requires
            btree_model::wf(old(self).map(), id, 0, lo, hi),
            old(self).map()[id] is Leaf,
            btree_model::chain(old(self).map(), btree_model::leaf_ids(old(self).map(), id, 0), end),
        ensures
            btree_model::grown(
                old(self).map(),
                final(self).map(),
                id,
                0,
                lo,
                hi,
                end,
                btree_model::without_entry(btree_model::contents(old(self).map(), id, 0), key, row_id),
                None,
                old(self).next_id,
                old(self).next_id,
            ),
            r == btree_model::rows_at(btree_model::contents(old(self).map(), id, 0), key).contains(row_id),
            final(self).map().dom() == old(self).map().dom(),
            final(self).next_id == old(self).next_id,
            final(self).root == old(self).root,
            final(self).height == old(self).height,
    {
        let ghost p = self.map();
        let ghost n0 = self.next_id;
        if let Some(Node::Leaf { id: page, mut entries, next }) = self.pages.remove(&id) {
            let ghost e0 = entries@;
            let ghost es = entry_models(entries@);
            proof {
                assert(p[id] == (NodeModel::Leaf { entries: es, next }));
                btree_model::lemma_entries_one(p, id);
                btree_model::lemma_without_entry_ok(es, key, row_id, lo, hi);
                btree_model::lemma_rank(es, key);
                assert(btree_model::leaf_ids(p, id, 0)[0] == id);
                assert(btree_model::leaf_next(p, btree_model::leaf_ids(p, id, 0)[0]) == end);
            }
            let ghost t = btree_model::without_entry(es, key, row_id);
            let pos = entry_position(&entries, key);
            assert(pos < e0.len() ==> es[pos as int] == e0[pos as int].model());
            let mut r = false;
            if pos < entries.len() && entries[pos].key == key {
                let before = entries[pos].rows.len();
                let rows = drop_row(&entries[pos].rows, row_id);
                proof {
                    btree_model::lemma_without_row(es[pos as int].1, row_id);
                }
                r = rows.len() < before;
                if rows.len() == 0 {
                    entries.remove(pos);
                    assert(entry_models(entries@) =~= t);
                } else {
                    let ghost m = (key, rows@);
                    entries.set(pos, LeafEntry { key, rows });
                    assert(entry_models(entries@) =~= t);
                }
            }
            self.pages.insert(id, Node::Leaf { id: page, entries, next });
            proof {
                let q = self.map();
                assert(q =~= p.insert(id, NodeModel::Leaf { entries: t, next: end }));
                btree_model::lemma_leaf_kept(p, q, id, lo, hi, end, t, n0);
                assert(q.dom() =~= p.dom());
            }
            r
        } else {
            false
        }
    }

    /// Total number of key entries across all leaves.
    pub fn len(&self) -> (r: usize)
        requires
            self.total() <= usize::MAX,
        ensures
            r == self.total(),
            self.wf() ==> r == self@.len(),
    {
        let ids = order::keys32(&self.pages);
        let ghost p = self.map();
        assert(p.dom() =~= self.pages@.dom());
        let mut total: usize = 0;
        let mut i: usize = 0;
        while i < ids.len()
            invariant
                i <= ids@.len(),
                p == self.map(),
                p.dom() == self.pages@.dom(),
                ids@.to_set() == p.dom(),
                entry_total(p, ids@) <= usize::MAX,
                total == entry_total(p, ids@.subrange(0, i as int)),
            decreases ids.len() - i,
        {
            proof {
                let s = ids@.subrange(0, i + 1);
                assert(s.drop_last() =~= ids@.subrange(0, i as int));
                lemma_total_mono(p, ids@, i + 1);
                assert(ids@.to_set().contains(ids@[i as int]));
                assert(p.contains_key(ids@[i as int]));
            }
            let id = ids[i];
            match self.pages.get(&id) {
                Some(Node::Leaf { id: _, entries, next: _ }) => {
                    assert(btree_model::leaf_entries(p, id) == entry_models(entries@));
                    total += entries.len();
                },
                _ => {
                    assert(btree_model::leaf_entries(p, id) =~= Seq::<EntryModel>::empty());
                },
            }
            i += 1;
        }
        proof {
            assert(ids@.subrange(0, i as int) =~= ids@);
            if self.wf() {
                lemma_tree_total(self.parts());
            }
        }
        total
    }

    pub fn is_empty(&self) -> (r: bool)
        ensures
            r == (self.total() == 0),
            self.wf() ==> r == (self@.len() == 0),
    {
        let ids = order::keys32(&self.pages);
        let ghost p = self.map();
        assert(p.dom() =~= self.pages@.dom());
        let mut empty = true;
        let mut i: usize = 0;
        while i < ids.len()
            invariant
                i <= ids@.len(),
                p == self.map(),
                p.dom() == self.pages@.dom(),
                ids@.to_set() == p.dom(),
                empty == (entry_total(p, ids@.subrange(0, i as int)) == 0),
            decreases ids.len() - i,
        {
            proof {
                let s = ids@.subrange(0, i + 1);
                assert(s.drop_last() =~= ids@.subrange(0, i as int));
                assert(ids@.to_set().contains(ids@[i as int]));
                assert(p.contains_key(ids@[i as int]));
            }
            let id = ids[i];
            match self.pages.get(&id) {
                Some(Node::Leaf { id: _, entries, next: _ }) => {
                    assert(btree_model::leaf_entries(p, id) == entry_models(entries@));
                    if entries.len() > 0 {
                        empty = false;
                    }
                },
                _ => {
                    assert(btree_model::leaf_entries(p, id) =~= Seq::<EntryModel>::empty());
                },
            }
            i += 1;
        }
        proof {
            assert(ids@.subrange(0, i as int) =~= ids@);
            if self.wf() {
                lemma_tree_total(self.parts());
            }
        }
        empty
    }

    /// Serialize the whole tree: root id, next_id, height, page count, then
    /// each page as `[u32 id][u32 len][bytes]`.
    pub fn encode(&self) -> (out: Vec<u8>)
        ensures
            out@ == btree_codec::tree_bytes(self.parts()),
    {
        let mut out: Vec<u8> = Vec::new();
        bytes::put_u32(&mut out, self.root);
        bytes::put_u32(&mut out, self.next_id);
        bytes::put_u32(&mut out, self.height as u32);
        bytes::put_u32(&mut out, self.pages.len() as u32);
        let ids = order::keys32(&self.pages);
        let ghost p = self.map();
        assert(p.dom() =~= self.pages@.dom());
        let ghost all = btree_codec::tree_bytes(self.parts());
        let mut i: usize = 0;
        proof {
            assert(ids@.skip(0) =~= ids@);
            assert(out@ + btree_codec::pages_bytes(p, ids@) =~= all);
        }
        while i < ids.len()
            invariant
                i <= ids@.len(),
                p == self.map(),
                p.dom() == self.pages@.dom(),
                ids@.to_set() == p.dom(),
                out@ + btree_codec::pages_bytes(p, ids@.skip(i as int)) == all,
            decreases ids.len() - i,
        {
            let id = ids[i];
            let ghost o = out@;
            assert(ids@.to_set().contains(ids@[i as int]));
            assert(p.contains_key(id));
            if let Some(node) = self.pages.get(&id) {
                let bytes = node.encode();
                bytes::put_u32(&mut out, id);
                bytes::put_u32(&mut out, bytes.len() as u32);
                bytes::put_bytes(&mut out, bytes.as_slice());
                proof {
                    let s = ids@.skip(i as int);
                    assert(s.drop_first() =~= ids@.skip(i + 1));
                    assert(s[0] == id);
                    assert(p[id] == node.model());
                    assert(out@ + btree_codec::pages_bytes(p, s.drop_first()) =~= o + btree_codec::pages_bytes(p, s));
                }
            }
            i += 1;
        }
        assert(out@ + btree_codec::pages_bytes(p, ids@.skip(i as int)) =~= out@);
        out
    }

    /// Read a tree back. [`BTree::is_sound`] tells whether what was read is well
    /// formed.
    pub fn decode(buf: &[u8]) -> (r: Option<BTree>)
        ensures
            match r {
                None => btree_codec::tree_read(buf@) is None,
                Some(t) => btree_codec::tree_read(buf@) == Some(t.parts()),
            },
    {
        if buf.len() < 16 {
            return None;
        }
        let root: u32 = bytes::get_u32(buf, 0);
        let next_id: u32 = bytes::get_u32(buf, 4);
        let height: usize = bytes::get_u32(buf, 8) as usize;
        let count: u32 = bytes::get_u32(buf, 12);
        let mut pages: BTreeMap<u32, Node> = BTreeMap::new();
        let mut pos: usize = 16;
        let mut i: u32 = 0;
        let ghost all = btree_codec::pages_read(buf@.skip(16), count as nat, Map::empty());
        assert(page_models(pages@) =~= Map::<u32, NodeModel>::empty());
        while i < count && buf.len() - pos >= 8
            invariant_except_break
                all == btree_codec::pages_read(buf@.skip(pos as int), (count - i) as nat, page_models(pages@)),
            invariant
                i <= count,
                16 <= pos <= buf@.len(),
                count == bytes::u32_at(buf@, 12),
                all == btree_codec::pages_read(buf@.skip(16), count as nat, Map::empty()),
            ensures
                all == Some(page_models(pages@)),
            decreases count - i,
        {
            let id: u32 = bytes::get_u32(buf, pos);
            let len: usize = bytes::get_u32(buf, pos + 4) as usize;
            let ghost s = buf@.skip(pos as int);
            proof {
                bytes::lemma_at_skip(buf@, pos as int, 0);
                bytes::lemma_at_skip(buf@, pos as int, 4);
            }
            if buf.len() - pos - 8 < len {
                break;
            }
            let page = bytes::copy_range(buf, pos + 8, pos + 8 + len);
            assert(page@ =~= s.subrange(8, 8 + len));
            match Node::decode(id, page.as_slice()) {
                None => {
                    return None;
                },
                Some(node) => {
                    let ghost m0 = page_models(pages@);
                    let ghost m = node.model();
                    pages.insert(id, node);
                    proof {
                        assert(page_models(pages@) =~= m0.insert(id, m));
                        assert(s.skip(8 + len) =~= buf@.skip(pos + 8 + len));
                    }
                },
            }
            pos += 8 + len;
            i += 1;
        }
        let t = BTree { pages, root, next_id, height };
        assert(t.map() =~= page_models(t.pages@));
        Some(t)
    }
}

impl Default for BTree {
    fn default() -> (r: Self)
        ensures
            r.wf(),
            r@ == Seq::<EntryModel>::empty(),
    {
        BTree::new()
    }
}

/// The models of a page table.
spec fn page_models(m: Map<u32, Node>) -> PageMap {
    Map::new(|id: u32| m.contains_key(id), |id: u32| m[id].model())
}

/// A leaf of a chain points to the next one.
proof fn lemma_chain_next(p: PageMap, ls: Seq<u32>, j: int)
    requires
        btree_model::chain(p, ls, None),
        0 <= j < ls.len(),
    ensures
        btree_model::leaf_next(p, ls[j]) == (if j + 1 < ls.len() {
            Some(ls[j + 1])
        } else {
            None
        }),
{
}

fn push_pairs(out: &mut Vec<(i64, u64)>, key: i64, rows: &Vec<u64>)
    ensures
        final(out)@ == old(out)@ + pairs_of((key, rows@)),
{
    let mut i: usize = 0;
    let ghost ps = pairs_of((key, rows@));
    while i < rows.len()
        invariant
            i <= rows@.len(),
            ps == pairs_of((key, rows@)),
            out@ == old(out)@ + ps.subrange(0, i as int),
        decreases rows.len() - i,
    {
        out.push((key, rows[i]));
        i += 1;
        assert(ps.subrange(0, i as int) =~= ps.subrange(0, i - 1).push((key, rows@[i - 1])));
    }
    assert(ps.subrange(0, i as int) =~= ps);
}

/// Compare two keys with the same convention as [`Ordering`].
pub fn cmp_keys(a: i64, b: i64) -> (r: Ordering)
    ensures
        r == (if a < b {
            Ordering::Less
        } else if a == b {
            Ordering::Equal
        } else {
            Ordering::Greater
        }),
{
    if a < b {
        Ordering::Less
    } else if a == b {
        Ordering::Equal
    } else {
        Ordering::Greater
    }
}

/// Add a row to the entry of a key, or a new entry in key order.
fn add_row(entries: &mut Vec<LeafEntry>, key: i64, row_id: u64)
    requires
        old(entries)@.len() < usize::MAX,
    ensures
        entry_models(final(entries)@) == btree_model::with_entry(entry_models(old(entries)@), key, row_id),
        final(entries)@.len() == btree_model::with_entry(entry_models(old(entries)@), key, row_id).len(),
{
    let ghost e0 = entries@;
    let ghost es = entry_models(entries@);
    let pos = entry_position(entries, key);
    if pos < entries.len() && entries[pos].key == key {
        let mut e = entries.remove(pos);
        assert(e == e0[pos as int]);
        if !has_row(&e.rows, row_id) {
            e.rows.push(row_id);
        }
        let ghost m = e.model();
        entries.insert(pos, e);
        proof {
            assert(es[pos as int] == e0[pos as int].model());
            assert(entries@ =~= e0.update(pos as int, entries@[pos as int]));
            assert(entry_models(entries@) =~= es.update(pos as int, m));
        }
    } else {
        let mut rows: Vec<u64> = Vec::new();
        rows.push(row_id);
        assert(rows@ =~= seq![row_id]);
        entries.insert(pos, LeafEntry { key, rows });
        proof {
            if pos < e0.len() {
                assert(es[pos as int] == e0[pos as int].model());
            }
            assert(entry_models(entries@) =~= es.insert(pos as int, (key, seq![row_id])));
        }
    }
}

/// A split root gets a new root above it.
proof fn lemma_new_root(
    p: PageMap,
    q: PageMap,
    r: PageMap,
    root: u32,
    right: u32,
    sep: i64,
    h: nat,
    n0: u32,
    n1: u32,
    t: Seq<EntryModel>,
)
    requires
        btree_model::below(p, n0),
        p.contains_key(root),
        p.dom() == btree_model::pages(p, root, h),
        btree_model::grown(p, q, root, h, key_floor(), key_ceiling(), None, t, Some((sep, right)), n0, n1),
        n1 < u32::MAX,
        r == q.insert(n1, NodeModel::Internal { keys: seq![sep], children: seq![root, right] }),
    ensures
        btree_model::wf(r, n1, h + 1, key_floor(), key_ceiling()),
        btree_model::contents(r, n1, h + 1) == t,
        btree_model::chain(r, btree_model::leaf_ids(r, n1, h + 1), None),
        btree_model::below(r, (n1 + 1) as u32),
        r.dom() == btree_model::pages(r, n1, h + 1),
{
    let cs = seq![root, right];
    let ks = seq![sep];
    let lo = key_floor();
    let hi = key_ceiling();
    btree_model::lemma_pages_in_map(q, root, h, lo, sep as int);
    btree_model::lemma_pages_in_map(q, right, h, sep as int, hi);
    assert(!q.contains_key(n1));
    btree_model::lemma_frame(q, r, root, h, lo, sep as int);
    btree_model::lemma_frame(q, r, right, h, sep as int, hi);
    assert(btree_model::bound(ks, lo, hi, 0) == lo && btree_model::bound(ks, lo, hi, 1) == sep && btree_model::bound(ks, lo, hi, 2) == hi);
    assert(btree_model::internal_ok(r, n1, ks, cs, h + 1, lo, hi));
    assert(cs.drop_last() =~= seq![root]);
    btree_model::lemma_leaf_list_one(r, root, h);
    let l = btree_model::leaf_ids(q, root, h) + btree_model::leaf_ids(q, right, h);
    assert(btree_model::leaf_ids(r, n1, h + 1) == btree_model::leaf_list(r, cs, h));
    assert(btree_model::leaf_list(r, cs, h) == l);
    btree_model::lemma_leaves(q, root, h, lo, sep as int);
    btree_model::lemma_leaves(q, right, h, sep as int, hi);
    assert forall|i: int| 0 <= i < l.len() implies q[#[trigger] l[i]] == r[l[i]] by {
        let k = btree_model::leaf_ids(q, root, h).len();
        if i < k {
            assert(l[i] == btree_model::leaf_ids(q, root, h)[i]);
        } else {
            assert(l[i] == btree_model::leaf_ids(q, right, h)[i - k]);
        }
    }
    btree_model::lemma_entries_frame(q, r, l);
    btree_model::lemma_entries_concat(q, btree_model::leaf_ids(q, root, h), btree_model::leaf_ids(q, right, h));
    btree_model::lemma_chain_frame(q, r, l, None);
    assert(r.dom() =~= btree_model::pages(r, n1, h + 1)) by {
        assert forall|x: u32| r.dom().contains(x) <==> btree_model::pages(r, n1, h + 1).contains(x) by {
            btree_model::lemma_page_list(r, cs, h, x);
            assert(cs[0] == root && cs[1] == right);
            if r.contains_key(x) && x != n1 {
                assert(q.contains_key(x));
            }
        }
    }
}

// Checking

/// The rows of an entry: there are some, each once.
fn rows_sound(rows: &Vec<u64>) -> (r: bool)
    ensures
        r == (rows@.len() > 0 && rows@.no_duplicates()),
{
    if rows.len() == 0 {
        return false;
    }
    let mut i: usize = 0;
    while i < rows.len()
        invariant
            i <= rows@.len(),
            forall|a: int, b: int| 0 <= a < b < i ==> rows@[a] != rows@[b],
        decreases rows@.len() - i,
    {
        let mut j: usize = 0;
        while j < i
            invariant
                j <= i < rows@.len(),
                forall|a: int| 0 <= a < j ==> rows@[a] != rows@[i as int],
            decreases i - j,
        {
            if rows[j] == rows[i] {
                assert(rows@[j as int] == rows@[i as int]);
                return false;
            }
            j += 1;
        }
        i += 1;
    }
    assert forall|a: int, b: int| 0 <= a < rows@.len() && 0 <= b < rows@.len() && a != b implies rows@[a] != rows@[b] by {
        if a < b {
            assert(rows@[a] != rows@[b]);
        } else {
            assert(rows@[b] != rows@[a]);
        }
    }
    true
}

/// Whether entries ascend within bounds.
fn entries_sound(s: &Vec<LeafEntry>, lo: i128, hi: i128) -> (r: bool)
    ensures
        r == btree_model::entries_ok(entry_models(s@), lo as int, hi as int),
{
    let ghost es = entry_models(s@);
    let mut i: usize = 0;
    while i < s.len()
        invariant
            i <= s@.len(),
            es == entry_models(s@),
            forall|a: int, b: int| 0 <= a < b < i ==> es[a].0 < es[b].0,
            forall|a: int| 0 <= a < i ==> lo <= (#[trigger] es[a]).0 < hi,
            forall|a: int| 0 <= a < i ==> (#[trigger] es[a]).1.len() > 0 && es[a].1.no_duplicates(),
        decreases s@.len() - i,
    {
        let k: i128 = s[i].key as i128;
        assert(es[i as int] == s@[i as int].model());
        if k < lo || k >= hi || !rows_sound(&s[i].rows) {
            return false;
        }
        if i > 0 {
            assert(es[i - 1] == s@[i - 1].model());
            if s[i - 1].key >= s[i].key {
                return false;
            }
        }
        i += 1;
    }
    true
}

/// Whether separators ascend strictly within bounds.
fn keys_sound(keys: &Vec<i64>, lo: i128, hi: i128) -> (r: bool)
    ensures
        r == btree_model::keys_ok(keys@, lo as int, hi as int),
{
    if lo >= hi {
        return false;
    }
    let mut i: usize = 0;
    while i < keys.len()
        invariant
            i <= keys@.len(),
            lo < hi,
            forall|a: int, b: int| 0 <= a < b < i ==> keys@[a] < keys@[b],
            forall|a: int| 0 <= a < i ==> lo < #[trigger] keys@[a] < hi,
        decreases keys@.len() - i,
    {
        let k: i128 = keys[i] as i128;
        if k <= lo || k >= hi {
            assert(!(lo < keys@[i as int] < hi));
            return false;
        }
        if i > 0 && keys[i - 1] >= keys[i] {
            assert(!(keys@[i - 1] < keys@[i as int]));
            return false;
        }
        i += 1;
    }
    true
}

/// Where a child fails, its parent does.
proof fn lemma_child_fails(
    p: PageMap,
    id: u32,
    keys: Seq<i64>,
    cs: Seq<u32>,
    h: nat,
    lo: int,
    hi: int,
    s0: Set<u32>,
    i: int,
)
    requires
        h > 0,
        p.contains_key(id),
        p[id] == (NodeModel::Internal { keys, children: cs }),
        0 <= i < cs.len(),
        !(btree_model::wf(
            p,
            cs[i],
            (h - 1) as nat,
            btree_model::bound(keys, lo, hi, i),
            btree_model::bound(keys, lo, hi, i + 1),
        ) && btree_model::pages(p, cs[i], (h - 1) as nat).disjoint(
            s0.insert(id).union(btree_model::page_list(p, cs.take(i), (h - 1) as nat)),
        )),
    ensures
        !(btree_model::wf(p, id, h, lo, hi) && btree_model::pages(p, id, h).disjoint(s0)),
{
    let k = (h - 1) as nat;
    if btree_model::wf(p, id, h, lo, hi) && btree_model::pages(p, id, h).disjoint(s0) {
        assert(btree_model::internal_ok(p, id, keys, cs, h, lo, hi));
        let d = btree_model::pages(p, cs[i], k);
        btree_model::lemma_child_pages(p, id, h, i);
        assert forall|x: u32| d.contains(x) implies !s0.insert(id).union(btree_model::page_list(p, cs.take(i), k)).contains(
            x,
        ) by {
            assert(btree_model::pages(p, id, h).contains(x));
            btree_model::lemma_page_list(p, cs.take(i), k, x);
            if btree_model::page_list(p, cs.take(i), k).contains(x) {
                let j = choose|j: int|
                    0 <= j < cs.take(i).len() && btree_model::pages(p, #[trigger] cs.take(i)[j], k).contains(x);
                assert(cs[j] == cs.take(i)[j]);
                assert(btree_model::pages(p, cs[j], k).disjoint(btree_model::pages(p, cs[i], k)));
            }
        }
    }
}

impl BTree {
    /// The leaf behind a leaf.
    fn next_of(&self, id: u32) -> (r: Option<u32>)
        requires
            self.map().contains_key(id),
        ensures
            r == btree_model::leaf_next(self.map(), id),
    {
        match self.pages.get(&id) {
            Some(Node::Leaf { id: _, entries: _, next }) => *next,
            _ => None,
        }
    }

    /// Whether the subtree of a page is well-formed and meets no page seen
    /// before; notes its pages and its leaves.
    #[verifier::spinoff_prover]
    #[verifier::rlimit(60)]
    fn subtree_sound(
        &self,
        id: u32,
        h: usize,
        lo: i128,
        hi: i128,
        seen: &mut BTreeMap<u32, bool>,
        leaves: &mut Vec<u32>,
    ) -> (r: bool)
        ensures
            r == (btree_model::wf(self.map(), id, h as nat, lo as int, hi as int) && btree_model::pages(
                self.map(),
                id,
                h as nat,
            ).disjoint(old(seen)@.dom())),
            r ==> final(seen)@.dom() == old(seen)@.dom().union(btree_model::pages(self.map(), id, h as nat)),
            r ==> final(leaves)@ == old(leaves)@ + btree_model::leaf_ids(self.map(), id, h as nat),
        decreases h,
    {
        let ghost p = self.map();
        let ghost s0 = seen@.dom();
        let ghost l0 = leaves@;
        assert(btree_model::pages(p, id, h as nat).contains(id));
        let known = seen.contains_key(&id);
        match self.pages.get(&id) {
            None => false,
            Some(Node::Leaf { id: _, entries, next: _ }) => {
                assert(p[id] == (NodeModel::Leaf { entries: entry_models(entries@), next: p[id]->next }));
                if h != 0 || lo >= hi || entries.len() > FANOUT || !entries_sound(entries, lo, hi) || known {
                    return false;
                }
                seen.insert(id, true);
                leaves.push(id);
                assert(seen@.dom() =~= s0.union(btree_model::pages(p, id, 0)));
                assert(leaves@ =~= l0 + btree_model::leaf_ids(p, id, 0));
                true
            },
            Some(Node::Internal { id: _, keys, children }) => {
                let ghost ks = keys@;
                let ghost cs = children@;
                assert(p[id] == (NodeModel::Internal { keys: ks, children: cs }));
                if h == 0 || keys.len() > FANOUT || children.len() != keys.len() + 1 || !keys_sound(keys, lo, hi) || known {
                    return false;
                }
                seen.insert(id, true);
                let ghost k = (h - 1) as nat;
                let mut i: usize = 0;
                proof {
                    assert(cs.take(0) =~= Seq::<u32>::empty());
                    assert(seen@.dom() =~= s0.insert(id).union(btree_model::page_list(p, cs.take(0), k)));
                    assert(leaves@ =~= l0 + btree_model::leaf_list(p, cs.take(0), k));
                }
                while i < children.len()
                    invariant
                        i <= cs.len(),
                        h > 0,
                        k == h - 1,
                        p == self.map(),
                        s0 == old(seen)@.dom(),
                        cs == children@,
                        ks == keys@,
                        cs.len() == ks.len() + 1,
                        p.contains_key(id),
                        p[id] == (NodeModel::Internal { keys: ks, children: cs }),
                        seen@.dom() == s0.insert(id).union(btree_model::page_list(p, cs.take(i as int), k)),
                        leaves@ == l0 + btree_model::leaf_list(p, cs.take(i as int), k),
                        forall|j: int|
                            0 <= j < i ==> btree_model::wf(
                                p,
                                #[trigger] cs[j],
                                k,
                                btree_model::bound(ks, lo as int, hi as int, j),
                                btree_model::bound(ks, lo as int, hi as int, j + 1),
                            ) && !btree_model::pages(p, cs[j], k).contains(id) && btree_model::pages(p, cs[j], k).disjoint(
                                s0,
                            ),
                        forall|a: int, b: int|
                            0 <= a < b < i ==> btree_model::pages(p, #[trigger] cs[a], k).disjoint(
                                btree_model::pages(p, #[trigger] cs[b], k),
                            ),
                    decreases cs.len() - i,
                {
                    let from: i128 = if i == 0 {
                        lo
                    } else {
                        keys[i - 1] as i128
                    };
                    let to: i128 = if i < keys.len() {
                        keys[i] as i128
                    } else {
                        hi
                    };
                    let ghost t0 = seen@.dom();
                    let ghost ls = leaves@;
                    if !self.subtree_sound(children[i], h - 1, from, to, seen, leaves) {
                        proof {
                            lemma_child_fails(p, id, ks, cs, h as nat, lo as int, hi as int, s0, i as int);
                        }
                        return false;
                    }
                    proof {
                        let d = btree_model::pages(p, cs[i as int], k);
                        assert(cs.take(i + 1).drop_last() =~= cs.take(i as int));
                        assert(cs.take(i + 1).last() == cs[i as int]);
                        assert(seen@.dom() =~= s0.insert(id).union(btree_model::page_list(p, cs.take(i + 1), k)));
                        assert(leaves@ =~= l0 + btree_model::leaf_list(p, cs.take(i + 1), k));
                        assert(t0.contains(id));
                        assert(d.disjoint(s0));
                        assert forall|a: int| 0 <= a < i implies btree_model::pages(p, #[trigger] cs[a], k).disjoint(d) by {
                            assert forall|x: u32| btree_model::pages(p, cs[a], k).contains(x) implies !d.contains(x) by {
                                btree_model::lemma_page_list(p, cs.take(i as int), k, x);
                                assert(btree_model::pages(p, cs.take(i as int)[a], k).contains(x));
                                assert(t0.contains(x));
                            }
                        }
                    }
                    i += 1;
                }
                proof {
                    assert(cs.take(i as int) =~= cs);
                    assert(btree_model::internal_ok(p, id, ks, cs, h as nat, lo as int, hi as int));
                    assert forall|x: u32| btree_model::pages(p, id, h as nat).contains(x) implies !s0.contains(x) by {
                        btree_model::lemma_page_list(p, cs, k, x);
                        if x != id {
                            let j = choose|j: int| 0 <= j < cs.len() && btree_model::pages(p, #[trigger] cs[j], k).contains(
                                x,
                            );
                            assert(btree_model::pages(p, cs[j], k).disjoint(s0));
                        }
                    }
                    assert(seen@.dom() =~= s0.union(btree_model::pages(p, id, h as nat)));
                }
                true
            },
        }
    }

    /// Whether the tree is well-formed, as the other operations need it. One that
    /// was read from a buffer may not be.
    pub fn is_sound(&self) -> (r: bool)
        ensures
            r == self.wf(),
    {
        let ghost p = self.map();
        if self.height == 0 {
            return false;
        }
        let h: usize = self.height - 1;
        let mut seen: BTreeMap<u32, bool> = BTreeMap::new();
        let mut leaves: Vec<u32> = Vec::new();
        let lo: i128 = -0x8000_0000_0000_0000;
        let hi: i128 = 0x8000_0000_0000_0000;
        assert(seen@.dom() =~= Set::<u32>::empty());
        if !self.subtree_sound(self.root, h, lo, hi, &mut seen, &mut leaves) {
            return false;
        }
        let ghost all = btree_model::pages(p, self.root, h as nat);
        let ghost ls = btree_model::leaf_ids(p, self.root, h as nat);
        proof {
            assert(seen@.dom() =~= all);
            assert(leaves@ =~= ls);
            btree_model::lemma_pages_in_map(p, self.root, h as nat, lo as int, hi as int);
            btree_model::lemma_leaves(p, self.root, h as nat, lo as int, hi as int);
        }
        let ids = order::keys32(&self.pages);
        let mut i: usize = 0;
        while i < ids.len()
            invariant
                i <= ids@.len(),
                p == self.map(),
                ids@.to_set() == self.pages@.dom(),
                seen@.dom() == all,
                forall|j: int| 0 <= j < i ==> (#[trigger] ids@[j]) < self.next_id && all.contains(ids@[j]),
                all == btree_model::pages(p, self.root, h as nat),
                h == self.height - 1,
            decreases ids@.len() - i,
        {
            assert(ids@.to_set().contains(ids@[i as int]));
            assert(p.contains_key(ids@[i as int]));
            if ids[i] >= self.next_id || !seen.contains_key(&ids[i]) {
                proof {
                    if self.wf() {
                        assert(p.dom().contains(ids@[i as int]));
                    }
                }
                return false;
            }
            i += 1;
        }
        proof {
            assert forall|x: u32| #[trigger] p.contains_key(x) implies x < self.next_id && all.contains(x) by {
                assert(ids@.to_set().contains(x));
                let j = ids@.index_of(x);
                assert(ids@[j] == x);
            }
            assert(p.dom() =~= all);
        }
        let mut k: usize = 0;
        while k < leaves.len()
            invariant
                k <= leaves@.len(),
                p == self.map(),
                leaves@ == ls,
                ls == btree_model::leaf_ids(p, self.root, h as nat),
                h == self.height - 1,
                forall|j: int| 0 <= j < ls.len() ==> p.contains_key(#[trigger] ls[j]),
                forall|j: int|
                    0 <= j < k ==> #[trigger] btree_model::leaf_next(p, ls[j]) == (if j + 1 < ls.len() {
                        Some(ls[j + 1])
                    } else {
                        None
                    }),
            decreases leaves@.len() - k,
        {
            let want: Option<u32> = if k + 1 < leaves.len() {
                Some(leaves[k + 1])
            } else {
                None
            };
            assert(p.contains_key(ls[k as int]));
            if self.next_of(leaves[k]) != want {
                proof {
                    if self.wf() {
                        assert(btree_model::leaf_next(p, ls[k as int]) == want);
                    }
                }
                return false;
            }
            k += 1;
        }
        true
    }
}

} // verus!
