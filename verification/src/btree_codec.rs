//! The byte layout of the B+tree: what a stored tree looks like and what
//! reading one back gives.
//!
//! A node is `[u8 type][u32 key_count][u32 next]` followed by its entries (leaf)
//! or by its separators and children (internal). A tree is
//! `[u32 root][u32 next_id][u32 height][u32 page_count]` followed by its pages as
//! `[u32 id][u32 len][bytes]` in ascending id order.

use vstd::prelude::*;
use crate::order;
use crate::bytes;
use crate::btree_model::{EntryModel, NodeModel, PageMap};

verus! {

broadcast use bytes::group_le_len;

/// A tree: its root, the next free page id, its height and its pages.
#[verifier::ext_equal]
pub struct TreeParts {
    pub root: u32,
    pub next_id: u32,
    pub height: nat,
    pub pages: PageMap,
}

/// Leaf entries in order.
pub open spec fn entries_bytes(es: Seq<EntryModel>) -> Seq<u8>
    decreases es.len(),
{
    if es.len() == 0 {
        Seq::empty()
    } else {
        bytes::le_i64(es[0].0) + bytes::le32(es[0].1.len() as u32) + bytes::u64s(es[0].1) + entries_bytes(es.drop_first())
    }
}

/// Up to `n` leaf entries, as far as the bytes reach.
pub open spec fn entries_read(s: Seq<u8>, n: nat) -> Seq<EntryModel>
    decreases n,
{
    if n == 0 || s.len() < 12 {
        Seq::empty()
    } else {
        let rows = bytes::u64s_up_to(s.skip(12), bytes::u32_at(s, 8) as nat);
        seq![(bytes::i64_at(s, 0), rows)] + entries_read(s.skip(12int + 8 * rows.len()), (n - 1) as nat)
    }
}

/// Separator keys in order.
pub open spec fn keys_bytes(ks: Seq<i64>) -> Seq<u8>
    decreases ks.len(),
{
    if ks.len() == 0 {
        Seq::empty()
    } else {
        bytes::le_i64(ks[0]) + keys_bytes(ks.drop_first())
    }
}

/// Up to `n` separator keys, as far as the bytes reach.
pub open spec fn keys_read(s: Seq<u8>, n: nat) -> Seq<i64>
    decreases n,
{
    if n == 0 || s.len() < 8 {
        Seq::empty()
    } else {
        seq![bytes::i64_at(s, 0)] + keys_read(s.skip(8), (n - 1) as nat)
    }
}

/// Child ids in order.
pub open spec fn kids_bytes(cs: Seq<u32>) -> Seq<u8>
    decreases cs.len(),
{
    if cs.len() == 0 {
        Seq::empty()
    } else {
        bytes::le32(cs[0]) + kids_bytes(cs.drop_first())
    }
}

/// Up to `n` child ids, as far as the bytes reach.
pub open spec fn kids_read(s: Seq<u8>, n: nat) -> Seq<u32>
    decreases n,
{
    if n == 0 || s.len() < 4 {
        Seq::empty()
    } else {
        seq![bytes::u32_at(s, 0)] + kids_read(s.skip(4), (n - 1) as nat)
    }
}

/// The stored form of a next-leaf pointer.
pub open spec fn next_word(next: Option<u32>) -> u32 {
    match next {
        Some(n) => n,
        None => u32::MAX,
    }
}

/// The bytes of a node.
pub open spec fn node_bytes(m: NodeModel) -> Seq<u8> {
    match m {
        NodeModel::Leaf { entries, next } => seq![0u8] + bytes::le32(entries.len() as u32) + bytes::le32(next_word(next))
            + entries_bytes(entries),
        NodeModel::Internal { keys, children } => seq![1u8] + bytes::le32(keys.len() as u32) + bytes::le32(u32::MAX)
            + keys_bytes(keys) + kids_bytes(children),
    }
}

/// The node in a page buffer; there is none in fewer than nine bytes. A list
/// that the buffer cuts short ends where the bytes do.
pub open spec fn node_read(s: Seq<u8>) -> Option<NodeModel> {
    if s.len() < 9 {
        None
    } else {
        let n = bytes::u32_at(s, 1) as nat;
        if s[0] == 1 {
            let keys = keys_read(s.skip(9), n);
            Some(
                NodeModel::Internal { keys, children: kids_read(s.skip(9int + 8 * keys.len()), n + 1) },
            )
        } else {
            let w = bytes::u32_at(s, 5);
            Some(
                NodeModel::Leaf {
                    entries: entries_read(s.skip(9), n),
                    next: if w == u32::MAX {
                        None
                    } else {
                        Some(w)
                    },
                },
            )
        }
    }
}

/// Pages in the given order.
pub open spec fn pages_bytes(p: PageMap, ids: Seq<u32>) -> Seq<u8>
    decreases ids.len(),
{
    if ids.len() == 0 {
        Seq::empty()
    } else {
        let b = node_bytes(p[ids[0]]);
        bytes::le32(ids[0]) + bytes::le32(b.len() as u32) + b + pages_bytes(p, ids.drop_first())
    }
}

/// Up to `n` pages added to `acc`, as far as the bytes reach; nothing where a
/// page holds no node.
pub open spec fn pages_read(s: Seq<u8>, n: nat, acc: PageMap) -> Option<PageMap>
    decreases n,
{
    if n == 0 || s.len() < 8 || 8 + bytes::u32_at(s, 4) > s.len() {
        Some(acc)
    } else {
        let e = 8 + bytes::u32_at(s, 4);
        match node_read(s.subrange(8, e)) {
            None => None,
            Some(m) => pages_read(s.skip(e), (n - 1) as nat, acc.insert(bytes::u32_at(s, 0), m)),
        }
    }
}

/// The bytes of a tree.
pub open spec fn tree_bytes(t: TreeParts) -> Seq<u8> {
    bytes::le32(t.root) + bytes::le32(t.next_id) + bytes::le32(t.height as u32) + bytes::le32(t.pages.dom().len() as u32) + pages_bytes(
        t.pages,
        order::ascending32(t.pages.dom()),
    )
}

/// The tree in a buffer.
pub open spec fn tree_read(s: Seq<u8>) -> Option<TreeParts> {
    if s.len() < 16 {
        None
    } else {
        match pages_read(s.skip(16), bytes::u32_at(s, 12) as nat, Map::empty()) {
            None => None,
            Some(pages) => Some(
                TreeParts { root: bytes::u32_at(s, 0), next_id: bytes::u32_at(s, 4), height: bytes::u32_at(s, 8) as nat, pages },
            ),
        }
    }
}

// What is read back

/// The counts of a node fit their fields.
pub open spec fn counts_fit(m: NodeModel) -> bool {
    match m {
        NodeModel::Leaf { entries, next } => {
            &&& entries.len() <= u32::MAX
            &&& next != Some(u32::MAX)
            &&& forall|i: int| 0 <= i < entries.len() ==> (#[trigger] entries[i]).1.len() <= u32::MAX
        },
        NodeModel::Internal { keys, children } => keys.len() <= u32::MAX && children.len() == keys.len() + 1,
    }
}

/// The counts of a node, and its length as a page, fit their fields.
pub open spec fn node_fits(m: NodeModel) -> bool {
    counts_fit(m) && node_bytes(m).len() <= u32::MAX
}

/// The counts of a tree fit their fields.
pub open spec fn tree_fits(t: TreeParts) -> bool {
    &&& t.height <= u32::MAX
    &&& t.pages.dom().finite()
    &&& t.pages.dom().len() <= u32::MAX
    &&& forall|x: u32| #[trigger] t.pages.contains_key(x) ==> node_fits(t.pages[x])
}

pub proof fn lemma_entries_read(es: Seq<EntryModel>, rest: Seq<u8>)
    requires
        forall|i: int| 0 <= i < es.len() ==> (#[trigger] es[i]).1.len() <= u32::MAX,
    ensures
        entries_read(entries_bytes(es) + rest, es.len()) == es,
    decreases es.len(),
{
    if es.len() > 0 {
        let t = es.drop_first();
        let (key, rows) = es[0];
        let n = rows.len() as u32;
        let s = entries_bytes(es) + rest;
        assert forall|i: int| 0 <= i < t.len() implies (#[trigger] t[i]).1.len() <= u32::MAX by {
            assert(t[i] == es[i + 1]);
        }
        lemma_entries_read(t, rest);
        let more = entries_bytes(t) + rest;
        let tail = bytes::u64s(rows) + more;
        assert(s =~= bytes::le_i64(key) + bytes::le32(n) + tail);
        assert(bytes::i64_at(s, 0) == key) by {
            bytes::lemma_i64_between(Seq::empty(), key, bytes::le32(n) + tail);
            assert(s =~= Seq::<u8>::empty() + bytes::le_i64(key) + (bytes::le32(n) + tail));
        }
        assert(bytes::u32_at(s, 8) == n) by {
            bytes::lemma_u32_between(bytes::le_i64(key), n, tail);
        }
        bytes::lemma_u64s(rows, more);
        assert(s.skip(12) =~= tail);
        assert(s.skip(12int + 8 * rows.len()) =~= more);
        assert(seq![(key, rows)] + t =~= es);
    }
}

pub proof fn lemma_keys_read(ks: Seq<i64>, rest: Seq<u8>)
    ensures
        keys_read(keys_bytes(ks) + rest, ks.len()) == ks,
        keys_bytes(ks).len() == 8 * ks.len(),
    decreases ks.len(),
{
    if ks.len() > 0 {
        let t = ks.drop_first();
        let s = keys_bytes(ks) + rest;
        lemma_keys_read(t, rest);
        bytes::lemma_i64_between(Seq::empty(), ks[0], keys_bytes(t) + rest);
        assert(s =~= Seq::<u8>::empty() + bytes::le_i64(ks[0]) + (keys_bytes(t) + rest));
        assert(s.skip(8) =~= keys_bytes(t) + rest);
        assert(seq![ks[0]] + t =~= ks);
    }
}

pub proof fn lemma_kids_read(cs: Seq<u32>, rest: Seq<u8>)
    ensures
        kids_read(kids_bytes(cs) + rest, cs.len()) == cs,
        kids_bytes(cs).len() == 4 * cs.len(),
    decreases cs.len(),
{
    if cs.len() > 0 {
        let t = cs.drop_first();
        let s = kids_bytes(cs) + rest;
        lemma_kids_read(t, rest);
        bytes::lemma_u32_between(Seq::empty(), cs[0], kids_bytes(t) + rest);
        assert(s =~= Seq::<u8>::empty() + bytes::le32(cs[0]) + (kids_bytes(t) + rest));
        assert(s.skip(4) =~= kids_bytes(t) + rest);
        assert(seq![cs[0]] + t =~= cs);
    }
}

/// A node whose counts fit is read back as it was written.
pub proof fn lemma_node_round_trip(m: NodeModel)
    requires
        counts_fit(m),
    ensures
        node_read(node_bytes(m)) == Some(m),
{
    let s = node_bytes(m);
    let e = Seq::<u8>::empty();
    match m {
        NodeModel::Leaf { entries, next } => {
            let n = entries.len() as u32;
            let b = entries_bytes(entries);
            let h = seq![0u8] + bytes::le32(n);
            bytes::lemma_u32_between(seq![0u8], n, bytes::le32(next_word(next)) + b);
            assert(s =~= seq![0u8] + bytes::le32(n) + (bytes::le32(next_word(next)) + b));
            bytes::lemma_u32_between(h, next_word(next), b);
            assert(s =~= h + bytes::le32(next_word(next)) + b);
            lemma_entries_read(entries, e);
            assert(b + e =~= b);
            assert(s.skip(9) =~= b);
        },
        NodeModel::Internal { keys, children } => {
            let n = keys.len() as u32;
            let kb = keys_bytes(keys);
            let cb = kids_bytes(children);
            bytes::lemma_u32_between(seq![1u8], n, bytes::le32(u32::MAX) + kb + cb);
            assert(s =~= seq![1u8] + bytes::le32(n) + (bytes::le32(u32::MAX) + kb + cb));
            lemma_keys_read(keys, cb);
            lemma_kids_read(children, e);
            assert(cb + e =~= cb);
            assert(s.skip(9) =~= kb + cb);
            assert(s.skip(9int + 8 * keys.len()) =~= cb);
        },
    }
}

proof fn lemma_pages_read(p: PageMap, ids: Seq<u32>, acc: PageMap)
    requires
        ids.no_duplicates(),
        forall|i: int| 0 <= i < ids.len() ==> node_fits(p[#[trigger] ids[i]]),
    ensures
        pages_read(pages_bytes(p, ids), ids.len(), acc) matches Some(m) && m.dom() == acc.dom().union(ids.to_set())
            && forall|x: u32| #[trigger]
            m.contains_key(x) ==> m[x] == (if ids.contains(x) {
                p[x]
            } else {
                acc[x]
            }),
    decreases ids.len(),
{
    if ids.len() > 0 {
        let t = ids.drop_first();
        let x0 = ids[0];
        let b = node_bytes(p[x0]);
        let s = pages_bytes(p, ids);
        let rest = pages_bytes(p, t);
        bytes::lemma_u32_between(Seq::empty(), x0, bytes::le32(b.len() as u32) + b + rest);
        assert(s =~= Seq::<u8>::empty() + bytes::le32(x0) + (bytes::le32(b.len() as u32) + b + rest));
        bytes::lemma_u32_between(bytes::le32(x0), b.len() as u32, b + rest);
        assert(s =~= bytes::le32(x0) + bytes::le32(b.len() as u32) + (b + rest));
        lemma_node_round_trip(p[x0]);
        assert(s.subrange(8, 8 + b.len() as int) =~= b);
        assert(s.skip(8 + b.len() as int) =~= rest);
        assert forall|i: int| 0 <= i < t.len() implies node_fits(p[#[trigger] t[i]]) by {
            assert(t[i] == ids[i + 1]);
        }
        let acc2 = acc.insert(x0, p[x0]);
        lemma_pages_read(p, t, acc2);
        let m = pages_read(rest, t.len(), acc2).unwrap();
        assert forall|x: u32| ids.contains(x) <==> x == x0 || t.contains(x) by {
            if ids.contains(x) {
                let i = choose|i: int| 0 <= i < ids.len() && ids[i] == x;
                if i > 0 {
                    assert(t[i - 1] == x);
                }
            }
            if t.contains(x) {
                let i = choose|i: int| 0 <= i < t.len() && t[i] == x;
                assert(ids[i + 1] == x);
            }
            assert(ids[0] == x0);
        }
        assert(m.dom() =~= acc.dom().union(ids.to_set()));
    } else {
        assert(acc.dom() =~= acc.dom().union(ids.to_set()));
    }
}

/// A tree whose counts fit is read back as it was written.
pub proof fn lemma_tree_round_trip(t: TreeParts)
    requires
        tree_fits(t),
    ensures
        tree_read(tree_bytes(t)) == Some(t),
{
    let ids = order::ascending32(t.pages.dom());
    order::lemma_ascending_set32(t.pages.dom());
    let s = tree_bytes(t);
    let body = pages_bytes(t.pages, ids);
    let n = t.pages.dom().len() as u32;
    let h = t.height as u32;
    let a = bytes::le32(t.root);
    let b = bytes::le32(t.next_id);
    let c = bytes::le32(h);
    let d = bytes::le32(n);
    bytes::lemma_u32_between(Seq::empty(), t.root, b + c + d + body);
    assert(s =~= Seq::<u8>::empty() + a + (b + c + d + body));
    bytes::lemma_u32_between(a, t.next_id, c + d + body);
    assert(s =~= a + b + (c + d + body));
    bytes::lemma_u32_between(a + b, h, d + body);
    assert(s =~= a + b + c + (d + body));
    bytes::lemma_u32_between(a + b + c, n, body);
    assert(s =~= a + b + c + d + body);
    assert(s.skip(16) =~= body);
    assert forall|i: int| 0 <= i < ids.len() implies node_fits(t.pages[#[trigger] ids[i]]) by {
        assert(ids.to_set().contains(ids[i]));
        assert(t.pages.contains_key(ids[i]));
    }
    lemma_pages_read(t.pages, ids, Map::empty());
    let m = pages_read(body, ids.len(), Map::empty()).unwrap();
    assert(m =~= t.pages) by {
        assert(m.dom() =~= t.pages.dom());
        assert forall|x: u32| #[trigger] m.contains_key(x) implies m[x] == t.pages[x] by {
            assert(ids.to_set().contains(x));
        }
    }
}

} // verus!
