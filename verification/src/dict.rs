//! Dictionary pages.
//!
//! A dictionary-encoded (or RLE text) column does not store its text values
//! inline. Instead it stores integer *dictionary ids*, and the actual byte
//! strings live in a *dictionary page*. A column points at its dictionary page
//! via `Column::dict_page`.
//!
//! A dictionary page is a contiguous byte buffer with this layout:
//!
//! ```text
//!   [u32 entry_count]
//!   for each entry: [u32 id][u32 len][len bytes of UTF-8]
//! ```
//!
//! The page's generation is bumped every time its buffer is replaced, because
//! the dictionary grew past the page's capacity and had to be rewritten into a
//! larger buffer.

use crate::bytes;
use crate::error::{DecodeError, Error, Result};
use crate::keymap;
use crate::keymap::KeyMap;
use crate::pager;
use crate::pager::{PageId, PageKind, Pager};
use vstd::prelude::*;

verus! {

/// The initial capacity, in bytes, of a freshly allocated dictionary page.
/// Small on purpose: a few distinct values fill it, so growing the dictionary
/// (and therefore rewriting the page) is a routine, organic operation rather
/// than something that only happens under extreme load.
pub const DICT_PAGE_CAPACITY: usize = 64;

/// Where an entry's bytes stand in the page.
#[derive(Debug, Clone, Copy, PartialEq, Eq, Structural)]
pub struct Loc {
    pub off: u32,
    pub len: u32,
}

impl View for Loc {
    type V = Loc;

    open spec fn view(&self) -> Loc {
        *self
    }
}

/// In-memory mirror of a column's dictionary: the page id and, for each entry,
/// its id and byte offset/length within the page buffer. The authoritative
/// bytes live in the pager page; this struct only records where to find them.
#[derive(Debug, Clone)]
pub struct Dict {
    pub page_id: PageId,
    pub gen: u64,
    /// `id -> (offset, len)` within the page buffer.
    entries: KeyMap<Loc>,
    /// `bytes -> id`, for interning.
    by_bytes: Vec<(Vec<u8>, u32)>,
    pub next_id: u32,
    pub capacity: usize,
}

/// The model of a dictionary mirror.
#[verifier::ext_equal]
pub struct DictModel {
    pub page_id: PageId,
    pub gen: u64,
    pub entries: Seq<(u64, Loc)>,
    pub by_bytes: Seq<(Seq<u8>, u32)>,
    pub next_id: u32,
    pub capacity: nat,
}

/// Words by id.
pub type Words = Seq<(u64, Seq<u8>)>;

pub open spec fn byte_ids(s: Seq<(Vec<u8>, u32)>) -> Seq<(Seq<u8>, u32)> {
    Seq::new(s.len(), |i: int| (s[i].0@, s[i].1))
}

/// The place of a byte string in the interning table.
pub open spec fn place_of(s: Seq<(Seq<u8>, u32)>, b: Seq<u8>) -> Option<int>
    decreases s.len(),
{
    if s.len() == 0 {
        None
    } else if s[0].0 == b {
        Some(0)
    } else {
        match place_of(s.skip(1), b) {
            Some(i) => Some(i + 1),
            None => None,
        }
    }
}

/// The id of a byte string.
pub open spec fn id_in(s: Seq<(Seq<u8>, u32)>, b: Seq<u8>) -> Option<u32> {
    match place_of(s, b) {
        Some(i) => Some(s[i].1),
        None => None,
    }
}

/// The table with an id for a byte string.
pub open spec fn id_put(s: Seq<(Seq<u8>, u32)>, b: Seq<u8>, id: u32) -> Seq<(Seq<u8>, u32)> {
    match place_of(s, b) {
        Some(i) => s.update(i, (b, id)),
        None => s.push((b, id)),
    }
}

/// The bytes at a location; none where it lies outside.
pub open spec fn text_at(buf: Seq<u8>, l: Loc) -> Seq<u8> {
    if l.off + l.len <= buf.len() {
        buf.subrange(l.off as int, l.off + l.len)
    } else {
        Seq::empty()
    }
}

/// The words that entries name in a page.
pub open spec fn words_of(entries: Seq<(u64, Loc)>, buf: Seq<u8>) -> Words {
    Seq::new(entries.len(), |i: int| (entries[i].0, text_at(buf, entries[i].1)))
}

/// One stored entry.
pub open spec fn entry_bytes(id: u32, word: Seq<u8>) -> Seq<u8> {
    bytes::le32(id) + bytes::le32(word.len() as u32) + word
}

pub open spec fn all_entries(w: Words) -> Seq<u8>
    decreases w.len(),
{
    if w.len() == 0 {
        Seq::empty()
    } else {
        all_entries(w.drop_last()) + entry_bytes(w.last().0 as u32, w.last().1)
    }
}

/// The length that words take in a page, the count included.
pub open spec fn slab_len(w: Words) -> nat
    decreases w.len(),
{
    if w.len() == 0 {
        4
    } else {
        slab_len(w.drop_last()) + 8 + w.last().1.len()
    }
}

/// A page that holds words, packed, and nothing else.
pub open spec fn slab(w: Words, capacity: nat) -> Seq<u8> {
    bytes::le32(w.len() as u32) + all_entries(w) + Seq::new((capacity - slab_len(w)) as nat, |i: int| 0u8)
}

/// Where packed words stand.
pub open spec fn locs(w: Words) -> Seq<(u64, Loc)> {
    Seq::new(
        w.len(),
        |i: int| (w[i].0, Loc { off: (slab_len(w.take(i)) + 8) as u32, len: w[i].1.len() as u32 }),
    )
}

/// The length that entries take in a page, the count included.
pub open spec fn used(entries: Seq<(u64, Loc)>) -> nat
    decreases entries.len(),
{
    if entries.len() == 0 {
        4
    } else {
        used(entries.drop_last()) + 8 + entries.last().1.len as nat
    }
}

/// `capacity` doubled until `need` fits.
pub open spec fn enlarged(capacity: nat, need: nat) -> nat
    decreases 2 * need - capacity,
{
    if capacity == 0 || capacity >= need {
        capacity
    } else {
        enlarged(2 * capacity, need)
    }
}

/// `s` with `t` written over it at an offset.
pub open spec fn written(s: Seq<u8>, at: int, t: Seq<u8>) -> Seq<u8> {
    s.take(at) + t + s.skip(at + t.len())
}

impl DictModel {
    /// The entries are a map from ids, and there is a capacity to double.
    pub open spec fn wf(self) -> bool {
        &&& keymap::ascending(self.entries)
        &&& forall|i: int| 0 <= i < self.entries.len() ==> (#[trigger] self.entries[i]).0 <= u32::MAX
        &&& 0 < self.capacity <= usize::MAX
    }

    pub open spec fn words(self, buf: Seq<u8>) -> Words {
        words_of(self.entries, buf)
    }

    /// The mirror once the page is rewritten into a slab of a capacity, the page
    /// being at generation `gen` then.
    pub open spec fn repacked(self, buf: Seq<u8>, capacity: nat, gen: u64) -> DictModel {
        DictModel { entries: locs(self.words(buf)), capacity, gen, ..self }
    }

    /// The capacity that a new word asks for.
    pub open spec fn wanted(self, word: Seq<u8>) -> nat {
        enlarged(self.capacity, used(self.entries) + 8 + word.len())
    }

    /// The mirror with a new word at the end of a page that has room for it.
    pub open spec fn appended(self, word: Seq<u8>) -> DictModel {
        DictModel {
            entries: keymap::put(
                self.entries,
                self.next_id as u64,
                Loc { off: (used(self.entries) + 8) as u32, len: word.len() as u32 },
            ),
            by_bytes: id_put(self.by_bytes, word, self.next_id),
            next_id: (self.next_id + 1) as u32,
            ..self
        }
    }

    /// The page with a new word at its end.
    pub open spec fn appended_page(self, buf: Seq<u8>, word: Seq<u8>) -> Seq<u8> {
        written(
            written(buf, used(self.entries) as int, entry_bytes(self.next_id, word)),
            0,
            bytes::le32((self.entries.len() + 1) as u32),
        )
    }

    /// What interning makes of the mirror and its page, and the id.
    pub open spec fn interned(self, page: pager::PageModel, word: Seq<u8>) -> (DictModel, pager::PageModel, u32) {
        match id_in(self.by_bytes, word) {
            Some(id) => (self, page, id),
            None => {
                if used(self.entries) + 8 + word.len() > page.buf.len() {
                    let gen = pager::next_gen(page.gen);
                    let capacity = self.wanted(word);
                    let d = self.repacked(page.buf, capacity, gen);
                    let p = pager::PageModel { buf: slab(self.words(page.buf), capacity), gen, ..page };
                    (
                        d.appended(word),
                        pager::PageModel { buf: d.appended_page(p.buf, word), ..p },
                        self.next_id,
                    )
                } else {
                    (
                        self.appended(word),
                        pager::PageModel { buf: self.appended_page(page.buf, word), ..page },
                        self.next_id,
                    )
                }
            },
        }
    }

    /// The sizes of a dictionary and a new word fit the stored form.
    pub open spec fn admits(self, buf: Seq<u8>, word: Seq<u8>) -> bool {
        &&& self.next_id < u32::MAX
        &&& self.entries.len() < u32::MAX
        &&& used(self.entries) + 8 + word.len() <= u32::MAX
        &&& slab_len(self.words(buf)) <= used(self.entries)
        &&& self.wanted(word) <= usize::MAX
    }

    /// The mirror of a page that holds the words packed, each under one id
    /// below the next.
    pub open spec fn mirrors(self, buf: Seq<u8>) -> bool {
        let w = self.words(buf);
        &&& self.wf()
        &&& self.entries == locs(w)
        &&& self.entries.len() <= u32::MAX
        &&& slab_len(w) <= self.capacity
        &&& slab_len(w) <= u32::MAX
        &&& buf == slab(w, self.capacity)
        &&& forall|i: int| 0 <= i < w.len() ==> (#[trigger] w[i]).0 < self.next_id
        &&& self.by_bytes == Seq::new(w.len(), |i: int| (w[i].1, w[i].0 as u32))
    }
}

/// A new mirror.
pub open spec fn fresh_dict(page_id: PageId) -> DictModel {
    DictModel { page_id, gen: 0, entries: Seq::empty(), by_bytes: Seq::empty(), next_id: 0, capacity: 64 }
}

// Reading a page

/// A page read up to a point.
#[verifier::ext_equal]
pub struct Reading {
    pub pos: int,
    pub entries: Seq<(u64, Loc)>,
    pub by_bytes: Seq<(Seq<u8>, u32)>,
    pub next_id: int,
    pub on: bool,
}

/// The first `n` entries of a page, up to where it is cut off.
pub open spec fn reading(buf: Seq<u8>, n: nat) -> Reading
    decreases n,
{
    if n == 0 {
        Reading { pos: 4, entries: Seq::empty(), by_bytes: Seq::empty(), next_id: 0, on: true }
    } else {
        let r = reading(buf, (n - 1) as nat);
        let id = bytes::u32_at(buf, r.pos);
        let len = bytes::u32_at(buf, r.pos + 4);
        if !r.on || r.pos + 8 > buf.len() || r.pos + 8 + len > buf.len() {
            Reading { on: false, ..r }
        } else {
            Reading {
                pos: r.pos + 8 + len,
                entries: keymap::put(r.entries, id as u64, Loc { off: (r.pos + 8) as u32, len }),
                by_bytes: id_put(r.by_bytes, buf.subrange(r.pos + 8, r.pos + 8 + len), id),
                next_id: if id >= r.next_id {
                    id + 1
                } else {
                    r.next_id
                },
                on: true,
            }
        }
    }
}

/// The mirror of a page, or nothing where its ids leave none to hand out.
pub open spec fn dict_of(page_id: PageId, buf: Seq<u8>, gen: u64) -> Option<DictModel> {
    let capacity = if buf.len() < 64 {
        64
    } else {
        buf.len()
    };
    if buf.len() < 4 {
        Some(DictModel { gen, capacity, ..fresh_dict(page_id) })
    } else {
        let r = reading(buf, bytes::u32_at(buf, 0) as nat);
        if r.next_id > u32::MAX {
            None
        } else {
            Some(
                DictModel {
                    page_id,
                    gen,
                    entries: r.entries,
                    by_bytes: r.by_bytes,
                    next_id: r.next_id as u32,
                    capacity,
                },
            )
        }
    }
}

pub proof fn lemma_place(s: Seq<(Seq<u8>, u32)>, b: Seq<u8>)
    ensures
        match place_of(s, b) {
            Some(i) => 0 <= i < s.len() && s[i].0 == b && forall|j: int| 0 <= j < i ==> (#[trigger] s[j]).0 != b,
            None => forall|j: int| 0 <= j < s.len() ==> (#[trigger] s[j]).0 != b,
        },
    decreases s.len(),
{
    if s.len() > 0 && s[0].0 != b {
        let t = s.skip(1);
        lemma_place(t, b);
        match place_of(t, b) {
            Some(i) => {
                assert(s[i + 1] == t[i]);
                assert forall|j: int| 0 <= j < i + 1 implies (#[trigger] s[j]).0 != b by {
                    if j > 0 {
                        assert(s[j] == t[j - 1]);
                    }
                }
            },
            None => {
                assert forall|j: int| 0 <= j < s.len() implies (#[trigger] s[j]).0 != b by {
                    if j > 0 {
                        assert(s[j] == t[j - 1]);
                    }
                }
            },
        }
    }
}

proof fn lemma_place_is(s: Seq<(Seq<u8>, u32)>, b: Seq<u8>, i: int)
    requires
        0 <= i < s.len(),
        s[i].0 == b,
        forall|j: int| 0 <= j < i ==> (#[trigger] s[j]).0 != b,
    ensures
        place_of(s, b) == Some(i),
{
    lemma_place(s, b);
}

pub proof fn lemma_slab_len(w: Words, n: int)
    requires
        0 <= n <= w.len(),
    ensures
        4 <= slab_len(w.take(n)) <= slab_len(w),
        all_entries(w).len() + 4 == slab_len(w),
        w.len() * 8 + 4 <= slab_len(w),
    decreases w.len(),
{
    if w.len() > 0 {
        bytes::lemma_u32_between(Seq::empty(), w.last().0 as u32, Seq::empty());
        bytes::lemma_u32_between(Seq::empty(), w.last().1.len() as u32, Seq::empty());
        if n < w.len() {
            lemma_slab_len(w.drop_last(), n);
            assert(w.drop_last().take(n) =~= w.take(n));
        } else {
            lemma_slab_len(w.drop_last(), w.len() - 1);
            assert(w.take(n) =~= w);
        }
    } else {
        assert(w.take(n) =~= w);
    }
}

/// Entry `i` stands at its place among the packed entries.
proof fn lemma_entry_at(w: Words, i: int)
    requires
        0 <= i < w.len(),
    ensures
        ({
            let at = slab_len(w.take(i)) - 4;
            let e = entry_bytes(w[i].0 as u32, w[i].1);
            &&& 0 <= at
            &&& at + e.len() <= all_entries(w).len()
            &&& all_entries(w).subrange(at, at + e.len()) == e
            &&& e.len() == 8 + w[i].1.len()
        }),
    decreases w.len(),
{
    let e = entry_bytes(w[i].0 as u32, w[i].1);
    bytes::lemma_u32_between(Seq::empty(), w[i].0 as u32, Seq::empty());
    bytes::lemma_u32_between(Seq::empty(), w[i].1.len() as u32, Seq::empty());
    lemma_slab_len(w, i);
    let d = w.drop_last();
    lemma_slab_len(d, d.len() as int);
    let at = slab_len(w.take(i)) - 4;
    if i < d.len() {
        lemma_entry_at(d, i);
        assert(d.take(i) =~= w.take(i));
        assert(all_entries(w).subrange(at, at + e.len()) =~= all_entries(d).subrange(at, at + e.len()));
    } else {
        assert(d =~= w.take(i));
        assert(all_entries(w).subrange(at, at + e.len()) =~= e);
    }
}

/// A slab holds word `i` where the packed entries say.
pub proof fn lemma_slab_entry(w: Words, capacity: nat, i: int)
    requires
        0 <= i < w.len(),
        slab_len(w) <= capacity,
        slab_len(w) <= u32::MAX,
    ensures
        ({
            let at = slab_len(w.take(i)) as int;
            let s = slab(w, capacity);
            &&& s.len() == capacity
            &&& bytes::u32_at(s, 0) == w.len()
            &&& 4 <= at
            &&& at + 8 + w[i].1.len() <= s.len()
            &&& bytes::u32_at(s, at) == w[i].0 as u32
            &&& bytes::u32_at(s, at + 4) == w[i].1.len()
            &&& s.subrange(at + 8, at + 8 + w[i].1.len()) == w[i].1
            &&& text_at(s, locs(w)[i].1) == w[i].1
        }),
{
    let s = slab(w, capacity);
    let head = bytes::le32(w.len() as u32);
    let a = all_entries(w);
    let z = Seq::new((capacity - slab_len(w)) as nat, |i: int| 0u8);
    let e = entry_bytes(w[i].0 as u32, w[i].1);
    let at = slab_len(w.take(i)) as int;
    lemma_slab_len(w, i);
    lemma_entry_at(w, i);
    bytes::lemma_u32_between(Seq::empty(), w.len() as u32, a + z);
    assert(s =~= Seq::<u8>::empty() + head + (a + z));
    assert(s.subrange(at, at + e.len()) =~= a.subrange(at - 4, at - 4 + e.len()));
    let x = bytes::le32(w[i].0 as u32);
    let y = bytes::le32(w[i].1.len() as u32);
    bytes::lemma_u32_between(Seq::empty(), w[i].0 as u32, Seq::empty());
    bytes::lemma_u32_between(Seq::empty(), w[i].1.len() as u32, Seq::empty());
    assert(s.subrange(at, at + 4) =~= e.subrange(0, 4));
    assert(e.subrange(0, 4) =~= x);
    assert(s.subrange(at + 4, at + 8) =~= e.subrange(4, 8));
    assert(e.subrange(4, 8) =~= y);
    bytes::lemma_u32_at(s, at, w[i].0 as u32);
    bytes::lemma_u32_at(s, at + 4, w[i].1.len() as u32);
    assert(s.subrange(at + 8, at + 8 + w[i].1.len()) =~= e.subrange(8, 8 + w[i].1.len() as int));
    assert(e.subrange(8, 8 + w[i].1.len() as int) =~= w[i].1);
    assert(w.take(i + 1).drop_last() =~= w.take(i));
    lemma_slab_len(w, i + 1);
    assert(slab_len(w.take(i + 1)) == at + 8 + w[i].1.len());
}

/// The words of a slab are the words that it was made of.
pub proof fn lemma_slab_words(w: Words, capacity: nat)
    requires
        slab_len(w) <= capacity,
        slab_len(w) <= u32::MAX,
    ensures
        words_of(locs(w), slab(w, capacity)) == w,
        used(locs(w)) == slab_len(w),
{
    let s = slab(w, capacity);
    assert forall|i: int| 0 <= i < w.len() implies #[trigger] words_of(locs(w), s)[i] == w[i] by {
        lemma_slab_entry(w, capacity, i);
    }
    assert(words_of(locs(w), s) =~= w);
    lemma_used_locs(w);
}

proof fn lemma_used_locs(w: Words)
    requires
        slab_len(w) <= u32::MAX,
    ensures
        used(locs(w)) == slab_len(w),
    decreases w.len(),
{
    if w.len() > 0 {
        let d = w.drop_last();
        lemma_slab_len(w, d.len() as int);
        assert(w.take(d.len() as int) =~= d);
        lemma_used_locs(d);
        assert(locs(w).drop_last() =~= locs(d)) by {
            assert forall|i: int| 0 <= i < d.len() implies locs(w)[i] == #[trigger] locs(d)[i] by {
                assert(d.take(i) =~= w.take(i));
            }
        }
    }
}

proof fn lemma_enlarged(capacity: nat, need: nat)
    requires
        0 < capacity,
    ensures
        enlarged(capacity, need) >= need,
        enlarged(capacity, need) >= capacity,
        enlarged(capacity, need) == capacity || enlarged(capacity, need) < 2 * need,
    decreases 2 * need - capacity,
{
    if capacity < need {
        lemma_enlarged(2 * capacity, need);
    }
}

/// A word written behind packed words is packed with them.
proof fn lemma_append_slab(w: Words, capacity: nat, id: u32, word: Seq<u8>)
    requires
        slab_len(w) + 8 + word.len() <= capacity,
        slab_len(w) + 8 + word.len() <= u32::MAX,
        w.len() < u32::MAX,
    ensures
        written(
            written(slab(w, capacity), slab_len(w) as int, entry_bytes(id, word)),
            0,
            bytes::le32((w.len() + 1) as u32),
        ) == slab(w.push((id as u64, word)), capacity),
        slab_len(w.push((id as u64, word))) == slab_len(w) + 8 + word.len(),
        locs(w.push((id as u64, word))) == locs(w).push(
            (id as u64, Loc { off: (slab_len(w) + 8) as u32, len: word.len() as u32 }),
        ),
{
    let v = w.push((id as u64, word));
    assert(v.drop_last() =~= w);
    lemma_slab_len(w, w.len() as int);
    lemma_slab_len(v, v.len() as int);
    let e = entry_bytes(id, word);
    bytes::lemma_u32_between(Seq::empty(), id, Seq::empty());
    bytes::lemma_u32_between(Seq::empty(), word.len() as u32, Seq::empty());
    bytes::lemma_u32_between(Seq::empty(), w.len() as u32, Seq::empty());
    bytes::lemma_u32_between(Seq::empty(), (w.len() + 1) as u32, Seq::empty());
    let s = slab(w, capacity);
    let a = written(s, slab_len(w) as int, e);
    let head = bytes::le32((w.len() + 1) as u32);
    let b = written(a, 0, head);
    let t = slab(v, capacity);
    assert(all_entries(v) == all_entries(w) + e);
    assert(b =~= t);
    assert(locs(v) =~= locs(w).push((id as u64, Loc { off: (slab_len(w) + 8) as u32, len: word.len() as u32 })))
        by {
        assert forall|i: int| 0 <= i < w.len() implies #[trigger] locs(v)[i] == locs(w)[i] by {
            assert(v.take(i) =~= w.take(i));
        }
        assert(v.take(w.len() as int) =~= w);
    }
}

/// A true mirror stays true when the page is rewritten into a slab that holds
/// its words.
proof fn lemma_repacked_mirrors(d: DictModel, buf: Seq<u8>, capacity: nat, gen: u64)
    requires
        d.mirrors(buf),
        slab_len(d.words(buf)) <= capacity <= usize::MAX,
    ensures
        d.repacked(buf, capacity, gen).mirrors(slab(d.words(buf), capacity)),
        d.repacked(buf, capacity, gen).words(slab(d.words(buf), capacity)) == d.words(buf),
        slab(d.words(buf), capacity).len() == capacity,
{
    let w = d.words(buf);
    lemma_slab_words(w, capacity);
    lemma_slab_len(w, w.len() as int);
    bytes::lemma_u32_between(Seq::empty(), w.len() as u32, Seq::empty());
}

/// A true mirror stays true when a new word is written at the end of a page that
/// has room for it.
proof fn lemma_appended_mirrors(d: DictModel, buf: Seq<u8>, word: Seq<u8>)
    requires
        d.mirrors(buf),
        id_in(d.by_bytes, word) is None,
        d.next_id < u32::MAX,
        d.entries.len() < u32::MAX,
        used(d.entries) + 8 + word.len() <= u32::MAX,
        used(d.entries) + 8 + word.len() <= buf.len(),
    ensures
        d.appended(word).mirrors(d.appended_page(buf, word)),
        id_in(d.appended(word).by_bytes, word) == Some(d.next_id),
        d.appended(word).words(d.appended_page(buf, word)) == d.words(buf).push((d.next_id as u64, word)),
{
    let w = d.words(buf);
    let e = d.appended(word);
    let page = d.appended_page(buf, word);
    let v = w.push((d.next_id as u64, word));
    let l = Loc { off: (slab_len(w) + 8) as u32, len: word.len() as u32 };
    lemma_repacked_mirrors(d, buf, d.capacity, d.gen);
    lemma_used_locs(w);
    lemma_append_slab(w, d.capacity, d.next_id, word);
    assert forall|i: int| 0 <= i < d.entries.len() implies (#[trigger] d.entries[i]).0 < d.next_id by {
        assert(w[i].0 < d.next_id);
    }
    keymap::lemma_put_last(d.entries, d.next_id as u64, l);
    keymap::lemma_put(d.entries, d.next_id as u64, l, 0);
    lemma_put_ids(d.entries, d.next_id, l);
    assert(e.entries == locs(v));
    assert(page == slab(v, d.capacity));
    lemma_slab_words(v, d.capacity);
    lemma_place(d.by_bytes, word);
    assert(e.by_bytes =~= Seq::new(v.len(), |i: int| (v[i].1, v[i].0 as u32)));
    lemma_place_is(e.by_bytes, word, w.len() as int);
    assert forall|i: int| 0 <= i < v.len() implies (#[trigger] v[i]).0 < e.next_id by {
        if i < w.len() {
            assert(w[i].0 < d.next_id);
        }
    }
}

/// Interning keeps a mirror true to its page. A known word keeps its id; a new
/// one gets the next id and is read back under it; the other words stay.
pub proof fn lemma_interned(d: DictModel, page: pager::PageModel, word: Seq<u8>)
    requires
        d.mirrors(page.buf),
        d.admits(page.buf, word),
    ensures
        ({
            let (e, p, id) = d.interned(page, word);
            &&& e.mirrors(p.buf)
            &&& id_in(e.by_bytes, word) == Some(id)
            &&& e.words(p.buf) == if id_in(d.by_bytes, word) is Some {
                d.words(page.buf)
            } else {
                d.words(page.buf).push((d.next_id as u64, word))
            }
        }),
{
    if id_in(d.by_bytes, word) is None {
        if used(d.entries) + 8 + word.len() > page.buf.len() {
            let capacity = d.wanted(word);
            let gen = pager::next_gen(page.gen);
            lemma_enlarged(d.capacity, used(d.entries) + 8 + word.len());
            lemma_repacked_mirrors(d, page.buf, capacity, gen);
            lemma_used_locs(d.words(page.buf));
            lemma_appended_mirrors(d.repacked(page.buf, capacity, gen), slab(d.words(page.buf), capacity), word);
        } else {
            lemma_appended_mirrors(d, page.buf, word);
        }
    }
}

/// Every word once, the next id behind the last, and the least capacity or more.
pub open spec fn in_order(d: DictModel) -> bool {
    &&& d.capacity >= 64
    &&& forall|i: int, j: int|
        0 <= i < j < d.by_bytes.len() ==> (#[trigger] d.by_bytes[i]).0 != (#[trigger] d.by_bytes[j]).0
    &&& d.next_id == if d.entries.len() == 0 {
        0
    } else {
        d.entries.last().0 + 1
    }
}

/// Interning keeps a mirror in order, and every word where it stood.
pub proof fn lemma_interned_order(d: DictModel, page: pager::PageModel, word: Seq<u8>)
    requires
        d.mirrors(page.buf),
        d.admits(page.buf, word),
        in_order(d),
    ensures
        ({
            let (e, p, id) = d.interned(page, word);
            &&& in_order(e)
            &&& e.page_id == d.page_id
            &&& p.kind == page.kind
            &&& p.id == page.id
            &&& forall|k: u64|
                keymap::find(d.entries, k) is Some ==> #[trigger] keymap::find(e.entries, k) == keymap::find(d.entries, k)
        }),
{
    if id_in(d.by_bytes, word) is None {
        let (e, p, id) = d.interned(page, word);
        lemma_enlarged(d.capacity, used(d.entries) + 8 + word.len());
        lemma_place(d.by_bytes, word);
        let l = Loc { off: (used(d.entries) + 8) as u32, len: word.len() as u32 };
        let w = d.words(page.buf);
        assert(locs(w) == d.entries);
        assert forall|i: int| 0 <= i < d.entries.len() implies (#[trigger] d.entries[i]).0 < d.next_id by {
            assert(w[i].0 < d.next_id);
        }
        assert(e.entries == keymap::put(d.entries, d.next_id as u64, l));
        keymap::lemma_put_last(d.entries, d.next_id as u64, l);
        assert forall|k: u64| keymap::find(d.entries, k) is Some implies #[trigger] keymap::find(e.entries, k)
            == keymap::find(d.entries, k) by {
            keymap::lemma_put(d.entries, d.next_id as u64, l, k);
            keymap::lemma_rank(d.entries, k);
        }
        assert(e.by_bytes =~= d.by_bytes.push((word, d.next_id)));
    }
}

/// A page of packed words whose ids ascend and are below the last there is, each
/// word there once, is read back as its mirror.
pub proof fn lemma_dict_round_trip(d: DictModel, buf: Seq<u8>)
    requires
        d.mirrors(buf),
        d.capacity >= 64,
        forall|i: int, j: int|
            0 <= i < j < d.by_bytes.len() ==> (#[trigger] d.by_bytes[i]).0 != (#[trigger] d.by_bytes[j]).0,
        d.next_id == if d.entries.len() == 0 {
            0
        } else {
            d.entries.last().0 + 1
        },
    ensures
        dict_of(d.page_id, buf, d.gen) == Some(d),
{
    let w = d.words(buf);
    lemma_slab_len(w, w.len() as int);
    bytes::lemma_u32_between(Seq::empty(), w.len() as u32, all_entries(w));
    assert(buf.len() == d.capacity);
    if w.len() == 0 {
        let z = Seq::new((d.capacity - slab_len(w)) as nat, |i: int| 0u8);
        bytes::lemma_u32_between(Seq::empty(), w.len() as u32, z);
        assert(buf =~= Seq::<u8>::empty() + bytes::le32(w.len() as u32) + z);
    } else {
        lemma_slab_entry(w, d.capacity, 0);
    }
    lemma_reading(d, buf, w.len());
    let r = reading(buf, w.len());
    assert(d.entries.take(w.len() as int) =~= d.entries);
    assert(d.by_bytes.take(w.len() as int) =~= d.by_bytes);
    assert(dict_of(d.page_id, buf, d.gen)->0 =~= d);
}

proof fn lemma_reading(d: DictModel, buf: Seq<u8>, n: nat)
    requires
        d.mirrors(buf),
        n <= d.entries.len(),
        forall|i: int, j: int|
            0 <= i < j < d.by_bytes.len() ==> (#[trigger] d.by_bytes[i]).0 != (#[trigger] d.by_bytes[j]).0,
    ensures
        reading(buf, n) == (Reading {
            pos: slab_len(d.words(buf).take(n as int)) as int,
            entries: d.entries.take(n as int),
            by_bytes: d.by_bytes.take(n as int),
            next_id: if n == 0 {
                0
            } else {
                d.entries[n - 1].0 + 1
            },
            on: true,
        }),
    decreases n,
{
    let w = d.words(buf);
    if n > 0 {
        lemma_reading(d, buf, (n - 1) as nat);
        let k = n - 1;
        lemma_slab_entry(w, d.capacity, k);
        keymap::lemma_take_ascending(d.entries, k);
        assert(w.take(n as int).drop_last() =~= w.take(k));
        let r = reading(buf, k as nat);
        assert(w[k].0 < d.next_id);
        assert(d.entries[k] == locs(w)[k]);
        lemma_place(r.by_bytes, w[k].1);
        assert(place_of(r.by_bytes, w[k].1) is None) by {
            if place_of(r.by_bytes, w[k].1) is Some {
                let j = place_of(r.by_bytes, w[k].1)->0;
                assert(r.by_bytes[j] == d.by_bytes[j]);
                assert(d.by_bytes[j].0 != d.by_bytes[k].0);
            }
        }
        assert(r.by_bytes.push((w[k].1, w[k].0 as u32)) =~= d.by_bytes.take(n as int));
        if k > 0 {
            assert(d.entries[k - 1].0 < d.entries[k].0);
        }
        assert(reading(buf, n) =~= (Reading {
            pos: slab_len(w.take(n as int)) as int,
            entries: d.entries.take(n as int),
            by_bytes: d.by_bytes.take(n as int),
            next_id: d.entries[n - 1].0 + 1,
            on: true,
        }));
    } else {
        assert(d.entries.take(0) =~= Seq::empty());
        assert(d.by_bytes.take(0) =~= Seq::empty());
        assert(w.take(0) =~= Seq::empty());
    }
}

impl View for Dict {
    type V = DictModel;

    closed spec fn view(&self) -> DictModel {
        DictModel {
            page_id: self.page_id,
            gen: self.gen,
            entries: self.entries@,
            by_bytes: byte_ids(self.by_bytes@),
            next_id: self.next_id,
            capacity: self.capacity as nat,
        }
    }
}

impl Dict {
    pub open spec fn wf(self) -> bool {
        self@.wf()
    }

    pub fn new(page_id: PageId) -> (r: Dict)
        ensures
            r.wf(),
            r@ == fresh_dict(page_id),
    {
        let r = Dict {
            page_id,
            gen: 0,
            entries: KeyMap::new(),
            by_bytes: Vec::new(),
            next_id: 0,
            capacity: DICT_PAGE_CAPACITY,
        };
        assert(r@ =~= fresh_dict(page_id));
        r
    }

    /// The page that holds the words.
    pub fn page(&self) -> (r: PageId)
        ensures
            r == self@.page_id,
    {
        self.page_id
    }

    /// The generation of the page that is mirrored.
    pub fn generation(&self) -> (r: u64)
        ensures
            r == self@.gen,
    {
        self.gen
    }

    pub fn len(&self) -> (r: usize)
        ensures
            r == self@.entries.len(),
    {
        self.entries.len()
    }

    pub fn is_empty(&self) -> (r: bool)
        ensures
            r == (self@.entries.len() == 0),
    {
        self.entries.len() == 0
    }

    fn find_word(&self, word: &[u8]) -> (r: Option<usize>)
        ensures
            match r {
                Some(i) => i < self.by_bytes@.len() && place_of(self@.by_bytes, word@) == Some(i as int),
                None => place_of(self@.by_bytes, word@) is None,
            },
    {
        let mut i: usize = 0;
        while i < self.by_bytes.len()
            invariant
                i <= self.by_bytes@.len(),
                forall|j: int| 0 <= j < i ==> (#[trigger] self@.by_bytes[j]).0 != word@,
            decreases self.by_bytes@.len() - i,
        {
            if bytes::bytes_eq(self.by_bytes[i].0.as_slice(), word) {
                assert(self@.by_bytes[i as int].0 == word@);
                proof {
                    lemma_place_is(self@.by_bytes, word@, i as int);
                }
                return Some(i);
            }
            i += 1;
        }
        proof {
            lemma_place(self@.by_bytes, word@);
        }
        None
    }

    /// Look up the id for a byte string, if interned.
    pub fn id_of(&self, word: &[u8]) -> (r: Option<u32>)
        ensures
            r == id_in(self@.by_bytes, word@),
    {
        match self.find_word(word) {
            Some(i) => Some(self.by_bytes[i].1),
            None => None,
        }
    }

    /// Look up the byte string for an id, reading from the pager page.
    pub fn bytes_of<'a>(&self, pager: &'a Pager, id: u32) -> (r: Option<&'a [u8]>)
        requires
            self.wf(),
            pager.wf(),
        ensures
            match r {
                Some(b) => word_of(self@, pager@, id) == Some(b@),
                None => word_of(self@, pager@, id) is None,
            },
    {
        let loc: Loc = match self.entries.get(id as u64) {
            Some(l) => *l,
            None => return None,
        };
        let page = match pager.get(self.page_id) {
            Some(p) => p,
            None => return None,
        };
        let off: usize = loc.off as usize;
        let len: usize = loc.len as usize;
        if off > page.buf.len() || len > page.buf.len() - off {
            return None;
        }
        Some(vstd::slice::slice_subrange(page.buf.as_slice(), off, off + len))
    }

    /// The offset/length recorded for an id (without touching the pager).
    pub fn location_of(&self, id: u32) -> (r: Option<(u32, u32)>)
        requires
            self.wf(),
        ensures
            r == (match keymap::find(self@.entries, id as u64) {
                Some(l) => Some((l.off, l.len)),
                None => None,
            }),
    {
        match self.entries.get(id as u64) {
            Some(l) => Some((l.off, l.len)),
            None => None,
        }
    }

    /// The locations of all entries, ascending by id.
    pub fn locations(&self) -> (r: Vec<(u32, u32, u32)>)
        requires
            self.wf(),
        ensures
            r@.len() == self@.entries.len(),
            forall|i: int|
                0 <= i < r@.len() ==> (#[trigger] r@[i]).0 == self@.entries[i].0 && r@[i].1
                    == self@.entries[i].1.off && r@[i].2 == self@.entries[i].1.len,
    {
        let mut out: Vec<(u32, u32, u32)> = Vec::new();
        let mut i: usize = 0;
        while i < self.entries.len()
            invariant
                i <= self@.entries.len(),
                self.wf(),
                self.entries@ == self@.entries,
                out@.len() == i,
                forall|j: int|
                    0 <= j < i ==> (#[trigger] out@[j]).0 == self@.entries[j].0 && out@[j].1
                        == self@.entries[j].1.off && out@[j].2 == self@.entries[j].1.len,
            decreases self@.entries.len() - i,
        {
            let l: Loc = *self.entries.value_at(i);
            assert(self@.entries[i as int].0 <= u32::MAX);
            out.push((self.entries.key_at(i) as u32, l.off, l.len));
            i += 1;
        }
        out
    }

    /// Bytes currently used in the page slab (count header + all entries). The
    /// remainder of the slab up to `capacity` is zero padding.
    pub fn used_bytes(&self) -> (r: usize)
        requires
            used(self@.entries) <= usize::MAX,
        ensures
            r == used(self@.entries),
    {
        let mut total: usize = 4;
        let mut i: usize = 0;
        let ghost e = self@.entries;
        assert(e.take(0) =~= Seq::empty());
        while i < self.entries.len()
            invariant
                i <= e.len(),
                e == self@.entries,
                self.entries@ == e,
                total == used(e.take(i as int)),
                used(e) <= usize::MAX,
            decreases e.len() - i,
        {
            proof {
                assert(e.take(i + 1).drop_last() =~= e.take(i as int));
                lemma_used(e, i + 1);
            }
            total = total + 8 + self.entries.value_at(i).len as usize;
            i += 1;
        }
        assert(e.take(i as int) =~= e);
        total
    }

    /// Whether the sizes of the dictionary and a new word fit the stored form.
    pub fn admits_word(&self, buf: &[u8], word: &[u8]) -> (r: bool)
        requires
            self.wf(),
        ensures
            r == self@.admits(buf@, word@),
    {
        let ghost e = self@.entries;
        let ghost w = self@.words(buf@);
        let mut need: u64 = 4;
        let mut packed: u64 = 4;
        let mut i: usize = 0;
        assert(e.take(0) =~= Seq::empty());
        assert(w.take(0) =~= Seq::empty());
        while i < self.entries.len()
            invariant
                i <= e.len(),
                e == self@.entries,
                self.entries@ == e,
                w == words_of(e, buf@),
                need == used(e.take(i as int)),
                packed == slab_len(w.take(i as int)),
                packed <= need <= 0xFFFF_FFFF,
            decreases e.len() - i,
        {
            let l: Loc = *self.entries.value_at(i);
            proof {
                assert(e.take(i + 1).drop_last() =~= e.take(i as int));
                assert(w.take(i + 1).drop_last() =~= w.take(i as int));
                lemma_used(e, i + 1);
                assert(w[i as int].1.len() <= l.len);
            }
            need = need + 8 + l.len as u64;
            if need > 0xFFFF_FFFF {
                return false;
            }
            let there: bool = l.off as usize <= buf.len() && l.len as usize <= buf.len() - l.off as usize;
            packed = packed + 8 + if there {
                l.len as u64
            } else {
                0
            };
            i += 1;
        }
        assert(e.take(i as int) =~= e);
        assert(w.take(i as int) =~= w);
        if self.next_id == u32::MAX || self.entries.len() as u64 >= 0xFFFF_FFFF || word.len() as u64 > 0xFFFF_FFFF
            || need + 8 + word.len() as u64 > 0xFFFF_FFFF {
            return false;
        }
        let total: usize = need as usize + 8 + word.len();
        let mut capacity: usize = self.capacity;
        while capacity < total
            invariant
                0 < capacity,
                total <= u32::MAX,
                enlarged(capacity as nat, total as nat) == enlarged(self@.capacity, total as nat),
                total == used(e) + 8 + word@.len(),
                e == self@.entries,
            decreases 2 * total - capacity,
        {
            if capacity > usize::MAX / 2 {
                proof {
                    lemma_enlarged((2 * capacity) as nat, total as nat);
                }
                return false;
            }
            capacity = capacity * 2;
        }
        true
    }

    /// Rewrite the page into a slab of a given capacity, every entry packed
    /// contiguously in id order, and note the page's new generation.
    fn repack(&mut self, pager: &mut Pager, capacity: usize)
        requires
            old(self).wf(),
            old(pager).wf(),
            old(pager)@.page(old(self)@.page_id) is Some,
            capacity > 0,
            slab_len(old(self)@.words(old(pager)@.page(old(self)@.page_id)->0.buf)) <= capacity,
            slab_len(old(self)@.words(old(pager)@.page(old(self)@.page_id)->0.buf)) <= u32::MAX,
        ensures
            final(self).wf(),
            final(pager).wf(),
            ({
                let p = old(pager)@.page(old(self)@.page_id)->0;
                let gen = pager::next_gen(p.gen);
                &&& final(self)@ == old(self)@.repacked(p.buf, capacity as nat, gen)
                &&& final(pager)@ == old(pager)@.with_page(
                    old(self)@.page_id,
                    pager::PageModel { buf: slab(old(self)@.words(p.buf), capacity as nat), gen, ..p },
                )
            }),
    {
        let ghost d = self@;
        let ghost p = pager@.page(d.page_id)->0;
        let ghost w = d.words(p.buf);
        let n: usize = self.entries.len();
        proof {
            lemma_slab_len(w, w.len() as int);
            bytes::lemma_u32_between(Seq::empty(), n as u32, Seq::empty());
        }
        let mut buf: Vec<u8> = Vec::new();
        bytes::put_u32(&mut buf, n as u32);
        let mut entries: KeyMap<Loc> = KeyMap::new();
        let mut i: usize = 0;
        assert(w.take(0) =~= Seq::empty());
        assert(entries@ =~= locs(w.take(0)));
        while i < n
            invariant
                i <= n,
                n == d.entries.len(),
                d == self@,
                d.wf(),
                self.entries@ == d.entries,
                self.page_id == d.page_id,
                pager.wf(),
                pager@ == old(pager)@,
                pager@.page(d.page_id) == Some(p),
                w == d.words(p.buf),
                slab_len(w) <= u32::MAX,
                buf@ == bytes::le32(n as u32) + all_entries(w.take(i as int)),
                buf@.len() == slab_len(w.take(i as int)),
                entries.wf(),
                entries@ == locs(w.take(i as int)),
            decreases n - i,
        {
            let id: u64 = self.entries.key_at(i);
            let loc: Loc = *self.entries.value_at(i);
            let off: usize = buf.len();
            let page = match pager.get(self.page_id) {
                Some(q) => q,
                None => {
                    return;
                },
            };
            let (from, to): (usize, usize) = if loc.off as usize <= page.buf.len() && loc.len as usize
                <= page.buf.len() - loc.off as usize {
                (loc.off as usize, loc.off as usize + loc.len as usize)
            } else {
                (0, 0)
            };
            let word = bytes::copy_range(page.buf.as_slice(), from, to);
            assert(word@ =~= w[i as int].1);
            proof {
                assert(w.take(i + 1).drop_last() =~= w.take(i as int));
                lemma_slab_len(w, i + 1);
                lemma_slab_len(w, i as int);
                assert(w[i as int].0 == id);
                assert(d.entries[i as int].0 <= u32::MAX);
            }
            bytes::put_u32(&mut buf, id as u32);
            bytes::put_u32(&mut buf, word.len() as u32);
            bytes::put_bytes(&mut buf, word.as_slice());
            proof {
                bytes::lemma_u32_between(Seq::empty(), id as u32, Seq::empty());
                bytes::lemma_u32_between(Seq::empty(), word@.len() as u32, Seq::empty());
                assert(buf@ =~= bytes::le32(n as u32) + all_entries(w.take(i + 1)));
                let l = Loc { off: (off + 8) as u32, len: word@.len() as u32 };
                assert forall|j: int| 0 <= j < entries@.len() implies (#[trigger] entries@[j]).0 < id by {
                    assert(entries@[j].0 == w[j].0);
                    assert(d.entries[j].0 < d.entries[i as int].0);
                }
                keymap::lemma_put_last(entries@, id, l);
                assert(entries@.push((id, l)) =~= locs(w.take(i + 1))) by {
                    assert forall|j: int| 0 <= j < i implies #[trigger] locs(w.take(i + 1))[j] == locs(
                        w.take(i as int),
                    )[j] by {
                        assert(w.take(i + 1).take(j) =~= w.take(i as int).take(j));
                    }
                    assert(w.take(i + 1).take(i as int) =~= w.take(i as int));
                }
            }
            entries.insert(id, Loc { off: (off + 8) as u32, len: word.len() as u32 });
            i += 1;
        }
        assert(w.take(i as int) =~= w);
        let ghost packed = buf@;
        while buf.len() < capacity
            invariant
                slab_len(w) <= buf@.len() <= capacity,
                packed.len() == slab_len(w),
                buf@ == packed + Seq::new((buf@.len() - slab_len(w)) as nat, |i: int| 0u8),
            decreases capacity - buf@.len(),
        {
            let ghost was = buf@;
            buf.push(0);
            assert(buf@ =~= packed + Seq::new((buf@.len() - slab_len(w)) as nat, |i: int| 0u8));
        }
        assert(buf@ =~= slab(w, capacity as nat));
        let _ = pager.replace_buf(self.page_id, buf);
        proof {
            keymap::lemma_put(
                old(pager)@.pages,
                d.page_id as u64,
                pager::PageModel { buf: slab(w, capacity as nat), gen: pager::next_gen(p.gen), ..p },
                d.page_id as u64,
            );
        }
        let gen: u64 = match pager.get(self.page_id) {
            Some(q) => q.gen,
            None => 0,
        };
        self.gen = gen;
        self.capacity = capacity;
        self.entries = entries;
        proof {
            assert(self@ =~= d.repacked(p.buf, capacity as nat, pager::next_gen(p.gen)));
            assert forall|i: int| 0 <= i < self@.entries.len() implies (#[trigger] self@.entries[i]).0 <= u32::MAX by {
                assert(d.entries[i].0 <= u32::MAX);
                assert(w[i].0 == d.entries[i].0);
            }
        }
    }

    /// Grow the dictionary page: a new slab of doubled capacity, every entry
    /// copied into it packed contiguously in id order, replaces the page's
    /// buffer.
    pub fn grow(&mut self, pager: &mut Pager) -> (r: Result<()>)
        requires
            old(self).wf(),
            old(pager).wf(),
            old(pager)@.page(old(self)@.page_id) is Some,
            2 * old(self)@.capacity <= usize::MAX,
            slab_len(old(self)@.words(old(pager)@.page(old(self)@.page_id)->0.buf)) <= 2 * old(self)@.capacity,
            slab_len(old(self)@.words(old(pager)@.page(old(self)@.page_id)->0.buf)) <= u32::MAX,
        ensures
            r is Ok,
            final(self).wf(),
            final(pager).wf(),
            ({
                let p = old(pager)@.page(old(self)@.page_id)->0;
                let gen = pager::next_gen(p.gen);
                let capacity = 2 * old(self)@.capacity;
                &&& final(self)@ == old(self)@.repacked(p.buf, capacity, gen)
                &&& final(pager)@ == old(pager)@.with_page(
                    old(self)@.page_id,
                    pager::PageModel { buf: slab(old(self)@.words(p.buf), capacity), gen, ..p },
                )
            }),
    {
        let capacity: usize = self.capacity * 2;
        self.repack(pager, capacity);
        Ok(())
    }

    /// Intern a byte string, returning its id. If the string is new and the
    /// page slab cannot hold it, the page is rewritten into a larger slab
    /// (which bumps the generation). A routine intern that fits writes into
    /// the existing slab in place.
    pub fn intern(&mut self, pager: &mut Pager, word: &[u8]) -> (r: Result<u32>)
        requires
            old(self).wf(),
            old(pager).wf(),
            id_in(old(self)@.by_bytes, word@) is None ==> old(pager)@.page(old(self)@.page_id) is Some && old(self)@.admits(
                old(pager)@.page(old(self)@.page_id)->0.buf,
                word@,
            ),
        ensures
            final(self).wf(),
            final(pager).wf(),
            ({
                let p = old(pager)@.page(old(self)@.page_id)->0;
                let (d, q, i) = old(self)@.interned(p, word@);
                &&& final(self)@ == d
                &&& r == Ok::<u32, Error>(i)
                &&& final(pager)@ == if id_in(old(self)@.by_bytes, word@) is Some {
                    old(pager)@
                } else {
                    old(pager)@.with_page(old(self)@.page_id, q)
                }
            }),
    {
        match self.id_of(word) {
            Some(id) => {
                return Ok(id);
            },
            None => {},
        }
        let ghost d = self@;
        let ghost m = pager@;
        let ghost p = m.page(d.page_id)->0;
        let need: usize = self.used_bytes() + 8 + word.len();
        let room: usize = match pager.get(self.page_id) {
            Some(q) => q.buf.len(),
            None => 0,
        };
        if need > room {
            let mut capacity: usize = self.capacity;
            proof {
                lemma_enlarged(d.capacity, need as nat);
            }
            while capacity < need
                invariant
                    0 < capacity,
                    need <= u32::MAX,
                    enlarged(capacity as nat, need as nat) == enlarged(d.capacity, need as nat),
                    enlarged(d.capacity, need as nat) <= usize::MAX,
                decreases 2 * need - capacity,
            {
                proof {
                    lemma_enlarged((2 * capacity) as nat, need as nat);
                }
                capacity = capacity * 2;
            }
            self.repack(pager, capacity);
        }
        let ghost f = self@;
        let ghost q = pager@.page(f.page_id)->0;
        proof {
            if need > room {
                let np = pager::PageModel {
                    buf: slab(d.words(p.buf), d.wanted(word@)),
                    gen: pager::next_gen(p.gen),
                    ..p
                };
                keymap::lemma_put(m.pages, d.page_id as u64, np, d.page_id as u64);
                lemma_used_locs(d.words(p.buf));
                lemma_enlarged(d.capacity, need as nat);
                bytes::lemma_u32_between(Seq::empty(), d.words(p.buf).len() as u32, Seq::empty());
                lemma_slab_len(d.words(p.buf), d.words(p.buf).len() as int);
                assert(q.buf.len() == d.wanted(word@));
            }
        }
        self.append(pager, word);
        proof {
            if need > room {
                let k = d.page_id as u64;
                let np = pager::PageModel { buf: f.appended_page(q.buf, word@), ..q };
                lemma_put_put(m.pages, k, q, np);
            }
        }
        Ok(self.next_id - 1)
    }

    fn append(&mut self, pager: &mut Pager, word: &[u8])
        requires
            old(self).wf(),
            old(pager).wf(),
            old(pager)@.page(old(self)@.page_id) is Some,
            id_in(old(self)@.by_bytes, word@) is None,
            old(self)@.next_id < u32::MAX,
            old(self)@.entries.len() < u32::MAX,
            used(old(self)@.entries) + 8 + word@.len() <= u32::MAX,
            used(old(self)@.entries) + 8 + word@.len() <= old(pager)@.page(old(self)@.page_id)->0.buf.len(),
        ensures
            final(self).wf(),
            final(pager).wf(),
            final(self)@ == old(self)@.appended(word@),
            final(pager)@ == old(pager)@.with_page(
                old(self)@.page_id,
                pager::PageModel {
                    buf: old(self)@.appended_page(old(pager)@.page(old(self)@.page_id)->0.buf, word@),
                    ..old(pager)@.page(old(self)@.page_id)->0
                },
            ),
    {
        let ghost d = self@;
        let ghost p = pager@.page(d.page_id)->0;
        let off: usize = self.used_bytes();
        let id: u32 = self.next_id;
        let mut buf: Vec<u8> = Vec::new();
        proof {
            lemma_used(d.entries, d.entries.len() as int);
            bytes::lemma_u32_between(Seq::empty(), id, Seq::empty());
            bytes::lemma_u32_between(Seq::empty(), word@.len() as u32, Seq::empty());
            bytes::lemma_u32_between(Seq::empty(), (d.entries.len() + 1) as u32, Seq::empty());
        }
        match pager.get(self.page_id) {
            Some(q) => {
                bytes::put_u32(&mut buf, (self.entries.len() + 1) as u32);
                bytes::put_bytes(&mut buf, vstd::slice::slice_subrange(q.buf.as_slice(), 4, off));
                bytes::put_u32(&mut buf, id);
                bytes::put_u32(&mut buf, word.len() as u32);
                bytes::put_bytes(&mut buf, word);
                let rest: usize = off + 8 + word.len();
                bytes::put_bytes(&mut buf, vstd::slice::slice_subrange(q.buf.as_slice(), rest, q.buf.len()));
            },
            None => {},
        }
        assert(buf@ =~= d.appended_page(p.buf, word@));
        let _ = pager.set_buf(self.page_id, buf);
        self.entries.insert(id as u64, Loc { off: (off + 8) as u32, len: word.len() as u32 });
        let copy = bytes::copy_range(word, 0, word.len());
        assert(copy@ =~= word@);
        let ghost was = self.by_bytes@;
        self.by_bytes.push((copy, id));
        self.next_id = id + 1;
        proof {
            assert(byte_ids(self.by_bytes@) =~= byte_ids(was).push((word@, id)));
            assert(self@ =~= d.appended(word@));
            let l = Loc { off: (off + 8) as u32, len: word@.len() as u32 };
            lemma_put_ids(d.entries, id, l);
        }
    }

    /// Build a `Dict` mirror from a decoded dict page buffer.
    pub fn from_page(page_id: PageId, buf: &[u8], gen: u64) -> (r: Result<Dict>)
        ensures
            match r {
                Ok(d) => d.wf() && dict_of(page_id, buf@, gen) == Some(d@),
                Err(e) => dict_of(page_id, buf@, gen) is None && e == Error::Decode(DecodeError::BadEncoding),
            },
    {
        let mut dict = Dict::new(page_id);
        dict.gen = gen;
        dict.capacity = if buf.len() < DICT_PAGE_CAPACITY {
            DICT_PAGE_CAPACITY
        } else {
            buf.len()
        };
        if buf.len() < 4 {
            assert(Some(dict@) =~= dict_of(page_id, buf@, gen));
            return Ok(dict);
        }
        let count: u32 = bytes::get_u32(buf, 0);
        let mut pos: usize = 4;
        let mut next: u64 = 0;
        let mut i: u32 = 0;
        let mut on: bool = true;
        while on && i < count
            invariant
                i <= count,
                4 <= pos <= buf@.len(),
                next <= 0x1_0000_0000,
                dict.wf(),
                dict@ == (DictModel {
                    page_id,
                    gen,
                    entries: dict@.entries,
                    by_bytes: dict@.by_bytes,
                    next_id: 0,
                    capacity: if buf@.len() < 64 {
                        64
                    } else {
                        buf@.len()
                    },
                }),
                reading(buf@, i as nat) == (Reading {
                    pos: pos as int,
                    entries: dict@.entries,
                    by_bytes: dict@.by_bytes,
                    next_id: next as int,
                    on,
                }),
            decreases count - i,
        {
            i += 1;
            if buf.len() - pos < 8 {
                on = false;
            } else {
                let id: u32 = bytes::get_u32(buf, pos);
                let len: u32 = bytes::get_u32(buf, pos + 4);
                if len as usize > buf.len() - pos - 8 {
                    on = false;
                } else {
                    let start: usize = pos + 8;
                    let word = bytes::copy_range(buf, start, start + len as usize);
                    let l = Loc { off: start as u32, len };
                    proof {
                        lemma_put_ids(dict@.entries, id, l);
                    }
                    dict.entries.insert(id as u64, l);
                    dict.note(word, id);
                    pos = start + len as usize;
                    if id as u64 >= next {
                        next = id as u64 + 1;
                    }
                }
            }
        }
        proof {
            if i < count {
                lemma_reading_stops(buf@, i as nat, count as nat);
            }
        }
        if next > 0xFFFF_FFFF {
            return Err(Error::Decode(DecodeError::BadEncoding));
        }
        dict.next_id = next as u32;
        assert(Some(dict@) =~= dict_of(page_id, buf@, gen));
        Ok(dict)
    }

    fn note(&mut self, word: Vec<u8>, id: u32)
        requires
            old(self).wf(),
        ensures
            final(self).wf(),
            final(self)@ == (DictModel { by_bytes: id_put(old(self)@.by_bytes, word@, id), ..old(self)@ }),
    {
        let ghost was = self.by_bytes@;
        let ghost w = word@;
        match self.find_word(word.as_slice()) {
            Some(i) => {
                self.by_bytes.set(i, (word, id));
                assert(byte_ids(self.by_bytes@) =~= byte_ids(was).update(i as int, (w, id)));
            },
            None => {
                self.by_bytes.push((word, id));
                assert(byte_ids(self.by_bytes@) =~= byte_ids(was).push((w, id)));
            },
        }
    }

    /// Allocate a fresh dict page in the pager and return its id.
    pub fn allocate(pager: &mut Pager) -> (id: PageId)
        requires
            old(pager).wf(),
            old(pager)@.has_room(),
        ensures
            final(pager).wf(),
            id == old(pager)@.next_id(),
            final(pager)@ == old(pager)@.allocated(PageKind::Dict, slab(Seq::empty(), 64)),
    {
        let mut buf: Vec<u8> = Vec::new();
        bytes::put_u32(&mut buf, 0);
        proof {
            bytes::lemma_u32_between(Seq::empty(), 0, Seq::empty());
        }
        while buf.len() < DICT_PAGE_CAPACITY
            invariant
                4 <= buf@.len() <= 64,
                bytes::le32(0).len() == 4,
                buf@ == bytes::le32(0) + Seq::new((buf@.len() - 4) as nat, |i: int| 0u8),
            decreases 64 - buf@.len(),
        {
            buf.push(0);
            assert(buf@ =~= bytes::le32(0) + Seq::new((buf@.len() - 4) as nat, |i: int| 0u8));
        }
        assert(buf@ =~= slab(Seq::empty(), 64));
        pager.allocate(PageKind::Dict, buf)
    }
}

/// The word that a mirror finds under an id.
pub open spec fn word_of(d: DictModel, m: pager::PagerModel, id: u32) -> Option<Seq<u8>> {
    match (keymap::find(d.entries, id as u64), m.page(d.page_id)) {
        (Some(l), Some(p)) => if l.off + l.len <= p.buf.len() {
            Some(p.buf.subrange(l.off as int, l.off + l.len))
        } else {
            None
        },
        _ => None,
    }
}

/// A fresh mirror is true to a fresh page.
pub proof fn lemma_fresh_mirrors(page_id: PageId)
    ensures
        fresh_dict(page_id).mirrors(slab(Seq::empty(), 64)),
{
    let d = fresh_dict(page_id);
    let s = slab(Seq::empty(), 64);
    let e: Words = Seq::empty();
    assert(d.words(s) =~= e);
    assert(locs(e) =~= Seq::empty());
    assert(Seq::new(e.len(), |i: int| (e[i].1, e[i].0 as u32)) =~= Seq::empty());
}

/// A true mirror finds each of its words.
pub proof fn lemma_word_of(d: DictModel, m: pager::PagerModel, i: int)
    requires
        m.page(d.page_id) is Some,
        d.mirrors(m.page(d.page_id)->0.buf),
        0 <= i < d.entries.len(),
    ensures
        word_of(d, m, d.entries[i].0 as u32) == Some(d.words(m.page(d.page_id)->0.buf)[i].1),
{
    let buf = m.page(d.page_id)->0.buf;
    let w = d.words(buf);
    keymap::lemma_listed(d.entries, i);
    lemma_slab_entry(w, d.capacity, i);
    assert(d.entries[i].0 <= u32::MAX);
    assert(w.take(i + 1).drop_last() =~= w.take(i));
    lemma_slab_len(w, i + 1);
}

proof fn lemma_put_put(s: Seq<(u64, pager::PageModel)>, k: u64, a: pager::PageModel, b: pager::PageModel)
    requires
        keymap::ascending(s),
        keymap::held(s, k),
    ensures
        keymap::put(keymap::put(s, k, a), k, b) == keymap::put(s, k, b),
{
    keymap::lemma_rank(s, k);
    keymap::lemma_put(s, k, a, k);
    let t = keymap::put(s, k, a);
    assert forall|i: int| 0 <= i < t.len() implies (#[trigger] t[i]).0 == s[i].0 by {
    }
    keymap::lemma_rank_is(t, k, keymap::rank(s, k));
    assert(keymap::put(t, k, b) =~= keymap::put(s, k, b));
}

proof fn lemma_put_ids(s: Seq<(u64, Loc)>, id: u32, l: Loc)
    requires
        keymap::ascending(s),
        forall|i: int| 0 <= i < s.len() ==> (#[trigger] s[i]).0 <= u32::MAX,
    ensures
        forall|i: int|
            0 <= i < keymap::put(s, id as u64, l).len() ==> (#[trigger] keymap::put(s, id as u64, l)[i]).0 <= u32::MAX,
{
    keymap::lemma_rank(s, id as u64);
    let t = keymap::put(s, id as u64, l);
    let r = keymap::rank(s, id as u64);
    assert forall|i: int| 0 <= i < t.len() implies (#[trigger] t[i]).0 <= u32::MAX by {
        if i < r {
            assert(t[i] == s[i]);
        } else if i > r {
            if keymap::held(s, id as u64) {
                assert(t[i] == s[i]);
            } else {
                assert(t[i] == s[i - 1]);
            }
        }
    }
}

proof fn lemma_used(e: Seq<(u64, Loc)>, n: int)
    requires
        0 <= n <= e.len(),
    ensures
        4 <= used(e.take(n)) <= used(e),
        4 <= used(e),
    decreases e.len() - n,
{
    if n < e.len() {
        lemma_used(e, n + 1);
        assert(e.take(n + 1).drop_last() =~= e.take(n));
        lemma_used_floor(e.take(n));
    } else {
        assert(e.take(n) =~= e);
        lemma_used_floor(e);
    }
}

proof fn lemma_used_floor(e: Seq<(u64, Loc)>)
    ensures
        used(e) >= 4,
    decreases e.len(),
{
    if e.len() > 0 {
        lemma_used_floor(e.drop_last());
    }
}

proof fn lemma_reading_stops(buf: Seq<u8>, a: nat, b: nat)
    requires
        a <= b,
        !reading(buf, a).on,
    ensures
        reading(buf, b) == reading(buf, a),
    decreases b - a,
{
    if a < b {
        lemma_reading_stops(buf, a, (b - 1) as nat);
    }
}

/// Read the entry count from a dict page buffer.
pub fn entry_count(buf: &[u8]) -> (r: u32)
    ensures
        r == (if buf@.len() < 4 {
            0
        } else {
            bytes::u32_at(buf@, 0)
        }),
{
    if buf.len() < 4 {
        return 0;
    }
    bytes::get_u32(buf, 0)
}

} // verus!
