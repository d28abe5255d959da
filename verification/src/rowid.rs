//! The row-id map.
//!
//! The map says where each row lives: the id of its home page and its slot in
//! that page's directory. It is stored as a count followed by records:
//!
//! ```text
//!   [u32 num_rows]
//!   for each row: [u64 row_id][u32 page][u32 slot]
//! ```

use crate::bytes;
use crate::fsm;
use crate::keymap;
use crate::keymap::KeyMap;
use vstd::prelude::*;

verus! {

/// Where a row lives.
#[derive(Debug, Clone, Copy, PartialEq, Eq, Structural)]
pub struct Home {
    pub page: u32,
    pub slot: u32,
}

impl View for Home {
    type V = Home;

    open spec fn view(&self) -> Home {
        *self
    }
}

/// The row-id map.
#[derive(Debug, Clone)]
pub struct RowIdMap {
    rows: KeyMap<Home>,
}

// Storage

pub open spec fn homes_bytes(s: Seq<(u64, Home)>) -> Seq<u8>
    decreases s.len(),
{
    if s.len() == 0 {
        Seq::empty()
    } else {
        homes_bytes(s.drop_last()) + bytes::le64(s.last().0) + bytes::le32(s.last().1.page) + bytes::le32(
            s.last().1.slot,
        )
    }
}

/// The stored form of a row-id map.
pub open spec fn rowid_bytes(s: Seq<(u64, Home)>) -> Seq<u8> {
    bytes::le32(s.len() as u32) + homes_bytes(s)
}

/// The first `n` stored rows.
pub open spec fn homes_of(s: Seq<u8>, n: nat) -> Seq<(u64, Home)>
    decreases n,
{
    if n == 0 {
        Seq::empty()
    } else {
        let at = 4 + 16 * (n - 1);
        keymap::put(
            homes_of(s, (n - 1) as nat),
            bytes::u64_at(s, at),
            Home { page: bytes::u32_at(s, at + 8), slot: bytes::u32_at(s, at + 12) },
        )
    }
}

/// The map stored in `s`. What is cut off is left out.
pub open spec fn rowid_of(s: Seq<u8>) -> Seq<(u64, Home)> {
    if s.len() < 4 {
        Seq::empty()
    } else {
        homes_of(s, fsm::present(bytes::u32_at(s, 0) as int, s.len() - 4, 16) as nat)
    }
}

proof fn lemma_homes_bytes(s: Seq<(u64, Home)>, i: int)
    requires
        0 <= i <= s.len(),
    ensures
        homes_bytes(s).len() == 16 * s.len(),
        i < s.len() ==> homes_bytes(s).subrange(16 * i, 16 * i + 8) == bytes::le64(s[i].0),
        i < s.len() ==> homes_bytes(s).subrange(16 * i + 8, 16 * i + 12) == bytes::le32(s[i].1.page),
        i < s.len() ==> homes_bytes(s).subrange(16 * i + 12, 16 * i + 16) == bytes::le32(s[i].1.slot),
    decreases s.len(),
{
    if s.len() > 0 {
        let d = s.drop_last();
        lemma_homes_bytes(
            d,
            if i < d.len() {
                i
            } else {
                0
            },
        );
        bytes::lemma_u64_between(Seq::empty(), s.last().0, Seq::empty());
        bytes::lemma_u32_between(Seq::empty(), s.last().1.page, Seq::empty());
        bytes::lemma_u32_between(Seq::empty(), s.last().1.slot, Seq::empty());
        let t = homes_bytes(s);
        let u = homes_bytes(d);
        if i < d.len() {
            assert(t.subrange(16 * i, 16 * i + 8) =~= u.subrange(16 * i, 16 * i + 8));
            assert(t.subrange(16 * i + 8, 16 * i + 12) =~= u.subrange(16 * i + 8, 16 * i + 12));
            assert(t.subrange(16 * i + 12, 16 * i + 16) =~= u.subrange(16 * i + 12, 16 * i + 16));
        } else if i < s.len() {
            assert(t.subrange(16 * i, 16 * i + 8) =~= bytes::le64(s[i].0));
            assert(t.subrange(16 * i + 8, 16 * i + 12) =~= bytes::le32(s[i].1.page));
            assert(t.subrange(16 * i + 12, 16 * i + 16) =~= bytes::le32(s[i].1.slot));
        }
    }
}

/// A stored row is read back.
pub open spec fn reads_row(s: Seq<u8>, m: Seq<(u64, Home)>, i: int) -> bool {
    let at = 4 + 16 * i;
    &&& bytes::u64_at(s, at) == m[i].0
    &&& bytes::u32_at(s, at + 8) == m[i].1.page
    &&& bytes::u32_at(s, at + 12) == m[i].1.slot
}

/// Reading a stored map gives it back.
pub proof fn lemma_rowid_round_trip(m: Seq<(u64, Home)>)
    requires
        keymap::ascending(m),
        m.len() <= u32::MAX,
    ensures
        rowid_of(rowid_bytes(m)) == m,
{
    let s = rowid_bytes(m);
    let h = homes_bytes(m);
    lemma_homes_bytes(m, 0);
    bytes::lemma_u32_between(Seq::empty(), m.len() as u32, h);
    assert(s =~= Seq::<u8>::empty() + bytes::le32(m.len() as u32) + h);
    assert forall|i: int| 0 <= i < m.len() implies #[trigger] reads_row(s, m, i) by {
        lemma_homes_bytes(m, i);
        let at = 4 + 16 * i;
        assert(s.subrange(at, at + 8) =~= h.subrange(16 * i, 16 * i + 8));
        assert(s.subrange(at + 8, at + 12) =~= h.subrange(16 * i + 8, 16 * i + 12));
        assert(s.subrange(at + 12, at + 16) =~= h.subrange(16 * i + 12, 16 * i + 16));
        bytes::lemma_u64_at(s, at, m[i].0);
        bytes::lemma_u32_at(s, at + 8, m[i].1.page);
        bytes::lemma_u32_at(s, at + 12, m[i].1.slot);
    }
    lemma_homes_of(s, m, m.len());
    assert(m.take(m.len() as int) =~= m);
    assert(m.len() <= (s.len() - 4) / 16);
}

proof fn lemma_homes_of(s: Seq<u8>, m: Seq<(u64, Home)>, n: nat)
    requires
        keymap::ascending(m),
        n <= m.len(),
        forall|i: int| 0 <= i < m.len() ==> #[trigger] reads_row(s, m, i),
    ensures
        homes_of(s, n) == m.take(n as int),
    decreases n,
{
    if n > 0 {
        lemma_homes_of(s, m, (n - 1) as nat);
        keymap::lemma_take_ascending(m, n - 1);
        assert(reads_row(s, m, n - 1));
    } else {
        assert(m.take(0) =~= Seq::empty());
    }
}

impl View for RowIdMap {
    type V = Seq<(u64, Home)>;

    closed spec fn view(&self) -> Seq<(u64, Home)> {
        self.rows@
    }
}

impl RowIdMap {
    pub open spec fn wf(self) -> bool {
        keymap::ascending(self@)
    }

    pub fn new() -> (r: RowIdMap)
        ensures
            r.wf(),
            r@ == Seq::<(u64, Home)>::empty(),
    {
        RowIdMap { rows: KeyMap::new() }
    }

    /// Number of rows.
    pub fn len(&self) -> (r: usize)
        ensures
            r == self@.len(),
    {
        self.rows.len()
    }

    /// Say where a row lives.
    pub fn insert(&mut self, row_id: u64, page: u32, slot: u32)
        requires
            old(self).wf(),
        ensures
            final(self).wf(),
            final(self)@ == keymap::put(old(self)@, row_id, Home { page, slot }),
    {
        self.rows.insert(row_id, Home { page, slot });
    }

    /// Move a row that the map holds.
    pub fn relocate(&mut self, row_id: u64, page: u32, slot: u32)
        requires
            old(self).wf(),
        ensures
            final(self).wf(),
            final(self)@ == relocated(old(self)@, row_id, Home { page, slot }),
    {
        if self.rows.contains(row_id) {
            self.rows.insert(row_id, Home { page, slot });
        }
    }

    /// Where a row lives.
    pub fn get(&self, row_id: u64) -> (r: Option<(u32, usize)>)
        requires
            self.wf(),
        ensures
            match r {
                Some((page, slot)) => keymap::find(self@, row_id) == Some(Home { page, slot: slot as u32 }) && slot
                    <= u32::MAX,
                None => keymap::find(self@, row_id) is None,
            },
    {
        match self.rows.get(row_id) {
            Some(h) => Some((h.page, h.slot as usize)),
            None => None,
        }
    }

    pub fn contains(&self, row_id: u64) -> (r: bool)
        requires
            self.wf(),
        ensures
            r == (keymap::find(self@, row_id) is Some),
    {
        self.rows.contains(row_id)
    }

    /// Forget a row, and say where it lived.
    pub fn remove(&mut self, row_id: u64) -> (r: Option<(u32, usize)>)
        requires
            old(self).wf(),
        ensures
            final(self).wf(),
            final(self)@ == keymap::cut(old(self)@, row_id),
            match r {
                Some((page, slot)) => keymap::find(old(self)@, row_id) == Some(Home { page, slot: slot as u32 }) && slot
                    <= u32::MAX,
                None => keymap::find(old(self)@, row_id) is None,
            },
    {
        match self.rows.remove(row_id) {
            Some(h) => Some((h.page, h.slot as usize)),
            None => None,
        }
    }

    /// The row ids, ascending.
    pub fn row_ids(&self) -> (r: Vec<u64>)
        ensures
            r@ == ids_of(self@),
    {
        let mut out: Vec<u64> = Vec::new();
        let mut i: usize = 0;
        while i < self.rows.len()
            invariant
                i <= self@.len(),
                self.rows@ == self@,
                out@ == ids_of(self@.take(i as int)),
            decreases self@.len() - i,
        {
            out.push(self.rows.key_at(i));
            i += 1;
            assert(out@ =~= ids_of(self@.take(i as int)));
        }
        assert(self@.take(i as int) =~= self@);
        out
    }

    pub fn encode(&self) -> (out: Vec<u8>)
        requires
            self@.len() <= u32::MAX,
        ensures
            out@ == rowid_bytes(self@),
    {
        let mut out: Vec<u8> = Vec::new();
        let ghost m = self@;
        bytes::put_u32(&mut out, self.rows.len() as u32);
        let ghost head = out@;
        let mut i: usize = 0;
        assert(m.take(0) =~= Seq::empty());
        while i < self.rows.len()
            invariant
                i <= m.len(),
                m == self@,
                out@ == head + homes_bytes(m.take(i as int)),
            decreases m.len() - i,
        {
            let h: Home = *self.rows.value_at(i);
            bytes::put_u64(&mut out, self.rows.key_at(i));
            bytes::put_u32(&mut out, h.page);
            bytes::put_u32(&mut out, h.slot);
            assert(m.take(i + 1).drop_last() =~= m.take(i as int));
            assert(out@ =~= head + homes_bytes(m.take(i + 1)));
            i += 1;
        }
        assert(m.take(i as int) =~= m);
        assert(out@ =~= rowid_bytes(m));
        out
    }

    pub fn decode(buf: &[u8]) -> (r: RowIdMap)
        ensures
            r.wf(),
            r@ == rowid_of(buf@),
    {
        let mut map = RowIdMap::new();
        if buf.len() < 4 {
            return map;
        }
        let stated: u32 = bytes::get_u32(buf, 0);
        let room: usize = (buf.len() - 4) / 16;
        let n: usize = if stated as usize <= room {
            stated as usize
        } else {
            room
        };
        let mut i: usize = 0;
        while i < n
            invariant
                i <= n,
                n <= (buf@.len() - 4) / 16,
                buf@.len() >= 4,
                map.wf(),
                map@ == homes_of(buf@, i as nat),
            decreases n - i,
        {
            assert(4 + 16 * n <= buf.len());
            let at: usize = 4 + 16 * i;
            map.insert(bytes::get_u64(buf, at), bytes::get_u32(buf, at + 8), bytes::get_u32(buf, at + 12));
            i += 1;
        }
        map
    }
}

/// The ids of a map's rows.
pub open spec fn ids_of(m: Seq<(u64, Home)>) -> Seq<u64> {
    Seq::new(m.len(), |i: int| m[i].0)
}

/// A map with a row that it holds moved.
pub open spec fn relocated(m: Seq<(u64, Home)>, row_id: u64, h: Home) -> Seq<(u64, Home)> {
    if keymap::held(m, row_id) {
        keymap::put(m, row_id, h)
    } else {
        m
    }
}

} // verus!
