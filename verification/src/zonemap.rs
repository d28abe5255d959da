//! The per-page min/max summaries.
//!
//! A column's zone map says of each data page between which values the column
//! lies there, and how many live rows the page had when the summary was made.
//! It is stored as a count followed by records:
//!
//! ```text
//!   [u32 num_zones]
//!   for each zone: [u32 page][9 bytes min][9 bytes max][u64 live_rows]
//! ```

use crate::bytes;
use crate::fsm;
use crate::keymap;
use crate::keymap::KeyMap;
use crate::rle;
use crate::value::Value;
use vstd::prelude::*;

verus! {

/// The summary of one page.
#[derive(Debug, Clone, Copy, PartialEq, Eq, Structural)]
pub struct Zone {
    pub page: u32,
    pub min: Value,
    pub max: Value,
    pub live_rows: u64,
}

impl View for Zone {
    type V = Zone;

    open spec fn view(&self) -> Zone {
        *self
    }
}

/// The summaries of one column.
#[derive(Debug, Clone)]
pub struct ZoneMap {
    zones: KeyMap<Zone>,
}

// Storage

pub open spec fn zone_bytes(z: Zone) -> Seq<u8> {
    bytes::le32(z.page) + rle::value_bytes(z.min) + rle::value_bytes(z.max) + bytes::le64(z.live_rows)
}

pub open spec fn zones_bytes(s: Seq<(u64, Zone)>) -> Seq<u8>
    decreases s.len(),
{
    if s.len() == 0 {
        Seq::empty()
    } else {
        zones_bytes(s.drop_last()) + zone_bytes(s.last().1)
    }
}

/// The stored form of a zone map.
pub open spec fn zonemap_bytes(s: Seq<(u64, Zone)>) -> Seq<u8> {
    bytes::le32(s.len() as u32) + zones_bytes(s)
}

/// The zone stored in record `i`.
pub open spec fn zone_at(s: Seq<u8>, i: int) -> Option<Zone> {
    let at = 4 + 30 * i;
    match (rle::value_at(s, at + 4), rle::value_at(s, at + 13)) {
        (Some(min), Some(max)) => Some(
            Zone { page: bytes::u32_at(s, at), min, max, live_rows: bytes::u64_at(s, at + 22) },
        ),
        _ => None,
    }
}

/// The first `n` stored zones, up to one that cannot be read.
pub open spec fn zones_of(s: Seq<u8>, n: nat) -> (Seq<(u64, Zone)>, bool)
    decreases n,
{
    if n == 0 {
        (Seq::empty(), true)
    } else {
        let (m, on) = zones_of(s, (n - 1) as nat);
        match zone_at(s, n - 1) {
            Some(z) if on => (keymap::put(m, z.page as u64, z), true),
            _ => (m, false),
        }
    }
}

/// The map stored in `s`. What is cut off or cannot be read is left out.
pub open spec fn zonemap_of(s: Seq<u8>) -> Seq<(u64, Zone)> {
    if s.len() < 4 {
        Seq::empty()
    } else {
        zones_of(s, fsm::present(bytes::u32_at(s, 0) as int, s.len() - 4, 30) as nat).0
    }
}

/// Every zone stands under its page.
pub open spec fn keyed(m: Seq<(u64, Zone)>) -> bool {
    forall|i: int| 0 <= i < m.len() ==> (#[trigger] m[i]).0 == m[i].1.page
}

proof fn lemma_zone_len(z: Zone)
    ensures
        zone_bytes(z).len() == 30,
{
    rle::lemma_value_at(Seq::empty(), z.min, Seq::empty());
    rle::lemma_value_at(Seq::empty(), z.max, Seq::empty());
    bytes::lemma_u32_between(Seq::empty(), z.page, Seq::empty());
    bytes::lemma_u64_between(Seq::empty(), z.live_rows, Seq::empty());
}

proof fn lemma_zones_bytes(s: Seq<(u64, Zone)>, i: int)
    requires
        0 <= i <= s.len(),
    ensures
        zones_bytes(s).len() == 30 * s.len(),
        i < s.len() ==> zones_bytes(s).subrange(30 * i, 30 * i + 30) == zone_bytes(s[i].1),
    decreases s.len(),
{
    if s.len() > 0 {
        let d = s.drop_last();
        lemma_zones_bytes(
            d,
            if i < d.len() {
                i
            } else {
                0
            },
        );
        lemma_zone_len(s.last().1);
        let t = zones_bytes(s);
        if i < d.len() {
            assert(t.subrange(30 * i, 30 * i + 30) =~= zones_bytes(d).subrange(30 * i, 30 * i + 30));
        } else if i < s.len() {
            assert(t.subrange(30 * i, 30 * i + 30) =~= zone_bytes(s[i].1));
        }
    }
}

proof fn lemma_zone_at(a: Seq<u8>, z: Zone, b: Seq<u8>, i: int)
    requires
        a.len() == 4 + 30 * i,
    ensures
        zone_at(a + zone_bytes(z) + b, i) == Some(z),
{
    let s = a + zone_bytes(z) + b;
    let p = bytes::le32(z.page);
    let x = rle::value_bytes(z.min);
    let y = rle::value_bytes(z.max);
    let l = bytes::le64(z.live_rows);
    bytes::lemma_u32_between(a, z.page, x + y + l + b);
    assert(s =~= a + p + (x + y + l + b));
    rle::lemma_value_at(a + p, z.min, y + l + b);
    assert(s =~= (a + p) + x + (y + l + b));
    rle::lemma_value_at(a + p + x, z.max, l + b);
    assert(s =~= (a + p + x) + y + (l + b));
    bytes::lemma_u64_between(a + p + x + y, z.live_rows, b);
    assert(s =~= (a + p + x + y) + l + b);
}

/// Reading a stored map gives it back.
pub proof fn lemma_zonemap_round_trip(m: Seq<(u64, Zone)>)
    requires
        keymap::ascending(m),
        keyed(m),
        m.len() <= u32::MAX,
    ensures
        zonemap_of(zonemap_bytes(m)) == m,
{
    let s = zonemap_bytes(m);
    let h = zones_bytes(m);
    lemma_zones_bytes(m, 0);
    bytes::lemma_u32_between(Seq::empty(), m.len() as u32, h);
    assert(s =~= Seq::<u8>::empty() + bytes::le32(m.len() as u32) + h);
    assert forall|i: int| 0 <= i < m.len() implies #[trigger] zone_at(s, i) == Some(m[i].1) by {
        lemma_zones_bytes(m, i);
        let at = 4 + 30 * i;
        let a = s.take(at);
        let b = s.skip(at + 30);
        assert(s.subrange(at, at + 30) =~= h.subrange(30 * i, 30 * i + 30));
        lemma_zone_at(a, m[i].1, b, i);
        lemma_zone_len(m[i].1);
        assert(s =~= a + zone_bytes(m[i].1) + b);
    }
    lemma_zones_of(s, m, m.len());
    assert(m.take(m.len() as int) =~= m);
    assert(m.len() <= (s.len() - 4) / 30);
}

proof fn lemma_zones_of(s: Seq<u8>, m: Seq<(u64, Zone)>, n: nat)
    requires
        keymap::ascending(m),
        keyed(m),
        n <= m.len(),
        forall|i: int| 0 <= i < m.len() ==> #[trigger] zone_at(s, i) == Some(m[i].1),
    ensures
        zones_of(s, n) == (m.take(n as int), true),
    decreases n,
{
    if n > 0 {
        lemma_zones_of(s, m, (n - 1) as nat);
        keymap::lemma_take_ascending(m, n - 1);
        assert(zone_at(s, n - 1) == Some(m[n - 1].1));
        assert(m[n - 1].0 == m[n - 1].1.page);
    } else {
        assert(m.take(0) =~= Seq::empty());
    }
}

pub proof fn lemma_put_keyed(m: Seq<(u64, Zone)>, z: Zone)
    requires
        keymap::ascending(m),
        keyed(m),
    ensures
        keyed(keymap::put(m, z.page as u64, z)),
        keymap::ascending(keymap::put(m, z.page as u64, z)),
{
    let k = z.page as u64;
    keymap::lemma_rank(m, k);
    keymap::lemma_put(m, k, z, k);
    let t = keymap::put(m, k, z);
    let r = keymap::rank(m, k);
    assert forall|i: int| 0 <= i < t.len() implies (#[trigger] t[i]).0 == t[i].1.page by {
        if i < r {
            assert(t[i] == m[i]);
        } else if i > r {
            if keymap::held(m, k) {
                assert(t[i] == m[i]);
            } else {
                assert(t[i] == m[i - 1]);
            }
        }
    }
}

impl View for ZoneMap {
    type V = Seq<(u64, Zone)>;

    closed spec fn view(&self) -> Seq<(u64, Zone)> {
        self.zones@
    }
}

impl Default for ZoneMap {
    fn default() -> (r: ZoneMap)
        ensures
            r.wf(),
            r@ == Seq::<(u64, Zone)>::empty(),
    {
        ZoneMap::new()
    }
}

impl ZoneMap {
    pub open spec fn wf(self) -> bool {
        keymap::ascending(self@) && keyed(self@)
    }

    pub fn new() -> (r: ZoneMap)
        ensures
            r.wf(),
            r@ == Seq::<(u64, Zone)>::empty(),
    {
        ZoneMap { zones: KeyMap::new() }
    }

    /// Number of zones.
    pub fn len(&self) -> (r: usize)
        ensures
            r == self@.len(),
    {
        self.zones.len()
    }

    /// The summary of a page.
    pub fn get(&self, page: u32) -> (r: Option<Zone>)
        requires
            self.wf(),
        ensures
            r == keymap::find(self@, page as u64),
    {
        match self.zones.get(page as u64) {
            Some(z) => Some(*z),
            None => None,
        }
    }

    /// Set the summary of the zone's page.
    pub fn set(&mut self, zone: Zone)
        requires
            old(self).wf(),
        ensures
            final(self).wf(),
            final(self)@ == keymap::put(old(self)@, zone.page as u64, zone),
    {
        proof {
            lemma_put_keyed(self@, zone);
        }
        self.zones.insert(zone.page as u64, zone);
    }

    pub fn encode(&self) -> (out: Vec<u8>)
        requires
            self@.len() <= u32::MAX,
        ensures
            out@ == zonemap_bytes(self@),
    {
        let mut out: Vec<u8> = Vec::new();
        let ghost m = self@;
        bytes::put_u32(&mut out, self.zones.len() as u32);
        let ghost head = out@;
        let mut i: usize = 0;
        assert(m.take(0) =~= Seq::empty());
        while i < self.zones.len()
            invariant
                i <= m.len(),
                m == self@,
                out@ == head + zones_bytes(m.take(i as int)),
            decreases m.len() - i,
        {
            let z: Zone = *self.zones.value_at(i);
            let ghost was = out@;
            bytes::put_u32(&mut out, z.page);
            rle::put_value(&mut out, &z.min);
            rle::put_value(&mut out, &z.max);
            bytes::put_u64(&mut out, z.live_rows);
            assert(out@ =~= was + zone_bytes(z));
            assert(m.take(i + 1).drop_last() =~= m.take(i as int));
            assert(out@ =~= head + zones_bytes(m.take(i + 1)));
            i += 1;
        }
        assert(m.take(i as int) =~= m);
        assert(out@ =~= zonemap_bytes(m));
        out
    }

    pub fn decode(buf: &[u8]) -> (r: ZoneMap)
        ensures
            r.wf(),
            r@ == zonemap_of(buf@),
    {
        let mut map = ZoneMap::new();
        if buf.len() < 4 {
            return map;
        }
        let stated: u32 = bytes::get_u32(buf, 0);
        let room: usize = (buf.len() - 4) / 30;
        let n: usize = if stated as usize <= room {
            stated as usize
        } else {
            room
        };
        let mut i: usize = 0;
        while i < n
            invariant
                i <= n,
                n <= (buf@.len() - 4) / 30,
                n == fsm::present(bytes::u32_at(buf@, 0) as int, buf@.len() - 4, 30),
                buf@.len() >= 4,
                map.wf(),
                (map@, true) == zones_of(buf@, i as nat),
            decreases n - i,
        {
            assert(4 + 30 * n <= buf.len());
            let at: usize = 4 + 30 * i;
            let (min, max) = match (rle::get_value(buf, at + 4), rle::get_value(buf, at + 13)) {
                (Some(a), Some(b)) => (a, b),
                _ => {
                    proof {
                        assert(zone_at(buf@, i as int) is None);
                        lemma_stopped(buf@, (i + 1) as nat, n as nat);
                    }
                    return map;
                },
            };
            map.set(Zone { page: bytes::get_u32(buf, at), min, max, live_rows: bytes::get_u64(buf, at + 22) });
            i += 1;
        }
        map
    }
}

proof fn lemma_stopped(s: Seq<u8>, a: nat, b: nat)
    requires
        a <= b,
        !zones_of(s, a).1,
    ensures
        zones_of(s, b) == zones_of(s, a),
    decreases b - a,
{
    if a < b {
        lemma_stopped(s, a, (b - 1) as nat);
    }
}

} // verus!
