//! Front-coded string dictionary blocks.
//!
//! Sorted string dictionaries (the payload of a dictionary-encoded text column)
//! compress well with front coding: within a block, each string is stored as
//! the length of the prefix it shares with the previous string plus the
//! remaining suffix. Every `stride`-th string is stored in full (a "restart")
//! so that binary search and random access do not have to decode from the very
//! start of the block. This is the layout used by column stores and by search
//! engines' term dictionaries.

use crate::bytes;
use crate::lex;
use crate::text;
use crate::varint;
use vstd::prelude::*;
use vstd::string::*;

verus! {

/// A front-coded, sorted block of strings.
#[derive(Clone)]
pub struct FrontCodedBlock {
    data: Vec<u8>,
    /// Byte offsets of each restart entry within `data`.
    restarts: Vec<u32>,
    stride: usize,
    count: usize,
    strings: Ghost<Seq<Seq<char>>>,
}

/// The bytes of a text.
pub open spec fn utf8(s: Seq<char>) -> Seq<u8> {
    vstd::utf8::encode_utf8(s)
}

/// A byte that continues a character.
pub open spec fn continues(b: u8) -> bool {
    0x80 <= b < 0xc0
}

/// The last place up to `n` that does not stand within a character.
pub open spec fn backed(s: Seq<u8>, n: int) -> int
    decreases n,
{
    if 0 < n < s.len() && continues(s[n]) {
        backed(s, n - 1)
    } else {
        n
    }
}

/// The number of leading bytes that two strings share.
pub open spec fn shared_bytes(a: Seq<u8>, b: Seq<u8>) -> int
    decreases a.len(),
{
    if a.len() == 0 || b.len() == 0 || a[0] != b[0] {
        0
    } else {
        1 + shared_bytes(a.drop_first(), b.drop_first())
    }
}

/// How much of entry `i` is taken from the one before: nothing at a restart.
pub open spec fn kept(ss: Seq<Seq<char>>, stride: nat, i: int) -> int {
    if i as nat % stride == 0 {
        0
    } else {
        let b = utf8(ss[i]);
        backed(b, shared_bytes(utf8(ss[i - 1]), b))
    }
}

/// Entry `i`: the length kept, the length of the rest, and the rest.
pub open spec fn entry(ss: Seq<Seq<char>>, stride: nat, i: int) -> Seq<u8> {
    let b = utf8(ss[i]);
    let k = kept(ss, stride, i);
    varint::uvarint(k as nat) + varint::uvarint((b.len() - k) as nat) + b.skip(k)
}

/// The first `n` entries.
pub open spec fn entries(ss: Seq<Seq<char>>, stride: nat, n: nat) -> Seq<u8>
    decreases n,
{
    if n == 0 {
        Seq::empty()
    } else {
        entries(ss, stride, (n - 1) as nat) + entry(ss, stride, n - 1)
    }
}

/// The number of restarts among `n` entries.
pub open spec fn restart_count(n: nat, stride: nat) -> nat {
    (n + stride - 1) as nat / stride
}

/// In ascending order of their bytes.
pub open spec fn in_order(ss: Seq<Seq<char>>) -> bool {
    forall|i: int, j: int| 0 <= i < j < ss.len() ==> !lex::less(utf8(#[trigger] ss[j]), utf8(#[trigger] ss[i]))
}

/// The texts of a list of string slices.
pub open spec fn str_views(s: Seq<&str>) -> Seq<Seq<char>> {
    s.map_values(|x: &str| x@)
}

/// The texts of a list of strings.
pub open spec fn string_views(s: Seq<String>) -> Seq<Seq<char>> {
    s.map_values(|x: String| x@)
}

/// What is kept of the string before ends where a character does.
pub proof fn lemma_backed(s: Seq<u8>, n: int)
    requires
        0 <= n <= s.len(),
    ensures
        0 <= backed(s, n) <= n,
        0 < backed(s, n) < s.len() ==> !continues(s[backed(s, n)]),
    decreases n,
{
    if 0 < n < s.len() && continues(s[n]) {
        lemma_backed(s, n - 1);
    }
}

proof fn lemma_shared_bytes(a: Seq<u8>, b: Seq<u8>)
    ensures
        0 <= shared_bytes(a, b) <= a.len(),
        shared_bytes(a, b) <= b.len(),
        a.take(shared_bytes(a, b)) == b.take(shared_bytes(a, b)),
    decreases a.len(),
{
    if a.len() > 0 && b.len() > 0 && a[0] == b[0] {
        let x = a.drop_first();
        let y = b.drop_first();
        lemma_shared_bytes(x, y);
        let n = shared_bytes(x, y);
        assert forall|i: int| 0 <= i < n + 1 implies a[i] == b[i] by {
            if i > 0 {
                assert(x.take(n)[i - 1] == y.take(n)[i - 1]);
            }
        }
        assert(a.take(n + 1) =~= b.take(n + 1));
    } else {
        assert(a.take(0) =~= b.take(0));
    }
}

proof fn lemma_shared_is(a: Seq<u8>, b: Seq<u8>, n: int)
    requires
        0 <= n <= a.len(),
        n <= b.len(),
        a.take(n) == b.take(n),
        n == a.len() || n == b.len() || a[n] != b[n],
    ensures
        shared_bytes(a, b) == n,
    decreases n,
{
    if n > 0 {
        assert(a.take(n)[0] == a[0]);
        assert(b.take(n)[0] == b[0]);
        let x = a.drop_first();
        let y = b.drop_first();
        assert(x.take(n - 1) =~= a.take(n).drop_first());
        assert(y.take(n - 1) =~= b.take(n).drop_first());
        lemma_shared_is(x, y, n - 1);
    }
}

/// What is kept of the entry before is a prefix of both.
proof fn lemma_kept(ss: Seq<Seq<char>>, stride: nat, i: int)
    requires
        0 <= i < ss.len(),
        stride > 0,
    ensures
        0 <= kept(ss, stride, i) <= utf8(ss[i]).len(),
        i as nat % stride != 0 ==> i > 0 && kept(ss, stride, i) <= utf8(ss[i - 1]).len() && utf8(ss[i - 1]).take(
            kept(ss, stride, i),
        ) == utf8(ss[i]).take(kept(ss, stride, i)),
{
    if i as nat % stride != 0 {
        if i == 0 {
            vstd::arithmetic::div_mod::lemma_small_mod(0, stride);
        }
        let a = utf8(ss[i - 1]);
        let b = utf8(ss[i]);
        let n = shared_bytes(a, b);
        lemma_shared_bytes(a, b);
        lemma_backed(b, n);
        let k = kept(ss, stride, i);
        assert(a.take(k) =~= a.take(n).take(k));
        assert(b.take(k) =~= b.take(n).take(k));
    }
}

/// The entries from `i` on start with entry `i`.
proof fn lemma_entries_at(ss: Seq<Seq<char>>, stride: nat, i: nat, n: nat)
    requires
        i <= n,
    ensures
        entries(ss, stride, i).len() <= entries(ss, stride, n).len(),
        entries(ss, stride, n).take(entries(ss, stride, i).len() as int) == entries(ss, stride, i),
        i < n ==> exists|rest: Seq<u8>|
            entries(ss, stride, n).skip(entries(ss, stride, i).len() as int) == #[trigger] (entry(
                ss,
                stride,
                i as int,
            ) + rest) && entries(ss, stride, (i + 1) as nat).len() == entries(ss, stride, i).len() + entry(
                ss,
                stride,
                i as int,
            ).len(),
    decreases n - i,
{
    let a = entries(ss, stride, i);
    let z = entries(ss, stride, n);
    if i < n {
        lemma_entries_at(ss, stride, i + 1, n);
        let e = entry(ss, stride, i as int);
        let b = entries(ss, stride, i + 1);
        assert(b == a + e);
        let rest = z.skip(b.len() as int);
        assert(z.take(a.len() as int) =~= z.take(b.len() as int).take(a.len() as int));
        assert(b.take(a.len() as int) =~= a);
        assert(z =~= b + rest);
        assert(z.skip(a.len() as int) =~= e + rest);
    } else {
        assert(z.take(a.len() as int) =~= a);
    }
}

/// Reading entry `i` where it stands.
proof fn lemma_read_entry(ss: Seq<Seq<char>>, stride: nat, i: nat, n: nat, data: Seq<u8>)
    requires
        i < n <= ss.len(),
        stride > 0,
        data == entries(ss, stride, n),
        data.len() <= u32::MAX,
    ensures
        ({
            let p = entries(ss, stride, i).len() as int;
            let b = utf8(ss[i as int]);
            let k = kept(ss, stride, i as int);
            let a = varint::uvarint(k as nat).len();
            let c = varint::uvarint((b.len() - k) as nat).len();
            &&& varint::uvarint_of(data.skip(p)) == Ok::<(nat, nat), varint::VarintError>((k as nat, a))
            &&& varint::uvarint_of(data.skip(p + a)) == Ok::<(nat, nat), varint::VarintError>(
                ((b.len() - k) as nat, c),
            )
            &&& p + a + c + (b.len() - k) <= data.len()
            &&& data.subrange(p + a + c, p + a + c + (b.len() - k)) == b.skip(k)
            &&& entries(ss, stride, (i + 1) as nat).len() == p + a + c + (b.len() - k)
            &&& b.len() - k <= data.len()
        }),
{
    lemma_entries_at(ss, stride, i, n);
    lemma_kept(ss, stride, i as int);
    let p = entries(ss, stride, i).len() as int;
    let b = utf8(ss[i as int]);
    let k = kept(ss, stride, i as int);
    let e = entry(ss, stride, i as int);
    let rest = choose|rest: Seq<u8>|
        data.skip(p) == #[trigger] (e + rest) && entries(ss, stride, (i + 1) as nat).len() == p + e.len();
    let x = varint::uvarint(k as nat);
    let y = varint::uvarint((b.len() - k) as nat);
    let t = b.skip(k);
    assert(data.skip(p).len() == data.len() - p);
    assert(e.len() == x.len() + y.len() + t.len());
    assert(t.len() == b.len() - k);
    // A kept prefix is part of an earlier entry written out, so it fits.
    lemma_kept_small(ss, stride, i, n);
    varint::lemma_uvarint_round_trip(k as u64, y + t + rest);
    assert(e + rest =~= x + (y + t + rest));
    varint::lemma_uvarint_round_trip((b.len() - k) as u64, t + rest);
    assert(data.skip(p + x.len()) =~= y + (t + rest)) by {
        assert(data.skip(p).skip(x.len() as int) =~= data.skip(p + x.len()));
        assert((e + rest).skip(x.len() as int) =~= y + (t + rest));
    }
    let q = p + x.len() + y.len();
    assert(data.subrange(q, q + t.len()) =~= t) by {
        assert forall|j: int| 0 <= j < t.len() implies data[q + j] == t[j] by {
            assert(data.skip(p)[x.len() + y.len() + j] == (e + rest)[x.len() + y.len() + j]);
        }
    }
}

/// No string is longer than the entries up to it.
proof fn lemma_kept_small(ss: Seq<Seq<char>>, stride: nat, i: nat, n: nat)
    requires
        i < n <= ss.len(),
        stride > 0,
    ensures
        utf8(ss[i as int]).len() <= entries(ss, stride, (i + 1) as nat).len(),
        entries(ss, stride, (i + 1) as nat).len() <= entries(ss, stride, n).len(),
        0 <= kept(ss, stride, i as int) <= entries(ss, stride, n).len(),
    decreases i,
{
    lemma_entries_at(ss, stride, i + 1, n);
    lemma_kept(ss, stride, i as int);
    let k = kept(ss, stride, i as int);
    let b = utf8(ss[i as int]);
    assert(entry(ss, stride, i as int).len() >= b.len() - k);
    if i as nat % stride != 0 {
        lemma_kept_small(ss, stride, (i - 1) as nat, n);
    }
}

/// The length of the prefix to keep of the string before.
fn common_prefix_len(a: &str, b: &str) -> (r: usize)
    ensures
        r == backed(utf8(b@), shared_bytes(utf8(a@), utf8(b@))),
        r <= utf8(b@).len(),
{
    let x = a.as_bytes();
    let y = b.as_bytes();
    let n: usize = lex::shared(x, y);
    proof {
        lemma_shared_is(x@, y@, n as int);
    }
    let mut i: usize = n;
    while i > 0 && i < y.len() && y[i] >= 0x80 && y[i] < 0xc0
        invariant
            i <= n <= y@.len(),
            backed(y@, i as int) == backed(y@, n as int),
        decreases i,
    {
        i -= 1;
    }
    i
}

impl FrontCodedBlock {
    /// The strings of the block.
    pub closed spec fn texts(self) -> Seq<Seq<char>> {
        self.strings@
    }

    /// How far restarts are apart.
    pub closed spec fn spec_stride(self) -> nat {
        self.stride as nat
    }

    /// The block holds its strings front coded.
    pub closed spec fn wf(self) -> bool {
        let ss = self.strings@;
        &&& self.stride >= 1
        &&& self.count == ss.len()
        &&& self.data@ == entries(ss, self.stride as nat, ss.len())
        &&& self.data@.len() <= u32::MAX
        &&& self.restarts@.len() * self.stride < self.count + self.stride
        &&& self.count <= self.restarts@.len() * self.stride
        &&& forall|k: int|
            0 <= k < self.restarts@.len() ==> #[trigger] self.restarts@[k] == entries(
                ss,
                self.stride as nat,
                (k * self.stride) as nat,
            ).len()
    }

    /// Build a block from a *sorted* list of strings, with a restart every
    /// `stride` entries.
    pub fn build(sorted: &[&str], stride: usize) -> (r: FrontCodedBlock)
        requires
            entries(
                str_views(sorted@),
                if stride == 0 {
                    1
                } else {
                    stride as nat
                },
                sorted@.len(),
            ).len() <= u32::MAX,
        ensures
            r.wf(),
            r.texts() == str_views(sorted@),
            r.spec_stride() == (if stride == 0 {
                1
            } else {
                stride as nat
            }),
    {
        let stride: usize = if stride == 0 {
            1
        } else {
            stride
        };
        let ghost ss = str_views(sorted@);
        let ghost st = stride as nat;
        let mut data: Vec<u8> = Vec::new();
        let mut restarts: Vec<u32> = Vec::new();
        let mut i: usize = 0;
        // The entries since the last restart.
        let mut since: usize = 0;
        assert(restarts@.len() * stride == 0) by (nonlinear_arith)
            requires
                restarts@.len() == 0,
        ;
        while i < sorted.len()
            invariant
                i <= sorted@.len(),
                ss == str_views(sorted@),
                st == stride,
                stride >= 1,
                data@ == entries(ss, st, i as nat),
                entries(ss, st, ss.len()).len() <= u32::MAX,
                since < stride,
                since == i as nat % st,
                i == 0 ==> restarts@.len() == 0,
                restarts@.len() * stride == (if since == 0 {
                    i as int
                } else {
                    i - since + stride
                }),
                forall|k: int|
                    0 <= k < restarts@.len() ==> #[trigger] restarts@[k] == entries(ss, st, (k * stride) as nat).len(),
            decreases sorted@.len() - i,
        {
            let s: &str = sorted[i];
            let ghost was = restarts@;
            proof {
                assert(s@ == ss[i as int]);
                lemma_entries_at(ss, st, i as nat, ss.len());
                lemma_entries_at(ss, st, (i + 1) as nat, ss.len());
                lemma_kept(ss, st, i as int);
                let a = i as int;
                let b = st as int;
                vstd::arithmetic::div_mod::lemma_fundamental_div_mod(a, b);
                vstd::arithmetic::div_mod::lemma_fundamental_div_mod(a + 1, b);
            }
            let shared: usize = if since == 0 {
                restarts.push(data.len() as u32);
                0
            } else {
                let prev: &str = sorted[i - 1];
                assert(prev@ == ss[i - 1]);
                common_prefix_len(prev, s)
            };
            let b = s.as_bytes();
            assert(b@ == utf8(ss[i as int]));
            let suffix = bytes::copy_range(b, shared, b.len());
            assert(suffix@ =~= b@.skip(shared as int));
            let ghost d0 = data@;
            varint::write_uvarint(&mut data, shared as u64);
            varint::write_uvarint(&mut data, suffix.len() as u64);
            bytes::put_bytes(&mut data, suffix.as_slice());
            proof {
                assert(data@ =~= d0 + entry(ss, st, i as int));
                let m = was.len() as int;
                let w = stride as int;
                assert((m + 1) * w == m * w + w) by (nonlinear_arith);
                assert forall|k: int| 0 <= k < restarts@.len() implies #[trigger] restarts@[k] == entries(
                    ss,
                    st,
                    (k * stride) as nat,
                ).len() by {
                    if k < was.len() {
                        assert(was[k] == restarts@[k]);
                    }
                }
                lemma_next_mod(i as nat, st);
            }
            since += 1;
            if since == stride {
                since = 0;
            }
            i += 1;
        }
        proof {
            let m = restarts@.len() as int;
            assert(m * stride < i + stride && i <= m * stride);
        }
        FrontCodedBlock { data, restarts, stride, count: sorted.len(), strings: Ghost(ss) }
    }

    /// Number of strings in the block.
    pub fn len(&self) -> (r: usize)
        requires
            self.wf(),
        ensures
            r == self.texts().len(),
    {
        self.count
    }

    /// `true` if the block is empty.
    pub fn is_empty(&self) -> (r: bool)
        requires
            self.wf(),
        ensures
            r == (self.texts().len() == 0),
    {
        self.count == 0
    }

    /// Encoded byte size: the entries, and four bytes to a restart.
    pub fn byte_size(&self) -> (r: usize)
        requires
            self.wf(),
            entries(self.texts(), self.spec_stride(), self.texts().len()).len() + 4 * restart_count(
                self.texts().len(),
                self.spec_stride(),
            ) <= usize::MAX,
        ensures
            r == entries(self.texts(), self.spec_stride(), self.texts().len()).len() + 4 * restart_count(
                self.texts().len(),
                self.spec_stride(),
            ),
    {
        proof {
            lemma_ceiling(self.count as int, self.stride as int, self.restarts@.len() as int);
        }
        self.data.len() + self.restarts.len() * 4
    }

    /// Decode the entry at `pos`; tells its bytes and where the next one stands.
    fn decode_entry(&self, i: usize, pos: usize, prev: &Vec<u8>) -> (r: (Vec<u8>, usize))
        requires
            self.wf(),
            i < self.count,
            pos == entries(self.strings@, self.stride as nat, i as nat).len(),
            i as nat % self.stride as nat != 0 ==> prev@ == utf8(self.strings@[i - 1]),
        ensures
            r.0@ == utf8(self.strings@[i as int]),
            r.1 == entries(self.strings@, self.stride as nat, (i + 1) as nat).len(),
    {
        let ghost ss = self.strings@;
        let ghost st = self.stride as nat;
        let ghost b = utf8(ss[i as int]);
        let ghost k = kept(ss, st, i as int);
        proof {
            lemma_read_entry(ss, st, i as nat, ss.len(), self.data@);
            lemma_kept(ss, st, i as int);
            lemma_entries_at(ss, st, i as nat, ss.len());
            assert(self.data.len() == self.data@.len());
        }
        let first = varint::read_uvarint(self.data.as_slice(), pos);
        let (shared, n1) = match first {
            Ok(x) => x,
            Err(_) => (0, 0),
        };
        let second = varint::read_uvarint(self.data.as_slice(), pos + n1);
        let (suffix_len, n2) = match second {
            Ok(x) => x,
            Err(_) => (0, 0),
        };
        let at: usize = pos + n1 + n2;
        let end: usize = at + suffix_len as usize;
        let suffix = bytes::copy_range(self.data.as_slice(), at, end);
        proof {
            if i as nat % st != 0 {
                assert(prev.len() == prev@.len());
                assert(shared == k);
            }
        }
        let mut s: Vec<u8> = if i % self.stride == 0 {
            Vec::new()
        } else {
            bytes::copy_range(prev.as_slice(), 0, shared as usize)
        };
        bytes::put_bytes(&mut s, suffix.as_slice());
        proof {
            assert(suffix@ == b.skip(k));
            if i as nat % st == 0 {
                assert(s@ =~= b);
            } else {
                assert(prev@.subrange(0, k) =~= prev@.take(k));
                assert(s@ == prev@.subrange(0, k) + b.skip(k));
                assert(b.take(k) + b.skip(k) =~= b);
            }
        }
        (s, end)
    }

    /// The string of an entry's bytes.
    fn text_of(b: &Vec<u8>, Ghost(s): Ghost<Seq<char>>) -> (r: String)
        requires
            b@ == utf8(s),
        ensures
            r@ == s,
    {
        proof {
            vstd::utf8::encode_utf8_valid_utf8(s);
            vstd::utf8::encode_utf8_decode_utf8(s);
        }
        let copy = bytes::copy_range(b.as_slice(), 0, b.len());
        assert(copy@ =~= b@);
        match text::utf8_text(copy) {
            Some(t) => t,
            None => String::new(),
        }
    }

    /// Decode every string in order.
    pub fn decode_all(&self) -> (out: Vec<String>)
        requires
            self.wf(),
        ensures
            string_views(out@) == self.texts(),
    {
        let mut out: Vec<String> = Vec::new();
        let mut prev: Vec<u8> = Vec::new();
        let mut pos: usize = 0;
        let mut i: usize = 0;
        while i < self.count
            invariant
                self.wf(),
                i <= self.count,
                pos == entries(self.strings@, self.stride as nat, i as nat).len(),
                i > 0 ==> prev@ == utf8(self.strings@[i - 1]),
                out@.len() == i,
                forall|k: int| 0 <= k < i ==> (#[trigger] out@[k])@ == self.strings@[k],
            decreases self.count - i,
        {
            proof {
                lemma_kept(self.strings@, self.stride as nat, i as int);
            }
            let (s, next) = self.decode_entry(i, pos, &prev);
            out.push(FrontCodedBlock::text_of(&s, Ghost(self.strings@[i as int])));
            prev = s;
            pos = next;
            i += 1;
        }
        assert(string_views(out@) =~= self.texts());
        out
    }

    /// Random-access the `i`-th string by decoding forward from its restart.
    pub fn get(&self, i: usize) -> (r: Option<String>)
        requires
            self.wf(),
        ensures
            r is Some <==> i < self.texts().len(),
            r matches Some(s) ==> s@ == self.texts()[i as int],
    {
        if i >= self.count {
            return None;
        }
        let block: usize = i / self.stride;
        proof {
            lemma_block(self.count as int, self.stride as int, self.restarts@.len() as int, i as int);
        }
        let mut j: usize = block * self.stride;
        let mut pos: usize = self.restarts[block] as usize;
        let mut prev: Vec<u8> = Vec::new();
        let ghost start = j as int;
        loop
            invariant_except_break
                j <= i,
                pos == entries(self.strings@, self.stride as nat, j as nat).len(),
            invariant
                self.wf(),
                i < self.count,
                start <= j,
                start as nat % self.stride as nat == 0,
                j > start ==> prev@ == utf8(self.strings@[j - 1]),
            ensures
                j == i + 1,
            decreases i + 1 - j,
        {
            let (s, next) = self.decode_entry(j, pos, &prev);
            prev = s;
            pos = next;
            j += 1;
            if j > i {
                break;
            }
        }
        Some(FrontCodedBlock::text_of(&prev, Ghost(self.strings@[i as int])))
    }

    /// Binary-search for `target`, returning its index if present. Uses the
    /// restart array to narrow to a block, then scans forward. Of equal strings
    /// it finds the first in the last block that does not start beyond them.
    pub fn find(&self, target: &str) -> (r: Option<usize>)
        requires
            self.wf(),
            in_order(self.texts()),
        ensures
            r is Some <==> self.texts().contains(target@),
            r matches Some(i) ==> is_found(self.texts(), self.spec_stride() as int, target@, i as int),
    {
        let ghost ss = self.strings@;
        let ghost tb = utf8(target@);
        let ghost w = self.stride as int;
        let mut lo: usize = 0;
        let mut hi: usize = self.restarts.len();
        let ghost m = hi as int;
        while lo < hi
            invariant
                lo <= hi <= m,
                self.wf(),
                in_order(ss),
                ss == self.strings@,
                w == self.stride,
                m == self.restarts@.len(),
                tb == utf8(target@),
                forall|k: int| 0 <= k < lo ==> !lex::less(tb, utf8(#[trigger] restart(ss, w, k))),
                forall|k: int| hi <= k < m ==> lex::less(tb, utf8(#[trigger] restart(ss, w, k))),
            decreases hi - lo,
        {
            let mid: usize = lo + (hi - lo) / 2;
            proof {
                lemma_restart(self.count as int, w, m, mid as int);
            }
            let s = self.restart_string(mid);
            assert(s@ == restart(ss, w, mid as int));
            if !lex::is_less(target.as_bytes(), s.as_str().as_bytes()) {
                proof {
                    assert forall|k: int| 0 <= k < mid + 1 implies !lex::less(tb, utf8(#[trigger] restart(ss, w, k))) by {
                        lemma_restart_order(ss, self.count as int, w, m, k, mid as int);
                        lex::lemma_order(tb, utf8(restart(ss, w, mid as int)), utf8(restart(ss, w, k)));
                    }
                }
                lo = mid + 1;
            } else {
                proof {
                    assert forall|k: int| mid <= k < m implies lex::less(tb, utf8(#[trigger] restart(ss, w, k))) by {
                        lemma_restart_order(ss, self.count as int, w, m, mid as int, k);
                        lex::lemma_order(tb, utf8(restart(ss, w, k)), utf8(restart(ss, w, mid as int)));
                    }
                }
                hi = mid;
            }
        }
        let block: usize = if lo == 0 {
            0
        } else {
            lo - 1
        };
        proof {
            if self.count == 0 {
                if lo > 0 {
                    lemma_restart(0, w, m, 0);
                }
                assert(block * w == 0) by (nonlinear_arith)
                    requires
                        block == 0,
                ;
            } else {
                lemma_block(self.count as int, w, m, 0);
                lemma_restart(self.count as int, w, m, block as int);
            }
        }
        let start: usize = block * self.stride;
        let end: usize = if self.count - start < self.stride {
            self.count
        } else {
            start + self.stride
        };
        let mut i: usize = start;
        while i < end
            invariant
                self.wf(),
                in_order(ss),
                ss == self.strings@,
                w == self.stride,
                m == self.restarts@.len(),
                tb == utf8(target@),
                start == block * w,
                start <= i <= end <= self.count,
                end <= start + w,
                end == self.count || end == start + w,
                block == (if lo == 0 {
                    0
                } else {
                    lo - 1
                }),
                lo <= m,
                forall|k: int| 0 <= k < lo ==> !lex::less(tb, utf8(#[trigger] restart(ss, w, k))),
                forall|k: int| lo <= k < m ==> lex::less(tb, utf8(#[trigger] restart(ss, w, k))),
                forall|j: int| start <= j < i ==> #[trigger] ss[j] != target@,
            decreases end - i,
        {
            if let Some(s) = self.get(i) {
                if text::same_text(s.as_str(), target) {
                    proof {
                        lemma_found(ss, self.count as int, w, m, target@, lo as int, block as int, i as int);
                        assert(ss.contains(target@));
                    }
                    return Some(i);
                }
                if lex::is_less(target.as_bytes(), s.as_str().as_bytes()) {
                    proof {
                        assert forall|j: int| i <= j < self.count implies #[trigger] ss[j] != target@ by {
                            if j > i {
                                assert(!lex::less(utf8(ss[j]), utf8(ss[i as int])));
                            }
                            lex::lemma_order(tb, utf8(ss[j]), utf8(ss[i as int]));
                        }
                        lemma_absent(ss, self.count as int, w, m, target@, lo as int, block as int);
                    }
                    return None;
                }
            }
            i += 1;
        }
        proof {
            lemma_absent(ss, self.count as int, w, m, target@, lo as int, block as int);
        }
        None
    }

    fn restart_string(&self, block: usize) -> (r: String)
        requires
            self.wf(),
            block < self.restarts@.len(),
        ensures
            r@ == restart(self.strings@, self.stride as int, block as int),
    {
        proof {
            lemma_restart(self.count as int, self.stride as int, self.restarts@.len() as int, block as int);
        }
        match self.get(block * self.stride) {
            Some(s) => s,
            None => String::new(),
        }
    }
}

/// The string at the start of a block.
pub open spec fn restart(ss: Seq<Seq<char>>, w: int, k: int) -> Seq<char> {
    ss[k * w]
}

/// String `i` is the target, no earlier one of its block is, and no later block
/// starts with it.
pub open spec fn is_found(ss: Seq<Seq<char>>, w: int, target: Seq<char>, i: int) -> bool {
    &&& 0 <= i < ss.len()
    &&& ss[i] == target
    &&& forall|j: int| (i / w) * w <= j < i ==> #[trigger] ss[j] != target
    &&& forall|k: int| i / w < k && k * w < ss.len() ==> #[trigger] restart(ss, w, k) != target
}

proof fn lemma_restart(n: int, w: int, m: int, k: int)
    requires
        n >= 0,
        w >= 1,
        0 <= k < m,
        n <= m * w,
        m * w < n + w,
    ensures
        0 <= k * w < n,
{
    assert(k * w + w <= m * w) by (nonlinear_arith)
        requires
            k + 1 <= m,
            w >= 1,
    ;
    assert(k * w >= 0) by (nonlinear_arith)
        requires
            k >= 0,
            w >= 1,
    ;
}

proof fn lemma_restart_order(ss: Seq<Seq<char>>, n: int, w: int, m: int, a: int, b: int)
    requires
        in_order(ss),
        n == ss.len(),
        w >= 1,
        0 <= a <= b < m,
        n <= m * w,
        m * w < n + w,
    ensures
        !lex::less(utf8(restart(ss, w, b)), utf8(restart(ss, w, a))),
{
    lemma_restart(n, w, m, a);
    lemma_restart(n, w, m, b);
    if a == b {
        lex::lemma_order(utf8(restart(ss, w, a)), utf8(restart(ss, w, a)), utf8(restart(ss, w, a)));
    } else {
        assert(a * w < b * w) by (nonlinear_arith)
            requires
                a < b,
                w >= 1,
        ;
        assert(!lex::less(utf8(ss[b * w]), utf8(ss[a * w])));
    }
}

/// A target found in the block that the search narrowed to.
proof fn lemma_found(
    ss: Seq<Seq<char>>,
    n: int,
    w: int,
    m: int,
    target: Seq<char>,
    lo: int,
    block: int,
    i: int,
)
    requires
        n == ss.len(),
        w >= 1,
        n <= m * w,
        m * w < n + w,
        0 <= lo <= m,
        block == (if lo == 0 {
            0
        } else {
            lo - 1
        }),
        block * w <= i < block * w + w,
        0 <= i < n,
        ss[i] == target,
        forall|j: int| block * w <= j < i ==> #[trigger] ss[j] != target,
        forall|k: int| lo <= k < m ==> lex::less(utf8(target), utf8(#[trigger] restart(ss, w, k))),
    ensures
        is_found(ss, w, target, i),
{
    assert(i / w == block) by {
        assert(block * w == w * block) by (nonlinear_arith);
        vstd::arithmetic::div_mod::lemma_fundamental_div_mod_converse(i, w, block, i - block * w);
    }
    assert forall|k: int| block < k && k * w < n implies #[trigger] restart(ss, w, k) != target by {
        assert(k < m) by {
            if k >= m {
                assert(k * w >= m * w) by (nonlinear_arith)
                    requires
                        k >= m,
                        w >= 1,
                ;
            }
        }
        assert(lo <= k);
        lex::lemma_order(utf8(target), utf8(target), utf8(target));
        assert(lex::less(utf8(target), utf8(restart(ss, w, k))));
    }
}

/// A target that is not in the block that the search narrowed to is nowhere.
proof fn lemma_absent(ss: Seq<Seq<char>>, n: int, w: int, m: int, target: Seq<char>, lo: int, block: int)
    requires
        in_order(ss),
        n == ss.len(),
        w >= 1,
        m >= 0,
        n <= m * w,
        m * w < n + w,
        0 <= lo <= m,
        block == (if lo == 0 {
            0
        } else {
            lo - 1
        }),
        forall|k: int| 0 <= k < lo ==> !lex::less(utf8(target), utf8(#[trigger] restart(ss, w, k))),
        forall|k: int| lo <= k < m ==> lex::less(utf8(target), utf8(#[trigger] restart(ss, w, k))),
        forall|j: int| block * w <= j < block * w + w && j < n ==> #[trigger] ss[j] != target,
    ensures
        !ss.contains(target),
{
    if ss.contains(target) {
        let j = choose|j: int| 0 <= j < ss.len() && ss[j] == target;
        let tb = utf8(target);
        if lo < m {
            lemma_restart(n, w, m, lo);
            assert(lex::less(tb, utf8(restart(ss, w, lo))));
            if j >= lo * w {
                lex::lemma_order(tb, tb, tb);
                if j > lo * w {
                    assert(!lex::less(utf8(ss[j]), utf8(ss[lo * w])));
                }
            }
            assert(j < lo * w);
        }
        if lo == 0 {
            assert(0 * w == 0) by (nonlinear_arith);
            assert(n <= 0 || j < 0);
        } else {
            let s = block * w;
            lemma_restart(n, w, m, block);
            assert(lo * w == s + w) by (nonlinear_arith)
                requires
                    lo == block + 1,
                    s == block * w,
            ;
            assert(j < s) by {
                if j >= s {
                    if lo == m {
                        assert(j < s + w);
                    }
                }
            }
            assert(!lex::less(tb, utf8(restart(ss, w, block))));
            assert(!lex::less(utf8(ss[s]), utf8(ss[j])));
            lex::lemma_order(utf8(ss[s]), tb, tb);
            vstd::utf8::encode_utf8_decode_utf8(ss[s]);
            vstd::utf8::encode_utf8_decode_utf8(target);
            assert(ss[s] == target);
        }
    }
}

proof fn lemma_next_mod(i: nat, st: nat)
    requires
        st >= 1,
    ensures
        (i + 1) as nat % st == (if i % st + 1 == st {
            0
        } else {
            i % st + 1
        }),
{
    let a = i as int;
    let b = st as int;
    vstd::arithmetic::div_mod::lemma_fundamental_div_mod(a, b);
    let q = a / b;
    let r = a % b;
    if r + 1 == b {
        assert(a + 1 == (q + 1) * b) by (nonlinear_arith)
            requires
                a == b * q + r,
                r + 1 == b,
        ;
        vstd::arithmetic::div_mod::lemma_mod_multiples_basic(q + 1, b);
    } else {
        vstd::arithmetic::div_mod::lemma_fundamental_div_mod_converse(a + 1, b, q, r + 1);
    }
}

proof fn lemma_ceiling(n: int, w: int, m: int)
    requires
        n >= 0,
        w >= 1,
        m >= 0,
        n <= m * w,
        m * w < n + w,
    ensures
        m == (n + w - 1) / w,
{
    let r = n + w - 1 - m * w;
    assert(n + w - 1 == m * w + r);
    vstd::arithmetic::div_mod::lemma_fundamental_div_mod_converse(n + w - 1, w, m, r);
}

/// The block of an entry is among the restarts, and starts at or before it.
proof fn lemma_block(n: int, w: int, m: int, i: int)
    requires
        0 <= i < n,
        w >= 1,
        m >= 0,
        n <= m * w,
        m * w < n + w,
    ensures
        0 <= i / w < m,
        (i / w) * w <= i < (i / w) * w + w,
        ((i / w) * w) % w == 0,
{
    let q = i / w;
    vstd::arithmetic::div_mod::lemma_fundamental_div_mod(i, w);
    assert(q * w == w * q) by (nonlinear_arith);
    assert(q >= 0) by (nonlinear_arith)
        requires
            i >= 0,
            w >= 1,
            q == i / w,
    ;
    if q >= m {
        assert(q * w >= m * w) by (nonlinear_arith)
            requires
                q >= m,
                w >= 1,
        ;
    }
    vstd::arithmetic::div_mod::lemma_mod_multiples_basic(q, w);
}

} // verus!
