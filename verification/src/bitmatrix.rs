//! A dense bit matrix.
//!
//! Reachability closures over a small plan graph and cross-product match masks
//! in a nested-loop join are naturally expressed as a matrix of bits. This is a
//! row-major dense bit matrix with per-row word packing, supporting the usual
//! bit operations plus a transitive-closure pass (Warshall's algorithm) used to
//! compute reachability among a bounded set of nodes.

use vstd::prelude::*;
use crate::words;
use crate::bits;

verus! {

/// A `rows x cols` matrix of bits.
#[derive(Debug, Clone, PartialEq, Eq)]
pub struct BitMatrix {
    rows: usize,
    cols: usize,
    words_per_row: usize,
    data: Vec<u64>,
}

/// There is an edge from node `i` of a sequence to the next one.
pub open spec fn linked(e: Set<(nat, nat)>, s: Seq<nat>, i: int) -> bool {
    e.contains((s[i], s[i + 1]))
}

/// A sequence of at least two nodes, each linked to the next.
pub open spec fn walk(e: Set<(nat, nat)>, s: Seq<nat>) -> bool {
    &&& s.len() >= 2
    &&& forall|i: int| 0 <= i < s.len() - 1 ==> #[trigger] linked(e, s, i)
}

/// `j` can be reached from `i` along one or more edges.
pub open spec fn connected(e: Set<(nat, nat)>, i: nat, j: nat) -> bool {
    exists|s: Seq<nat>| #[trigger] walk(e, s) && s[0] == i && s.last() == j
}

/// `j` can be reached from `i` through inner nodes below `k`.
pub open spec fn through(e: Set<(nat, nat)>, i: nat, j: nat, k: nat) -> bool
    decreases k,
{
    if k == 0 {
        e.contains((i, j))
    } else {
        let m = (k - 1) as nat;
        through(e, i, j, m) || through(e, i, m, m) && through(e, m, j, m)
    }
}

/// A path through inner nodes is a walk.
proof fn lemma_via_walk(e: Set<(nat, nat)>, i: nat, j: nat, k: nat)
    requires
        through(e, i, j, k),
    ensures
        connected(e, i, j),
    decreases k,
{
    if k == 0 {
        let s = seq![i, j];
        assert(walk(e, s));
    } else {
        let m = (k - 1) as nat;
        if through(e, i, j, m) {
            lemma_via_walk(e, i, j, m);
        } else {
            lemma_via_walk(e, i, m, m);
            lemma_via_walk(e, m, j, m);
            let a = choose|s: Seq<nat>| #[trigger] walk(e, s) && s[0] == i && s.last() == m;
            let b = choose|s: Seq<nat>| #[trigger] walk(e, s) && s[0] == m && s.last() == j;
            let s = a + b.skip(1);
            assert forall|x: int| 0 <= x < s.len() - 1 implies #[trigger] linked(e, s, x) by {
                if x < a.len() - 1 {
                    assert(linked(e, a, x));
                } else {
                    let y = x - a.len() + 1;
                    assert(linked(e, b, y));
                    if x == a.len() - 1 {
                        assert(s[x] == a.last());
                        assert(b[0] == m);
                    } else {
                        assert(s[x] == b[y]);
                    }
                    assert(s[x + 1] == b[y + 1]);
                }
            }
            assert(walk(e, s));
            assert(s.last() == b.last());
        }
    }
}

/// A walk whose inner nodes are below `k` is a path through inner nodes.
proof fn lemma_walk_via(e: Set<(nat, nat)>, s: Seq<nat>, k: nat)
    requires
        walk(e, s),
        forall|x: int| 0 < x < s.len() - 1 ==> (#[trigger] s[x]) < k,
    ensures
        through(e, s[0], s.last(), k),
    decreases k,
{
    let n = s.len() as int;
    if k == 0 {
        if n > 2 {
            assert(s[1] < k);
        }
        assert(linked(e, s, 0));
    } else {
        let m = (k - 1) as nat;
        if exists|x: int| 0 < x < n - 1 && s[x] == m {
            let w = choose|x: int| 0 < x < n - 1 && s[x] == m;
            let f = lemma_first(s, m, w);
            let l = lemma_last(s, m, w);
            let a = s.subrange(0, f + 1);
            let b = s.subrange(l, n);
            assert forall|x: int| 0 <= x < a.len() - 1 implies #[trigger] linked(e, a, x) by {
                assert(linked(e, s, x));
            }
            assert forall|x: int| 0 <= x < b.len() - 1 implies #[trigger] linked(e, b, x) by {
                assert(linked(e, s, l + x));
            }
            assert forall|x: int| 0 < x < a.len() - 1 implies (#[trigger] a[x]) < m by {
                assert(s[x] < k && s[x] != m);
            }
            assert forall|x: int| 0 < x < b.len() - 1 implies (#[trigger] b[x]) < m by {
                assert(s[l + x] < k && s[l + x] != m);
            }
            lemma_walk_via(e, a, m);
            lemma_walk_via(e, b, m);
            assert(a.last() == m && b[0] == m && b.last() == s.last());
        } else {
            assert forall|x: int| 0 < x < n - 1 implies (#[trigger] s[x]) < m by {
                assert(s[x] < k);
            }
            lemma_walk_via(e, s, m);
        }
    }
}

/// The first inner occurrence of a node.
proof fn lemma_first(s: Seq<nat>, m: nat, w: int) -> (f: int)
    requires
        0 < w < s.len() - 1,
        s[w] == m,
    ensures
        0 < f <= w,
        s[f] == m,
        forall|x: int| 0 < x < f ==> s[x] != m,
    decreases w,
{
    if exists|x: int| 0 < x < w && s[x] == m {
        let x = choose|x: int| 0 < x < w && s[x] == m;
        lemma_first(s, m, x)
    } else {
        w
    }
}

/// The last inner occurrence of a node.
proof fn lemma_last(s: Seq<nat>, m: nat, w: int) -> (l: int)
    requires
        0 < w < s.len() - 1,
        s[w] == m,
    ensures
        w <= l < s.len() - 1,
        s[l] == m,
        forall|x: int| l < x < s.len() - 1 ==> s[x] != m,
    decreases s.len() - w,
{
    if exists|x: int| w < x < s.len() - 1 && s[x] == m {
        let x = choose|x: int| w < x < s.len() - 1 && s[x] == m;
        lemma_last(s, m, x)
    } else {
        w
    }
}

/// Among `n` nodes, paths through all inner nodes are what walks connect.
pub proof fn lemma_closure(e: Set<(nat, nat)>, n: nat, i: nat, j: nat)
    requires
        forall|p: (nat, nat)| #[trigger] e.contains(p) ==> p.0 < n && p.1 < n,
    ensures
        through(e, i, j, n) <==> connected(e, i, j),
{
    if through(e, i, j, n) {
        lemma_via_walk(e, i, j, n);
    }
    if connected(e, i, j) {
        let s = choose|s: Seq<nat>| #[trigger] walk(e, s) && s[0] == i && s.last() == j;
        assert forall|x: int| 0 < x < s.len() - 1 implies (#[trigger] s[x]) < n by {
            assert(linked(e, s, x));
        }
        lemma_walk_via(e, s, n);
    }
}

/// What connects is closed under composition.
pub proof fn lemma_connected_trans(e: Set<(nat, nat)>, n: nat, i: nat, j: nat, k: nat)
    requires
        connected(e, i, j),
        connected(e, j, k),
    ensures
        connected(e, i, k),
{
    let a = choose|s: Seq<nat>| #[trigger] walk(e, s) && s[0] == i && s.last() == j;
    let b = choose|s: Seq<nat>| #[trigger] walk(e, s) && s[0] == j && s.last() == k;
    let s = a + b.skip(1);
    assert forall|x: int| 0 <= x < s.len() - 1 implies #[trigger] linked(e, s, x) by {
        if x < a.len() - 1 {
            assert(linked(e, a, x));
        } else {
            let y = x - a.len() + 1;
            assert(linked(e, b, y));
            if x == a.len() - 1 {
                assert(s[x] == a.last());
            } else {
                assert(s[x] == b[y]);
            }
            assert(s[x + 1] == b[y + 1]);
        }
    }
    assert(walk(e, s));
    assert(s.last() == b.last());
}

/// The number of pairs of row `r` with a column below `n`.
pub open spec fn row_ones(e: Set<(nat, nat)>, r: nat, n: nat) -> nat
    decreases n,
{
    if n == 0 {
        0
    } else {
        row_ones(e, r, (n - 1) as nat) + (if e.contains((r, (n - 1) as nat)) {
            1nat
        } else {
            0nat
        })
    }
}

/// The number of pairs in the rows below `m` with a column below `n`.
pub open spec fn all_ones(e: Set<(nat, nat)>, m: nat, n: nat) -> nat
    decreases m,
{
    if m == 0 {
        0
    } else {
        all_ones(e, (m - 1) as nat, n) + row_ones(e, (m - 1) as nat, n)
    }
}

proof fn lemma_row_ones_bound(e: Set<(nat, nat)>, r: nat, n: nat)
    ensures
        row_ones(e, r, n) <= n,
    decreases n,
{
    if n > 0 {
        lemma_row_ones_bound(e, r, (n - 1) as nat);
    }
}

/// The words that hold `cols` bits, at least one.
pub open spec fn words_for(cols: nat) -> nat {
    if cols == 0 {
        1
    } else {
        (cols + 63) / 64
    }
}

impl BitMatrix {
    /// The set bits, as pairs of a row and a column.
    pub closed spec fn view(&self) -> Set<(nat, nat)> {
        Set::new(|p: (nat, nat)| p.0 < self.rows && p.1 < self.cols && self.raw(p.0, p.1))
    }

    closed spec fn raw(&self, r: nat, c: nat) -> bool {
        words::bit_at(self.data@, 64 * (r * self.words_per_row as nat) + c)
    }

    pub closed spec fn row_count(&self) -> nat {
        self.rows as nat
    }

    pub closed spec fn col_count(&self) -> nat {
        self.cols as nat
    }

    /// Every row has its words, and no bit behind the last column is set.
    pub closed spec fn wf(&self) -> bool {
        &&& self.words_per_row == words_for(self.cols as nat)
        &&& self.data@.len() == self.rows * self.words_per_row
        &&& forall|r: nat, c: nat|
            r < self.rows && self.cols <= c < 64 * self.words_per_row ==> !#[trigger] self.raw(r, c)
    }

    proof fn lemma_index(&self, r: nat, c: nat)
        requires
            c < 64 * self.words_per_row,
        ensures
            (64 * (r * self.words_per_row as nat) + c) / 64 == r * self.words_per_row + c / 64,
            (64 * (r * self.words_per_row as nat) + c) % 64 == c % 64,
            self.wf() && r < self.rows ==> r * self.words_per_row + c / 64 < self.data@.len(),
            self.wf() && r < self.rows ==> (r + 1) * self.words_per_row <= self.data@.len(),
            (r + 1) * self.words_per_row == r * self.words_per_row + self.words_per_row,
    {
        let w = self.words_per_row as int;
        let n = self.rows as int;
        assert((r + 1) * w == r * w + w) by (nonlinear_arith);
        if r < n {
            assert((r + 1) * w <= n * w) by (nonlinear_arith)
                requires
                    r + 1 <= n,
                    w >= 0,
            ;
        }
    }

    /// Bits of different places do not share a position.
    proof fn lemma_apart(&self, r: nat, c: nat, r2: nat, c2: nat)
        requires
            c < 64 * self.words_per_row,
            c2 < 64 * self.words_per_row,
            64 * (r * self.words_per_row as nat) + c == 64 * (r2 * self.words_per_row as nat) + c2,
        ensures
            r == r2 && c == c2,
    {
        let w = self.words_per_row as int;
        if r < r2 {
            assert(r * w + w <= r2 * w) by (nonlinear_arith)
                requires
                    r + 1 <= r2,
                    w >= 0,
            ;
        } else if r2 < r {
            assert(r2 * w + w <= r * w) by (nonlinear_arith)
                requires
                    r2 + 1 <= r,
                    w >= 0,
            ;
        }
    }

    /// A `rows x cols` matrix of zeros.
    pub fn new(rows: usize, cols: usize) -> (m: BitMatrix)
        requires
            rows * words_for(cols as nat) <= usize::MAX,
        ensures
            m.wf(),
            m.row_count() == rows,
            m.col_count() == cols,
            m@ == Set::<(nat, nat)>::empty(),
    {
        let words_per_row: usize = if cols == 0 {
            1
        } else {
            (cols - 1) / 64 + 1
        };
        let m = BitMatrix { rows, cols, words_per_row, data: words::zeroed(rows * words_per_row) };
        assert(m@ =~= Set::<(nat, nat)>::empty());
        m
    }

    /// A square identity matrix of order `n`.
    pub fn identity(n: usize) -> (m: BitMatrix)
        requires
            n * words_for(n as nat) <= usize::MAX,
        ensures
            m.wf(),
            m.row_count() == n,
            m.col_count() == n,
            forall|p: (nat, nat)| #[trigger] m@.contains(p) <==> p.0 < n && p.0 == p.1,
    {
        let mut m = BitMatrix::new(n, n);
        let mut i: usize = 0;
        while i < n
            invariant
                i <= n,
                m.wf(),
                m.row_count() == n,
                m.col_count() == n,
                forall|p: (nat, nat)| #[trigger] m@.contains(p) <==> p.0 < i && p.0 == p.1,
            decreases n - i,
        {
            m.set(i, i, true);
            i += 1;
        }
        m
    }

    /// Number of rows.
    pub fn rows(&self) -> (r: usize)
        ensures
            r == self.row_count(),
    {
        self.rows
    }

    /// Number of columns.
    pub fn cols(&self) -> (r: usize)
        ensures
            r == self.col_count(),
    {
        self.cols
    }

    /// The word and the bit within it that hold `(r, c)`.
    fn index(&self, r: usize, c: usize) -> (p: (usize, u64))
        requires
            self.wf(),
            r < self.rows,
            c < self.cols,
        ensures
            p.0 < self.data@.len(),
            p.1 < 64,
            64 * p.0 + p.1 == 64 * (r * self.words_per_row) + c,
            self.raw(r as nat, c as nat) == bits::bit(self.data@[p.0 as int] as nat, p.1 as nat),
    {
        proof {
            self.lemma_index(r as nat, c as nat);
            assert(r * self.words_per_row <= self.data@.len());
        }
        assert(self.data.len() == self.data@.len());
        (r * self.words_per_row + c / 64, (c % 64) as u64)
    }

    /// Get bit `(r, c)`.
    pub fn get(&self, r: usize, c: usize) -> (b: bool)
        requires
            self.wf(),
        ensures
            b == self@.contains((r as nat, c as nat)),
    {
        if r >= self.rows || c >= self.cols {
            return false;
        }
        let (word, k) = self.index(r, c);
        bits::test_bit(self.data[word], k)
    }

    /// Set bit `(r, c)`; places outside the matrix are ignored.
    pub fn set(&mut self, r: usize, c: usize, value: bool)
        requires
            old(self).wf(),
        ensures
            final(self).wf(),
            final(self).row_count() == old(self).row_count(),
            final(self).col_count() == old(self).col_count(),
            final(self)@ == (if r >= old(self).row_count() || c >= old(self).col_count() {
                old(self)@
            } else if value {
                old(self)@.insert((r as nat, c as nat))
            } else {
                old(self)@.remove((r as nat, c as nat))
            }),
    {
        if r >= self.rows || c >= self.cols {
            return ;
        }
        let (word, k) = self.index(r, c);
        let ghost m0 = *self;
        let v: u64 = if value {
            bits::with_bit(self.data[word], k)
        } else {
            bits::without_bit(self.data[word], k)
        };
        self.data.set(word, v);
        proof {
            assert forall|r2: nat, c2: nat| r2 < self.rows && c2 < 64 * self.words_per_row implies #[trigger] self.raw(
                r2,
                c2,
            ) == (if r2 == r && c2 == c {
                value
            } else {
                m0.raw(r2, c2)
            }) by {
                m0.lemma_index(r2, c2);
                m0.lemma_index(r as nat, c as nat);
                if (r2 * self.words_per_row + c2 / 64) == word {
                    if c2 % 64 == k {
                        m0.lemma_apart(r2, c2, r as nat, c as nat);
                    }
                }
            }
            assert(self@ =~= (if value {
                old(self)@.insert((r as nat, c as nat))
            } else {
                old(self)@.remove((r as nat, c as nat))
            }));
        }
    }

    proof fn lemma_row(&self, r: nat, n: nat)
        requires
            self.wf(),
            r < self.rows,
            n <= 64 * self.words_per_row,
        ensures
            words::set_bits(self.data@, 64 * (r * self.words_per_row as nat) + n) == words::set_bits(
                self.data@,
                64 * (r * self.words_per_row as nat),
            ) + row_ones(self@, r, n),
            n >= self.cols ==> row_ones(self@, r, n) == row_ones(self@, r, self.cols as nat),
        decreases n,
    {
        if n > 0 {
            let m = (n - 1) as nat;
            self.lemma_row(r, m);
            let p = 64 * (r * self.words_per_row as nat) + m;
            assert(words::bit_at(self.data@, p) == self.raw(r, m));
            assert((64 * (r * self.words_per_row as nat) + n - 1) as nat == p);
        }
    }

    proof fn lemma_rows(&self, m: nat)
        requires
            self.wf(),
            m <= self.rows,
        ensures
            words::set_bits(self.data@, 64 * (m * self.words_per_row as nat)) == all_ones(self@, m, self.cols as nat),
        decreases m,
    {
        if m > 0 {
            let l = (m - 1) as nat;
            self.lemma_rows(l);
            self.lemma_index(l, 0);
            assert(m * self.words_per_row == l * self.words_per_row + self.words_per_row);
            self.lemma_row(l, 64 * self.words_per_row as nat);
        } else {
            let w = self.words_per_row as nat;
            assert(m * w == 0) by (nonlinear_arith)
                requires
                    m == 0,
            ;
        }
    }

    /// Number of set bits in row `r`.
    pub fn row_popcount(&self, r: usize) -> (c: usize)
        requires
            self.wf(),
        ensures
            c == (if r < self.row_count() {
                row_ones(self@, r as nat, self.col_count())
            } else {
                0
            }),
    {
        if r >= self.rows {
            return 0;
        }
        proof {
            self.lemma_index(r as nat, 0);
            self.lemma_row(r as nat, 64 * self.words_per_row as nat);
            lemma_row_ones_bound(self@, r as nat, self.cols as nat);
            assert(r * self.words_per_row <= self.data@.len());
        }
        assert(self.data.len() == self.data@.len());
        let start: usize = r * self.words_per_row;
        assert(start + self.words_per_row <= self.data.len());
        words::count_range(&self.data, start, start + self.words_per_row)
    }

    /// Total set bits.
    pub fn popcount(&self) -> (c: usize)
        requires
            self.wf(),
            all_ones(self@, self.row_count(), self.col_count()) <= usize::MAX,
        ensures
            c == all_ones(self@, self.row_count(), self.col_count()),
    {
        proof {
            self.lemma_rows(self.rows as nat);
        }
        words::count_range(&self.data, 0, self.data.len())
    }

    /// OR row `src` into row `dst`. Returns whether any bit changed.
    fn or_row_into(&mut self, dst: usize, src: usize) -> (changed: bool)
        requires
            old(self).wf(),
            dst < old(self).rows,
            src < old(self).rows,
        ensures
            final(self).wf(),
            final(self).rows == old(self).rows,
            final(self).cols == old(self).cols,
            final(self)@ == old(self)@.union(
                Set::new(|p: (nat, nat)| p.0 == dst && old(self)@.contains((src as nat, p.1))),
            ),
            changed == (final(self).data@ != old(self).data@),
    {
        let mut changed = false;
        let ghost m0 = *self;
        let w: usize = self.words_per_row;
        proof {
            self.lemma_index(dst as nat, 0);
            self.lemma_index(src as nat, 0);
            assert(dst * w <= self.data@.len() && src * w <= self.data@.len());
        }
        assert(self.data.len() == self.data@.len());
        let dbase: usize = dst * w;
        let sbase: usize = src * w;
        proof {
            let wi = w as int;
            if dst < src {
                assert(dst * wi + wi <= src * wi) by (nonlinear_arith)
                    requires
                        dst + 1 <= src,
                        wi >= 0,
                ;
            } else if src < dst {
                assert(src * wi + wi <= dst * wi) by (nonlinear_arith)
                    requires
                        src + 1 <= dst,
                        wi >= 0,
                ;
            }
        }
        let mut i: usize = 0;
        while i < w
            invariant
                i <= w,
                w == self.words_per_row,
                m0.wf(),
                self.rows == m0.rows,
                self.cols == m0.cols,
                self.words_per_row == m0.words_per_row,
                self.data@.len() == m0.data@.len(),
                dbase == dst * w,
                sbase == src * w,
                dbase + w <= self.data@.len(),
                sbase + w <= self.data@.len(),
                dst < m0.rows,
                src < m0.rows,
                dst != src ==> dbase + w <= sbase || sbase + w <= dbase,
                forall|x: int|
                    0 <= x < self.data@.len() && !(dbase <= x < dbase + i) ==> self.data@[x] == m0.data@[x],
                forall|x: int|
                    dbase <= x < dbase + i ==> self.data@[x] == m0.data@[x] | m0.data@[sbase + (x - dbase)],
                changed == (self.data@ != m0.data@),
            decreases w - i,
        {
            assert(self.data.len() == self.data@.len());
            let before: u64 = self.data[dbase + i];
            let other: u64 = self.data[sbase + i];
            assert(other == m0.data@[sbase + i]) by {
                if dst == src {
                    assert(!(dbase <= sbase + i < dbase + i));
                }
            }
            let after: u64 = before | other;
            let ghost d1 = self.data@;
            if after != before {
                changed = true;
            }
            self.data.set(dbase + i, after);
            proof {
                assert(before == m0.data@[dbase + i]);
                if after == before {
                    assert(self.data@ =~= d1);
                } else {
                    assert(self.data@[dbase + i] != m0.data@[dbase + i]);
                }
            }
            i += 1;
        }
        proof {
            assert forall|r: nat, c: nat| r < self.rows && c < 64 * self.words_per_row implies #[trigger] self.raw(
                r,
                c,
            ) == (m0.raw(r, c) || r == dst && m0.raw(src as nat, c)) by {
                m0.lemma_index(r, c);
                m0.lemma_index(src as nat, c);
                let x = r * w + c / 64;
                if r == dst {
                    let y = sbase + c / 64;
                    assert(dbase <= x < dbase + w);
                    bits::lemma_bit_or(m0.data@[x as int], m0.data@[y as int], c % 64);
                } else {
                    let wi = w as int;
                    if r < dst {
                        assert(r * wi + wi <= dst * wi) by (nonlinear_arith)
                            requires
                                r + 1 <= dst,
                                wi >= 0,
                        ;
                    } else {
                        assert(dst * wi + wi <= r * wi) by (nonlinear_arith)
                            requires
                                dst + 1 <= r,
                                wi >= 0,
                        ;
                    }
                }
            }
            assert(self@ =~= old(self)@.union(
                Set::new(|p: (nat, nat)| p.0 == dst && old(self)@.contains((src as nat, p.1))),
            ));
        }
        changed
    }

    /// In-place transitive closure via Warshall's algorithm (square matrices
    /// only). Interprets the matrix as an adjacency matrix and adds all
    /// reachable edges.
    pub fn transitive_closure(&mut self)
        requires
            old(self).wf(),
            old(self).row_count() == old(self).col_count(),
        ensures
            final(self).wf(),
            final(self).row_count() == old(self).row_count(),
            final(self).col_count() == old(self).col_count(),
            forall|i: nat, j: nat| #[trigger] final(self)@.contains((i, j)) <==> connected(old(self)@, i, j),
    {
        let ghost e = self@;
        let n: usize = self.rows;
        let mut k: usize = 0;
        while k < n
            invariant
                self.wf(),
                self.rows == n,
                self.cols == n,
                k <= n,
                forall|p: (nat, nat)| #[trigger] e.contains(p) ==> p.0 < n && p.1 < n,
                forall|i: nat, j: nat| #[trigger] self@.contains((i, j)) <==> through(e, i, j, k as nat),
            decreases n - k,
        {
            let mut i: usize = 0;
            while i < n
                invariant
                    self.wf(),
                    self.rows == n,
                    self.cols == n,
                    k < n,
                    i <= n,
                    forall|x: nat, y: nat| #[trigger]
                        self@.contains((x, y)) <==> through(e, x, y, k as nat) || x < i && through(e, x, k as nat, k as nat)
                            && through(e, k as nat, y, k as nat),
                decreases n - i,
            {
                let ghost m1 = self@;
                if self.get(i, k) {
                    self.or_row_into(i, k);
                    proof {
                        assert forall|x: nat, y: nat| #[trigger]
                            self@.contains((x, y)) <==> through(e, x, y, k as nat) || x < i + 1 && through(
                                e,
                                x,
                                k as nat,
                                k as nat,
                            ) && through(e, k as nat, y, k as nat) by {
                            assert(m1.contains((i as nat, k as nat)));
                            assert(m1.contains((k as nat, y)) <==> through(e, k as nat, y, k as nat) || k < i && through(
                                e,
                                k as nat,
                                k as nat,
                                k as nat,
                            ) && through(e, k as nat, y, k as nat));
                            assert(m1.contains((x, y)) <==> through(e, x, y, k as nat) || x < i && through(
                                e,
                                x,
                                k as nat,
                                k as nat,
                            ) && through(e, k as nat, y, k as nat));
                        }
                    }
                } else {
                    proof {
                        assert(!m1.contains((i as nat, k as nat)));
                        assert(!through(e, i as nat, k as nat, k as nat));
                    }
                }
                i += 1;
            }
            proof {
                assert forall|x: nat, y: nat| #[trigger]
                    self@.contains((x, y)) <==> through(e, x, y, (k + 1) as nat) by {
                    if !(x < n) {
                        lemma_via_bound(e, n as nat, x, k as nat, k as nat);
                    }
                }
            }
            k += 1;
        }
        proof {
            assert forall|i: nat, j: nat| #[trigger] self@.contains((i, j)) <==> connected(e, i, j) by {
                lemma_closure(e, n as nat, i, j);
            }
        }
    }

    /// `true` if `to` is reachable from `from` after a closure pass.
    pub fn reachable(&self, from: usize, to: usize) -> (r: bool)
        requires
            self.wf(),
        ensures
            r == self@.contains((from as nat, to as nat)),
    {
        self.get(from, to)
    }

    /// Row `r` as the list of set column indices.
    pub fn row_indices(&self, r: usize) -> (v: Vec<usize>)
        requires
            self.wf(),
        ensures
            forall|i: int, j: int| 0 <= i < j < v@.len() ==> v@[i] < v@[j],
            forall|c: usize| #[trigger] v@.contains(c) <==> self@.contains((r as nat, c as nat)),
    {
        let mut v: Vec<usize> = Vec::new();
        let mut c: usize = 0;
        while c < self.cols
            invariant
                self.wf(),
                c <= self.cols,
                forall|i: int, j: int| 0 <= i < j < v@.len() ==> v@[i] < v@[j],
                forall|i: int| 0 <= i < v@.len() ==> (#[trigger] v@[i]) < c && self@.contains((r as nat, v@[i] as nat)),
                forall|x: usize| x < c && #[trigger] self@.contains((r as nat, x as nat)) ==> v@.contains(x),
            decreases self.cols - c,
        {
            let ghost v0 = v@;
            if self.get(r, c) {
                v.push(c);
                proof {
                    assert forall|x: usize| x < c + 1 && #[trigger] self@.contains((r as nat, x as nat)) implies v@.contains(
                        x,
                    ) by {
                        if x == c {
                            assert(v@[v0.len() as int] == x);
                        } else {
                            assert(v0.contains(x));
                            let i = choose|i: int| 0 <= i < v0.len() && v0[i] == x;
                            assert(v@[i] == x);
                        }
                    }
                }
            }
            c += 1;
        }
        v
    }
}

/// Paths start at nodes that edges start at.
proof fn lemma_via_bound(e: Set<(nat, nat)>, n: nat, i: nat, j: nat, k: nat)
    requires
        forall|p: (nat, nat)| #[trigger] e.contains(p) ==> p.0 < n && p.1 < n,
        i >= n,
    ensures
        !through(e, i, j, k),
    decreases k,
{
    if k == 0 {
        if e.contains((i, j)) {
            assert(false);
        }
    } else {
        lemma_via_bound(e, n, i, j, (k - 1) as nat);
        lemma_via_bound(e, n, i, (k - 1) as nat, (k - 1) as nat);
    }
}

} // verus!
