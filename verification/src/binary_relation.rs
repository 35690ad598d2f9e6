//! Bit-packed square adjacency matrix used to represent partial orders.

use vstd::prelude::*;
use vstd::arithmetic::div_mod::lemma_fundamental_div_mod_converse;
use vstd::set_lib::{lemma_len_subset, lemma_int_range, set_int_range};

verus! {

/// Whether bit `b` of the word `w` is set.
pub open spec fn bit_set(w: u64, b: u64) -> bool {
    (w >> b) & 1u64 == 1u64
}

proof fn lemma_bit_or_one(w: u64, b: u64, c: u64)
    requires
        b < 64,
        c < 64,
    ensures
        bit_set(w | (1u64 << b), c) == (c == b || bit_set(w, c)),
{
    assert(((w | (1u64 << b)) >> c) & 1u64 == 1u64 <==> (c == b || (w >> c) & 1u64 == 1u64))
        by (bit_vector)
        requires
            b < 64,
            c < 64,
    ;
}

proof fn lemma_bit_clear(w: u64, b: u64, c: u64)
    requires
        b < 64,
        c < 64,
    ensures
        bit_set(w & !(1u64 << b), c) == (c != b && bit_set(w, c)),
{
    assert(((w & !(1u64 << b)) >> c) & 1u64 == 1u64 <==> (c != b && (w >> c) & 1u64 == 1u64))
        by (bit_vector)
        requires
            b < 64,
            c < 64,
    ;
}

proof fn lemma_bit_or(x: u64, y: u64, c: u64)
    requires
        c < 64,
    ensures
        bit_set(x | y, c) == (bit_set(x, c) || bit_set(y, c)),
{
    assert((((x | y) >> c) & 1u64 == 1u64) <==> ((x >> c) & 1u64 == 1u64 || (y >> c) & 1u64
        == 1u64)) by (bit_vector)
        requires
            c < 64,
    ;
}

proof fn lemma_bit_zero(c: u64)
    requires
        c < 64,
    ensures
        !bit_set(0u64, c),
{
    assert(((0u64 >> c) & 1u64) != 1u64) by (bit_vector);
}

/// The word index of entry `(i, j)` in a matrix whose rows hold `rw` words.
pub open spec fn word_index(rw: int, i: int, j: int) -> int {
    i * rw + j / 64
}

proof fn lemma_word_index_bounds(n: int, rw: int, i: int, j: int)
    requires
        rw == (n + 63) / 64,
        0 <= i < n,
        0 <= j < n,
    ensures
        0 <= i * rw,
        0 <= word_index(rw, i, j),
        word_index(rw, i, j) < n * rw,
        i * rw + rw <= n * rw,
        j / 64 < rw,
{
    assert(j / 64 < rw) by (nonlinear_arith)
        requires
            rw == (n + 63) / 64,
            0 <= j < n,
    ;
    assert(0 <= i * rw && i * rw + rw <= n * rw) by (nonlinear_arith)
        requires
            0 <= i < n,
            0 <= rw,
    ;
}

proof fn lemma_word_index_distinct(rw: int, i1: int, j1: int, i2: int, j2: int)
    requires
        0 <= j1,
        0 <= j2,
        j1 / 64 < rw,
        j2 / 64 < rw,
        0 <= i1,
        0 <= i2,
        i1 != i2,
    ensures
        word_index(rw, i1, j1) != word_index(rw, i2, j2),
{
    if i1 < i2 {
        assert(i1 * rw + rw <= i2 * rw) by (nonlinear_arith)
            requires
                i1 < i2,
                0 <= rw,
        ;
    } else {
        assert(i2 * rw + rw <= i1 * rw) by (nonlinear_arith)
            requires
                i2 < i1,
                0 <= rw,
        ;
    }
}

proof fn lemma_same_slot(rw: int, a: int, b: int, i: int, j: int)
    requires
        0 <= a,
        0 <= i,
        0 <= b,
        0 <= j,
        b / 64 < rw,
        j / 64 < rw,
        word_index(rw, a, b) == word_index(rw, i, j),
        b % 64 == j % 64,
    ensures
        a == i,
        b == j,
{
    if a != i {
        lemma_word_index_distinct(rw, a, b, i, j);
    }
}

proof fn lemma_col_bound(n: int, rw: int, b: int)
    requires
        rw == (n + 63) / 64,
        0 <= b < rw * 64,
    ensures
        b / 64 < rw,
{
}

proof fn lemma_slot_in_range(n: int, rw: int, a: int, b: int)
    requires
        rw == (n + 63) / 64,
        0 <= a < n,
        0 <= b < rw * 64,
    ensures
        b / 64 < rw,
        0 <= word_index(rw, a, b) < n * rw,
{
    lemma_word_index_bounds(n, rw, a, 0);
    assert(word_index(rw, a, b) < n * rw) by (nonlinear_arith)
        requires
            0 <= a < n,
            b / 64 < rw,
            0 <= b,
    ;
}

/// Square boolean matrix over the nodes `0..n`, stored row by row with one
/// bit per entry; row `i` occupies `words[i * row_words .. (i + 1) * row_words]`
/// and bit `j % 64` of word `i * row_words + j / 64` is the entry `i -> j`.
#[derive(Debug)]
pub struct BinaryRelation {
    pub n: usize,
    pub row_words: usize,
    pub words: Vec<u64>,
}

impl Clone for BinaryRelation {
    fn clone(&self) -> (res: Self)
        ensures
            res.n == self.n,
            res.row_words == self.row_words,
            res.words@ == self.words@,
    {
        let mut words: Vec<u64> = Vec::new();
        let mut k: usize = 0;
        while k < self.words.len()
            invariant
                k <= self.words@.len(),
                words@ == self.words@.subrange(0, k as int),
            decreases self.words@.len() - k,
        {
            words.push(self.words[k]);
            k = k + 1;
        }
        assert(words@ =~= self.words@);
        BinaryRelation { n: self.n, row_words: self.row_words, words }
    }
}

/// A sequence of nodes in which each node has an edge of `r` to the next.
pub open spec fn is_path(r: BinaryRelation, p: Seq<int>) -> bool {
    &&& p.len() >= 2
    &&& forall|k: int| 0 <= k < p.len() - 1 ==> #[trigger] r.edge(p[k], p[k + 1])
}

/// `j` can be reached from `i` by following one or more edges of `r`.
pub open spec fn reaches(r: BinaryRelation, i: int, j: int) -> bool {
    exists|p: Seq<int>| #[trigger] is_path(r, p) && p[0] == i && p.last() == j
}

impl BinaryRelation {
    /// The stored shape (`row_words` words per row, `n` rows), with the bits
    /// past column `n - 1` of every row clear.
    pub open spec fn wf(&self) -> bool {
        &&& self.row_words == (self.n + 63) / 64
        &&& self.words@.len() == self.n * self.row_words
        &&& self.padding_clear()
    }

    /// The stored bit for entry `(i, j)`.
    pub closed spec fn raw_bit(&self, i: int, j: int) -> bool {
        bit_set(self.words@[word_index(self.row_words as int, i, j)], (j % 64) as u64)
    }

    /// Bits of columns `n .. 64 * row_words` are clear in every row.
    pub closed spec fn padding_clear(&self) -> bool {
        forall|i: int, j: int|
            0 <= i < self.n && self.n <= j < self.row_words * 64 ==> !#[trigger] self.raw_bit(i, j)
    }

    /// Whether the relation holds the edge `i -> j`.
    pub closed spec fn edge(&self, i: int, j: int) -> bool {
        &&& 0 <= i < self.n
        &&& 0 <= j < self.n
        &&& self.raw_bit(i, j)
    }

    /// No node has an edge to itself.
    pub open spec fn irreflexive(&self) -> bool {
        forall|i: int| 0 <= i < self.n ==> !#[trigger] self.edge(i, i)
    }

    /// Whenever `i -> j` and `j -> k` are edges, so is `i -> k`.
    pub open spec fn transitive(&self) -> bool {
        forall|i: int, j: int, k: int| #[trigger]
            self.edge(i, j) && #[trigger] self.edge(j, k) ==> self.edge(i, k)
    }

    /// Two matrices with the same shape and words hold the same edges.
    pub proof fn lemma_same_words(&self, other: BinaryRelation)
        requires
            self.n == other.n,
            self.row_words == other.row_words,
            self.words@ == other.words@,
        ensures
            self.wf() == other.wf(),
            forall|i: int, j: int| #[trigger] self.edge(i, j) == other.edge(i, j),
    {
        assert(forall|i: int, j: int| #[trigger] self.raw_bit(i, j) == other.raw_bit(i, j));
        if other.padding_clear() {
            assert forall|i: int, j: int|
                0 <= i < self.n && self.n <= j < self.row_words * 64 implies !#[trigger] self.raw_bit(i, j) by {
                assert(!other.raw_bit(i, j));
            }
        }
        if self.padding_clear() {
            assert forall|i: int, j: int|
                0 <= i < other.n && other.n <= j < other.row_words * 64 implies !#[trigger] other.raw_bit(i, j) by {
                assert(!self.raw_bit(i, j));
            }
        }
    }

    pub proof fn lemma_edge_in_range(&self, i: int, j: int)
        ensures
            self.edge(i, j) ==> 0 <= i < self.n && 0 <= j < self.n,
    {
    }

    /// An `n`-node relation without edges.
    pub fn new(n: usize) -> (res: Self)
        requires
            n * ((n + 63) / 64) <= usize::MAX,
        ensures
            res.wf(),
            res.n == n,
            forall|i: int, j: int| !#[trigger] res.edge(i, j),
    {
        let row_words: usize = n / 64 + if n % 64 == 0 {
            0
        } else {
            1
        };
        assert(row_words == (n + 63) / 64) by (nonlinear_arith)
            requires
                row_words == n / 64 + if n % 64 == 0 {
                    0int
                } else {
                    1int
                },
        ;
        let total: usize = n * row_words;
        let mut words: Vec<u64> = Vec::new();
        let mut k: usize = 0;
        while k < total
            invariant
                k <= total,
                words@.len() == k,
                forall|x: int| 0 <= x < k ==> words@[x] == 0u64,
            decreases total - k,
        {
            words.push(0u64);
            k = k + 1;
        }
        let res = BinaryRelation { n, row_words, words };
        assert forall|i: int, j: int|
            0 <= i < n && 0 <= j < row_words * 64 implies !#[trigger] res.raw_bit(i, j) by {
            lemma_col_bound(n as int, row_words as int, j);
            lemma_word_index_bounds(n as int, row_words as int, i, 0);
            assert(word_index(row_words as int, i, j) < n * row_words) by (nonlinear_arith)
                requires
                    0 <= i < n,
                    j / 64 < row_words,
                    0 <= j,
            ;
            lemma_bit_zero((j % 64) as u64);
        }
        assert forall|i: int, j: int| !#[trigger] res.edge(i, j) by {
            if 0 <= i < n && 0 <= j < n {
                assert(!res.raw_bit(i, j));
            }
        }
        res
    }

    fn word_idx(&self, i: usize, j: usize) -> (res: (usize, u64))
        requires
            self.wf(),
            i < self.n,
            j < self.n,
        ensures
            res.0 == word_index(self.row_words as int, i as int, j as int),
            res.0 < self.words@.len(),
            res.1 == (j % 64) as u64,
            res.1 < 64,
    {
        proof {
            lemma_word_index_bounds(self.n as int, self.row_words as int, i as int, j as int);
        }
        let _total = self.words.len();
        (i * self.row_words + j / 64, (j % 64) as u64)
    }

    /// Adds the edge `i -> j`; every other entry keeps its value.
    pub fn add_edge(&mut self, i: usize, j: usize)
        requires
            old(self).wf(),
            i < old(self).n,
            j < old(self).n,
        ensures
            final(self).wf(),
            final(self).n == old(self).n,
            forall|a: int, b: int| #[trigger]
                final(self).edge(a, b) == ((a == i && b == j) || old(self).edge(a, b)),
    {
        let (idx, bit) = self.word_idx(i, j);
        let w = self.words[idx];
        self.words.set(idx, w | (1u64 << bit));
        proof {
            let o = *old(self);
            let rw = self.row_words as int;
            lemma_word_index_bounds(self.n as int, rw, i as int, j as int);
            assert forall|a: int, b: int| 0 <= a < self.n && 0 <= b < rw * 64 implies #[trigger]
                self.raw_bit(a, b) == ((a == i && b == j) || o.raw_bit(a, b)) by {
                lemma_slot_in_range(self.n as int, rw, a, b);
                if word_index(rw, a, b) == idx {
                    if b % 64 == j % 64 {
                        lemma_same_slot(rw, a, b, i as int, j as int);
                    }
                    lemma_bit_or_one(w, bit, (b % 64) as u64);
                }
            }
            assert forall|a: int, b: int| #[trigger]
                self.edge(a, b) == ((a == i && b == j) || o.edge(a, b)) by {
                if 0 <= a < self.n && 0 <= b < self.n {
                    assert(self.raw_bit(a, b) == ((a == i && b == j) || o.raw_bit(a, b)));
                }
            }
            assert forall|a: int, b: int|
                0 <= a < self.n && self.n <= b < rw * 64 implies !#[trigger] self.raw_bit(a, b) by {
                assert(!o.raw_bit(a, b));
            }
        }
    }

    /// Removes the edge `i -> j`; every other entry keeps its value.
    pub fn remove_edge(&mut self, i: usize, j: usize)
        requires
            old(self).wf(),
            i < old(self).n,
            j < old(self).n,
        ensures
            final(self).wf(),
            final(self).n == old(self).n,
            forall|a: int, b: int| #[trigger]
                final(self).edge(a, b) == (!(a == i && b == j) && old(self).edge(a, b)),
    {
        let (idx, bit) = self.word_idx(i, j);
        let w = self.words[idx];
        self.words.set(idx, w & !(1u64 << bit));
        proof {
            let o = *old(self);
            let rw = self.row_words as int;
            lemma_word_index_bounds(self.n as int, rw, i as int, j as int);
            assert forall|a: int, b: int| 0 <= a < self.n && 0 <= b < rw * 64 implies #[trigger]
                self.raw_bit(a, b) == (!(a == i && b == j) && o.raw_bit(a, b)) by {
                lemma_slot_in_range(self.n as int, rw, a, b);
                if word_index(rw, a, b) == idx {
                    if b % 64 == j % 64 {
                        lemma_same_slot(rw, a, b, i as int, j as int);
                    }
                    lemma_bit_clear(w, bit, (b % 64) as u64);
                }
            }
            assert forall|a: int, b: int| #[trigger]
                self.edge(a, b) == (!(a == i && b == j) && o.edge(a, b)) by {
                if 0 <= a < self.n && 0 <= b < self.n {
                    assert(self.raw_bit(a, b) == (!(a == i && b == j) && o.raw_bit(a, b)));
                }
            }
            assert forall|a: int, b: int|
                0 <= a < self.n && self.n <= b < rw * 64 implies !#[trigger] self.raw_bit(a, b) by {
                assert(!o.raw_bit(a, b));
            }
        }
    }

    /// Whether `i -> j` is an edge; indices outside `0..n` give `false`.
    pub fn is_edge(&self, i: usize, j: usize) -> (res: bool)
        requires
            self.wf(),
        ensures
            res == self.edge(i as int, j as int),
    {
        if i >= self.n || j >= self.n {
            return false;
        }
        let (idx, bit) = self.word_idx(i, j);
        (self.words[idx] >> bit) & 1u64 == 1u64
    }
}


impl BinaryRelation {
    /// No node has an edge to itself.
    pub fn is_irreflexive(&self) -> (res: bool)
        requires
            self.wf(),
        ensures
            res == self.irreflexive(),
    {
        for i in 0..self.n
            invariant
                self.wf(),
                forall|a: int| 0 <= a < i ==> !#[trigger] self.edge(a, a),
        {
            if self.is_edge(i, i) {
                return false;
            }
        }
        true
    }

    /// Whenever `i -> j` and `j -> k` are edges, so is `i -> k`.
    pub fn is_transitive(&self) -> (res: bool)
        requires
            self.wf(),
        ensures
            res == self.transitive(),
    {
        let n = self.n;
        for i in 0..n
            invariant
                self.wf(),
                n == self.n,
                forall|a: int, b: int, c: int|
                    0 <= a < i && #[trigger] self.edge(a, b) && #[trigger] self.edge(b, c)
                        ==> self.edge(a, c),
        {
            for j in 0..n
                invariant
                    self.wf(),
                    n == self.n,
                    0 <= i < n,
                    forall|a: int, b: int, c: int|
                        0 <= a < i && #[trigger] self.edge(a, b) && #[trigger] self.edge(b, c)
                            ==> self.edge(a, c),
                    forall|b: int, c: int|
                        0 <= b < j && #[trigger] self.edge(i as int, b) && #[trigger] self.edge(
                            b,
                            c,
                        ) ==> self.edge(i as int, c),
            {
                if self.is_edge(i, j) {
                    for k in 0..n
                        invariant
                            self.wf(),
                            n == self.n,
                            0 <= i < n,
                            0 <= j < n,
                            self.edge(i as int, j as int),
                            forall|c: int|
                                0 <= c < k && #[trigger] self.edge(j as int, c) ==> self.edge(
                                    i as int,
                                    c,
                                ),
                    {
                        if self.is_edge(j, k) && !self.is_edge(i, k) {
                            return false;
                        }
                    }
                    proof {
                        assert forall|c: int| #[trigger] self.edge(j as int, c) implies self.edge(
                            i as int,
                            c,
                        ) by {
                            self.lemma_edge_in_range(j as int, c);
                        }
                    }
                }
            }
            proof {
                assert forall|b: int, c: int| #[trigger]
                    self.edge(i as int, b) && #[trigger] self.edge(b, c) implies self.edge(
                    i as int,
                    c,
                ) by {
                    self.lemma_edge_in_range(i as int, b);
                }
            }
        }
        proof {
            assert forall|a: int, b: int, c: int| #[trigger]
                self.edge(a, b) && #[trigger] self.edge(b, c) implies self.edge(a, c) by {
                self.lemma_edge_in_range(a, b);
            }
        }
        true
    }

    /// Irreflexive and transitive.
    pub fn is_strict_partial_order(&self) -> (res: bool)
        requires
            self.wf(),
        ensures
            res == (self.irreflexive() && self.transitive()),
    {
        self.is_irreflexive() && self.is_transitive()
    }
}

proof fn lemma_rows_disjoint(rw: int, i: int, k: int)
    requires
        0 <= i,
        0 <= k,
        i != k,
        0 <= rw,
    ensures
        k * rw + rw <= i * rw || i * rw + rw <= k * rw,
{
    if k < i {
        assert(k * rw + rw <= i * rw) by (nonlinear_arith)
            requires
                k < i,
                0 <= rw,
        ;
    } else {
        assert(i * rw + rw <= k * rw) by (nonlinear_arith)
            requires
                i < k,
                0 <= rw,
        ;
    }
}

/// Joining a path from `a` to `m` with one from `m` to `b` gives a path from `a` to `b`.
pub proof fn lemma_reaches_trans(r: BinaryRelation, a: int, m: int, b: int)
    requires
        reaches(r, a, m),
        reaches(r, m, b),
    ensures
        reaches(r, a, b),
{
    let p1 = choose|p: Seq<int>| #[trigger] is_path(r, p) && p[0] == a && p.last() == m;
    let p2 = choose|p: Seq<int>| #[trigger] is_path(r, p) && p[0] == m && p.last() == b;
    let p = p1 + p2.drop_first();
    assert forall|x: int| 0 <= x < p.len() - 1 implies #[trigger] r.edge(p[x], p[x + 1]) by {
        if x < p1.len() - 1 {
            assert(p[x] == p1[x] && p[x + 1] == p1[x + 1]);
        } else if x == p1.len() - 1 {
            assert(p[x] == p2[0]);
            assert(p[x + 1] == p2[1]);
        } else {
            let y = x - p1.len() + 1;
            assert(p[x] == p2[y]);
            assert(p[x + 1] == p2[y + 1]);
        }
    }
    assert(is_path(r, p));
    assert(p[0] == a);
    assert(p.last() == b);
}

/// A single edge is a path.
pub proof fn lemma_edge_reaches(r: BinaryRelation, a: int, b: int)
    requires
        r.edge(a, b),
    ensures
        reaches(r, a, b),
{
    let p = seq![a, b];
    assert(r.edge(p[0], p[1]));
    assert(is_path(r, p));
}

impl BinaryRelation {
    /// Ors row `k` into row `i`.
    fn or_row_into(&mut self, i: usize, k: usize)
        requires
            old(self).wf(),
            i < old(self).n,
            k < old(self).n,
        ensures
            final(self).wf(),
            final(self).n == old(self).n,
            forall|a: int, b: int| #[trigger]
                final(self).edge(a, b) == (old(self).edge(a, b) || (a == i && old(self).edge(
                    k as int,
                    b,
                ))),
    {
        let rw = self.row_words;
        let n = self.n;
        proof {
            lemma_word_index_bounds(n as int, rw as int, i as int, 0);
            lemma_word_index_bounds(n as int, rw as int, k as int, 0);
        }
        let _len = self.words.len();
        let ri = i * rw;
        let rk = k * rw;
        let ghost w0 = self.words@;
        proof {
            if i != k {
                lemma_rows_disjoint(rw as int, i as int, k as int);
            }
        }
        for w in 0..rw
            invariant
                rw == (n + 63) / 64,
                w0.len() == n * rw,
                self.n == n,
                self.row_words == rw,
                ri == i * rw,
                rk == k * rw,
                ri + rw <= w0.len(),
                rk + rw <= w0.len(),
                w0.len() <= usize::MAX,
                i == k || rk + rw <= ri || ri + rw <= rk,
                self.words@.len() == w0.len(),
                forall|x: int| 0 <= x < w ==> self.words@[ri + x] == #[trigger] (w0[ri + x] | w0[rk
                    + x]),
                forall|y: int|
                    0 <= y < w0.len() && !(ri <= y < ri + w) ==> self.words@[y] == w0[y],
        {
            let v = self.words[ri + w] | self.words[rk + w];
            self.words.set(ri + w, v);
        }
        proof {
            let o = *old(self);
            assert forall|a: int, b: int| 0 <= a < n && 0 <= b < rw * 64 implies #[trigger]
                self.raw_bit(a, b) == (o.raw_bit(a, b) || (a == i && o.raw_bit(k as int, b))) by {
                lemma_slot_in_range(n as int, rw as int, a, b);
                if a == i {
                    let x = b / 64;
                    assert(self.words@[ri + x] == (w0[ri + x] | w0[rk + x]));
                    lemma_bit_or(w0[ri + x], w0[rk + x], (b % 64) as u64);
                    assert(word_index(rw as int, k as int, b) == rk + x);
                } else {
                    lemma_rows_disjoint(rw as int, a, i as int);
                }
            }
            assert forall|a: int, b: int| #[trigger]
                self.edge(a, b) == (o.edge(a, b) || (a == i && o.edge(k as int, b))) by {
                if 0 <= a < n && 0 <= b < n {
                    assert(self.raw_bit(a, b) == (o.raw_bit(a, b) || (a == i && o.raw_bit(
                        k as int,
                        b,
                    ))));
                }
            }
            assert forall|a: int, b: int|
                0 <= a < n && n <= b < rw * 64 implies !#[trigger] self.raw_bit(a, b) by {
                assert(!o.raw_bit(a, b));
                assert(!o.raw_bit(k as int, b));
            }
            assert(self.padding_clear());
        }
    }

    /// Closes the relation under transitivity (Warshall's algorithm): afterwards
    /// it holds every former edge, is transitive, and holds only edges that
    /// were reachable in the former relation.
    pub fn add_transitive_edges(&mut self)
        requires
            old(self).wf(),
        ensures
            final(self).wf(),
            final(self).n == old(self).n,
            forall|i: int, j: int| #[trigger] old(self).edge(i, j) ==> final(self).edge(i, j),
            final(self).transitive(),
            forall|i: int, j: int| #[trigger] final(self).edge(i, j) ==> reaches(*old(self), i, j),
    {
        let n = self.n;
        let ghost orig = *self;
        proof {
            assert forall|i: int, j: int| #[trigger] self.edge(i, j) implies reaches(orig, i, j) by {
                lemma_edge_reaches(orig, i, j);
            }
        }
        for k in 0..n
            invariant
                self.wf(),
                self.n == n,
                orig.n == n,
                forall|i: int, j: int| #[trigger] orig.edge(i, j) ==> self.edge(i, j),
                forall|i: int, j: int| #[trigger] self.edge(i, j) ==> reaches(orig, i, j),
                forall|a: int, m: int, b: int|
                    0 <= m < k && #[trigger] self.edge(a, m) && #[trigger] self.edge(m, b)
                        ==> self.edge(a, b),
        {
            let ghost e0 = *self;
            for i in 0..n
                invariant
                    self.wf(),
                    self.n == n,
                    e0.n == n,
                    0 <= k < n,
                    forall|a: int, b: int|
                        0 <= a < i ==> #[trigger] self.edge(a, b) == (e0.edge(a, b) || (e0.edge(
                            a,
                            k as int,
                        ) && e0.edge(k as int, b))),
                    forall|a: int, b: int|
                        !(0 <= a < i) ==> #[trigger] self.edge(a, b) == e0.edge(a, b),
            {
                if self.is_edge(i, k) {
                    proof {
                        assert forall|b: int| #[trigger] self.edge(k as int, b) == e0.edge(
                            k as int,
                            b,
                        ) by {}
                    }
                    self.or_row_into(i, k);
                }
            }
            proof {
                let kk = k as int;
                assert forall|i: int, j: int| #[trigger] orig.edge(i, j) implies self.edge(
                    i,
                    j,
                ) by {
                    assert(e0.edge(i, j));
                    e0.lemma_edge_in_range(i, j);
                    orig.lemma_edge_in_range(i, j);
                }
                assert forall|i: int, j: int| #[trigger] self.edge(i, j) implies reaches(
                    orig,
                    i,
                    j,
                ) by {
                    self.lemma_edge_in_range(i, j);
                    if !e0.edge(i, j) {
                        assert(e0.edge(i, kk) && e0.edge(kk, j));
                        lemma_reaches_trans(orig, i, kk, j);
                    }
                }
                assert forall|a: int, m: int, b: int|
                    0 <= m < k + 1 && #[trigger] self.edge(a, m) && #[trigger] self.edge(
                        m,
                        b,
                    ) implies self.edge(a, b) by {
                    self.lemma_edge_in_range(a, m);
                    self.lemma_edge_in_range(m, b);
                    assert(self.edge(a, b) == (e0.edge(a, b) || (e0.edge(a, kk) && e0.edge(kk, b))));
                    assert(self.edge(a, m) == (e0.edge(a, m) || (e0.edge(a, kk) && e0.edge(kk, m))));
                    assert(self.edge(m, b) == (e0.edge(m, b) || (e0.edge(m, kk) && e0.edge(kk, b))));
                    if m == kk {
                        assert(self.edge(kk, b) == (e0.edge(kk, b) || (e0.edge(kk, kk) && e0.edge(kk, b))));
                        assert(self.edge(a, kk) == (e0.edge(a, kk) || (e0.edge(a, kk) && e0.edge(kk, kk))));
                    } else {
                        if e0.edge(a, m) && e0.edge(m, b) {
                        } else if e0.edge(a, m) {
                            assert(e0.edge(m, kk) && e0.edge(kk, b));
                            assert(e0.edge(a, kk));
                        } else if e0.edge(m, b) {
                            assert(e0.edge(a, kk) && e0.edge(kk, m));
                            assert(e0.edge(kk, b));
                        } else {
                        }
                    }
                }
            }
        }
        proof {
            assert forall|i: int, j: int, m: int| #[trigger]
                self.edge(i, j) && #[trigger] self.edge(j, m) implies self.edge(i, m) by {
                self.lemma_edge_in_range(i, j);
            }
        }
    }
}


impl BinaryRelation {
    /// `m` is a node strictly between `a` and `c`: `a -> m -> c` with `m` distinct from both.
    pub open spec fn is_shortcut(&self, a: int, m: int, c: int) -> bool {
        &&& m != a
        &&& m != c
        &&& self.edge(a, m)
        &&& self.edge(m, c)
    }

    /// The edge `a -> c` is implied by a two-step path through another node.
    pub open spec fn redundant(&self, a: int, c: int) -> bool {
        exists|m: int| #[trigger] self.is_shortcut(a, m, c)
    }

    /// Some node in `0..hi` lies between `a` and `c`.
    pub open spec fn redundant_below(&self, a: int, c: int, hi: int) -> bool {
        exists|m: int| 0 <= m < hi && #[trigger] self.is_shortcut(a, m, c)
    }

    /// The relation without its redundant edges: an edge `i -> k` is dropped
    /// when some other node `j` has `i -> j` and `j -> k`.
    pub fn get_transitive_reduction(&self) -> (res: Self)
        requires
            self.wf(),
            self.irreflexive(),
        ensures
            res.wf(),
            res.n == self.n,
            forall|i: int, k: int| #[trigger]
                res.edge(i, k) == (self.edge(i, k) && !self.redundant(i, k)),
    {
        let mut res = self.clone();
        proof {
            res.lemma_same_words(*self);
        }
        let n = self.n;
        for i in 0..n
            invariant
                self.wf(),
                res.wf(),
                n == self.n,
                res.n == n,
                forall|a: int, c: int| #[trigger]
                    res.edge(a, c) == (self.edge(a, c) && !(0 <= a < i && self.redundant_below(
                        a,
                        c,
                        n as int,
                    ))),
        {
            for j in 0..n
                invariant
                    self.wf(),
                    res.wf(),
                    n == self.n,
                    res.n == n,
                    0 <= i < n,
                    forall|a: int, c: int| #[trigger]
                        res.edge(a, c) == (self.edge(a, c) && !(0 <= a < i
                            && self.redundant_below(a, c, n as int)) && !(a == i
                            && self.redundant_below(a, c, j as int))),
            {
                if self.is_edge(i, j) {
                    for k in 0..n
                        invariant
                            self.wf(),
                            res.wf(),
                            n == self.n,
                            res.n == n,
                            0 <= i < n,
                            0 <= j < n,
                            self.edge(i as int, j as int),
                            forall|a: int, c: int| #[trigger]
                                res.edge(a, c) == (self.edge(a, c) && !(0 <= a < i
                                    && self.redundant_below(a, c, n as int)) && !(a == i
                                    && self.redundant_below(a, c, j as int)) && !(a == i && 0
                                    <= c < k && self.is_shortcut(a, j as int, c))),
                    {
                        if i != j && j != k && self.is_edge(j, k) && res.is_edge(i, k) {
                            res.remove_edge(i, k);
                        }
                    }
                }
                proof {
                    assert forall|a: int, c: int| #[trigger]
                        res.edge(a, c) == (self.edge(a, c) && !(0 <= a < i
                            && self.redundant_below(a, c, n as int)) && !(a == i
                            && self.redundant_below(a, c, j + 1))) by {
                        if a == i {
                            if self.is_shortcut(a, j as int, c) {
                                self.lemma_edge_in_range(j as int, c);
                            }
                            if self.redundant_below(a, c, j + 1) && !self.redundant_below(
                                a,
                                c,
                                j as int,
                            ) {
                                let m = choose|m: int|
                                    0 <= m < j + 1 && #[trigger] self.is_shortcut(a, m, c);
                                assert(m == j);
                                self.lemma_edge_in_range(j as int, c);
                            }
                        }
                    }
                }
            }
        }
        proof {
            assert forall|i: int, k: int| #[trigger]
                res.edge(i, k) == (self.edge(i, k) && !self.redundant(i, k)) by {
                if self.redundant(i, k) {
                    let m = choose|m: int| #[trigger] self.is_shortcut(i, m, k);
                    self.lemma_edge_in_range(i, m);
                    assert(self.redundant_below(i, k, n as int));
                }
                if self.redundant_below(i, k, n as int) {
                    let m = choose|m: int| 0 <= m < n && #[trigger] self.is_shortcut(i, m, k);
                    assert(self.redundant(i, k));
                }
                self.lemma_edge_in_range(i, k);
            }
        }
        res
    }

    /// Some node has an edge into `j`.
    pub open spec fn has_incoming(&self, j: int) -> bool {
        exists|i: int| #[trigger] self.edge(i, j)
    }

    /// Node `i` has an edge out of it.
    pub open spec fn has_outgoing(&self, i: int) -> bool {
        exists|j: int| #[trigger] self.edge(i, j)
    }

    /// The nodes without incoming edges, in increasing order.
    pub fn get_start_nodes(&self) -> (res: Vec<usize>)
        requires
            self.wf(),
        ensures
            forall|a: int, b: int| 0 <= a < b < res@.len() ==> res@[a] < res@[b],
            forall|j: int|
                0 <= j < self.n ==> (res@.contains(j as usize) <==> !self.has_incoming(j)),
            forall|x: int| 0 <= x < res@.len() ==> res@[x] < self.n,
    {
        let n = self.n;
        let mut has_in: Vec<bool> = Vec::new();
        for j in 0..n
            invariant
                has_in@.len() == j,
                forall|x: int| 0 <= x < j ==> !has_in@[x],
        {
            has_in.push(false);
        }
        for i in 0..n
            invariant
                self.wf(),
                n == self.n,
                has_in@.len() == n,
                forall|b: int|
                    0 <= b < n ==> (has_in@[b] <==> exists|a: int| 0 <= a < i && #[trigger] self.edge(a, b)),
        {
            for j in 0..n
                invariant
                    self.wf(),
                    n == self.n,
                    0 <= i < n,
                    has_in@.len() == n,
                    forall|b: int|
                        0 <= b < n ==> (has_in@[b] <==> (exists|a: int|
                            0 <= a < i && #[trigger] self.edge(a, b)) || (b < j && self.edge(
                            i as int,
                            b,
                        ))),
            {
                if self.is_edge(i, j) {
                    has_in.set(j, true);
                }
            }
            proof {
                assert forall|b: int| 0 <= b < n implies (has_in@[b] <==> exists|a: int|
                    0 <= a < i + 1 && #[trigger] self.edge(a, b)) by {
                    if self.edge(i as int, b) {
                        assert(0 <= i < i + 1);
                    }
                    if exists|a: int| 0 <= a < i + 1 && #[trigger] self.edge(a, b) {
                        let a = choose|a: int| 0 <= a < i + 1 && #[trigger] self.edge(a, b);
                        if a < i {
                        } else {
                        }
                    }
                }
            }
        }
        let mut res: Vec<usize> = Vec::new();
        for j in 0..n
            invariant
                self.wf(),
                n == self.n,
                has_in@.len() == n,
                forall|b: int|
                    0 <= b < n ==> (has_in@[b] <==> exists|a: int| 0 <= a < n && #[trigger] self.edge(a, b)),
                forall|a: int, b: int| 0 <= a < b < res@.len() ==> res@[a] < res@[b],
                forall|x: int| 0 <= x < res@.len() ==> res@[x] < j,
                forall|b: int| 0 <= b < j ==> (res@.contains(b as usize) <==> !has_in@[b]),
        {
            let ghost before = res@;
            if !has_in[j] {
                res.push(j);
            }
            proof {
                assert forall|b: int| 0 <= b < j + 1 implies (res@.contains(b as usize) <==> !has_in@[b]) by {
                    if b < j {
                        if before.contains(b as usize) {
                            let x = choose|x: int| 0 <= x < before.len() && before[x] == b as usize;
                            assert(res@[x] == before[x]);
                        }
                        if res@.contains(b as usize) {
                            let x = choose|x: int| 0 <= x < res@.len() && res@[x] == b as usize;
                            if x < before.len() {
                                assert(before[x] == res@[x]);
                            }
                        }
                    } else {
                        if !has_in@[b] {
                            assert(res@[before.len() as int] == j);
                        } else {
                            assert(res@ == before);
                        }
                    }
                }
            }
        }
        proof {
            assert forall|j: int| 0 <= j < n implies (res@.contains(j as usize) <==> !self.has_incoming(j)) by {
                assert(res@.contains(j as usize) <==> !has_in@[j]);
                if self.has_incoming(j) {
                    let a = choose|a: int| #[trigger] self.edge(a, j);
                    self.lemma_edge_in_range(a, j);
                }
                if has_in@[j] {
                    let a = choose|a: int| 0 <= a < n && #[trigger] self.edge(a, j);
                    assert(self.has_incoming(j));
                }
            }
        }
        res
    }

    /// The nodes without outgoing edges, in increasing order.
    pub fn get_end_nodes(&self) -> (res: Vec<usize>)
        requires
            self.wf(),
        ensures
            forall|a: int, b: int| 0 <= a < b < res@.len() ==> res@[a] < res@[b],
            forall|i: int|
                0 <= i < self.n ==> (res@.contains(i as usize) <==> !self.has_outgoing(i)),
            forall|x: int| 0 <= x < res@.len() ==> res@[x] < self.n,
    {
        let n = self.n;
        let mut has_out: Vec<bool> = Vec::new();
        for j in 0..n
            invariant
                has_out@.len() == j,
                forall|x: int| 0 <= x < j ==> !has_out@[x],
        {
            has_out.push(false);
        }
        for i in 0..n
            invariant
                self.wf(),
                n == self.n,
                has_out@.len() == n,
                forall|a: int|
                    0 <= a < n ==> (has_out@[a] <==> (a < i && exists|b: int| 0 <= b < n && #[trigger] self.edge(a, b))),
        {
            for j in 0..n
                invariant
                    self.wf(),
                    n == self.n,
                    0 <= i < n,
                    has_out@.len() == n,
                    forall|a: int|
                        0 <= a < n && a != i ==> (has_out@[a] <==> (a < i && exists|b: int| 0 <= b < n && #[trigger] self.edge(a, b))),
                    has_out@[i as int] <==> exists|b: int| 0 <= b < j && #[trigger] self.edge(i as int, b),
            {
                if self.is_edge(i, j) {
                    has_out.set(i, true);
                }
            }
        }
        let mut res: Vec<usize> = Vec::new();
        for i in 0..n
            invariant
                self.wf(),
                n == self.n,
                has_out@.len() == n,
                forall|a: int|
                    0 <= a < n ==> (has_out@[a] <==> exists|b: int| 0 <= b < n && #[trigger] self.edge(a, b)),
                forall|a: int, b: int| 0 <= a < b < res@.len() ==> res@[a] < res@[b],
                forall|x: int| 0 <= x < res@.len() ==> res@[x] < i,
                forall|a: int| 0 <= a < i ==> (res@.contains(a as usize) <==> !has_out@[a]),
        {
            let ghost before = res@;
            if !has_out[i] {
                res.push(i);
            }
            proof {
                assert forall|b: int| 0 <= b < i + 1 implies (res@.contains(b as usize) <==> !has_out@[b]) by {
                    if b < i {
                        if before.contains(b as usize) {
                            let x = choose|x: int| 0 <= x < before.len() && before[x] == b as usize;
                            assert(res@[x] == before[x]);
                        }
                        if res@.contains(b as usize) {
                            let x = choose|x: int| 0 <= x < res@.len() && res@[x] == b as usize;
                            if x < before.len() {
                                assert(before[x] == res@[x]);
                            }
                        }
                    } else {
                        if !has_out@[b] {
                            assert(res@[before.len() as int] == i);
                        } else {
                            assert(res@ == before);
                        }
                    }
                }
            }
        }
        proof {
            assert forall|i: int| 0 <= i < n implies (res@.contains(i as usize) <==> !self.has_outgoing(i)) by {
                assert(res@.contains(i as usize) <==> !has_out@[i]);
                if self.has_outgoing(i) {
                    let b = choose|b: int| #[trigger] self.edge(i, b);
                    self.lemma_edge_in_range(i, b);
                }
                if has_out@[i] {
                    let b = choose|b: int| 0 <= b < n && #[trigger] self.edge(i, b);
                    assert(self.has_outgoing(i));
                }
            }
        }
        res
    }

    /// All edges `(i, j)`, in increasing lexicographic order.
    pub fn edge_list(&self) -> (res: Vec<(usize, usize)>)
        requires
            self.wf(),
        ensures
            forall|a: int, b: int| 0 <= a < b < res@.len() ==> pair_lt(res@[a], res@[b]),
            forall|x: int| 0 <= x < res@.len() ==> res@[x].0 < self.n && res@[x].1 < self.n,
            forall|i: int, j: int|
                0 <= i < self.n && 0 <= j < self.n ==> (#[trigger] self.edge(i, j) <==> res@.contains((i as usize, j as usize))),
    {
        let n = self.n;
        let mut edges: Vec<(usize, usize)> = Vec::new();
        for i in 0..n
            invariant
                self.wf(),
                n == self.n,
                forall|a: int, b: int| 0 <= a < b < edges@.len() ==> pair_lt(edges@[a], edges@[b]),
                forall|x: int| 0 <= x < edges@.len() ==> edges@[x].0 < i,
                forall|a: int, b: int| 0 <= a < i && #[trigger] self.edge(a, b) ==> edges@.contains((a as usize, b as usize)),
                forall|x: int| 0 <= x < edges@.len() ==> #[trigger] self.edge(edges@[x].0 as int, edges@[x].1 as int),
        {
            for j in 0..n
                invariant
                    self.wf(),
                    n == self.n,
                    0 <= i < n,
                    forall|a: int, b: int| 0 <= a < b < edges@.len() ==> pair_lt(edges@[a], edges@[b]),
                    forall|x: int| 0 <= x < edges@.len() ==> edges@[x].0 < i || (edges@[x].0 == i && edges@[x].1 < j),
                    forall|a: int, b: int| 0 <= a < i && #[trigger] self.edge(a, b) ==> edges@.contains((a as usize, b as usize)),
                    forall|b: int| 0 <= b < j && #[trigger] self.edge(i as int, b) ==> edges@.contains((i, b as usize)),
                    forall|x: int| 0 <= x < edges@.len() ==> #[trigger] self.edge(edges@[x].0 as int, edges@[x].1 as int),
            {
                if self.is_edge(i, j) {
                    let ghost before = edges@;
                    edges.push((i, j));
                    proof {
                        assert forall|a: int, b: int| 0 <= a < i && #[trigger] self.edge(a, b) implies edges@.contains((a as usize, b as usize)) by {
                            let x = choose|x: int| 0 <= x < before.len() && before[x] == (a as usize, b as usize);
                            assert(edges@[x] == before[x]);
                        }
                        assert forall|b: int| 0 <= b < j + 1 && #[trigger] self.edge(i as int, b) implies edges@.contains((i, b as usize)) by {
                            if b < j {
                                let x = choose|x: int| 0 <= x < before.len() && before[x] == (i, b as usize);
                                assert(edges@[x] == before[x]);
                            } else {
                                assert(edges@[before.len() as int] == (i, j));
                            }
                        }
                    }
                }
            }
            proof {
                assert forall|a: int, b: int| 0 <= a < i + 1 && #[trigger] self.edge(a, b) implies edges@.contains((a as usize, b as usize)) by {
                    self.lemma_edge_in_range(a, b);
                }
            }
        }
        proof {
            assert forall|x: int| 0 <= x < edges@.len() implies edges@[x].0 < n && edges@[x].1 < n by {
                self.lemma_edge_in_range(edges@[x].0 as int, edges@[x].1 as int);
            }
            assert forall|i: int, j: int|
                0 <= i < n && 0 <= j < n implies (#[trigger] self.edge(i, j) <==> edges@.contains((i as usize, j as usize))) by {
                if edges@.contains((i as usize, j as usize)) {
                    let x = choose|x: int| 0 <= x < edges@.len() && edges@[x] == (i as usize, j as usize);
                    assert(self.edge(edges@[x].0 as int, edges@[x].1 as int));
                }
            }
        }
        edges
    }
}

/// Lexicographic order on index pairs.
pub open spec fn pair_lt(p: (usize, usize), q: (usize, usize)) -> bool {
    p.0 < q.0 || (p.0 == q.0 && p.1 < q.1)
}


proof fn lemma_unpack(r: int, a1: int, w1: int, a2: int, w2: int)
    requires
        0 <= w1 < r,
        0 <= w2 < r,
        a1 * r + w1 == a2 * r + w2,
    ensures
        a1 == a2,
        w1 == w2,
{
    lemma_fundamental_div_mod_converse(a1 * r + w1, r, a1, w1);
    lemma_fundamental_div_mod_converse(a2 * r + w2, r, a2, w2);
}

proof fn lemma_slot_bound(n: int, r: int, a: int, w: int)
    requires
        0 <= a < n,
        0 <= w < r,
    ensures
        0 <= a * r + w < n * r,
        a * r + w < (a + 1) * r,
{
    assert(0 <= a * r + w < n * r && a * r + w < (a + 1) * r) by (nonlinear_arith)
        requires
            0 <= a < n,
            0 <= w < r,
    ;
}

impl BinaryRelation {
    /// Adds node `n` without edges; returns its index. Existing edges stay.
    pub fn add_node(&mut self) -> (res: usize)
        requires
            old(self).wf(),
            (old(self).n + 1) * ((old(self).n + 64) / 64) <= usize::MAX,
        ensures
            final(self).wf(),
            final(self).n == old(self).n + 1,
            res == old(self).n,
            forall|a: int, b: int| #[trigger] final(self).edge(a, b) == old(self).edge(a, b),
    {
        let ghost o = *self;
        let n = self.n;
        let rw = self.row_words;
        let _len = self.words.len();
        assert(n + 1 <= usize::MAX) by (nonlinear_arith)
            requires
                (n + 1) * ((n + 64) / 64) <= usize::MAX,
                0 <= n,
        ;
        let new_n = n + 1;
        let nrw: usize = new_n / 64 + if new_n % 64 == 0 {
            0
        } else {
            1
        };
        assert(nrw == (new_n + 63) / 64) by (nonlinear_arith)
            requires
                nrw == new_n / 64 + if new_n % 64 == 0 {
                    0int
                } else {
                    1int
                },
        ;
        assert(rw <= nrw && nrw <= rw + 1);
        if nrw != rw {
            let total = new_n * nrw;
            let mut new_words: Vec<u64> = Vec::new();
            let mut k: usize = 0;
            while k < total
                invariant
                    k <= total,
                    new_words@.len() == k,
                    forall|x: int| 0 <= x < k ==> new_words@[x] == 0u64,
                decreases total - k,
            {
                new_words.push(0u64);
                k = k + 1;
            }
            assert forall|a: int, w: int| 0 <= a < new_n && 0 <= w < nrw implies #[trigger]
                new_words@[a * nrw + w] == 0u64 by {
                lemma_slot_bound(new_n as int, nrw as int, a, w);
            }
            for i in 0..n
                invariant
                    o == *self,
                    o.wf(),
                    n == o.n,
                    rw == o.row_words,
                    nrw == rw + 1,
                    total == new_n * nrw,
                    new_n == n + 1,
                    new_words@.len() == total,
                    o.words@.len() <= usize::MAX,
                    forall|a: int, w: int| 0 <= a < new_n && 0 <= w < nrw ==> #[trigger]
                        new_words@[a * nrw + w] == if a < i && w < rw {
                            o.words@[a * rw + w]
                        } else {
                            0u64
                        },
            {
                for w in 0..rw
                    invariant
                        o == *self,
                        o.wf(),
                        n == o.n,
                        rw == o.row_words,
                        nrw == rw + 1,
                        total == new_n * nrw,
                        new_n == n + 1,
                        0 <= i < n,
                        new_words@.len() == total,
                        o.words@.len() <= usize::MAX,
                        forall|a: int, w2: int| 0 <= a < new_n && 0 <= w2 < nrw ==> #[trigger]
                            new_words@[a * nrw + w2] == if (a < i || (a == i && w2 < w)) && w2
                                < rw {
                                o.words@[a * rw + w2]
                            } else {
                                0u64
                            },
                {
                    proof {
                        lemma_slot_bound(new_n as int, nrw as int, i as int, w as int);
                        lemma_slot_bound(n as int, rw as int, i as int, w as int);
                    }
                    let v = self.words[i * rw + w];
                    let ghost before = new_words@;
                    new_words.set(i * nrw + w, v);
                    proof {
                        assert forall|a: int, w2: int| 0 <= a < new_n && 0 <= w2 < nrw implies #[trigger]
                            new_words@[a * nrw + w2] == if (a < i || (a == i && w2 < w + 1))
                                && w2 < rw {
                                o.words@[a * rw + w2]
                            } else {
                                0u64
                            } by {
                            lemma_slot_bound(new_n as int, nrw as int, a, w2);
                            if a * nrw + w2 == i * nrw + w {
                                lemma_unpack(nrw as int, a, w2, i as int, w as int);
                            } else {
                                assert(new_words@[a * nrw + w2] == before[a * nrw + w2]);
                            }
                        }
                    }
                }
            }
            self.row_words = nrw;
            self.words = new_words;
            self.n = new_n;
            proof {
                assert forall|a: int, b: int| 0 <= a < new_n && 0 <= b < nrw * 64 implies #[trigger]
                    self.raw_bit(a, b) == (a < n && b < rw * 64 && o.raw_bit(a, b)) by {
                    lemma_col_bound(new_n as int, nrw as int, b);
                    assert(self.words@[a * nrw + b / 64] == if a < n && b / 64 < rw {
                        o.words@[a * rw + b / 64]
                    } else {
                        0u64
                    });
                    lemma_bit_zero((b % 64) as u64);
                }
            }
        } else {
            let ghost before = self.words@;
            for _k in 0..nrw
                invariant
                    self.n == n,
                    self.row_words == rw,
                    self.words@.len() == before.len() + _k,
                    forall|x: int| 0 <= x < before.len() ==> self.words@[x] == before[x],
                    forall|x: int| before.len() <= x < self.words@.len() ==> self.words@[x] == 0u64,
            {
                self.words.push(0u64);
            }
            self.n = new_n;
            proof {
                assert(self.words@.len() == new_n * nrw) by (nonlinear_arith)
                    requires
                        self.words@.len() == n * rw + nrw,
                        nrw == rw,
                        new_n == n + 1,
                ;
                assert forall|a: int, b: int| 0 <= a < new_n && 0 <= b < nrw * 64 implies #[trigger]
                    self.raw_bit(a, b) == (a < n && b < rw * 64 && o.raw_bit(a, b)) by {
                    lemma_col_bound(new_n as int, nrw as int, b);
                    if a < n {
                        lemma_slot_bound(n as int, rw as int, a, b / 64);
                    } else {
                        lemma_slot_bound(new_n as int, rw as int, a, b / 64);
                        assert(a * rw + b / 64 >= n * rw) by (nonlinear_arith)
                            requires
                                a == n,
                                0 <= b,
                        ;
                        lemma_bit_zero((b % 64) as u64);
                    }
                }
            }
        }
        proof {
            let rw2 = self.row_words as int;
            assert forall|a: int, b: int|
                0 <= a < self.n && self.n <= b < rw2 * 64 implies !#[trigger] self.raw_bit(a, b) by {
                if a < n && b < rw * 64 {
                    assert(!o.raw_bit(a, b));
                }
            }
            assert(self.padding_clear());
            assert forall|a: int, b: int| #[trigger] self.edge(a, b) == o.edge(a, b) by {
                if 0 <= a < self.n && 0 <= b < self.n {
                    if a < n && b == n && b < rw * 64 {
                        assert(!o.raw_bit(a, b));
                    }
                }
            }
        }
        n
    }
}


impl BinaryRelation {
    /// Edges encoded as `i * n + j`.
    pub closed spec fn edge_ids(&self) -> Set<int> {
        Set::new(|x: int| 0 <= x < self.n * self.n && self.edge(x / self.n as int, x % self.n as int))
    }

    /// The number of edges.
    pub closed spec fn edge_count(&self) -> nat {
        self.edge_ids().len()
    }

    proof fn lemma_edge_ids_finite(&self)
        ensures
            self.edge_ids().finite(),
    {
        lemma_int_range(0, self.n * self.n);
        assert(self.edge_ids().subset_of(set_int_range(0, self.n * self.n)));
        lemma_len_subset(self.edge_ids(), set_int_range(0, self.n * self.n));
    }

    proof fn lemma_remove_counts(old_r: BinaryRelation, new_r: BinaryRelation, i: int, j: int)
        requires
            old_r.n == new_r.n,
            0 <= i < old_r.n,
            0 <= j < old_r.n,
            old_r.edge(i, j),
            forall|a: int, b: int| #[trigger]
                new_r.edge(a, b) == (!(a == i && b == j) && old_r.edge(a, b)),
        ensures
            new_r.edge_count() + 1 == old_r.edge_count(),
    {
        let n = old_r.n as int;
        let id = i * n + j;
        assert(0 <= id < n * n) by (nonlinear_arith)
            requires
                0 <= i < n,
                0 <= j < n,
                id == i * n + j,
        ;
        lemma_fundamental_div_mod_converse(id, n, i, j);
        assert forall|x: int| #[trigger] new_r.edge_ids().contains(x) == old_r.edge_ids().remove(id).contains(x) by {
            if 0 <= x < n * n {
                let q = x / n;
                let r = x % n;
                vstd::arithmetic::div_mod::lemma_fundamental_div_mod(x, n);
                if q == i && r == j {
                    assert(x == id) by (nonlinear_arith)
                        requires
                            x == n * q + r,
                            q == i,
                            r == j,
                            id == i * n + j,
                    ;
                }
            }
        }
        assert(new_r.edge_ids() =~= old_r.edge_ids().remove(id));
        old_r.lemma_edge_ids_finite();
        assert(old_r.edge_ids().contains(id));
    }

    /// Removes `src -> tgt`, then keeps removing any edge `j -> k` for which
    /// some `i -> j` exists without `i -> k` (with `i`, `j`, `k` pairwise
    /// as distinct as the rule needs) until none is left. The result is a
    /// transitive sub-relation of the former one without `src -> tgt`.
    pub fn remove_edge_without_violating_transitivity(&mut self, src: usize, tgt: usize)
        requires
            old(self).wf(),
            src < old(self).n,
            tgt < old(self).n,
        ensures
            final(self).wf(),
            final(self).n == old(self).n,
            !final(self).edge(src as int, tgt as int),
            forall|a: int, b: int| #[trigger] final(self).edge(a, b) ==> old(self).edge(a, b),
            final(self).transitive(),
    {
        let ghost o = *self;
        self.remove_edge(src, tgt);
        let n = self.n;
        let mut changed = true;
        while changed
            invariant
                self.wf(),
                self.n == n,
                o.n == n,
                !self.edge(src as int, tgt as int),
                forall|a: int, b: int| #[trigger] self.edge(a, b) ==> o.edge(a, b),
                !changed ==> self.transitive(),
            decreases self.edge_count() + if changed {
                1nat
            } else {
                0nat
            },
        {
            changed = false;
            let ghost s0 = *self;
            let ghost c0 = self.edge_count();
            for i in 0..n
                invariant
                    self.wf(),
                    self.n == n,
                    s0.n == n,
                    !self.edge(src as int, tgt as int),
                    forall|a: int, b: int| #[trigger] self.edge(a, b) ==> s0.edge(a, b),
                    forall|a: int, b: int| #[trigger] s0.edge(a, b) ==> o.edge(a, b),
                    self.edge_count() <= c0,
                    changed ==> self.edge_count() < c0,
                    !changed ==> forall|a: int, b: int| #[trigger] self.edge(a, b) == s0.edge(a, b),
                    !changed ==> forall|a: int, b: int, c: int|
                        0 <= a < i && a != b && b != c && #[trigger] self.edge(a, b) && #[trigger] self.edge(b, c)
                            ==> self.edge(a, c),
            {
                for j in 0..n
                    invariant
                        self.wf(),
                        self.n == n,
                        s0.n == n,
                        0 <= i < n,
                        !self.edge(src as int, tgt as int),
                        forall|a: int, b: int| #[trigger] self.edge(a, b) ==> s0.edge(a, b),
                        forall|a: int, b: int| #[trigger] s0.edge(a, b) ==> o.edge(a, b),
                        self.edge_count() <= c0,
                        changed ==> self.edge_count() < c0,
                        !changed ==> forall|a: int, b: int| #[trigger] self.edge(a, b) == s0.edge(a, b),
                        !changed ==> forall|a: int, b: int, c: int|
                            0 <= a < i && a != b && b != c && #[trigger] self.edge(a, b) && #[trigger] self.edge(b, c)
                                ==> self.edge(a, c),
                        !changed ==> forall|b: int, c: int|
                            0 <= b < j && i != b && b != c && #[trigger] self.edge(i as int, b) && #[trigger] self.edge(b, c)
                                ==> self.edge(i as int, c),
                {
                    if i != j && self.is_edge(i, j) {
                        for k in 0..n
                            invariant
                                self.wf(),
                                self.n == n,
                                s0.n == n,
                                0 <= i < n,
                                0 <= j < n,
                                i != j,
                                !self.edge(src as int, tgt as int),
                                forall|a: int, b: int| #[trigger] self.edge(a, b) ==> s0.edge(a, b),
                                forall|a: int, b: int| #[trigger] s0.edge(a, b) ==> o.edge(a, b),
                                self.edge_count() <= c0,
                                changed ==> self.edge_count() < c0,
                                !changed ==> forall|a: int, b: int| #[trigger] self.edge(a, b) == s0.edge(a, b),
                                !changed ==> forall|a: int, b: int, c: int|
                                    0 <= a < i && a != b && b != c && #[trigger] self.edge(a, b) && #[trigger] self.edge(b, c)
                                        ==> self.edge(a, c),
                                !changed ==> forall|b: int, c: int|
                                    0 <= b < j && i != b && b != c && #[trigger] self.edge(i as int, b) && #[trigger] self.edge(b, c)
                                        ==> self.edge(i as int, c),
                                !changed ==> self.edge(i as int, j as int),
                                !changed ==> forall|c: int|
                                    0 <= c < k && j != c && #[trigger] self.edge(j as int, c) ==> self.edge(i as int, c),
                        {
                            if j != k && self.is_edge(j, k) && !self.is_edge(i, k) {
                                let ghost before = *self;
                                self.remove_edge(j, k);
                                proof {
                                    BinaryRelation::lemma_remove_counts(before, *self, j as int, k as int);
                                }
                                changed = true;
                            }
                        }
                        proof {
                            if !changed {
                                assert forall|c: int| j != c && #[trigger] self.edge(j as int, c) implies self.edge(i as int, c) by {
                                    self.lemma_edge_in_range(j as int, c);
                                }
                            }
                        }
                    }
                }
                proof {
                    if !changed {
                        assert forall|a: int, b: int, c: int|
                            0 <= a < i + 1 && a != b && b != c && #[trigger] self.edge(a, b) && #[trigger] self.edge(b, c)
                                implies self.edge(a, c) by {
                            self.lemma_edge_in_range(a, b);
                        }
                    }
                }
            }
            proof {
                if !changed {
                    assert forall|a: int, b: int, c: int| #[trigger] self.edge(a, b) && #[trigger] self.edge(b, c)
                        implies self.edge(a, c) by {
                        self.lemma_edge_in_range(a, b);
                        if a == b {
                        } else if b == c {
                        } else {
                        }
                    }
                }
            }
        }
    }
}

} // verus!
