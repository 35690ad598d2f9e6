//! Frequency tables over sequences of activity names.

use vstd::prelude::*;
use crate::text::str_eq;

verus! {

/// The number of occurrences of `x` in `s`.
pub open spec fn seq_count<A>(s: Seq<A>, x: A) -> nat
    decreases s.len(),
{
    if s.len() == 0 {
        0
    } else {
        seq_count(s.drop_last(), x) + if s.last() == x {
            1nat
        } else {
            0nat
        }
    }
}

pub proof fn lemma_seq_count_take_step<A>(s: Seq<A>, i: int, x: A)
    requires
        0 <= i < s.len(),
    ensures
        seq_count(s.take(i + 1), x) == seq_count(s.take(i), x) + if s[i] == x {
            1nat
        } else {
            0nat
        },
{
    assert(s.take(i + 1).drop_last() =~= s.take(i));
}

pub proof fn lemma_seq_count_le_len<A>(s: Seq<A>, x: A)
    ensures
        seq_count(s, x) <= s.len(),
    decreases s.len(),
{
    if s.len() > 0 {
        lemma_seq_count_le_len(s.drop_last(), x);
    }
}

pub proof fn lemma_seq_count_pos<A>(s: Seq<A>, x: A)
    ensures
        seq_count(s, x) > 0 <==> s.contains(x),
    decreases s.len(),
{
    if s.len() > 0 {
        lemma_seq_count_pos(s.drop_last(), x);
        if s.drop_last().contains(x) {
            let k = choose|k: int| 0 <= k < s.drop_last().len() && s.drop_last()[k] == x;
            assert(s[k] == x);
        }
        if s.contains(x) {
            let k = choose|k: int| 0 <= k < s.len() && s[k] == x;
            if k < s.len() - 1 {
                assert(s.drop_last()[k] == x);
            }
        }
    }
}

/// Element-wise equality of two lists of strings.
pub fn strings_eq(a: &Vec<String>, b: &Vec<String>) -> (res: bool)
    ensures
        res == (a.deep_view() == b.deep_view()),
{
    if a.len() != b.len() {
        proof {
            assert(a.deep_view().len() != b.deep_view().len());
        }
        return false;
    }
    for k in 0..a.len()
        invariant
            a@.len() == b@.len(),
            forall|x: int| 0 <= x < k ==> a.deep_view()[x] == b.deep_view()[x],
    {
        if !str_eq(a[k].as_str(), b[k].as_str()) {
            proof {
                assert(a.deep_view()[k as int] != b.deep_view()[k as int]);
            }
            return false;
        }
    }
    proof {
        assert(a.deep_view() =~= b.deep_view());
    }
    true
}

/// A copy of a list of strings.
pub fn clone_strings(a: &Vec<String>) -> (res: Vec<String>)
    ensures
        res.deep_view() == a.deep_view(),
{
    let mut out: Vec<String> = Vec::new();
    for k in 0..a.len()
        invariant
            out@.len() == k,
            forall|j: int| 0 <= j < k ==> #[trigger] out@[j]@ == a@[j]@,
    {
        out.push(a[k].clone());
    }
    proof {
        assert(out.deep_view() =~= a.deep_view());
    }
    out
}

/// `table` counts the occurrences in `items`: its keys are distinct, they
/// are exactly the items that occur, and each count is that key's number of
/// occurrences.
pub open spec fn is_count_table<K>(table: Seq<(K, usize)>, items: Seq<K>) -> bool {
    &&& forall|a: int, b: int| 0 <= a < b < table.len() ==> #[trigger] table[a].0 != #[trigger] table[b].0
    &&& forall|k: K| #[trigger] items.contains(k) <==> exists|x: int| 0 <= x < table.len() && #[trigger] table[x].0 == k
    &&& forall|x: int| 0 <= x < table.len() ==> #[trigger] table[x].1 == seq_count(items, table[x].0)
}

/// The index of key `k` in a count table, if present.
fn find_key(table: &Vec<(Vec<String>, usize)>, k: &Vec<String>) -> (res: Option<usize>)
    ensures
        match res {
            Some(x) => x < table@.len() && table.deep_view()[x as int].0 == k.deep_view(),
            None => forall|x: int| 0 <= x < table@.len() ==> table.deep_view()[x].0 != k.deep_view(),
        },
{
    for x in 0..table.len()
        invariant
            forall|y: int| 0 <= y < x ==> table.deep_view()[y].0 != k.deep_view(),
    {
        if strings_eq(&table[x].0, k) {
            return Some(x);
        }
    }
    None
}

/// Counts the occurrences of each distinct item, keys in order of first occurrence.
pub fn count_keys(items: &Vec<Vec<String>>) -> (res: Vec<(Vec<String>, usize)>)
    ensures
        is_count_table(res.deep_view(), items.deep_view()),
{
    let ghost its = items.deep_view();
    let mut table: Vec<(Vec<String>, usize)> = Vec::new();
    for i in 0..items.len()
        invariant
            its == items.deep_view(),
            i <= its.len(),
            is_count_table(table.deep_view(), its.take(i as int)),
    {
        let key = &items[i];
        let ghost t0 = table.deep_view();
        proof {
            assert(its[i as int] == key.deep_view());
            lemma_seq_count_le_len(its.take(i as int), key.deep_view());
        }
        match find_key(&table, key) {
            Some(x) => {
                let c = table[x].1;
                proof {
                    assert(t0[x as int].1 == seq_count(its.take(i as int), key.deep_view()));
                }
                let k2 = clone_strings(&table[x].0);
                table.set(x, (k2, c + 1));
                proof {
                    let t1 = table.deep_view();
                    assert forall|y: int| 0 <= y < t1.len() implies #[trigger] t1[y].1 == seq_count(its.take(i + 1), t1[y].0) by {
                        lemma_seq_count_take_step(its, i as int, t1[y].0);
                        assert(t1[y].0 == t0[y].0);
                    }
                    assert forall|k: Seq<Seq<char>>| #[trigger] its.take(i + 1).contains(k) <==> exists|y: int| 0 <= y < t1.len() && #[trigger] t1[y].0 == k by {
                        lemma_seq_count_take_step(its, i as int, k);
                        lemma_seq_count_pos(its.take(i + 1), k);
                        lemma_seq_count_pos(its.take(i as int), k);
                        if exists|y: int| 0 <= y < t1.len() && #[trigger] t1[y].0 == k {
                            let y = choose|y: int| 0 <= y < t1.len() && #[trigger] t1[y].0 == k;
                            assert(t0[y].0 == k);
                        }
                        if exists|y: int| 0 <= y < t0.len() && #[trigger] t0[y].0 == k {
                            let y = choose|y: int| 0 <= y < t0.len() && #[trigger] t0[y].0 == k;
                            assert(t1[y].0 == k);
                        }
                    }
                    assert forall|a: int, b: int| 0 <= a < b < t1.len() implies #[trigger] t1[a].0 != #[trigger] t1[b].0 by {
                        assert(t1[a].0 == t0[a].0 && t1[b].0 == t0[b].0);
                    }
                }
            },
            None => {
                let k2 = clone_strings(key);
                table.push((k2, 1));
                proof {
                    let t1 = table.deep_view();
                    assert(t1 =~= t0.push((key.deep_view(), 1usize)));
                    lemma_seq_count_pos(its.take(i as int), key.deep_view());
                    assert forall|y: int| 0 <= y < t1.len() implies #[trigger] t1[y].1 == seq_count(its.take(i + 1), t1[y].0) by {
                        lemma_seq_count_take_step(its, i as int, t1[y].0);
                        if y < t0.len() {
                            assert(t1[y] == t0[y]);
                        } else {
                            assert(!its.take(i as int).contains(key.deep_view()));
                        }
                    }
                    assert forall|k: Seq<Seq<char>>| #[trigger] its.take(i + 1).contains(k) <==> exists|y: int| 0 <= y < t1.len() && #[trigger] t1[y].0 == k by {
                        lemma_seq_count_take_step(its, i as int, k);
                        lemma_seq_count_pos(its.take(i + 1), k);
                        lemma_seq_count_pos(its.take(i as int), k);
                        if exists|y: int| 0 <= y < t1.len() && #[trigger] t1[y].0 == k {
                            let y = choose|y: int| 0 <= y < t1.len() && #[trigger] t1[y].0 == k;
                            if y < t0.len() {
                                assert(t0[y].0 == k);
                            }
                        }
                        if exists|y: int| 0 <= y < t0.len() && #[trigger] t0[y].0 == k {
                            let y = choose|y: int| 0 <= y < t0.len() && #[trigger] t0[y].0 == k;
                            assert(t1[y].0 == k);
                        }
                        if k == key.deep_view() {
                            assert(t1[t0.len() as int].0 == k);
                        }
                    }
                    assert forall|a: int, b: int| 0 <= a < b < t1.len() implies #[trigger] t1[a].0 != #[trigger] t1[b].0 by {
                        if b == t0.len() {
                            assert(t1[a].0 == t0[a].0);
                        } else {
                            assert(t1[a].0 == t0[a].0 && t1[b].0 == t0[b].0);
                        }
                    }
                }
            },
        }
    }
    proof {
        assert(its.take(its.len() as int) =~= its);
    }
    table
}


/// `perm` lists each index of `0..n` exactly once.
pub open spec fn is_permutation_of_range(perm: Seq<usize>, n: int) -> bool {
    &&& perm.len() == n
    &&& forall|x: int| 0 <= x < perm.len() ==> #[trigger] perm[x] < n
    &&& forall|a: int, b: int| 0 <= a < b < perm.len() ==> #[trigger] perm[a] != #[trigger] perm[b]
    &&& forall|i: int| 0 <= i < n ==> #[trigger] perm.contains(i as usize)
}

/// The indices of `counts` ordered by non-increasing count; equal counts
/// keep their index order.
pub fn order_by_count_desc(counts: &Vec<usize>) -> (perm: Vec<usize>)
    ensures
        is_permutation_of_range(perm@, counts@.len() as int),
        forall|a: int, b: int| 0 <= a < b < perm@.len() ==> counts@[#[trigger] perm@[a] as int] >= counts@[#[trigger] perm@[b] as int],
{
    let n = counts.len();
    let mut perm: Vec<usize> = Vec::new();
    for i in 0..n
        invariant
            n == counts@.len(),
            perm@.len() == i,
            forall|x: int| 0 <= x < perm@.len() ==> #[trigger] perm@[x] < i,
            forall|a: int, b: int| 0 <= a < b < perm@.len() ==> #[trigger] perm@[a] != #[trigger] perm@[b],
            forall|j: int| 0 <= j < i ==> #[trigger] perm@.contains(j as usize),
            forall|a: int, b: int| 0 <= a < b < perm@.len() ==> counts@[#[trigger] perm@[a] as int] >= counts@[#[trigger] perm@[b] as int],
    {
        let c = counts[i];
        let mut pos: usize = 0;
        while pos < perm.len() && counts[perm[pos]] >= c
            invariant
                n == counts@.len(),
                i < n,
                perm@.len() == i,
                pos <= perm@.len(),
                forall|x: int| 0 <= x < perm@.len() ==> #[trigger] perm@[x] < i,
                c == counts@[i as int],
                forall|x: int| 0 <= x < pos ==> counts@[#[trigger] perm@[x] as int] >= c,
            decreases perm@.len() - pos,
        {
            pos = pos + 1;
        }
        let ghost p0 = perm@;
        perm.insert(pos, i);
        proof {
            let p1 = perm@;
            assert(p1 =~= p0.insert(pos as int, i));
            assert forall|x: int| 0 <= x < p1.len() implies #[trigger] p1[x] < i + 1 by {
                if x < pos {
                    assert(p1[x] == p0[x]);
                } else if x > pos {
                    assert(p1[x] == p0[x - 1]);
                }
            }
            assert forall|a: int, b: int| 0 <= a < b < p1.len() implies #[trigger] p1[a] != #[trigger] p1[b] by {
                if a == pos {
                    assert(p1[b] == p0[b - 1]);
                } else if b == pos {
                    assert(p1[a] == p0[a]);
                } else if a < pos && b < pos {
                    assert(p1[a] == p0[a] && p1[b] == p0[b]);
                } else if a < pos {
                    assert(p1[a] == p0[a] && p1[b] == p0[b - 1]);
                } else {
                    assert(p1[a] == p0[a - 1] && p1[b] == p0[b - 1]);
                }
            }
            assert forall|j: int| 0 <= j < i + 1 implies #[trigger] p1.contains(j as usize) by {
                if j == i {
                    assert(p1[pos as int] == j as usize);
                } else {
                    assert(p0.contains(j as usize));
                    let x = choose|x: int| 0 <= x < p0.len() && p0[x] == j as usize;
                    if x < pos {
                        assert(p1[x] == p0[x]);
                    } else {
                        assert(p1[x + 1] == p0[x]);
                    }
                }
            }
            assert forall|a: int, b: int| 0 <= a < b < p1.len() implies counts@[#[trigger] p1[a] as int] >= counts@[#[trigger] p1[b] as int] by {
                if a == pos {
                    if b - 1 >= pos {
                        assert(p1[b] == p0[b - 1]);
                        if pos < p0.len() {
                            assert(counts@[p0[pos as int] as int] < c);
                            if b - 1 > pos {
                                assert(counts@[p0[pos as int] as int] >= counts@[p0[b - 1] as int]);
                            }
                        }
                    }
                } else if b == pos {
                    assert(p1[a] == p0[a]);
                } else if a < pos && b < pos {
                    assert(p1[a] == p0[a] && p1[b] == p0[b]);
                } else if a < pos {
                    assert(p1[a] == p0[a] && p1[b] == p0[b - 1]);
                } else {
                    assert(p1[a] == p0[a - 1] && p1[b] == p0[b - 1]);
                }
            }
        }
    }
    perm
}


/// Counts are in non-increasing order.
pub open spec fn counts_descending<K>(table: Seq<(K, usize)>) -> bool {
    forall|a: int, b: int| 0 <= a < b < table.len() ==> #[trigger] table[a].1 >= #[trigger] table[b].1
}

pub proof fn lemma_permuted_count_table<K>(table: Seq<(K, usize)>, perm: Seq<usize>, out: Seq<(K, usize)>, items: Seq<K>)
    requires
        is_count_table(table, items),
        is_permutation_of_range(perm, table.len() as int),
        table.len() <= usize::MAX,
        out.len() == perm.len(),
        forall|i: int| 0 <= i < out.len() ==> #[trigger] out[i] == table[perm[i] as int],
    ensures
        is_count_table(out, items),
{
    assert forall|a: int, b: int| 0 <= a < b < out.len() implies #[trigger] out[a].0 != #[trigger] out[b].0 by {
        assert(perm[a] != perm[b]);
        if perm[a] < perm[b] {
            assert(table[perm[a] as int].0 != table[perm[b] as int].0);
        } else {
            assert(table[perm[b] as int].0 != table[perm[a] as int].0);
        }
    }
    assert forall|k: K| #[trigger] items.contains(k) <==> exists|x: int| 0 <= x < out.len() && #[trigger] out[x].0 == k by {
        if items.contains(k) {
            let y = choose|y: int| 0 <= y < table.len() && #[trigger] table[y].0 == k;
            assert(perm.contains(y as usize));
            let x = choose|x: int| 0 <= x < perm.len() && perm[x] == y as usize;
            assert(perm[x] as int == y);
            assert(out[x] == table[perm[x] as int]);
            assert(out[x].0 == k);
        }
        if exists|x: int| 0 <= x < out.len() && #[trigger] out[x].0 == k {
            let x = choose|x: int| 0 <= x < out.len() && #[trigger] out[x].0 == k;
            assert(table[perm[x] as int].0 == k);
        }
    }
    assert forall|x: int| 0 <= x < out.len() implies #[trigger] out[x].1 == seq_count(items, out[x].0) by {
        assert(out[x] == table[perm[x] as int]);
    }
}

pub proof fn lemma_count_map<A, B>(s: Seq<A>, f: spec_fn(A) -> B, x: A)
    requires
        forall|a: A, b: A| #[trigger] f(a) == #[trigger] f(b) ==> a == b,
    ensures
        seq_count(s.map_values(f), f(x)) == seq_count(s, x),
    decreases s.len(),
{
    if s.len() > 0 {
        lemma_count_map(s.drop_last(), f, x);
        assert(s.map_values(f).drop_last() =~= s.drop_last().map_values(f));
    }
}

/// Re-keys a count table through a bijection between key types.
pub proof fn lemma_count_table_rekey<A, B>(table: Seq<(B, usize)>, items: Seq<A>, f: spec_fn(A) -> B, g: spec_fn(B) -> A)
    requires
        is_count_table(table, items.map_values(f)),
        forall|a: A, b: A| #[trigger] f(a) == #[trigger] f(b) ==> a == b,
        forall|a: A| #[trigger] g(f(a)) == a,
    ensures
        is_count_table(table.map_values(|p: (B, usize)| (g(p.0), p.1)), items),
{
    let mi = items.map_values(f);
    let out = table.map_values(|p: (B, usize)| (g(p.0), p.1));
    assert forall|x: int| 0 <= x < table.len() implies f(#[trigger] g(table[x].0)) == table[x].0 by {
        assert(mi.contains(table[x].0));
        let i = choose|i: int| 0 <= i < mi.len() && mi[i] == table[x].0;
        assert(mi[i] == f(items[i]));
    }
    assert forall|a: int, b: int| 0 <= a < b < out.len() implies #[trigger] out[a].0 != #[trigger] out[b].0 by {
        assert(f(g(table[a].0)) == table[a].0);
        assert(f(g(table[b].0)) == table[b].0);
    }
    assert forall|k: A| #[trigger] items.contains(k) <==> exists|x: int| 0 <= x < out.len() && #[trigger] out[x].0 == k by {
        if items.contains(k) {
            let i = choose|i: int| 0 <= i < items.len() && items[i] == k;
            assert(mi[i] == f(k));
            assert(mi.contains(f(k)));
            let x = choose|x: int| 0 <= x < table.len() && #[trigger] table[x].0 == f(k);
            assert(out[x].0 == g(f(k)));
        }
        if exists|x: int| 0 <= x < out.len() && #[trigger] out[x].0 == k {
            let x = choose|x: int| 0 <= x < out.len() && #[trigger] out[x].0 == k;
            assert(f(g(table[x].0)) == table[x].0);
            assert(mi.contains(table[x].0));
            let i = choose|i: int| 0 <= i < mi.len() && mi[i] == table[x].0;
            assert(f(items[i]) == f(k));
        }
    }
    assert forall|x: int| 0 <= x < out.len() implies #[trigger] out[x].1 == seq_count(items, out[x].0) by {
        assert(f(g(table[x].0)) == table[x].0);
        lemma_count_map(items, f, g(table[x].0));
    }
}

/// Counts the occurrences of each distinct item, most frequent first.
pub fn count_keys_descending(items: &Vec<Vec<String>>) -> (res: Vec<(Vec<String>, usize)>)
    ensures
        is_count_table(res.deep_view(), items.deep_view()),
        counts_descending(res.deep_view()),
{
    let table = count_keys(items);
    let mut counts: Vec<usize> = Vec::new();
    for x in 0..table.len()
        invariant
            counts@.len() == x,
            forall|j: int| 0 <= j < x ==> counts@[j] == table@[j].1,
    {
        counts.push(table[x].1);
    }
    let perm = order_by_count_desc(&counts);
    let mut out: Vec<(Vec<String>, usize)> = Vec::new();
    for i in 0..perm.len()
        invariant
            is_permutation_of_range(perm@, counts@.len() as int),
            counts@.len() == table@.len(),
            forall|j: int| 0 <= j < counts@.len() ==> counts@[j] == table@[j].1,
            out@.len() == i,
            forall|j: int| 0 <= j < i ==> #[trigger] out.deep_view()[j] == table.deep_view()[perm@[j] as int],
    {
        let k = clone_strings(&table[perm[i]].0);
        let ghost before = out.deep_view();
        out.push((k, table[perm[i]].1));
        proof {
            assert forall|j: int| 0 <= j < i + 1 implies #[trigger] out.deep_view()[j] == table.deep_view()[perm@[j] as int] by {
                if j < i {
                    assert(out.deep_view()[j] == before[j]);
                }
            }
        }
    }
    proof {
        lemma_permuted_count_table(table.deep_view(), perm@, out.deep_view(), items.deep_view());
        assert forall|a: int, b: int| 0 <= a < b < out.deep_view().len() implies #[trigger] out.deep_view()[a].1 >= #[trigger] out.deep_view()[b].1 by {
            assert(counts@[perm@[a] as int] >= counts@[perm@[b] as int]);
        }
    }
    out
}

/// Counting one more occurrence of a key the table already holds.
pub proof fn lemma_count_table_bump<K>(table: Seq<(K, usize)>, items: Seq<K>, x: int, k: K)
    requires
        is_count_table(table, items),
        0 <= x < table.len(),
        table[x].0 == k,
        table[x].1 + 1 <= usize::MAX,
    ensures
        is_count_table(table.update(x, (k, (table[x].1 + 1) as usize)), items.push(k)),
{
    let t1 = table.update(x, (k, (table[x].1 + 1) as usize));
    let i1 = items.push(k);
    assert(i1.drop_last() =~= items);
    assert forall|a: int, b: int| 0 <= a < b < t1.len() implies #[trigger] t1[a].0 != #[trigger] t1[b].0 by {
        assert(t1[a].0 == table[a].0 && t1[b].0 == table[b].0);
    }
    assert forall|q: K| #[trigger] i1.contains(q) <==> exists|y: int| 0 <= y < t1.len() && #[trigger] t1[y].0 == q by {
        lemma_seq_count_pos(i1, q);
        lemma_seq_count_pos(items, q);
        if exists|y: int| 0 <= y < t1.len() && #[trigger] t1[y].0 == q {
            let y = choose|y: int| 0 <= y < t1.len() && #[trigger] t1[y].0 == q;
            assert(table[y].0 == q);
        }
        if exists|y: int| 0 <= y < table.len() && #[trigger] table[y].0 == q {
            let y = choose|y: int| 0 <= y < table.len() && #[trigger] table[y].0 == q;
            assert(t1[y].0 == q);
        }
    }
    assert forall|y: int| 0 <= y < t1.len() implies #[trigger] t1[y].1 == seq_count(i1, t1[y].0) by {
        assert(t1[y].0 == table[y].0);
    }
}

/// Counting the first occurrence of a key the table does not hold yet.
pub proof fn lemma_count_table_extend<K>(table: Seq<(K, usize)>, items: Seq<K>, k: K)
    requires
        is_count_table(table, items),
        forall|y: int| 0 <= y < table.len() ==> #[trigger] table[y].0 != k,
    ensures
        is_count_table(table.push((k, 1usize)), items.push(k)),
{
    let t1 = table.push((k, 1usize));
    let i1 = items.push(k);
    assert(i1.drop_last() =~= items);
    lemma_seq_count_pos(items, k);
    assert forall|a: int, b: int| 0 <= a < b < t1.len() implies #[trigger] t1[a].0 != #[trigger] t1[b].0 by {
        if b == table.len() {
            assert(t1[a].0 == table[a].0);
        } else {
            assert(t1[a].0 == table[a].0 && t1[b].0 == table[b].0);
        }
    }
    assert forall|q: K| #[trigger] i1.contains(q) <==> exists|y: int| 0 <= y < t1.len() && #[trigger] t1[y].0 == q by {
        lemma_seq_count_pos(i1, q);
        lemma_seq_count_pos(items, q);
        if exists|y: int| 0 <= y < t1.len() && #[trigger] t1[y].0 == q {
            let y = choose|y: int| 0 <= y < t1.len() && #[trigger] t1[y].0 == q;
            if y < table.len() {
                assert(table[y].0 == q);
            }
        }
        if exists|y: int| 0 <= y < table.len() && #[trigger] table[y].0 == q {
            let y = choose|y: int| 0 <= y < table.len() && #[trigger] table[y].0 == q;
            assert(t1[y].0 == q);
        }
        if q == k {
            assert(t1[table.len() as int].0 == q);
        }
    }
    assert forall|y: int| 0 <= y < t1.len() implies #[trigger] t1[y].1 == seq_count(i1, t1[y].0) by {
        if y < table.len() {
            assert(t1[y] == table[y]);
        } else {
            assert(!items.contains(k));
        }
    }
}

} // verus!
