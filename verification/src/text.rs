//! Operations on text: comparison, trimming, splitting, joining and numbers.

use vstd::prelude::*;

verus! {

/// Strict lexicographic order on character sequences, comparing characters
/// by their code points (the order of `String`'s `Ord`).
pub open spec fn lex_lt(a: Seq<char>, b: Seq<char>) -> bool
    decreases a.len(),
{
    if a.len() == 0 {
        b.len() > 0
    } else if b.len() == 0 {
        false
    } else if a[0] != b[0] {
        (a[0] as int) < (b[0] as int)
    } else {
        lex_lt(a.drop_first(), b.drop_first())
    }
}

pub proof fn lemma_lex_lt_irreflexive(a: Seq<char>)
    ensures
        !lex_lt(a, a),
    decreases a.len(),
{
    if a.len() > 0 {
        lemma_lex_lt_irreflexive(a.drop_first());
    }
}

pub proof fn lemma_lex_lt_transitive(a: Seq<char>, b: Seq<char>, c: Seq<char>)
    requires
        lex_lt(a, b),
        lex_lt(b, c),
    ensures
        lex_lt(a, c),
    decreases a.len(),
{
    if a.len() > 0 && b.len() > 0 && c.len() > 0 {
        if a[0] == b[0] && b[0] == c[0] {
            lemma_lex_lt_transitive(a.drop_first(), b.drop_first(), c.drop_first());
        }
    }
}

pub proof fn lemma_lex_lt_total(a: Seq<char>, b: Seq<char>)
    ensures
        a == b || lex_lt(a, b) || lex_lt(b, a),
    decreases a.len(),
{
    if a.len() > 0 && b.len() > 0 {
        if a[0] == b[0] {
            lemma_lex_lt_total(a.drop_first(), b.drop_first());
            if a.drop_first() == b.drop_first() {
                assert(a =~= seq![a[0]] + a.drop_first());
                assert(b =~= seq![b[0]] + b.drop_first());
            }
        } else {
            assert((a[0] as int) != (b[0] as int));
        }
    } else if a.len() == 0 && b.len() == 0 {
        assert(a =~= b);
    }
}

pub proof fn lemma_lex_lt_asymmetric(a: Seq<char>, b: Seq<char>)
    requires
        lex_lt(a, b),
    ensures
        !lex_lt(b, a),
{
    if lex_lt(b, a) {
        lemma_lex_lt_transitive(a, b, a);
        lemma_lex_lt_irreflexive(a);
    }
}

proof fn lemma_lex_lt_suffix(a: Seq<char>, b: Seq<char>, i: int)
    requires
        0 <= i <= a.len(),
        i <= b.len(),
        a.subrange(0, i) == b.subrange(0, i),
    ensures
        lex_lt(a, b) == lex_lt(a.skip(i), b.skip(i)),
    decreases i,
{
    if i > 0 {
        assert(a[0] == a.subrange(0, i)[0]);
        assert(b[0] == b.subrange(0, i)[0]);
        assert(a.drop_first().subrange(0, i - 1) =~= a.subrange(0, i).drop_first());
        assert(b.drop_first().subrange(0, i - 1) =~= b.subrange(0, i).drop_first());
        lemma_lex_lt_suffix(a.drop_first(), b.drop_first(), i - 1);
        assert(a.drop_first().skip(i - 1) =~= a.skip(i));
        assert(b.drop_first().skip(i - 1) =~= b.skip(i));
    } else {
        assert(a.skip(0) =~= a);
        assert(b.skip(0) =~= b);
    }
}

/// `a` sorts strictly before `b`.
pub fn str_lt(a: &str, b: &str) -> (res: bool)
    ensures
        res == lex_lt(a@, b@),
{
    let la = a.unicode_len();
    let lb = b.unicode_len();
    let mut i: usize = 0;
    while i < la && i < lb
        invariant
            la == a@.len(),
            lb == b@.len(),
            i <= la,
            i <= lb,
            a@.subrange(0, i as int) == b@.subrange(0, i as int),
        decreases la - i,
    {
        let ca = a.get_char(i);
        let cb = b.get_char(i);
        if ca != cb {
            proof {
                lemma_lex_lt_suffix(a@, b@, i as int);
                assert(a@.skip(i as int)[0] == ca);
                assert(b@.skip(i as int)[0] == cb);
            }
            return (ca as u32) < (cb as u32);
        }
        proof {
            assert(a@.subrange(0, i + 1) =~= a@.subrange(0, i as int).push(ca));
            assert(b@.subrange(0, i + 1) =~= b@.subrange(0, i as int).push(cb));
        }
        i = i + 1;
    }
    proof {
        lemma_lex_lt_suffix(a@, b@, i as int);
        assert(a@.skip(i as int).len() == 0 || b@.skip(i as int).len() == 0);
    }
    i == la && i < lb
}

/// Character-wise equality.
pub fn str_eq(a: &str, b: &str) -> (res: bool)
    ensures
        res == (a@ == b@),
{
    let x = a.to_owned();
    let y = b.to_owned();
    x == y
}

/// `a` followed by `b`.
pub fn concat(a: &str, b: &str) -> (res: String)
    ensures
        res@ == a@ + b@,
{
    let mut s = a.to_owned();
    s.append(b);
    s
}


/// The characters with the Unicode `White_Space` property.
pub open spec fn white_space(c: char) -> bool {
    let x = c as int;
    ||| 0x09 <= x <= 0x0d
    ||| x == 0x20
    ||| x == 0x85
    ||| x == 0xa0
    ||| x == 0x1680
    ||| 0x2000 <= x <= 0x200a
    ||| x == 0x2028
    ||| x == 0x2029
    ||| x == 0x202f
    ||| x == 0x205f
    ||| x == 0x3000
}

/// Whether `c` has the Unicode `White_Space` property.
pub fn is_white_space(c: char) -> (res: bool)
    ensures
        res == white_space(c),
{
    let x = c as u32;
    (0x09 <= x && x <= 0x0d) || x == 0x20 || x == 0x85 || x == 0xa0 || x == 0x1680 || (0x2000
        <= x && x <= 0x200a) || x == 0x2028 || x == 0x2029 || x == 0x202f || x == 0x205f || x
        == 0x3000
}

/// Index of the first character at or after `i` that is not white space
/// (`s.len()` when there is none).
pub open spec fn first_non_ws(s: Seq<char>, i: int) -> int
    decreases s.len() - i,
{
    if i >= s.len() {
        s.len() as int
    } else if !white_space(s[i]) {
        i
    } else {
        first_non_ws(s, i + 1)
    }
}

/// One past the index of the last character before `j` that is not white
/// space (0 when there is none).
pub open spec fn end_non_ws(s: Seq<char>, j: int) -> int
    decreases j,
{
    if j <= 0 {
        0
    } else if !white_space(s[j - 1]) {
        j
    } else {
        end_non_ws(s, j - 1)
    }
}

/// `s` without leading and trailing white space.
pub open spec fn trim(s: Seq<char>) -> Seq<char> {
    let lo = first_non_ws(s, 0);
    let hi = end_non_ws(s, s.len() as int);
    if hi <= lo {
        Seq::empty()
    } else {
        s.subrange(lo, hi)
    }
}

proof fn lemma_first_non_ws_bounds(s: Seq<char>, i: int)
    requires
        0 <= i <= s.len(),
    ensures
        i <= first_non_ws(s, i) <= s.len(),
    decreases s.len() - i,
{
    if i < s.len() && white_space(s[i]) {
        lemma_first_non_ws_bounds(s, i + 1);
    }
}

proof fn lemma_end_non_ws_bounds(s: Seq<char>, j: int)
    requires
        0 <= j <= s.len(),
    ensures
        0 <= end_non_ws(s, j) <= j,
        end_non_ws(s, j) > 0 ==> !white_space(s[end_non_ws(s, j) - 1]),
    decreases j,
{
    if j > 0 && white_space(s[j - 1]) {
        lemma_end_non_ws_bounds(s, j - 1);
    }
}

proof fn lemma_all_ws(s: Seq<char>, i: int)
    requires
        0 <= i <= s.len(),
        first_non_ws(s, i) == s.len(),
    ensures
        forall|k: int| i <= k < s.len() ==> white_space(s[k]),
    decreases s.len() - i,
{
    if i < s.len() {
        lemma_all_ws(s, i + 1);
    }
}

proof fn lemma_end_all_ws(s: Seq<char>, j: int)
    requires
        0 <= j <= s.len(),
        forall|k: int| 0 <= k < j ==> white_space(s[k]),
    ensures
        end_non_ws(s, j) == 0,
    decreases j,
{
    if j > 0 {
        lemma_end_all_ws(s, j - 1);
    }
}

/// `s` without leading and trailing white space.
pub fn trim_str(s: &str) -> (res: String)
    ensures
        res@ == trim(s@),
{
    let len = s.unicode_len();
    let mut lo: usize = 0;
    while lo < len && is_white_space(s.get_char(lo))
        invariant
            len == s@.len(),
            lo <= len,
            first_non_ws(s@, lo as int) == first_non_ws(s@, 0),
        decreases len - lo,
    {
        lo = lo + 1;
    }
    let mut hi: usize = len;
    while hi > lo && is_white_space(s.get_char(hi - 1))
        invariant
            len == s@.len(),
            lo <= hi <= len,
            end_non_ws(s@, hi as int) == end_non_ws(s@, len as int),
            lo == first_non_ws(s@, 0),
        decreases hi,
    {
        hi = hi - 1;
    }
    proof {
        lemma_first_non_ws_bounds(s@, 0);
        if hi > lo {
            assert(!white_space(s@[hi - 1]));
            assert(end_non_ws(s@, hi as int) == hi);
        } else {
            lemma_end_non_ws_bounds(s@, hi as int);
        }
        reveal_strlit("");
    }
    if hi <= lo {
        "".to_owned()
    } else {
        s.substring_char(lo, hi).to_owned()
    }
}


/// Index of the first `c` at or after `i` (`s.len()` when there is none).
pub open spec fn index_of_from(s: Seq<char>, c: char, i: int) -> int
    decreases s.len() - i,
{
    if i >= s.len() {
        s.len() as int
    } else if s[i] == c {
        i
    } else {
        index_of_from(s, c, i + 1)
    }
}

/// The pieces of `s[start..]` between occurrences of `c`.
pub open spec fn split_from(s: Seq<char>, c: char, start: int) -> Seq<Seq<char>>
    decreases s.len() - start,
{
    let k = index_of_from(s, c, start);
    if start < 0 || k >= s.len() || k < start {
        seq![s.subrange(start, s.len() as int)]
    } else {
        seq![s.subrange(start, k)] + split_from(s, c, k + 1)
    }
}

/// The pieces of `s` between occurrences of `c`, as `str::split` yields them.
pub open spec fn split_on(s: Seq<char>, c: char) -> Seq<Seq<char>> {
    split_from(s, c, 0)
}

proof fn lemma_index_of_from_bounds(s: Seq<char>, c: char, i: int)
    requires
        0 <= i <= s.len(),
    ensures
        i <= index_of_from(s, c, i) <= s.len(),
        index_of_from(s, c, i) < s.len() ==> s[index_of_from(s, c, i)] == c,
    decreases s.len() - i,
{
    if i < s.len() && s[i] != c {
        lemma_index_of_from_bounds(s, c, i + 1);
    }
}

/// Splits `s` at every `c`.
pub fn split_str(s: &str, c: char) -> (res: Vec<String>)
    ensures
        res.deep_view() == split_on(s@, c),
{
    let len = s.unicode_len();
    let mut pieces: Vec<String> = Vec::new();
    let mut start: usize = 0;
    let mut i: usize = 0;
    while i < len
        invariant
            len == s@.len(),
            start <= i <= len,
            pieces.deep_view() + split_from(s@, c, start as int) == split_on(s@, c),
            index_of_from(s@, c, start as int) == index_of_from(s@, c, i as int),
        decreases len - i,
    {
        if s.get_char(i) == c {
            let piece = s.substring_char(start, i).to_owned();
            let ghost before = pieces.deep_view();
            pieces.push(piece);
            proof {
                assert(index_of_from(s@, c, i as int) == i);
                assert(split_from(s@, c, start as int) == seq![s@.subrange(start as int, i as int)]
                    + split_from(s@, c, i + 1));
                assert(pieces.deep_view() =~= before.push(s@.subrange(start as int, i as int)));
                assert(pieces.deep_view() + split_from(s@, c, i + 1) =~= before + split_from(
                    s@,
                    c,
                    start as int,
                ));
            }
            start = i + 1;
        }
        i = i + 1;
    }
    let piece = s.substring_char(start, len).to_owned();
    let ghost before = pieces.deep_view();
    pieces.push(piece);
    proof {
        assert(index_of_from(s@, c, len as int) == len);
        assert(split_from(s@, c, start as int) == seq![s@.subrange(start as int, len as int)]);
        assert(pieces.deep_view() =~= before.push(s@.subrange(start as int, len as int)));
        assert(pieces.deep_view() =~= before + split_from(s@, c, start as int));
    }
    pieces
}

/// `l` without one trailing carriage return.
pub open spec fn strip_cr(l: Seq<char>) -> Seq<char> {
    if l.len() > 0 && l.last() == '\r' {
        l.drop_last()
    } else {
        l
    }
}

/// The lines of `s` as `str::lines` yields them: split at `\n`, a `\r`
/// before a `\n` removed, and no empty last line after a final `\n`.
pub open spec fn lines(s: Seq<char>) -> Seq<Seq<char>> {
    let p = split_on(s, '\n');
    let body = p.drop_last().map_values(|l: Seq<char>| strip_cr(l));
    if p.last().len() == 0 {
        body
    } else {
        body.push(p.last())
    }
}

pub proof fn lemma_split_nonempty(s: Seq<char>, c: char, start: int)
    ensures
        split_from(s, c, start).len() >= 1,
    decreases s.len() - start,
{
    let k = index_of_from(s, c, start);
    if !(start < 0 || k >= s.len() || k < start) {
        if 0 <= start <= s.len() {
            lemma_index_of_from_bounds(s, c, start);
        }
        lemma_split_nonempty(s, c, k + 1);
    }
}

/// The lines of `s`.
pub fn split_lines(s: &str) -> (res: Vec<String>)
    ensures
        res.deep_view() == lines(s@),
{
    let pieces = split_str(s, '\n');
    proof {
        lemma_split_nonempty(s@, '\n', 0);
    }
    let np = pieces.len();
    let mut out: Vec<String> = Vec::new();
    let ghost p = pieces.deep_view();
    for k in 0..np - 1
        invariant
            np == pieces@.len(),
            np >= 1,
            p == pieces.deep_view(),
            out.deep_view() == p.take(k as int).map_values(|l: Seq<char>| strip_cr(l)),
    {
        let line: &str = pieces[k].as_str();
        let ll = line.unicode_len();
        let ghost before = out.deep_view();
        if ll > 0 && line.get_char(ll - 1) == '\r' {
            let t = line.substring_char(0, ll - 1).to_owned();
            proof {
                assert(t@ =~= strip_cr(line@));
            }
            out.push(t);
        } else {
            let t = line.to_owned();
            proof {
                assert(t@ =~= strip_cr(line@));
            }
            out.push(t);
        }
        proof {
            assert(out.deep_view() =~= before.push(strip_cr(line@)));
            assert(p[k as int] == line@);
            assert(out.deep_view() =~= p.take(k + 1).map_values(|l: Seq<char>| strip_cr(l)));
        }
    }
    let last: &str = pieces[np - 1].as_str();
    proof {
        assert(p.take(np - 1) =~= p.drop_last());
        assert(p[np - 1] == last@);
    }
    if last.unicode_len() > 0 {
        out.push(last.to_owned());
    }
    proof {
        assert(out.deep_view() =~= lines(s@));
    }
    out
}

/// The decimal digit `d`.
pub open spec fn digit_char(d: nat) -> char {
    if d == 0 { '0' } else if d == 1 { '1' } else if d == 2 { '2' } else if d == 3 { '3' }
    else if d == 4 { '4' } else if d == 5 { '5' } else if d == 6 { '6' } else if d == 7 { '7' }
    else if d == 8 { '8' } else { '9' }
}

/// The decimal numeral of `n`.
pub open spec fn decimal(n: nat) -> Seq<char>
    decreases n,
{
    if n < 10 {
        seq![digit_char(n)]
    } else {
        decimal(n / 10).push(digit_char(n % 10))
    }
}

fn digit_str(d: usize) -> (res: &'static str)
    requires
        d < 10,
    ensures
        res@ == seq![digit_char(d as nat)],
{
    proof {
        reveal_strlit("0");
        reveal_strlit("1");
        reveal_strlit("2");
        reveal_strlit("3");
        reveal_strlit("4");
        reveal_strlit("5");
        reveal_strlit("6");
        reveal_strlit("7");
        reveal_strlit("8");
        reveal_strlit("9");
    }
    let r = if d == 0 { "0" } else if d == 1 { "1" } else if d == 2 { "2" } else if d == 3 { "3" }
    else if d == 4 { "4" } else if d == 5 { "5" } else if d == 6 { "6" } else if d == 7 { "7" }
    else if d == 8 { "8" } else { "9" };
    assert(r@ =~= seq![digit_char(d as nat)]);
    r
}

/// The decimal numeral of `n`.
pub fn usize_to_decimal(n: usize) -> (res: String)
    ensures
        res@ == decimal(n as nat),
    decreases n,
{
    if n < 10 {
        digit_str(n).to_owned()
    } else {
        let mut s = usize_to_decimal(n / 10);
        s.append(digit_str(n % 10));
        proof {
            assert(s@ =~= decimal((n / 10) as nat).push(digit_char((n % 10) as nat)));
        }
        s
    }
}


/// Each element sorts strictly before the next.
pub open spec fn strictly_sorted(s: Seq<Seq<char>>) -> bool {
    forall|a: int, b: int| 0 <= a < b < s.len() ==> lex_lt(#[trigger] s[a], #[trigger] s[b])
}

/// Inserts `x` into the strictly sorted `v` unless it is already there.
pub fn insert_sorted_unique(v: &mut Vec<String>, x: &String)
    requires
        strictly_sorted(old(v).deep_view()),
    ensures
        strictly_sorted(final(v).deep_view()),
        forall|y: Seq<char>| #[trigger] final(v).deep_view().contains(y) <==> (old(v).deep_view().contains(y) || y == x@),
{
    let ghost v0 = v.deep_view();
    let len = v.len();
    let mut pos: usize = 0;
    while pos < len && str_lt(v[pos].as_str(), x.as_str())
        invariant
            len == v@.len(),
            v0 == v.deep_view(),
            pos <= len,
            forall|a: int| 0 <= a < pos ==> lex_lt(#[trigger] v0[a], x@),
        decreases len - pos,
    {
        pos = pos + 1;
    }
    if pos < len && str_eq(v[pos].as_str(), x.as_str()) {
        proof {
            assert(v0[pos as int] == x@);
            assert(v0.contains(x@));
        }
        return;
    }
    proof {
        if pos < len {
            lemma_lex_lt_total(v0[pos as int], x@);
            assert(lex_lt(x@, v0[pos as int]));
        }
    }
    v.insert(pos, x.clone());
    proof {
        let v1 = v.deep_view();
        assert(v1 =~= v0.insert(pos as int, x@));
        assert forall|a: int, b: int| 0 <= a < b < v1.len() implies lex_lt(#[trigger] v1[a], #[trigger] v1[b]) by {
            if b < pos {
            } else if b == pos {
            } else if a < pos {
                assert(v1[b] == v0[b - 1]);
                lemma_lex_lt_transitive(v0[a], x@, v0[pos as int]);
                if b - 1 > pos {
                    lemma_lex_lt_transitive(v0[a], v0[pos as int], v0[b - 1]);
                }
            } else if a == pos {
                if b - 1 > pos {
                    lemma_lex_lt_transitive(x@, v0[pos as int], v0[b - 1]);
                }
            } else {
                assert(v1[a] == v0[a - 1]);
                assert(v1[b] == v0[b - 1]);
            }
        }
        assert forall|y: Seq<char>| #[trigger] v1.contains(y) <==> (v0.contains(y) || y == x@) by {
            if v0.contains(y) {
                let k = choose|k: int| 0 <= k < v0.len() && v0[k] == y;
                if k < pos {
                    assert(v1[k] == y);
                } else {
                    assert(v1[k + 1] == y);
                }
            }
            if y == x@ {
                assert(v1[pos as int] == y);
            }
        }
    }
}

/// The names satisfying `p`, in strictly ascending order.
pub open spec fn sorted_names(p: spec_fn(Seq<char>) -> bool) -> Seq<Seq<char>> {
    choose|l: Seq<Seq<char>>| strictly_sorted(l) && forall|x: Seq<char>| #[trigger] l.contains(x) <==> p(x)
}

/// Two strictly sorted sequences with the same elements are equal.
pub proof fn lemma_strictly_sorted_unique(a: Seq<Seq<char>>, b: Seq<Seq<char>>)
    requires
        strictly_sorted(a),
        strictly_sorted(b),
        forall|x: Seq<char>| #[trigger] a.contains(x) <==> b.contains(x),
    ensures
        a == b,
    decreases a.len(),
{
    if a.len() == 0 {
        if b.len() > 0 {
            assert(b.contains(b[0]));
            assert(a.contains(b[0]));
        }
        assert(a =~= b);
    } else if b.len() == 0 {
        assert(a.contains(a[0]));
        assert(b.contains(a[0]));
    } else {
        assert(a.contains(a[0]));
        assert(b.contains(a[0]));
        assert(b.contains(b[0]));
        assert(a.contains(b[0]));
        let i = choose|i: int| 0 <= i < b.len() && b[i] == a[0];
        let j = choose|j: int| 0 <= j < a.len() && a[j] == b[0];
        if a[0] != b[0] {
            assert(i > 0 && j > 0);
            assert(lex_lt(b[0], b[i]));
            assert(lex_lt(a[0], a[j]));
            lemma_lex_lt_asymmetric(a[0], b[0]);
        }
        let a1 = a.drop_first();
        let b1 = b.drop_first();
        assert forall|x: Seq<char>| #[trigger] a1.contains(x) <==> b1.contains(x) by {
            if a1.contains(x) {
                let k = choose|k: int| 0 <= k < a1.len() && a1[k] == x;
                assert(a[k + 1] == x);
                assert(lex_lt(a[0], a[k + 1]));
                lemma_lex_lt_irreflexive(x);
                assert(a.contains(x));
                assert(b.contains(x));
                let m = choose|m: int| 0 <= m < b.len() && b[m] == x;
                assert(m != 0);
                assert(b1[m - 1] == x);
            }
            if b1.contains(x) {
                let k = choose|k: int| 0 <= k < b1.len() && b1[k] == x;
                assert(b[k + 1] == x);
                assert(lex_lt(b[0], b[k + 1]));
                lemma_lex_lt_irreflexive(x);
                assert(b.contains(x));
                assert(a.contains(x));
                let m = choose|m: int| 0 <= m < a.len() && a[m] == x;
                assert(m != 0);
                assert(a1[m - 1] == x);
            }
        }
        assert forall|u: int, v: int| 0 <= u < v < a1.len() implies lex_lt(#[trigger] a1[u], #[trigger] a1[v]) by {
            assert(a1[u] == a[u + 1] && a1[v] == a[v + 1]);
        }
        assert forall|u: int, v: int| 0 <= u < v < b1.len() implies lex_lt(#[trigger] b1[u], #[trigger] b1[v]) by {
            assert(b1[u] == b[u + 1] && b1[v] == b[v + 1]);
        }
        lemma_strictly_sorted_unique(a1, b1);
        assert(a =~= seq![a[0]] + a1);
        assert(b =~= seq![b[0]] + b1);
    }
}

/// A strictly sorted list with the elements satisfying `p` is `sorted_names(p)`.
pub proof fn lemma_sorted_names(l: Seq<Seq<char>>, p: spec_fn(Seq<char>) -> bool)
    requires
        strictly_sorted(l),
        forall|x: Seq<char>| #[trigger] l.contains(x) <==> p(x),
    ensures
        sorted_names(p) == l,
{
    let c = sorted_names(p);
    assert(strictly_sorted(c) && forall|x: Seq<char>| #[trigger] c.contains(x) <==> p(x));
    lemma_strictly_sorted_unique(c, l);
}

/// The distinct elements of `v` in ascending order.
pub fn sorted_unique(v: &Vec<String>) -> (res: Vec<String>)
    ensures
        strictly_sorted(res.deep_view()),
        forall|x: Seq<char>| #[trigger] res.deep_view().contains(x) <==> v.deep_view().contains(x),
{
    let mut out: Vec<String> = Vec::new();
    for k in 0..v.len()
        invariant
            strictly_sorted(out.deep_view()),
            forall|x: Seq<char>| #[trigger] out.deep_view().contains(x) <==> v.deep_view().take(k as int).contains(x),
    {
        let ghost before = out.deep_view();
        insert_sorted_unique(&mut out, &v[k]);
        proof {
            let t1 = v.deep_view().take(k + 1);
            assert(t1 =~= v.deep_view().take(k as int).push(v@[k as int]@));
            assert forall|x: Seq<char>| #[trigger] out.deep_view().contains(x) <==> t1.contains(x) by {
                if t1.contains(x) {
                    let j = choose|j: int| 0 <= j < t1.len() && t1[j] == x;
                    if j < k {
                        assert(v.deep_view().take(k as int)[j] == x);
                    }
                }
                if v.deep_view().take(k as int).contains(x) {
                    let j = choose|j: int| 0 <= j < k && v.deep_view().take(k as int)[j] == x;
                    assert(t1[j] == x);
                }
                assert(t1[k as int] == v@[k as int]@);
            }
        }
    }
    proof {
        assert(v.deep_view().take(v@.len() as int) =~= v.deep_view());
    }
    out
}

/// The distinct elements of `s` in order of first occurrence.
pub open spec fn distinct_in_order<A>(s: Seq<A>) -> Seq<A>
    decreases s.len(),
{
    if s.len() == 0 {
        Seq::empty()
    } else if distinct_in_order(s.drop_last()).contains(s.last()) {
        distinct_in_order(s.drop_last())
    } else {
        distinct_in_order(s.drop_last()).push(s.last())
    }
}

pub proof fn lemma_distinct_in_order<A>(s: Seq<A>)
    ensures
        distinct_in_order(s).no_duplicates(),
        forall|x: A| #[trigger] distinct_in_order(s).contains(x) <==> s.contains(x),
    decreases s.len(),
{
    if s.len() > 0 {
        let d = distinct_in_order(s.drop_last());
        lemma_distinct_in_order(s.drop_last());
        assert(s =~= s.drop_last().push(s.last()));
        assert forall|x: A| #[trigger] distinct_in_order(s).contains(x) <==> s.contains(x) by {
            let dl = s.drop_last();
            if s.contains(x) {
                let k = choose|k: int| 0 <= k < s.len() && s[k] == x;
                if k < s.len() - 1 {
                    assert(dl[k] == x);
                    assert(dl.contains(x));
                }
            }
            if dl.contains(x) {
                let k = choose|k: int| 0 <= k < dl.len() && dl[k] == x;
                assert(s[k] == x);
            }
            if x == s.last() {
                assert(s[s.len() - 1] == x);
            }
            if !d.contains(s.last()) {
                let ds = d.push(s.last());
                if ds.contains(x) {
                    let k = choose|k: int| 0 <= k < ds.len() && ds[k] == x;
                    if k < d.len() {
                        assert(d[k] == x);
                    }
                }
                if d.contains(x) {
                    let k = choose|k: int| 0 <= k < d.len() && d[k] == x;
                    assert(ds[k] == x);
                }
                assert(ds[d.len() as int] == s.last());
            }
        }
    }
}

/// Whether `x` is one of the names of `v`.
pub fn contains_name(v: &Vec<String>, x: &str) -> (res: bool)
    ensures
        res == v.deep_view().contains(x@),
{
    for i in 0..v.len()
        invariant
            forall|j: int| 0 <= j < i ==> v.deep_view()[j] != x@,
    {
        proof {
            assert(v.deep_view()[i as int] == v@[i as int]@);
        }
        if str_eq(v[i].as_str(), x) {
            return true;
        }
    }
    false
}

/// The distinct names of `v` in order of first occurrence.
pub fn distinct_names(v: &Vec<String>) -> (res: Vec<String>)
    ensures
        res.deep_view() == distinct_in_order(v.deep_view()),
{
    let ghost vv = v.deep_view();
    let mut out: Vec<String> = Vec::new();
    for k in 0..v.len()
        invariant
            vv == v.deep_view(),
            out.deep_view() == distinct_in_order(vv.take(k as int)),
    {
        proof {
            assert(vv.take(k + 1).drop_last() =~= vv.take(k as int));
        }
        if !contains_name(&out, v[k].as_str()) {
            out.push(v[k].clone());
            proof {
                assert(out.deep_view() =~= distinct_in_order(vv.take(k as int)).push(vv[k as int]));
            }
        }
    }
    proof {
        assert(vv.take(vv.len() as int) =~= vv);
    }
    out
}

/// A character escaped for an XML attribute.
pub open spec fn xml_escape_char(c: char) -> Seq<char> {
    if c == '&' {
        "&amp;"@
    } else if c == '<' {
        "&lt;"@
    } else if c == '>' {
        "&gt;"@
    } else if c == '"' {
        "&quot;"@
    } else if c == '\'' {
        "&apos;"@
    } else {
        seq![c]
    }
}

/// A text escaped for an XML attribute.
pub open spec fn xml_escaped(s: Seq<char>) -> Seq<char>
    decreases s.len(),
{
    if s.len() == 0 {
        Seq::empty()
    } else {
        xml_escaped(s.drop_last()) + xml_escape_char(s.last())
    }
}

/// The text with `&`, `<`, `>`, `"` and `'` replaced by their XML entities.
pub fn escape_xml(s: &str) -> (res: String)
    ensures
        res@ == xml_escaped(s@),
{
    let n = s.unicode_len();
    let mut out = String::new();
    for i in 0..n
        invariant
            n == s@.len(),
            out@ == xml_escaped(s@.take(i as int)),
    {
        let c = s.get_char(i);
        let piece: &str = if c == '&' {
            "&amp;"
        } else if c == '<' {
            "&lt;"
        } else if c == '>' {
            "&gt;"
        } else if c == '"' {
            "&quot;"
        } else if c == '\'' {
            "&apos;"
        } else {
            s.substring_char(i, i + 1)
        };
        proof {
            assert(s@.take(i + 1).drop_last() =~= s@.take(i as int));
            if !(c == '&' || c == '<' || c == '>' || c == '"' || c == '\'') {
                assert(piece@ =~= seq![c]);
            }
        }
        out = concat(out.as_str(), piece);
    }
    proof {
        assert(s@.take(n as int) =~= s@);
    }
    out
}

} // verus!
