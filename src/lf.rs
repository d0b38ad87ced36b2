//! Why the LF mapping works: with the sentinel occurring only at the end,
//! the row that LF gives from a row holds the suffix one position earlier.
use crate::text::{
    bwt_spec, count_below, is_permutation, is_suffix_array, lemma_suffix_lt_irrefl, preceding,
    suffix_lt,
};
use crate::wavelet::{lemma_rank_full, lemma_rank_step, rank_spec};
use vstd::prelude::*;
use vstd::multiset::Multiset;
use vstd::relations::injective_on;
use vstd::set_lib::*;

verus! {

/// The sentinel `0` ends `t` and occurs nowhere else.
pub open spec fn unique_sentinel(t: Seq<u64>) -> bool {
    &&& t.len() >= 1
    &&& t.last() == 0
    &&& forall|k: int| 0 <= k < t.len() - 1 ==> t[k] != 0
}

/// The row of `sa` that holds position `p`.
pub open spec fn row_of(sa: Seq<u64>, p: int) -> int {
    choose|k: int| 0 <= k < sa.len() && sa[k] == p
}

/// The position one after `p`, cyclically.
pub open spec fn next_pos(n: int, p: int) -> int {
    if p == n - 1 {
        0
    } else {
        p + 1
    }
}

/// The position `k` after `p`, cyclically.
pub open spec fn ahead(n: int, p: int, k: nat) -> int
    decreases k,
{
    if k == 0 {
        p
    } else {
        next_pos(n, ahead(n, p, (k - 1) as nat))
    }
}

/// The position `k` before `p`, cyclically.
pub open spec fn behind(n: int, p: int, k: nat) -> int
    decreases k,
{
    if k == 0 {
        p
    } else {
        prev_pos(n, behind(n, p, (k - 1) as nat))
    }
}

/// The position one before `p`, cyclically.
pub open spec fn prev_pos(n: int, p: int) -> int {
    if p == 0 {
        n - 1
    } else {
        p - 1
    }
}

/// The rows whose suffix sorts before the suffix at `x`.
pub open spec fn less_rows(t: Seq<u64>, sa: Seq<u64>, x: int) -> Set<int> {
    Set::new(|k: int| 0 <= k < sa.len() && suffix_lt(t, sa[k] as int, x))
}

/// The positions of `t` whose code is below `c`.
pub open spec fn below_set(t: Seq<u64>, c: int) -> Set<int> {
    Set::new(|p: int| 0 <= p < t.len() && (t[p] as int) < c)
}

/// The positions before `i` where `s` holds `c`.
pub open spec fn occ_set(s: Seq<u64>, c: u64, i: int) -> Set<int> {
    Set::new(|k: int| 0 <= k < i && s[k] == c)
}

proof fn lemma_suffix_lt_asym(t: Seq<u64>, a: int, b: int)
    requires
        0 <= a,
        0 <= b,
        suffix_lt(t, a, b),
    ensures
        !suffix_lt(t, b, a),
    decreases t.len() - a,
{
    if a < t.len() && b < t.len() && t[a] == t[b] {
        lemma_suffix_lt_asym(t, a + 1, b + 1);
    }
}

/// Every position has a row.
pub proof fn lemma_row_of(sa: Seq<u64>, n: nat, p: int)
    requires
        is_permutation(sa, n),
        0 <= p < n,
    ensures
        0 <= row_of(sa, p) < n,
        sa[row_of(sa, p)] == p,
        forall|k: int| 0 <= k < n && sa[k] == p ==> k == row_of(sa, p),
{
    let r = set_int_range(0, n as int);
    let f = |k: int| sa[k] as int;
    let img = r.map(f);
    lemma_int_range(0, n as int);
    assert(injective_on(f, r));
    lemma_map_size(r, img, f);
    assert(img.subset_of(r));
    lemma_subset_equality(img, r);
    assert(r.contains(p));
    assert(img.contains(p));
}

/// The rows before row `j` are exactly the rows whose suffix sorts before its.
proof fn lemma_less_rows(t: Seq<u64>, sa: Seq<u64>, j: int)
    requires
        is_suffix_array(t, sa),
        0 <= j < t.len(),
    ensures
        less_rows(t, sa, sa[j] as int) == set_int_range(0, j),
        less_rows(t, sa, sa[j] as int).finite(),
        less_rows(t, sa, sa[j] as int).len() == j,
{
    assert forall|k: int| #[trigger]
        less_rows(t, sa, sa[j] as int).contains(k) <==> set_int_range(0, j).contains(k) by {
        if 0 <= k < t.len() {
            if k == j {
                lemma_suffix_lt_irrefl(t, sa[j] as int);
            } else if k > j {
                lemma_suffix_lt_asym(t, sa[j] as int, sa[k] as int);
            }
        }
    }
    assert(less_rows(t, sa, sa[j] as int) =~= set_int_range(0, j));
    lemma_int_range(0, j);
}

pub proof fn lemma_below_card(t: Seq<u64>, c: int)
    ensures
        below_set(t, c).finite(),
        below_set(t, c).len() == count_below(t, c),
    decreases t.len(),
{
    if t.len() == 0 {
        assert(below_set(t, c) =~= Set::empty());
    } else {
        let u = t.drop_last();
        lemma_below_card(u, c);
        if (t.last() as int) < c {
            assert(below_set(t, c) =~= below_set(u, c).insert(t.len() - 1));
        } else {
            assert(below_set(t, c) =~= below_set(u, c));
        }
    }
}

proof fn lemma_rank_card(s: Seq<u64>, c: u64, i: int)
    requires
        0 <= i <= s.len(),
    ensures
        occ_set(s, c, i).finite(),
        occ_set(s, c, i).len() == rank_spec(s, c, i),
    decreases i,
{
    if i == 0 {
        assert(occ_set(s, c, i) =~= Set::empty());
        broadcast use {vstd::seq_lib::group_to_multiset_ensures, vstd::multiset::group_multiset_axioms};

        assert(s.subrange(0, 0).to_multiset() =~= Multiset::empty());
    } else {
        lemma_rank_card(s, c, i - 1);
        lemma_rank_step(s, c, i - 1);
        if s[i - 1] == c {
            assert(occ_set(s, c, i) =~= occ_set(s, c, i - 1).insert(i - 1));
        } else {
            assert(occ_set(s, c, i) =~= occ_set(s, c, i - 1));
        }
    }
}

/// Row `k` sorts before row `j` exactly when `k < j`.
proof fn lemma_sorted_rows(t: Seq<u64>, sa: Seq<u64>, k: int, j: int)
    requires
        is_suffix_array(t, sa),
        0 <= k < t.len(),
        0 <= j < t.len(),
    ensures
        suffix_lt(t, sa[k] as int, sa[j] as int) <==> k < j,
{
    lemma_less_rows(t, sa, j);
    assert(less_rows(t, sa, sa[j] as int).contains(k) == set_int_range(0, j).contains(k));
}

/// The first row holds the sentinel's suffix, the smallest.
pub proof fn lemma_first_row(t: Seq<u64>, sa: Seq<u64>)
    requires
        is_suffix_array(t, sa),
        unique_sentinel(t),
    ensures
        sa[0] == t.len() - 1,
{
    let n = t.len() as int;
    lemma_row_of(sa, n as nat, n - 1);
    let r0 = row_of(sa, n - 1);
    lemma_less_rows(t, sa, r0);
    assert forall|k: int| 0 <= k < n implies !suffix_lt(t, sa[k] as int, n - 1) by {
        if sa[k] == n - 1 {
            lemma_suffix_lt_irrefl(t, n - 1);
        } else {
            assert(t[sa[k] as int] != 0);
        }
    }
    assert(less_rows(t, sa, n - 1) =~= Set::empty());
}

/// The LF mapping, stated over the text and its suffix array: from the row
/// of position `p`, `C[c] + rank(c, i)` is the row of position `p - 1`
/// (cyclically), where `c` is the symbol before `p`.
pub proof fn lemma_lf_general(t: Seq<u64>, sa: Seq<u64>, i: int)
    requires
        is_suffix_array(t, sa),
        unique_sentinel(t),
        0 <= i < t.len(),
    ensures
        ({
            let b = bwt_spec(t, sa);
            let lf = count_below(t, b[i] as int) + rank_spec(b, b[i], i);
            0 <= lf < t.len() && sa[lf as int] == prev_pos(t.len() as int, sa[i] as int)
        }),
{
    let n = t.len() as int;
    let b = bwt_spec(t, sa);
    let p = sa[i] as int;
    let c = b[i];
    lemma_rank_card(b, c, i);
    lemma_below_card(t, c as int);
    if p == 0 {
        assert(c == 0);
        assert(below_set(t, 0) =~= Set::empty());
        assert forall|k: int| #[trigger] occ_set(b, c, i).contains(k) implies false by {
            if sa[k] > 0 {
                assert(t[sa[k] - 1] != 0);
            }
        }
        assert(occ_set(b, c, i) =~= Set::empty());
        lemma_row_of(sa, n as nat, n - 1);
        let r0 = row_of(sa, n - 1);
        lemma_less_rows(t, sa, r0);
        assert forall|k: int| 0 <= k < n implies !suffix_lt(t, sa[k] as int, n - 1) by {
            if sa[k] == n - 1 {
                lemma_suffix_lt_irrefl(t, n - 1);
            } else {
                assert(t[sa[k] as int] != 0);
            }
        }
        assert(less_rows(t, sa, n - 1) =~= Set::empty());
    } else {
        let q = p - 1;
        assert(c == t[q]);
        assert(c != 0);
        lemma_row_of(sa, n as nat, q);
        let r = row_of(sa, q);
        lemma_less_rows(t, sa, r);
        let x1 = Set::new(|k: int| 0 <= k < n && t[sa[k] as int] < c);
        let x2 = Set::new(
            |k: int| 0 <= k < n && t[sa[k] as int] == c && suffix_lt(t, sa[k] + 1, p),
        );
        let rows = set_int_range(0, n);
        lemma_int_range(0, n);
        assert(x1.subset_of(rows));
        assert(x2.subset_of(rows));
        lemma_len_subset(x1, rows);
        lemma_len_subset(x2, rows);
        assert(less_rows(t, sa, q) =~= x1 + x2);
        assert(x1.disjoint(x2));
        lemma_set_disjoint_lens(x1, x2);
        // The first block: rows of positions with a smaller code.
        let f = |k: int| sa[k] as int;
        assert(injective_on(f, x1));
        assert forall|y: int| #[trigger] below_set(t, c as int).contains(y) implies x1.map(
            f,
        ).contains(y) by {
            lemma_row_of(sa, n as nat, y);
            assert(x1.contains(row_of(sa, y)));
        }
        assert(x1.map(f) =~= below_set(t, c as int));
        lemma_map_size(x1, below_set(t, c as int), f);
        // The second block: rows of positions with code `c` whose next
        // suffix sorts before the suffix at `p`, one for each `c` before row `i`.
        let g = |k: int| row_of(sa, sa[k] + 1);
        assert forall|k: int| #[trigger] x2.contains(k) implies occ_set(b, c, i).contains(g(k))
            && sa[g(k)] == sa[k] + 1 by {
            assert(sa[k] != n - 1);
            lemma_row_of(sa, n as nat, sa[k] + 1);
            lemma_sorted_rows(t, sa, g(k), i);
        }
        assert(injective_on(g, x2));
        assert forall|y: int| #[trigger] occ_set(b, c, i).contains(y) implies x2.map(g).contains(
            y,
        ) by {
            assert(sa[y] > 0);
            lemma_row_of(sa, n as nat, sa[y] - 1);
            let k = row_of(sa, sa[y] - 1);
            lemma_sorted_rows(t, sa, y, i);
            lemma_row_of(sa, n as nat, sa[y] as int);
            assert(x2.contains(k));
            assert(g(k) == y);
        }
        assert(x2.map(g) =~= occ_set(b, c, i));
        lemma_map_size(x2, occ_set(b, c, i), g);
    }
}


/// Whether the suffix of `t` at `x` sorts before the pattern `q` (when
/// `strict`), or before it or starting with it (when not).
pub open spec fn pat_before(t: Seq<u64>, x: int, q: Seq<u64>, strict: bool) -> bool
    decreases q.len(),
{
    if q.len() == 0 {
        !strict
    } else if x >= t.len() {
        true
    } else if t[x] != q[0] {
        t[x] < q[0]
    } else {
        pat_before(t, x + 1, q.drop_first(), strict)
    }
}

/// Whether `q` occurs in `t` at `x`.
pub open spec fn starts_with(t: Seq<u64>, x: int, q: Seq<u64>) -> bool {
    0 <= x && x + q.len() <= t.len() && t.subrange(x, x + q.len()) == q
}

/// The positions where `q` occurs in `t`.
pub open spec fn occurrences(t: Seq<u64>, q: Seq<u64>) -> Set<int> {
    Set::new(|x: int| 0 <= x < t.len() && starts_with(t, x, q))
}

/// The rows whose suffix sorts before `q` (or, when not `strict`, before it
/// or starting with it).
pub open spec fn pat_rows(t: Seq<u64>, sa: Seq<u64>, q: Seq<u64>, strict: bool) -> Set<int> {
    Set::new(|k: int| 0 <= k < sa.len() && pat_before(t, sa[k] as int, q, strict))
}

proof fn lemma_pat_mono(t: Seq<u64>, a: int, b: int, q: Seq<u64>, strict: bool)
    requires
        0 <= a,
        0 <= b,
        suffix_lt(t, a, b),
        pat_before(t, b, q, strict),
    ensures
        pat_before(t, a, q, strict),
    decreases q.len(),
{
    if q.len() > 0 && a < t.len() && t[a] == t[b] && t[b] == q[0] {
        lemma_pat_mono(t, a + 1, b + 1, q.drop_first(), strict);
    }
}

proof fn lemma_pat_between(t: Seq<u64>, x: int, q: Seq<u64>)
    requires
        0 <= x <= t.len(),
    ensures
        pat_before(t, x, q, true) ==> pat_before(t, x, q, false),
        (pat_before(t, x, q, false) && !pat_before(t, x, q, true)) == starts_with(t, x, q),
    decreases q.len(),
{
    if q.len() == 0 {
        assert(t.subrange(x, x) == q);
    } else if x < t.len() {
        lemma_pat_between(t, x + 1, q.drop_first());
        if t[x] == q[0] {
            if starts_with(t, x + 1, q.drop_first()) && x + q.len() <= t.len() {
                let u = t.subrange(x + 1, x + 1 + q.drop_first().len());
                assert forall|i: int| 0 <= i < q.len() implies t.subrange(x, x + q.len())[i]
                    == q[i] by {
                    if i > 0 {
                        assert(u[i - 1] == q.drop_first()[i - 1]);
                    }
                }
                assert(t.subrange(x, x + q.len()) =~= q);
            }
            if starts_with(t, x, q) {
                assert(t.subrange(x + 1, x + 1 + q.drop_first().len()) =~= q.drop_first());
            }
        } else if starts_with(t, x, q) {
            assert(t.subrange(x, x + q.len())[0] == q[0]);
        }
    }
}

proof fn lemma_downward(s: Set<int>, n: int)
    requires
        0 <= n,
        forall|k: int| s.contains(k) ==> 0 <= k < n,
        forall|k: int, j: int| s.contains(k) && 0 <= j < k ==> s.contains(j),
    ensures
        s.finite(),
        s == set_int_range(0, s.len() as int),
    decreases n,
{
    lemma_int_range(0, n);
    assert(s.subset_of(set_int_range(0, n)));
    lemma_len_subset(s, set_int_range(0, n));
    if n == 0 {
        assert(s =~= set_int_range(0, 0));
    } else if s.contains(n - 1) {
        assert(s =~= set_int_range(0, n));
    } else {
        lemma_downward(s, n - 1);
    }
}

/// The rows of `pat_rows` are the first ones, as many as there are.
pub proof fn lemma_pat_rows(t: Seq<u64>, sa: Seq<u64>, q: Seq<u64>, strict: bool)
    requires
        is_suffix_array(t, sa),
    ensures
        pat_rows(t, sa, q, strict).finite(),
        pat_rows(t, sa, q, strict) == set_int_range(0, pat_rows(t, sa, q, strict).len() as int),
        pat_rows(t, sa, q, strict).len() <= t.len(),
{
    let s = pat_rows(t, sa, q, strict);
    assert forall|k: int, j: int| s.contains(k) && 0 <= j < k implies s.contains(j) by {
        lemma_sorted_rows(t, sa, j, k);
        lemma_pat_mono(t, sa[j] as int, sa[k] as int, q, strict);
    }
    lemma_downward(s, t.len() as int);
    lemma_int_range(0, t.len() as int);
    assert(s.subset_of(set_int_range(0, t.len() as int)));
    lemma_len_subset(s, set_int_range(0, t.len() as int));
}

/// One step of backward search: prepending a code `c` other than the
/// sentinel to `q` moves the boundary `m` of `q`'s rows to `C[c] + rank(c, m)`.
pub proof fn lemma_pat_step(t: Seq<u64>, sa: Seq<u64>, c: u64, q: Seq<u64>, strict: bool)
    requires
        is_suffix_array(t, sa),
        unique_sentinel(t),
        c != 0,
    ensures
        ({
            let b = bwt_spec(t, sa);
            let m = pat_rows(t, sa, q, strict).len() as int;
            pat_rows(t, sa, seq![c] + q, strict).len() == count_below(t, c as int) + rank_spec(
                b,
                c,
                m,
            )
        }),
{
    let n = t.len() as int;
    let b = bwt_spec(t, sa);
    let cq = seq![c] + q;
    assert(cq[0] == c);
    assert(cq.drop_first() =~= q);
    lemma_pat_rows(t, sa, q, strict);
    let m = pat_rows(t, sa, q, strict).len() as int;
    lemma_rank_card(b, c, m);
    lemma_below_card(t, c as int);
    let x1 = Set::new(|k: int| 0 <= k < n && t[sa[k] as int] < c);
    let x2 = Set::new(
        |k: int| 0 <= k < n && t[sa[k] as int] == c && pat_before(t, sa[k] + 1, q, strict),
    );
    let rows = set_int_range(0, n);
    lemma_int_range(0, n);
    assert(x1.subset_of(rows));
    assert(x2.subset_of(rows));
    lemma_len_subset(x1, rows);
    lemma_len_subset(x2, rows);
    assert(pat_rows(t, sa, cq, strict) =~= x1 + x2);
    assert(x1.disjoint(x2));
    lemma_set_disjoint_lens(x1, x2);
    let f = |k: int| sa[k] as int;
    assert(injective_on(f, x1));
    assert forall|y: int| #[trigger] below_set(t, c as int).contains(y) implies x1.map(f).contains(
        y,
    ) by {
        lemma_row_of(sa, n as nat, y);
        assert(x1.contains(row_of(sa, y)));
    }
    assert(x1.map(f) =~= below_set(t, c as int));
    lemma_map_size(x1, below_set(t, c as int), f);
    let g = |k: int| row_of(sa, sa[k] + 1);
    assert forall|k: int| #[trigger] x2.contains(k) implies occ_set(b, c, m).contains(g(k))
        && sa[g(k)] == sa[k] + 1 by {
        assert(sa[k] != n - 1);
        lemma_row_of(sa, n as nat, sa[k] + 1);
        assert(pat_rows(t, sa, q, strict).contains(g(k)));
    }
    assert(injective_on(g, x2));
    assert forall|y: int| #[trigger] occ_set(b, c, m).contains(y) implies x2.map(g).contains(y) by {
        assert(pat_rows(t, sa, q, strict).contains(y));
        assert(sa[y] > 0);
        lemma_row_of(sa, n as nat, sa[y] - 1);
        let k = row_of(sa, sa[y] - 1);
        lemma_row_of(sa, n as nat, sa[y] as int);
        assert(x2.contains(k));
        assert(g(k) == y);
    }
    assert(x2.map(g) =~= occ_set(b, c, m));
    lemma_map_size(x2, occ_set(b, c, m), g);
}

/// The rows between the two boundaries of `q` are those whose suffix starts
/// with `q`, and their positions are the occurrences of `q`.
pub proof fn lemma_pat_occurrences(t: Seq<u64>, sa: Seq<u64>, q: Seq<u64>)
    requires
        is_suffix_array(t, sa),
    ensures
        ({
            let lo = pat_rows(t, sa, q, true).len() as int;
            let hi = pat_rows(t, sa, q, false).len() as int;
            &&& 0 <= lo <= hi <= t.len()
            &&& forall|k: int| 0 <= k < t.len() ==> (lo <= k < hi <==> starts_with(t, sa[k] as int, q))
            &&& occurrences(t, q).finite()
            &&& occurrences(t, q).len() == hi - lo
            &&& forall|x: int| #[trigger] occurrences(t, q).contains(x) <==> exists|k: int| lo <= k < hi && sa[k] == x
        }),
{
    let n = t.len() as int;
    lemma_pat_rows(t, sa, q, true);
    lemma_pat_rows(t, sa, q, false);
    let lo = pat_rows(t, sa, q, true).len() as int;
    let hi = pat_rows(t, sa, q, false).len() as int;
    assert forall|k: int| 0 <= k < n implies (pat_rows(t, sa, q, true).contains(k) ==> pat_rows(t, sa, q, false).contains(k))
        && ((pat_rows(t, sa, q, false).contains(k) && !pat_rows(t, sa, q, true).contains(k)) == starts_with(t, sa[k] as int, q)) by {
        lemma_pat_between(t, sa[k] as int, q);
    }
    if lo > hi {
        assert(pat_rows(t, sa, q, true).contains(hi));
    }
    assert forall|k: int| 0 <= k < n implies (lo <= k < hi <==> starts_with(t, sa[k] as int, q)) by {
        assert(set_int_range(0, lo).contains(k) == pat_rows(t, sa, q, true).contains(k));
        assert(set_int_range(0, hi).contains(k) == pat_rows(t, sa, q, false).contains(k));
    }
    let rs = set_int_range(lo, hi);
    lemma_int_range(lo, hi);
    let f = |k: int| sa[k] as int;
    assert(injective_on(f, rs));
    assert forall|x: int| #[trigger] occurrences(t, q).contains(x) implies rs.map(f).contains(x) by {
        lemma_row_of(sa, n as nat, x);
        assert(rs.contains(row_of(sa, x)));
    }
    assert(rs.map(f) =~= occurrences(t, q));
    lemma_map_size(rs, occurrences(t, q), f);
    assert forall|x: int| #[trigger] occurrences(t, q).contains(x) <==> exists|k: int| lo <= k < hi && sa[k] == x by {
        if occurrences(t, q).contains(x) {
            assert(rs.map(f).contains(x));
        }
    }
}


/// The Burrows-Wheeler column holds the same codes as the text.
pub proof fn lemma_bwt_multiset(t: Seq<u64>, sa: Seq<u64>)
    requires
        t.len() >= 1,
        is_permutation(sa, t.len()),
    ensures
        bwt_spec(t, sa).to_multiset() == t.to_multiset(),
{
    let n = t.len() as int;
    let b = bwt_spec(t, sa);
    assert forall|c: u64| b.to_multiset().count(c) == t.to_multiset().count(c) by {
        lemma_rank_full(b, c);
        lemma_rank_full(t, c);
        lemma_rank_card(b, c, n);
        lemma_rank_card(t, c, n);
        let f = |k: int| prev_pos(n, sa[k] as int);
        let x = occ_set(b, c, n);
        assert(injective_on(f, x));
        assert forall|p: int| #[trigger] occ_set(t, c, n).contains(p) implies x.map(f).contains(p) by {
            let q = if p == n - 1 {
                0
            } else {
                p + 1
            };
            lemma_row_of(sa, n as nat, q);
            assert(x.contains(row_of(sa, q)));
        }
        assert(x.map(f) =~= occ_set(t, c, n));
        lemma_map_size(x, occ_set(t, c, n), f);
    }
    assert(b.to_multiset() =~= t.to_multiset());
}


/// A text has one suffix array: two lists of its positions in increasing
/// suffix order are the same.
pub proof fn lemma_suffix_array_unique(t: Seq<u64>, sa1: Seq<u64>, sa2: Seq<u64>)
    requires
        is_suffix_array(t, sa1),
        is_suffix_array(t, sa2),
    ensures
        sa1 == sa2,
{
    let n = t.len() as int;
    assert forall|j: int| 0 <= j < n implies sa1[j] == sa2[j] by {
        let p = sa1[j] as int;
        lemma_row_of(sa2, n as nat, p);
        let r = row_of(sa2, p);
        lemma_less_rows(t, sa1, j);
        lemma_less_rows(t, sa2, r);
        let pos = Set::new(|q: int| 0 <= q < n && suffix_lt(t, q, p));
        let f1 = |k: int| sa1[k] as int;
        let f2 = |k: int| sa2[k] as int;
        let l1 = less_rows(t, sa1, p);
        let l2 = less_rows(t, sa2, p);
        assert(injective_on(f1, l1));
        assert(injective_on(f2, l2));
        assert forall|q: int| #[trigger] pos.contains(q) implies l1.map(f1).contains(q)
            && l2.map(f2).contains(q) by {
            lemma_row_of(sa1, n as nat, q);
            lemma_row_of(sa2, n as nat, q);
            assert(l1.contains(row_of(sa1, q)));
            assert(l2.contains(row_of(sa2, q)));
        }
        assert(l1.map(f1) =~= pos);
        assert(l2.map(f2) =~= pos);
        lemma_map_size(l1, pos, f1);
        lemma_map_size(l2, pos, f2);
    }
    assert(sa1 =~= sa2);
}

} // verus!
