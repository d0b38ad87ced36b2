//! Preparing a text for indexing: the sentinel, the table of where each
//! code's rows start, the suffix array and the Burrows-Wheeler column.
use vstd::prelude::*;
use vstd::seq_lib::*;
use vstd::multiset::*;

verus! {

broadcast use {group_to_multiset_ensures, group_multiset_axioms, group_multiset_properties};

/// `text` followed by the sentinel `0`, unless it already ends with one.
pub open spec fn with_sentinel(text: Seq<u64>) -> Seq<u64> {
    if text.len() > 0 && text.last() == 0 {
        text
    } else {
        text.push(0)
    }
}

/// The number of elements of `t` that are below `c`.
pub open spec fn count_below(t: Seq<u64>, c: int) -> nat
    decreases t.len(),
{
    if t.len() == 0 {
        0
    } else {
        count_below(t.drop_last(), c) + if (t.last() as int) < c {
            1nat
        } else {
            0nat
        }
    }
}

/// Whether the suffix of `t` at `a` sorts strictly before the suffix at `b`
/// (a proper prefix sorts first).
pub open spec fn suffix_lt(t: Seq<u64>, a: int, b: int) -> bool
    decreases t.len() - a,
{
    if b >= t.len() || a < 0 || b < 0 {
        false
    } else if a >= t.len() {
        true
    } else if t[a] != t[b] {
        t[a] < t[b]
    } else {
        suffix_lt(t, a + 1, b + 1)
    }
}

/// `sa` holds each of `0..n` exactly once.
pub open spec fn is_permutation(sa: Seq<u64>, n: nat) -> bool {
    &&& sa.len() == n
    &&& forall|j: int| 0 <= j < n ==> (sa[j] as nat) < n
    &&& forall|j: int, k: int| 0 <= j < n && 0 <= k < n && j != k ==> sa[j] != sa[k]
}

/// `sa` lists the suffixes of `t` in increasing order.
pub open spec fn is_suffix_array(t: Seq<u64>, sa: Seq<u64>) -> bool {
    &&& is_permutation(sa, t.len())
    &&& forall|j: int, k: int| 0 <= j < k < t.len() ==> suffix_lt(t, sa[j] as int, sa[k] as int)
}

/// The symbol that precedes, cyclically, the suffix at `p`.
pub open spec fn preceding(t: Seq<u64>, p: int) -> u64 {
    if p == 0 {
        t.last()
    } else {
        t[p - 1]
    }
}

/// The Burrows-Wheeler column of `t` for the suffix order `sa`.
pub open spec fn bwt_spec(t: Seq<u64>, sa: Seq<u64>) -> Seq<u64> {
    Seq::new(sa.len(), |j: int| preceding(t, sa[j] as int))
}

pub proof fn lemma_count_below_step(t: Seq<u64>, c: int)
    requires
        0 <= c <= u64::MAX,
    ensures
        count_below(t, c + 1) == count_below(t, c) + t.to_multiset().count(c as u64),
    decreases t.len(),
{
    if t.len() > 0 {
        lemma_count_below_step(t.drop_last(), c);
        assert(t.drop_last().push(t.last()) == t);
        assert(t.to_multiset() == t.drop_last().to_multiset().insert(t.last()));
    } else {
        assert(t.to_multiset() =~= Multiset::empty());
    }
}

pub proof fn lemma_count_below_bounds(t: Seq<u64>, c: int, d: int)
    requires
        c <= d,
    ensures
        count_below(t, c) <= count_below(t, d) <= t.len(),
    decreases t.len(),
{
    if t.len() > 0 {
        lemma_count_below_bounds(t.drop_last(), c, d);
    }
}

pub proof fn lemma_count_below_all(t: Seq<u64>, s: int)
    requires
        forall|i: int| 0 <= i < t.len() ==> (t[i] as int) < s,
    ensures
        count_below(t, s) == t.len(),
    decreases t.len(),
{
    if t.len() > 0 {
        lemma_count_below_all(t.drop_last(), s);
    }
}

/// The text to index: `text` with the sentinel appended where it is missing.
pub fn prepare_text(text: Vec<u64>) -> (r: Vec<u64>)
    requires
        text@.len() < usize::MAX,
    ensures
        r@ == with_sentinel(text@),
{
    let mut text = text;
    let n = text.len();
    if n == 0 || text[n - 1] != 0 {
        text.push(0);
    }
    text
}

/// How many times each code `0..sigma` occurs in `t`.
pub fn count_chars(t: &Vec<u64>, sigma: u64) -> (r: Vec<u64>)
    requires
        forall|i: int| 0 <= i < t@.len() ==> t@[i] < sigma,
        t@.len() < u64::MAX,
        sigma < usize::MAX,
    ensures
        r@.len() == sigma,
        forall|c: int| 0 <= c < sigma ==> r@[c] == t@.to_multiset().count(c as u64),
{
    let mut counts: Vec<u64> = Vec::new();
    let mut c: u64 = 0;
    while c < sigma
        invariant
            c <= sigma,
            counts@.len() == c,
            forall|d: int| 0 <= d < c ==> counts@[d] == 0,
        decreases sigma - c,
    {
        counts.push(0);
        c = c + 1;
    }
    let n = t.len();
    let mut i: usize = 0;
    while i < n
        invariant
            n == t@.len(),
            i <= n,
            n < u64::MAX,
            counts@.len() == sigma,
            sigma < usize::MAX,
            forall|j: int| 0 <= j < n ==> t@[j] < sigma,
            forall|d: int| 0 <= d < sigma ==> counts@[d] <= i,
            forall|d: int|
                0 <= d < sigma ==> counts@[d] == t@.subrange(0, i as int).to_multiset().count(
                    d as u64,
                ),
        decreases n - i,
    {
        let x = t[i];
        assert(t@.subrange(0, i + 1) == t@.subrange(0, i as int).push(x));
        assert(t@.subrange(0, i + 1).to_multiset() == t@.subrange(0, i as int).to_multiset().insert(
            x,
        ));
        let ghost prev = counts@;
        let xi = x as usize;
        counts.set(xi, counts[xi] + 1);
        assert forall|d: int| 0 <= d < sigma implies counts@[d] == t@.subrange(
            0,
            i + 1,
        ).to_multiset().count(d as u64) by {
            if d != xi as int {
                assert(counts@[d] == prev[d]);
                assert(d as u64 != x);
            }
        }
        i = i + 1;
    }
    assert(t@.subrange(0, n as int) == t@);
    counts
}

/// The row where each code's block starts: `C[c]`, the number of positions
/// of `t` whose code is below `c`, for `c` in `0..=sigma`.
pub fn bucket_starts(t: &Vec<u64>, sigma: u64) -> (r: Vec<u64>)
    requires
        forall|i: int| 0 <= i < t@.len() ==> t@[i] < sigma,
        t@.len() < u64::MAX,
        sigma < usize::MAX - 1,
    ensures
        r@.len() == sigma + 1,
        forall|c: int| 0 <= c <= sigma ==> r@[c] == count_below(t@, c),
        r@[sigma as int] == t@.len(),
{
    let counts = count_chars(t, sigma);
    let mut cs: Vec<u64> = Vec::new();
    cs.push(0);
    let mut sum: u64 = 0;
    let mut c: u64 = 0;
    proof {
        lemma_count_zero(t@);
    }
    while c < sigma
        invariant
            c <= sigma,
            counts@.len() == sigma,
            forall|d: int| 0 <= d < sigma ==> counts@[d] == t@.to_multiset().count(d as u64),
            cs@.len() == c + 1,
            sum == cs@[c as int],
            forall|d: int| 0 <= d <= c ==> cs@[d] == count_below(t@, d),
            t@.len() < u64::MAX,
        decreases sigma - c,
    {
        proof {
            lemma_count_below_step(t@, c as int);
            lemma_count_below_bounds(t@, c + 1, c + 1);
        }
        sum = sum + counts[c as usize];
        cs.push(sum);
        c = c + 1;
    }
    proof {
        lemma_count_below_all(t@, sigma as int);
    }
    cs
}

pub proof fn lemma_count_zero(t: Seq<u64>)
    ensures
        count_below(t, 0) == 0,
    decreases t.len(),
{
    if t.len() > 0 {
        lemma_count_zero(t.drop_last());
    }
}


proof fn lemma_suffix_lt_trans(t: Seq<u64>, a: int, b: int, c: int)
    requires
        0 <= a,
        suffix_lt(t, a, b),
        suffix_lt(t, b, c),
    ensures
        suffix_lt(t, a, c),
    decreases t.len() - a,
{
    if a < t.len() && t[a] == t[b] && t[b] == t[c] {
        lemma_suffix_lt_trans(t, a + 1, b + 1, c + 1);
    }
}

proof fn lemma_suffix_lt_total(t: Seq<u64>, a: int, b: int)
    requires
        0 <= a <= t.len(),
        0 <= b <= t.len(),
        a != b,
    ensures
        suffix_lt(t, a, b) || suffix_lt(t, b, a),
    decreases t.len() - a,
{
    if a < t.len() && b < t.len() && t[a] == t[b] {
        lemma_suffix_lt_total(t, a + 1, b + 1);
    }
}

/// Whether the suffix of `t` at `a` sorts strictly before the one at `b`.
pub fn suffix_less(t: &Vec<u64>, a: usize, b: usize) -> (r: bool)
    requires
        a < t@.len(),
        b < t@.len(),
    ensures
        r == suffix_lt(t@, a as int, b as int),
{
    let n = t.len();
    let mut i = a;
    let mut j = b;
    while i < n && j < n && t[i] == t[j]
        invariant
            n == t@.len(),
            a <= i <= n,
            b <= j <= n,
            i - a == j - b,
            suffix_lt(t@, a as int, b as int) == suffix_lt(t@, i as int, j as int),
        decreases n - i,
    {
        i = i + 1;
        j = j + 1;
    }
    if j >= n {
        false
    } else if i >= n {
        true
    } else {
        t[i] < t[j]
    }
}

pub proof fn lemma_suffix_lt_irrefl(t: Seq<u64>, a: int)
    requires
        0 <= a,
    ensures
        !suffix_lt(t, a, a),
    decreases t.len() - a,
{
    if a < t.len() {
        lemma_suffix_lt_irrefl(t, a + 1);
    }
}

/// The positions `s` are listed by strictly increasing suffixes of `t`.
pub open spec fn sorted_suffixes(t: Seq<u64>, s: Seq<u64>) -> bool {
    forall|x: int, y: int| 0 <= x < y < s.len() ==> suffix_lt(t, s[x] as int, s[y] as int)
}

/// All of `s` are positions of `t`.
pub open spec fn positions_of(t: Seq<u64>, s: Seq<u64>) -> bool {
    forall|k: int| 0 <= k < s.len() ==> (s[k] as int) < t.len()
}

/// Merge two lists of distinct positions, each sorted by suffix.
fn merge(t: &Vec<u64>, a: Vec<u64>, b: Vec<u64>) -> (r: Vec<u64>)
    requires
        positions_of(t@, a@),
        positions_of(t@, b@),
        sorted_suffixes(t@, a@),
        sorted_suffixes(t@, b@),
        forall|x: int, y: int| 0 <= x < a@.len() && 0 <= y < b@.len() ==> a@[x] != b@[y],
        a@.len() + b@.len() < usize::MAX,
    ensures
        positions_of(t@, r@),
        sorted_suffixes(t@, r@),
        r@.to_multiset() == a@.to_multiset().add(b@.to_multiset()),
        r@.len() == a@.len() + b@.len(),
{
    let la = a.len();
    let lb = b.len();
    let tn = t.len();
    let mut r: Vec<u64> = Vec::new();
    let mut i: usize = 0;
    let mut j: usize = 0;
    while i < la || j < lb
        invariant
            la == a@.len(),
            lb == b@.len(),
            tn == t@.len(),
            la + lb < usize::MAX,
            i <= la,
            j <= lb,
            r@.len() == i + j,
            positions_of(t@, a@),
            positions_of(t@, b@),
            sorted_suffixes(t@, a@),
            sorted_suffixes(t@, b@),
            forall|x: int, y: int| 0 <= x < a@.len() && 0 <= y < b@.len() ==> a@[x] != b@[y],
            positions_of(t@, r@),
            sorted_suffixes(t@, r@),
            r@.to_multiset() == a@.subrange(0, i as int).to_multiset().add(
                b@.subrange(0, j as int).to_multiset(),
            ),
            r@.len() > 0 ==> forall|k: int|
                i <= k < la ==> suffix_lt(t@, r@.last() as int, a@[k] as int),
            r@.len() > 0 ==> forall|k: int|
                j <= k < lb ==> suffix_lt(t@, r@.last() as int, b@[k] as int),
        decreases la + lb - i - j,
    {
        let take_a = if i == la {
            false
        } else if j == lb {
            true
        } else {
            suffix_less(t, a[i] as usize, b[j] as usize)
        };
        let ghost prev = r@;
        let e = if take_a {
            a[i]
        } else {
            b[j]
        };
        proof {
            if !take_a && i < la {
                lemma_suffix_lt_total(t@, a@[i as int] as int, b@[j as int] as int);
            }
            assert forall|x: int| 0 <= x < prev.len() implies suffix_lt(
                t@,
                prev[x] as int,
                e as int,
            ) by {
                if x < prev.len() - 1 {
                    lemma_suffix_lt_trans(t@, prev[x] as int, prev.last() as int, e as int);
                }
            }
            if take_a {
                assert forall|k: int| j <= k < lb implies suffix_lt(t@, e as int, b@[k] as int) by {
                    if k > j {
                        lemma_suffix_lt_trans(t@, e as int, b@[j as int] as int, b@[k] as int);
                    }
                }
                assert(a@.subrange(0, i + 1) == a@.subrange(0, i as int).push(e));
            } else {
                assert forall|k: int| i <= k < la implies suffix_lt(t@, e as int, a@[k] as int) by {
                    if k > i {
                        lemma_suffix_lt_trans(t@, e as int, a@[i as int] as int, a@[k] as int);
                    }
                }
                assert(b@.subrange(0, j + 1) == b@.subrange(0, j as int).push(e));
            }
        }
        r.push(e);
        proof {
            let ma = a@.subrange(0, i as int).to_multiset();
            let mb = b@.subrange(0, j as int).to_multiset();
            assert(r@ == prev.push(e));
            assert(r@.to_multiset() == prev.to_multiset().insert(e));
            assert(ma.insert(e).add(mb) =~= ma.add(mb).insert(e));
            assert(ma.add(mb.insert(e)) =~= ma.add(mb).insert(e));
        }
        if take_a {
            i = i + 1;
        } else {
            j = j + 1;
        }
    }
    assert(a@.subrange(0, la as int) == a@);
    assert(b@.subrange(0, lb as int) == b@);
    r
}

/// Sort distinct positions of `t` by their suffixes.
fn sort_positions(t: &Vec<u64>, items: Vec<u64>) -> (r: Vec<u64>)
    requires
        positions_of(t@, items@),
        forall|x: int, y: int|
            0 <= x < items@.len() && 0 <= y < items@.len() && x != y ==> items@[x] != items@[y],
        items@.len() < usize::MAX,
    ensures
        positions_of(t@, r@),
        sorted_suffixes(t@, r@),
        r@.to_multiset() == items@.to_multiset(),
        r@.len() == items@.len(),
    decreases items@.len(),
{
    let n = items.len();
    if n <= 1 {
        return items;
    }
    let mid = n / 2;
    let mut left: Vec<u64> = Vec::new();
    let mut right: Vec<u64> = Vec::new();
    let mut k: usize = 0;
    while k < n
        invariant
            n == items@.len(),
            mid <= n,
            k <= n,
            k <= mid ==> left@ == items@.subrange(0, k as int) && right@.len() == 0,
            k > mid ==> left@ == items@.subrange(0, mid as int) && right@ == items@.subrange(
                mid as int,
                k as int,
            ),
        decreases n - k,
    {
        if k < mid {
            left.push(items[k]);
        } else {
            right.push(items[k]);
        }
        k = k + 1;
    }
    assert(left@ == items@.subrange(0, mid as int));
    assert(right@ == items@.subrange(mid as int, n as int));
    assert(items@ == left@ + right@);
    proof {
        lemma_multiset_commutative(left@, right@);
    }
    let sl = sort_positions(t, left);
    let sr = sort_positions(t, right);
    proof {
        assert forall|x: int, y: int| 0 <= x < sl@.len() && 0 <= y < sr@.len() implies sl@[x]
            != sr@[y] by {
            assert(sl@.to_multiset().count(sl@[x]) > 0);
            assert(sr@.to_multiset().count(sr@[y]) > 0);
            assert(left@.contains(sl@[x]));
            assert(right@.contains(sr@[y]));
            let i1 = choose|i1: int| 0 <= i1 < left@.len() && left@[i1] == sl@[x];
            let i2 = choose|i2: int| 0 <= i2 < right@.len() && right@[i2] == sr@[y];
            assert(items@[i1] == left@[i1]);
            assert(items@[mid + i2] == right@[i2]);
        }
    }
    merge(t, sl, sr)
}

/// The suffix array of `t`: its positions ordered by the suffixes there.
pub fn suffix_array(t: &Vec<u64>) -> (sa: Vec<u64>)
    requires
        t@.len() >= 1,
        t@.len() < u64::MAX,
        t@.len() < usize::MAX,
    ensures
        is_suffix_array(t@, sa@),
{
    let n = t.len();
    let mut items: Vec<u64> = Vec::new();
    let mut k: usize = 0;
    while k < n
        invariant
            k <= n,
            n == t@.len(),
            n < u64::MAX,
            items@.len() == k,
            forall|x: int| 0 <= x < k ==> items@[x] == x,
        decreases n - k,
    {
        items.push(k as u64);
        k = k + 1;
    }
    let sa = sort_positions(t, items);
    proof {
        assert forall|x: int, y: int| 0 <= x < n && 0 <= y < n && x != y implies sa@[x]
            != sa@[y] by {
            if sa@[x] == sa@[y] {
                lemma_suffix_lt_irrefl(t@, sa@[x] as int);
            }
        }
    }
    sa
}

} // verus!
