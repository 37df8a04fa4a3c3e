use vstd::prelude::*;
use vstd::relations::injective_on;
use vstd::set_lib::{lemma_int_range, lemma_map_size, lemma_map_size_bound, lemma_subset_equality, set_int_range};

verus! {

/// `p` is a permutation of `0 .. p.len()`: its values are in range and distinct.
pub open spec fn is_perm(p: Seq<int>) -> bool {
    &&& forall|i: int| 0 <= i < p.len() ==> 0 <= #[trigger] p[i] < p.len()
    &&& forall|i: int, j: int| 0 <= i < p.len() && 0 <= j < p.len() && i != j ==> p[i] != p[j]
}

/// Every value of `0 .. p.len()` occurs in `p`.
pub open spec fn covers_range(p: Seq<int>) -> bool {
    forall|v: int| 0 <= v < p.len() ==> #[trigger] p.contains(v)
}

/// A permutation takes every value of its range.
pub proof fn lemma_perm_covers(p: Seq<int>)
    requires
        is_perm(p),
    ensures
        covers_range(p),
{
    let n = p.len() as int;
    let dom = set_int_range(0, n);
    let g = |i: int| p[i];
    lemma_int_range(0, n);
    let img = dom.map(g);
    assert(injective_on(g, dom));
    lemma_map_size(dom, img, g);
    assert(img.subset_of(dom)) by {
        assert forall|v: int| img.contains(v) implies dom.contains(v) by {
            let i = choose|i: int| dom.contains(i) && g(i) == v;
        }
    }
    lemma_subset_equality(img, dom);
    assert forall|v: int| 0 <= v < p.len() implies #[trigger] p.contains(v) by {
        assert(dom.contains(v));
        assert(img.contains(v));
        let i = choose|i: int| dom.contains(i) && g(i) == v;
        assert(p[i] == v);
    }
}

/// A sequence with a repeated value misses some value of its range.
proof fn lemma_repeat_misses(p: Seq<int>, a: int, b: int)
    requires
        forall|i: int| 0 <= i < p.len() ==> 0 <= #[trigger] p[i] < p.len(),
        0 <= a < p.len(),
        0 <= b < p.len(),
        a != b,
        p[a] == p[b],
    ensures
        !covers_range(p),
{
    let n = p.len() as int;
    let dom = set_int_range(0, n);
    let smaller = dom.remove(b);
    let g = |i: int| p[i];
    lemma_int_range(0, n);
    let img = smaller.map(g);
    lemma_map_size_bound(smaller, img, g);
    if covers_range(p) {
        assert(img =~= dom) by {
            assert forall|v: int| dom.contains(v) implies img.contains(v) by {
                assert(p.contains(v));
                let i = choose|i: int| 0 <= i < p.len() && #[trigger] p[i] == v;
                if i == b {
                    assert(smaller.contains(a) && g(a) == v);
                } else {
                    assert(smaller.contains(i) && g(i) == v);
                }
            }
            assert forall|v: int| img.contains(v) implies dom.contains(v) by {
                let i = choose|i: int| smaller.contains(i) && g(i) == v;
            }
        }
    }
}

/// A sequence whose values are in range and that takes every value of its
/// range is a permutation.
pub proof fn lemma_covers_perm(p: Seq<int>)
    requires
        forall|i: int| 0 <= i < p.len() ==> 0 <= #[trigger] p[i] < p.len(),
        covers_range(p),
    ensures
        is_perm(p),
{
    assert forall|a: int, b: int| 0 <= a < p.len() && 0 <= b < p.len() && a != b implies p[a] != p[b] by {
        if p[a] == p[b] {
            lemma_repeat_misses(p, a, b);
        }
    }
}


/// The number of elements of `s` that are greater than `x`.
pub open spec fn count_greater(s: Seq<int>, x: int) -> nat
    decreases s.len(),
{
    if s.len() == 0 {
        0
    } else {
        count_greater(s.drop_last(), x) + if s.last() > x {
            1nat
        } else {
            0nat
        }
    }
}

/// The number of inversions of `s`: pairs of positions `i < j` with
/// `s[i] > s[j]`.
pub open spec fn inversions(s: Seq<int>) -> nat
    decreases s.len(),
{
    if s.len() == 0 {
        0
    } else {
        inversions(s.drop_last()) + count_greater(s.drop_last(), s.last())
    }
}

/// Whether the permutation `s` is even: it has an even number of inversions.
pub open spec fn is_even_perm(s: Seq<int>) -> bool {
    inversions(s) % 2 == 0
}

/// `s` with the elements at positions `i` and `j` exchanged.
pub open spec fn swap_seq(s: Seq<int>, i: int, j: int) -> Seq<int> {
    s.update(i, s[j]).update(j, s[i])
}

/// All elements of `s` are distinct.
pub open spec fn distinct(s: Seq<int>) -> bool {
    forall|i: int, j: int| 0 <= i < s.len() && 0 <= j < s.len() && i != j ==> s[i] != s[j]
}

/// Exchanging two neighbours keeps the number of elements greater than `x`.
proof fn lemma_count_greater_adj_swap(t: Seq<int>, k: int, x: int)
    requires
        0 <= k,
        k + 1 < t.len(),
    ensures
        count_greater(swap_seq(t, k, k + 1), x) == count_greater(t, x),
    decreases t.len(),
{
    let u = swap_seq(t, k, k + 1);
    if k + 1 < t.len() - 1 {
        assert(u.drop_last() =~= swap_seq(t.drop_last(), k, k + 1));
        lemma_count_greater_adj_swap(t.drop_last(), k, x);
    } else {
        let r = t.drop_last().drop_last();
        assert(u.drop_last().drop_last() =~= r);
        assert(count_greater(u.drop_last(), x) == count_greater(r, x) + if u[k] > x { 1nat } else { 0nat });
        assert(count_greater(t.drop_last(), x) == count_greater(r, x) + if t[k] > x { 1nat } else { 0nat });
    }
}

/// Exchanging two distinct neighbours changes the parity of the number of
/// inversions.
pub proof fn lemma_inversions_adj_swap(s: Seq<int>, k: int)
    requires
        0 <= k,
        k + 1 < s.len(),
        s[k] != s[k + 1],
    ensures
        (inversions(swap_seq(s, k, k + 1)) + inversions(s)) % 2 == 1,
    decreases s.len(),
{
    let q = swap_seq(s, k, k + 1);
    if k + 1 < s.len() - 1 {
        assert(q.drop_last() =~= swap_seq(s.drop_last(), k, k + 1));
        assert(q.last() == s.last());
        lemma_inversions_adj_swap(s.drop_last(), k);
        lemma_count_greater_adj_swap(s.drop_last(), k, s.last());
    } else {
        let r = s.drop_last().drop_last();
        let u = s[k];
        let v = s[k + 1];
        assert(q.drop_last().drop_last() =~= r);
        assert(s.drop_last().last() == u);
        assert(q.drop_last().last() == v);
        assert(q.last() == u);
        assert(count_greater(s.drop_last(), v) == count_greater(r, v) + if u > v { 1nat } else { 0nat });
        assert(count_greater(q.drop_last(), u) == count_greater(r, u) + if v > u { 1nat } else { 0nat });
        assert(inversions(s.drop_last()) == inversions(r) + count_greater(r, u));
        assert(inversions(q.drop_last()) == inversions(r) + count_greater(r, v));
    }
}

/// Exchanging two elements of a sequence of distinct elements changes the
/// parity of its number of inversions.
pub proof fn lemma_inversions_swap(s: Seq<int>, a: int, b: int)
    requires
        0 <= a < b < s.len(),
        distinct(s),
    ensures
        (inversions(swap_seq(s, a, b)) + inversions(s)) % 2 == 1,
    decreases b - a,
{
    if b == a + 1 {
        lemma_inversions_adj_swap(s, a);
    } else {
        let s1 = swap_seq(s, b - 1, b);
        let s2 = swap_seq(s1, a, b - 1);
        let s3 = swap_seq(s2, b - 1, b);
        assert(s3 =~= swap_seq(s, a, b));
        lemma_inversions_adj_swap(s, b - 1);
        assert(distinct(s1)) by {
            assert forall|i: int, j: int| 0 <= i < s1.len() && 0 <= j < s1.len() && i != j implies s1[i] != s1[j] by {
                let pi = if i == b - 1 { b } else if i == b { b - 1 } else { i };
                let pj = if j == b - 1 { b } else if j == b { b - 1 } else { j };
                assert(s1[i] == s[pi] && s1[j] == s[pj]);
            }
        }
        lemma_inversions_swap(s1, a, b - 1);
        assert(s2[b - 1] == s1[a] && s2[b] == s1[b]);
        assert(s1[a] == s[a] && s1[b] == s[b - 1]);
        lemma_inversions_adj_swap(s2, b - 1);
    }
}


/// The number of positions `k` of `s` that do not hold `k`.
pub open spec fn misplaced(s: Seq<int>) -> nat
    decreases s.len(),
{
    if s.len() == 0 {
        0
    } else {
        misplaced(s.drop_last()) + if s.last() != s.len() - 1 {
            1nat
        } else {
            0nat
        }
    }
}

/// Putting the value `j` held at position `i` into its own place lowers the
/// number of misplaced positions.
pub proof fn lemma_misplaced_swap(s: Seq<int>, i: int, j: int)
    requires
        0 <= i < s.len(),
        0 <= j < s.len(),
        s[i] == j,
        j != i,
        s[j] != j,
    ensures
        misplaced(swap_seq(s, i, j)) < misplaced(s),
{
    lemma_misplaced_update(s, swap_seq(s, i, j), s.len() as int, j);
}

/// When every position that is misplaced in `t` is misplaced in `s`, and
/// position `j` is misplaced in `s` only, `t` has fewer misplaced positions.
proof fn lemma_misplaced_update(s: Seq<int>, t: Seq<int>, n: int, j: int)
    requires
        s.len() == t.len(),
        0 <= n <= s.len(),
        forall|k: int| 0 <= k < s.len() && t[k] != k ==> s[k] != k,
        0 <= j < s.len(),
        s[j] != j,
        t[j] == j,
    ensures
        misplaced(t.subrange(0, n)) <= misplaced(s.subrange(0, n)),
        n > j ==> misplaced(t.subrange(0, n)) < misplaced(s.subrange(0, n)),
        n == s.len() ==> misplaced(t) < misplaced(s),
    decreases n,
{
    if n > 0 {
        lemma_misplaced_update(s, t, n - 1, j);
        assert(s.subrange(0, n).drop_last() =~= s.subrange(0, n - 1));
        assert(t.subrange(0, n).drop_last() =~= t.subrange(0, n - 1));
    }
    if n == s.len() {
        assert(s.subrange(0, n) =~= s);
        assert(t.subrange(0, n) =~= t);
    }
}


/// The values of a sequence of bytes, as integers.
pub open spec fn bytes_as_ints(a: Seq<u8>) -> Seq<int> {
    a.map(|_i: int, x: u8| x as int)
}

/// Exchanging two elements keeps a permutation one.
pub proof fn lemma_swap_perm(s: Seq<int>, i: int, j: int)
    requires
        is_perm(s),
        0 <= i < s.len(),
        0 <= j < s.len(),
    ensures
        is_perm(swap_seq(s, i, j)),
        distinct(s),
{
    let t = swap_seq(s, i, j);
    assert forall|a: int, b: int| 0 <= a < t.len() && 0 <= b < t.len() && a != b implies t[a] != t[b] by {
        let pa = if a == j { i } else if a == i { j } else { a };
        let pb = if b == j { i } else if b == i { j } else { b };
        assert(t[a] == s[pa] && t[b] == s[pb]);
    }
}


/// The identity permutation has no inversion.
pub proof fn lemma_sorted_inversions(s: Seq<int>)
    requires
        forall|t: int| 0 <= t < s.len() ==> s[t] == t,
    ensures
        inversions(s) == 0,
    decreases s.len(),
{
    if s.len() > 0 {
        lemma_sorted_inversions(s.drop_last());
        lemma_count_greater_below(s.drop_last(), s.last());
    }
}

/// No element of `0 .. x` is greater than `x`.
proof fn lemma_count_greater_below(s: Seq<int>, x: int)
    requires
        forall|t: int| 0 <= t < s.len() ==> s[t] == t,
        s.len() <= x,
    ensures
        count_greater(s, x) == 0,
    decreases s.len(),
{
    if s.len() > 0 {
        lemma_count_greater_below(s.drop_last(), x);
    }
}

/// The number of elements of `s` that are less than `x`.
pub open spec fn count_less(s: Seq<int>, x: int) -> nat
    decreases s.len(),
{
    if s.len() == 0 {
        0
    } else {
        count_less(s.drop_last(), x) + if s.last() < x {
            1nat
        } else {
            0nat
        }
    }
}

/// The number of inversions counted from the front: for each element, the
/// later elements that are less than it.
pub open spec fn inversions_front(s: Seq<int>) -> nat
    decreases s.len(),
{
    if s.len() == 0 {
        0
    } else {
        count_less(s.drop_first(), s[0]) + inversions_front(s.drop_first())
    }
}

/// Dropping the first element of a sequence removes it from the counts.
proof fn lemma_counts_drop_first(s: Seq<int>, x: int)
    requires
        s.len() > 0,
    ensures
        count_less(s, x) == count_less(s.drop_first(), x) + if s[0] < x { 1nat } else { 0nat },
        count_greater(s, x) == count_greater(s.drop_first(), x) + if s[0] > x { 1nat } else { 0nat },
    decreases s.len(),
{
    let dl = s.drop_last();
    let df = s.drop_first();
    if s.len() > 1 {
        lemma_counts_drop_first(dl, x);
        assert(dl.drop_first() =~= df.drop_last());
        assert(dl[0] == s[0]);
        assert(df.last() == s.last());
        assert(count_less(df, x) == count_less(df.drop_last(), x) + if df.last() < x { 1nat } else { 0nat });
        assert(count_greater(df, x) == count_greater(df.drop_last(), x) + if df.last() > x { 1nat } else { 0nat });
    } else {
        assert(df.len() == 0);
        assert(dl.len() == 0);
        assert(s.last() == s[0]);
        assert(count_less(dl, x) == 0);
        assert(count_less(df, x) == 0);
        assert(count_less(s, x) == count_less(dl, x) + if s.last() < x { 1nat } else { 0nat });
        assert(count_greater(dl, x) == 0);
        assert(count_greater(df, x) == 0);
        assert(count_greater(s, x) == count_greater(dl, x) + if s.last() > x { 1nat } else { 0nat });
    }
}

/// Counting inversions from the front or from the back gives the same number.
pub proof fn lemma_inversions_front(s: Seq<int>)
    ensures
        inversions(s) == inversions_front(s),
    decreases s.len(),
{
    if s.len() > 1 {
        let dl = s.drop_last();
        let df = s.drop_first();
        let m = df.drop_last();
        let s0 = s[0];
        let l = s.last();
        lemma_inversions_front(dl);
        lemma_inversions_front(df);
        lemma_inversions_front(m);
        assert(dl.drop_first() =~= m);
        assert(dl[0] == s0);
        assert(df.last() == l);
        lemma_counts_drop_first(dl, l);
        assert(inversions(s) == inversions(dl) + count_greater(dl, l));
        assert(inversions_front(dl) == count_less(m, s0) + inversions_front(m));
        assert(inversions_front(s) == count_less(df, s0) + inversions_front(df));
        assert(inversions(df) == inversions(m) + count_greater(m, l));
        assert(count_less(df, s0) == count_less(m, s0) + if l < s0 { 1nat } else { 0nat });
    } else if s.len() == 1 {
        let dl = s.drop_last();
        let df = s.drop_first();
        assert(dl.len() == 0);
        assert(df.len() == 0);
        assert(inversions(dl) == 0);
        assert(count_greater(dl, s.last()) == 0);
        assert(inversions_front(df) == 0);
        assert(count_less(df, s[0]) == 0);
    }
}

/// Counting the elements greater than `x` in two parts.
proof fn lemma_count_greater_concat(a: Seq<int>, b: Seq<int>, x: int)
    ensures
        count_greater(a + b, x) == count_greater(a, x) + count_greater(b, x),
    decreases b.len(),
{
    if b.len() == 0 {
        assert(a + b =~= a);
    } else {
        lemma_count_greater_concat(a, b.drop_last(), x);
        assert((a + b).drop_last() =~= a + b.drop_last());
        assert((a + b).last() == b.last());
    }
}

/// No element is greater than an `x` above all of them.
proof fn lemma_count_greater_none(a: Seq<int>, x: int)
    requires
        forall|i: int| 0 <= i < a.len() ==> a[i] < x,
    ensures
        count_greater(a, x) == 0,
    decreases a.len(),
{
    if a.len() > 0 {
        lemma_count_greater_none(a.drop_last(), x);
    }
}

/// When every element of `a` is below every element of `b`, the inversions
/// of `a + b` are those of `a` and those of `b`.
pub proof fn lemma_inversions_concat(a: Seq<int>, b: Seq<int>)
    requires
        forall|i: int, j: int| 0 <= i < a.len() && 0 <= j < b.len() ==> a[i] < b[j],
    ensures
        inversions(a + b) == inversions(a) + inversions(b),
    decreases b.len(),
{
    if b.len() == 0 {
        assert(a + b =~= a);
    } else {
        let bl = b.drop_last();
        let x = b.last();
        lemma_inversions_concat(a, bl);
        assert((a + b).drop_last() =~= a + bl);
        assert((a + b).last() == x);
        lemma_count_greater_concat(a, bl, x);
        assert forall|i: int| 0 <= i < a.len() implies a[i] < x by {
            assert(x == b[b.len() - 1]);
        }
        lemma_count_greater_none(a, x);
    }
}

/// `p` with `k` added to each element.
pub open spec fn shift_seq(p: Seq<int>, k: int) -> Seq<int> {
    Seq::new(p.len(), |i: int| p[i] + k)
}

/// Adding `k` to every element keeps the counts of greater elements.
proof fn lemma_count_greater_shift(p: Seq<int>, x: int, k: int)
    ensures
        count_greater(shift_seq(p, k), x + k) == count_greater(p, x),
    decreases p.len(),
{
    if p.len() > 0 {
        lemma_count_greater_shift(p.drop_last(), x, k);
        assert(shift_seq(p, k).drop_last() =~= shift_seq(p.drop_last(), k));
    }
}

/// Adding `k` to every element keeps the inversions.
pub proof fn lemma_inversions_shift(p: Seq<int>, k: int)
    ensures
        inversions(shift_seq(p, k)) == inversions(p),
    decreases p.len(),
{
    if p.len() > 0 {
        lemma_inversions_shift(p.drop_last(), k);
        assert(shift_seq(p, k).drop_last() =~= shift_seq(p.drop_last(), k));
        lemma_count_greater_shift(p.drop_last(), p.last(), k);
    }
}

/// Whether the permutation `perm` is even, found by sorting it in place
/// with exchanges, each of which flips the parity.
pub fn is_even_array<const N: usize>(perm: [u8; N]) -> (r: bool)
    requires
        N < 256,
        is_perm(bytes_as_ints(perm@)),
    ensures
        r == is_even_perm(bytes_as_ints(perm@)),
{
    let ghost orig = bytes_as_ints(perm@);
    let mut cur = perm;
    let mut even = true;
    let mut i: usize = 0;
    while i < N
        invariant
            i <= N,
            N < 256,
            cur@.len() == N,
            is_perm(bytes_as_ints(cur@)),
            forall|t: int| 0 <= t < i ==> cur@[t] == t,
            (even != !is_even_perm(bytes_as_ints(cur@))) == (true != !is_even_perm(orig)),
        decreases N - i,
    {
        while cur[i] != i as u8
            invariant
                i < N,
                N < 256,
                cur@.len() == N,
                is_perm(bytes_as_ints(cur@)),
                forall|t: int| 0 <= t < i ==> cur@[t] == t,
                (even != !is_even_perm(bytes_as_ints(cur@))) == (true != !is_even_perm(orig)),
            decreases misplaced(bytes_as_ints(cur@)),
        {
            let ghost now = bytes_as_ints(cur@);
            let j = cur[i];
            proof {
                assert(now[i as int] == j as int);
                assert(j as int != i as int);
                if (j as int) < i as int {
                    assert(now[j as int] == j as int);
                }
                assert(now[j as int] != j as int);
                lemma_swap_perm(now, i as int, j as int);
                lemma_inversions_swap(now, i as int, j as int);
                lemma_misplaced_swap(now, i as int, j as int);
            }
            let pj = cur[j as usize];
            cur[i] = pj;
            cur[j as usize] = j;
            even = !even;
            proof {
                assert(bytes_as_ints(cur@) =~= swap_seq(now, i as int, j as int));
            }
        }
        i += 1;
    }
    proof {
        let fin = bytes_as_ints(cur@);
        assert(inversions(fin) == 0) by {
            lemma_sorted_inversions(fin);
        }
    }
    even
}

} // verus!
