use vstd::prelude::*;
use vstd::arithmetic::div_mod::{lemma_div_denominator, lemma_fundamental_div_mod};
use crate::cube_core::bits::{bits_at, pack5};
use crate::cube_core::state::{lemma_id_piece, sum_co, sum_eo, State};
use crate::cube_core::bits::{field5, lemma_small_fields};
use crate::permutation::{
    count_less, distinct, inversions, inversions_front, is_even_perm, is_perm, lemma_inversions_concat,
    lemma_inversions_front, lemma_inversions_shift, lemma_inversions_swap, lemma_perm_covers, lemma_sorted_inversions,
    shift_seq, swap_seq,
};

verus! {

/// `n!`
pub open spec fn fact(n: nat) -> nat
    decreases n,
{
    if n == 0 {
        1
    } else {
        n * fact((n - 1) as nat)
    }
}

/// Digit `k` of the code `c` of a permutation of `n` values, in the
/// factorial number system: digit `k` has radix `n - k`, and the last digit
/// is always 0.
pub open spec fn code_digit(c: nat, n: nat, k: nat) -> nat {
    if k + 1 < n {
        (c / fact((n - 1 - k) as nat)) % ((n - k) as nat)
    } else {
        0
    }
}

/// The values still to be placed after the first `i` digits of the code `c`,
/// in increasing order: digit `i` picks one of them by its rank.
pub open spec fn remaining(c: nat, n: nat, i: nat) -> Seq<int>
    decreases i,
{
    if i == 0 {
        Seq::new(n, |v: int| v)
    } else {
        remaining(c, n, (i - 1) as nat).remove(code_digit(c, n, (i - 1) as nat) as int)
    }
}

/// The permutation of `0 .. n` whose code is `c`.
pub open spec fn code_perm(c: nat, n: nat) -> Seq<int> {
    Seq::new(n, |i: int| remaining(c, n, i as nat)[code_digit(c, n, i as nat) as int])
}

/// The sum, over the first `i` digits, of the number of values placed after
/// the value of each digit that are greater than it.
pub open spec fn code_parity(c: nat, n: nat, i: nat) -> int
    decreases i,
{
    if i == 0 {
        0
    } else {
        code_parity(c, n, (i - 1) as nat) + (n - 1 - (i - 1) - code_digit(c, n, (i - 1) as nat))
    }
}

/// The word that holds the permutation of code `c` in its first `n` 5-bit
/// fields, and its last value in field 7 too.
pub open spec fn code_word(c: nat, n: nat) -> u64 {
    pack5(|j: u64| code_perm(c, n)[j as int] as u64, n) | ((code_perm(c, n)[n - 1] as u64) << 35u64)
}

/// The entries of a permutation held in the low `k` bits of each 5-bit field
/// of `perm`, for its first `n` fields.
pub open spec fn perm_entries(perm: u64, k: u8, n: nat) -> Seq<int> {
    Seq::new(n, |i: int| bits_at(perm, (5 * i) as u64, k as u64) as int)
}

/// The number of values below `m` among the first `i` entries of `s`.
pub open spec fn seen_below(s: Seq<int>, i: int, m: int) -> int
    decreases m,
{
    if m <= 0 {
        0
    } else {
        seen_below(s, i, m - 1) + if s.take(i).contains(m - 1) {
            1int
        } else {
            0int
        }
    }
}

/// The code of the first `i` entries of `s`, as a permutation of `n`
/// values: each entry counts for its rank among the values not seen before.
pub open spec fn lehmer(s: Seq<int>, n: nat, i: nat) -> int
    decreases i,
{
    if i == 0 {
        0
    } else {
        lehmer(s, n, (i - 1) as nat) * (n - (i - 1)) + (s[i - 1] - seen_below(s, i - 1, s[i - 1]))
    }
}

/// A bound on `lehmer` for entries below 8.
pub open spec fn lehmer_bound(n: nat, i: nat) -> int
    decreases i,
{
    if i == 0 {
        0
    } else {
        lehmer_bound(n, (i - 1) as nat) * (n - (i - 1)) + 7
    }
}

/// The number of seen values below `m` is at most `m`.
proof fn lemma_seen_below_le(s: Seq<int>, i: int, m: int)
    ensures
        0 <= seen_below(s, i, m) <= if m < 0 { 0 } else { m },
    decreases m,
{
    if m > 0 {
        lemma_seen_below_le(s, i, m - 1);
    }
}

/// `lehmer` stays within `lehmer_bound` for entries below 8.
proof fn lemma_lehmer_bound(s: Seq<int>, n: nat, i: nat)
    requires
        i < n,
        forall|j: int| 0 <= j < i ==> 0 <= #[trigger] s[j] < 8,
    ensures
        0 <= lehmer(s, n, i) <= lehmer_bound(n, i),
    decreases i,
{
    if i > 0 {
        let j = (i - 1) as nat;
        lemma_lehmer_bound(s, n, j);
        lemma_seen_below_le(s, j as int, s[j as int]);
        let a = lehmer(s, n, j);
        let b = lehmer_bound(n, j);
        let r = n - j;
        assert(0 <= a * r <= b * r) by (nonlinear_arith)
            requires
                0 <= a <= b,
                r > 0,
        ;
    }
}

/// The values of `lehmer_bound` for four and eight entries.
proof fn lemma_bound_values()
    ensures
        lehmer_bound(8, 0) == 0,
        lehmer_bound(8, 1) == 7,
        lehmer_bound(8, 2) == 56,
        lehmer_bound(8, 3) == 343,
        lehmer_bound(8, 4) == 1722,
        lehmer_bound(8, 5) == 6895,
        lehmer_bound(8, 6) == 20692,
        lehmer_bound(8, 7) == 41391,
        lehmer_bound(4, 0) == 0,
        lehmer_bound(4, 1) == 7,
        lehmer_bound(4, 2) == 28,
        lehmer_bound(4, 3) == 63,
{
    assert(lehmer_bound(8, 0) == 0);
    assert(lehmer_bound(8, 1) == 7);
    assert(lehmer_bound(8, 2) == 56);
    assert(lehmer_bound(8, 3) == 343);
    assert(lehmer_bound(8, 4) == 1722);
    assert(lehmer_bound(8, 5) == 6895);
    assert(lehmer_bound(8, 6) == 20692);
    assert(lehmer_bound(8, 7) == 41391);
    assert(lehmer_bound(4, 0) == 0);
    assert(lehmer_bound(4, 1) == 7);
    assert(lehmer_bound(4, 2) == 28);
    assert(lehmer_bound(4, 3) == 63);
}

/// The bound of `lehmer` for eight entries at most.
proof fn lemma_lehmer_bound_values(n: nat, i: nat)
    requires
        1 <= n <= 8,
        i < n,
    ensures
        lehmer_bound(n, i) <= lehmer_bound(8, i),
        lehmer_bound(8, i) <= 41391,
        n == 4 ==> lehmer_bound(n, i) <= 63,
    decreases i,
{
    lemma_bound_values();
    if i > 0 {
        let j = (i - 1) as nat;
        lemma_lehmer_bound_values(n, j);
        let a = lehmer_bound(n, j);
        let b = lehmer_bound(8, j);
        lemma_lehmer_bound_nonneg(n, j);
        assert(a * (n - j) <= b * (8 - j)) by (nonlinear_arith)
            requires
                0 <= a <= b,
                0 < n - j <= 8 - j,
        ;
    }
}

/// `lehmer_bound` is not negative.
proof fn lemma_lehmer_bound_nonneg(n: nat, i: nat)
    requires
        i < n,
    ensures
        lehmer_bound(n, i) >= 0,
    decreases i,
{
    if i > 0 {
        lemma_lehmer_bound_nonneg(n, (i - 1) as nat);
        let a = lehmer_bound(n, (i - 1) as nat);
        assert(a * (n - (i - 1)) >= 0) by (nonlinear_arith)
            requires
                a >= 0,
                n - (i - 1) > 0,
        ;
    }
}

/// The code of a permutation held in the first `N` 5-bit fields of `perm`,
/// each in its low `k` bits: each entry counts for its rank among the values
/// that no earlier entry holds, in the factorial number system.
pub fn perm_to_coord<const N: usize>(perm: u64, k: u8) -> (r: u16)
    requires
        1 <= N <= 8,
        k <= 5,
        forall|i: int| 0 <= i < N - 1 ==> #[trigger] perm_entries(perm, k, N as nat)[i] < 8,
    ensures
        r == lehmer(perm_entries(perm, k, N as nat), N as nat, (N - 1) as nat),
{
    let ghost s = perm_entries(perm, k, N as nat);
    let mut coord: u16 = 0;
    let mut seen: [bool; 8] = [false; 8];
    let n1: u8 = N as u8 - 1;
    let mut i: u8 = 0;
    while i < n1
        invariant
            1 <= N <= 8,
            k <= 5,
            n1 == N - 1,
            i <= n1,
            s == perm_entries(perm, k, N as nat),
            forall|j: int| 0 <= j < N - 1 ==> #[trigger] s[j] < 8,
            coord == lehmer(s, N as nat, i as nat),
            forall|v: int| 0 <= v < 8 ==> (#[trigger] seen[v] <==> s.take(i as int).contains(v)),
        decreases n1 - i,
    {
        let cpi = crate::cube_core::bits::get(perm, 5 * i, k);
        assert(cpi == s[i as int]);
        let ghost t = s.take(i as int);
        let mut num_smaller: u16 = 0;
        let mut v: u64 = 0;
        while v < cpi
            invariant
                cpi < 8,
                v <= cpi,
                t == s.take(i as int),
                forall|v: int| 0 <= v < 8 ==> (#[trigger] seen[v] <==> t.contains(v)),
                num_smaller == seen_below(s, i as int, v as int),
                num_smaller <= v,
            decreases cpi - v,
        {
            if seen[v as usize] {
                num_smaller += 1;
            }
            v += 1;
        }
        proof {
            lemma_lehmer_bound(s, N as nat, i as nat);
            lemma_lehmer_bound_values(N as nat, i as nat);
            lemma_lehmer_bound(s, N as nat, (i + 1) as nat);
            lemma_lehmer_bound_values(N as nat, (i + 1) as nat);
            assert(s.take(i + 1) =~= s.take(i as int).push(s[i as int]));
            assert forall|v: int| 0 <= v < 8 implies (s.take(i + 1).contains(v) <==> (t.contains(v) || v == s[i as int])) by {
                if t.contains(v) {
                    let j = choose|j: int| 0 <= j < t.len() && t[j] == v;
                    assert(s.take(i + 1)[j] == v);
                }
                let u = s.take(i + 1);
                if u.contains(v) {
                    let j = choose|j: int| 0 <= j < u.len() && u[j] == v;
                    if j < i {
                        assert(t[j] == v);
                    }
                }
                if v == s[i as int] {
                    assert(s.take(i + 1)[i as int] == v);
                }
            }
        }
        coord = coord * (N as u16 - i as u16) + (cpi as u16 - num_smaller);
        seen[cpi as usize] = true;
        i += 1;
    }
    coord
}

/// `n!` is positive, and `(i + 1)!` is `(i + 1)` times `i!`.
proof fn lemma_fact(n: nat)
    ensures
        fact(n) > 0,
        fact(n + 1) == (n + 1) * fact(n),
    decreases n,
{
    if n > 0 {
        lemma_fact((n - 1) as nat);
        assert(fact(n) == n * fact((n - 1) as nat));
        assert(n * fact((n - 1) as nat) > 0) by (nonlinear_arith)
            requires
                n > 0,
                fact((n - 1) as nat) > 0,
        ;
    }
}

/// Each digit of a code is below its radix.
proof fn lemma_code_digit(c: nat, n: nat, k: nat)
    requires
        k < n,
    ensures
        code_digit(c, n, k) < n - k,
{
    if k + 1 < n {
        lemma_fact((n - 1 - k) as nat);
    }
}

/// The remaining values after `i` digits: `n - i` of them, in range, in
/// increasing order.
proof fn lemma_remaining(c: nat, n: nat, i: nat)
    requires
        i <= n,
    ensures
        remaining(c, n, i).len() == n - i,
        forall|j: int| 0 <= j < n - i ==> 0 <= #[trigger] remaining(c, n, i)[j] < n,
        forall|a: int, b: int| 0 <= a < b < n - i ==> remaining(c, n, i)[a] < remaining(c, n, i)[b],
    decreases i,
{
    if i > 0 {
        let k = (i - 1) as nat;
        lemma_remaining(c, n, k);
        lemma_code_digit(c, n, k);
        let r = remaining(c, n, k);
        let d = code_digit(c, n, k) as int;
        let q = remaining(c, n, i);
        assert(q == r.remove(d));
        assert forall|a: int, b: int| 0 <= a < b < n - i implies q[a] < q[b] by {
            let a1 = if a < d { a } else { a + 1 };
            let b1 = if b < d { b } else { b + 1 };
            assert(q[a] == r[a1] && q[b] == r[b1]);
        }
        assert forall|j: int| 0 <= j < n - i implies 0 <= #[trigger] q[j] < n by {
            let j1 = if j < d { j } else { j + 1 };
            assert(q[j] == r[j1]);
        }
    }
}

/// The permutation of `0 .. N` whose code is `coord` (the first `N` 5-bit
/// fields of the word; the last value is also written in field 7), and
/// whether it is even.
#[verifier::rlimit(30)]
pub fn coord_to_perm<const N: usize>(coord: u16) -> (r: (u64, bool))
    requires
        1 <= N <= 8,
    ensures
        r.0 == code_word(coord as nat, N as nat),
        r.1 == (code_parity(coord as nat, N as nat, N as nat) % 2 == 0),
{
    let ghost c = coord as nat;
    let mut digits: Vec<u16> = Vec::new();
    let mut j: usize = 0;
    while j < N
        invariant
            j <= N,
            digits.len() == j,
            forall|t: int| 0 <= t < j ==> digits[t] == 0,
        decreases N - j,
    {
        digits.push(0);
        j += 1;
    }
    let mut coord = coord;
    let n1: u16 = N as u16 - 1;
    let mut i: u16 = 0;
    proof {
        lemma_fact(0);
        assert(fact(1) == 1);
        vstd::arithmetic::div_mod::lemma_div_basics_2(c as int);
    }
    while i < n1
        invariant
            1 <= N <= 8,
            n1 == N - 1,
            i <= n1,
            digits.len() == N,
            coord == c / fact((i + 1) as nat),
            digits[N - 1] == 0,
            forall|t: int| N - 1 - i <= t < N - 1 ==> #[trigger] digits[t] == code_digit(c, N as nat, t as nat),
        decreases n1 - i,
    {
        let k = i + 2;
        proof {
            lemma_fact((i + 1) as nat);
            lemma_div_denominator(c as int, fact((i + 1) as nat) as int, k as int);
            let fi = fact((i + 1) as nat);
            assert(fi * k == k * fi) by (nonlinear_arith);
            assert(fact((i + 1) as nat) * k == fact((i + 2) as nat));
            assert(code_digit(c, N as nat, (N - 2 - i) as nat) == (c / fact((i + 1) as nat)) % (k as nat));
        }
        digits.set(N - 2 - i as usize, coord % k);
        coord = coord / k;
        i += 1;
    }
    let mut avail: [u64; 8] = [0, 1, 2, 3, 4, 5, 6, 7];
    let mut corners: u64 = 0;
    let mut even = true;
    let ghost f = |j: u64| code_perm(c, N as nat)[j as int] as u64;
    let mut i: usize = 0;
    assert forall|t: int| 0 <= t < N implies avail[t] as int == #[trigger] remaining(c, N as nat, 0)[t] by {
    }
    while i < N
        invariant
            1 <= N <= 8,
            i <= N,
            digits.len() == N,
            forall|t: int| 0 <= t < N ==> #[trigger] digits[t] == code_digit(c, N as nat, t as nat),
            forall|t: int| 0 <= t < N - i ==> avail[t] as int == #[trigger] remaining(c, N as nat, i as nat)[t],
            f == (|j: u64| code_perm(c, N as nat)[j as int] as u64),
            corners == pack5(f, i as nat),
            even == (code_parity(c, N as nat, i as nat) % 2 == 0),
            i == N ==> avail[0] as int == code_perm(c, N as nat)[N - 1],
        decreases N - i,
    {
        let pos = digits[i] as usize;
        let ghost rem = remaining(c, N as nat, i as nat);
        proof {
            lemma_remaining(c, N as nat, i as nat);
            lemma_code_digit(c, N as nat, i as nat);
            assert(avail[pos as int] as int == rem[pos as int]);
        }
        let sh: u64 = 5 * i as u64;
        corners |= avail[pos] << sh;
        let ghost old_avail = avail;
        let mut j: usize = pos;
        while j < N - 1 - i
            invariant
                pos <= j <= N - 1 - i,
                N - i <= 8,
                forall|t: int| 0 <= t < pos ==> avail[t] == old_avail[t],
                forall|t: int| pos <= t < j ==> avail[t] == old_avail[t + 1],
                forall|t: int| j <= t < 8 ==> avail[t] == old_avail[t],
            decreases N - 1 - i - j,
        {
            avail[j] = avail[j + 1];
            j += 1;
        }
        even = even != ((N - 1 - i - pos) % 2 != 0);
        proof {
            let q = remaining(c, N as nat, (i + 1) as nat);
            assert(q == rem.remove(pos as int));
            assert forall|t: int| 0 <= t < N - (i + 1) implies avail[t] as int == #[trigger] q[t] by {
                if t < pos {
                    assert(q[t] == rem[t]);
                } else {
                    assert(q[t] == rem[t + 1]);
                }
            }
            assert(code_perm(c, N as nat)[i as int] == rem[pos as int]);
            assert(f(i as u64) == old_avail[pos as int]);
        }
        i += 1;
    }
    (corners | (avail[0] << 35u64), even)
}

/// The number of values below `m` that `r` holds.
pub open spec fn held_below(r: Seq<int>, m: int) -> int
    decreases m,
{
    if m <= 0 {
        0
    } else {
        held_below(r, m - 1) + if r.contains(m - 1) {
            1int
        } else {
            0int
        }
    }
}

/// In an increasing sequence of non-negative values, the values below `m`
/// are the first `d` ones, where `d` is the rank of the first value at least
/// `m`.
proof fn lemma_held_below_rank(r: Seq<int>, m: int, d: int)
    requires
        forall|a: int, b: int| 0 <= a < b < r.len() ==> r[a] < r[b],
        forall|j: int| 0 <= j < r.len() ==> 0 <= #[trigger] r[j],
        0 <= d <= r.len(),
        m >= 0,
        d == r.len() || m <= r[d],
        d == 0 || r[d - 1] < m,
    ensures
        held_below(r, m) == d,
    decreases m,
{
    if m > 0 {
        if r.contains(m - 1) {
            let e = choose|e: int| 0 <= e < r.len() && r[e] == m - 1;
            if e < d - 1 {
                assert(r[e] < r[d - 1]);
            }
            if e >= d {
                if e > d {
                    assert(r[d] < r[e]);
                }
            }
            assert(e == d - 1);
            lemma_held_below_rank(r, m - 1, d - 1);
        } else {
            if d > 0 {
                assert(r[d - 1] != m - 1);
            }
            lemma_held_below_rank(r, m - 1, d);
        }
    }
}

/// The values left after `i` digits are those that the first `i` values of
/// the permutation do not take.
proof fn lemma_remaining_unseen(c: nat, n: nat, i: nat)
    requires
        i <= n,
    ensures
        forall|v: int| 0 <= v < n ==> (#[trigger] remaining(c, n, i).contains(v) <==> !code_perm(
            c,
            n,
        ).take(i as int).contains(v)),
    decreases i,
{
    let p = code_perm(c, n);
    if i == 0 {
        assert forall|v: int| 0 <= v < n implies #[trigger] remaining(c, n, 0).contains(v) by {
            assert(remaining(c, n, 0)[v] == v);
        }
    } else {
        let k = (i - 1) as nat;
        lemma_remaining_unseen(c, n, k);
        lemma_remaining(c, n, k);
        lemma_code_digit(c, n, k);
        let r = remaining(c, n, k);
        let d = code_digit(c, n, k) as int;
        let q = remaining(c, n, i);
        assert(q == r.remove(d));
        assert(p[k as int] == r[d]);
        let t = p.take(k as int);
        let u = p.take(i as int);
        assert(u =~= t.push(p[k as int]));
        assert forall|v: int| 0 <= v < n implies (#[trigger] q.contains(v) <==> !u.contains(v)) by {
            assert(r.contains(v) <==> !t.contains(v));
            assert(q.contains(v) <==> (r.contains(v) && v != r[d])) by {
                if q.contains(v) {
                    let j = choose|j: int| 0 <= j < q.len() && q[j] == v;
                    let j1 = if j < d { j } else { j + 1 };
                    assert(r[j1] == v);
                    if j1 < d {
                        assert(r[j1] < r[d]);
                    } else {
                        assert(r[d] < r[j1]);
                    }
                }
                if r.contains(v) && v != r[d] {
                    let j = choose|j: int| 0 <= j < r.len() && r[j] == v;
                    let j1 = if j < d { j } else { j - 1 };
                    assert(q[j1] == v);
                }
            }
            assert(u.contains(v) <==> (t.contains(v) || v == r[d])) by {
                if u.contains(v) {
                    let a = choose|a: int| 0 <= a < u.len() && u[a] == v;
                    if a < k {
                        assert(t[a] == v);
                    }
                }
                if t.contains(v) {
                    let a = choose|a: int| 0 <= a < t.len() && t[a] == v;
                    assert(u[a] == v);
                }
                if v == r[d] {
                    assert(u[k as int] == v);
                }
            }
        }
    }
}

/// Seen and unseen values below `m` make up all of them.
proof fn lemma_seen_held(c: nat, n: nat, i: nat, m: int)
    requires
        i <= n,
        0 <= m <= n,
    ensures
        seen_below(code_perm(c, n), i as int, m) + held_below(remaining(c, n, i), m) == m,
    decreases m,
{
    if m > 0 {
        lemma_seen_held(c, n, i, m - 1);
        lemma_remaining_unseen(c, n, i);
        assert(remaining(c, n, i).contains(m - 1) <==> !code_perm(c, n).take(i as int).contains(m - 1));
    }
}

/// The entry that `lehmer` reads for each value of the permutation of code
/// `c` is the digit that placed it.
proof fn lemma_digit_back(c: nat, n: nat, i: nat)
    requires
        i < n,
    ensures
        code_perm(c, n)[i as int] - seen_below(code_perm(c, n), i as int, code_perm(c, n)[i as int])
            == code_digit(c, n, i),
{
    let r = remaining(c, n, i);
    let d = code_digit(c, n, i) as int;
    lemma_remaining(c, n, i);
    lemma_code_digit(c, n, i);
    let x = r[d];
    assert(code_perm(c, n)[i as int] == x);
    lemma_seen_held(c, n, i, x);
    lemma_held_below_rank(r, x, d);
}

/// Reading the codes back digit by digit: after `i` digits, `lehmer` holds
/// `c / (n - i)!`.
proof fn lemma_lehmer_code(c: nat, n: nat, i: nat)
    requires
        1 <= n,
        i <= n - 1,
        c < fact(n),
    ensures
        lehmer(code_perm(c, n), n, i) == c / fact((n - i) as nat),
    decreases i,
{
    let p = code_perm(c, n);
    if i == 0 {
        lemma_fact(n);
        assert(c / fact(n) == 0) by {
            vstd::arithmetic::div_mod::lemma_basic_div(c as int, fact(n) as int);
        }
    } else {
        let k = (i - 1) as nat;
        lemma_lehmer_code(c, n, k);
        lemma_digit_back(c, n, k);
        let r = (n - k) as nat;
        let f1 = fact((n - 1 - k) as nat);
        lemma_fact((n - 1 - k) as nat);
        assert(fact(r) == r * f1);
        lemma_div_denominator(c as int, f1 as int, r as int);
        assert(f1 * r == r * f1) by (nonlinear_arith);
        let x = c / f1;
        lemma_fundamental_div_mod(x as int, r as int);
        assert(lehmer(p, n, i) == lehmer(p, n, k) * (n - k) + code_digit(c, n, k));
        assert((x / r) * r == r * (x / r)) by (nonlinear_arith);
    }
}

/// The entries of the word of a permutation code are the permutation's
/// values, in the low 3 to 5 bits of each of its first 7 fields.
proof fn lemma_entry_bits(w: u64, x: u64, i: u64, k: u64)
    by (bit_vector)
    requires
        i < 7,
        3 <= k <= 5,
        (w >> ((5 * i) as u64)) & 31u64 < 8,
    ensures
        ((w | (x << 35u64)) >> ((5 * i) as u64)) & (((1u64 << k) - 1u64) as u64) == (w >> ((5 * i)
            as u64)) & 31u64,
{
}

/// Reading a permutation code back: the code of the permutation of code `c`
/// is `c`, for every code below `n!`.
pub proof fn lemma_perm_code_roundtrip(c: nat, n: nat, k: u8)
    requires
        1 <= n <= 8,
        3 <= k <= 5,
        c < fact(n),
    ensures
        forall|i: int| 0 <= i < n - 1 ==> #[trigger] perm_entries(code_word(c, n), k, n)[i] == code_perm(c, n)[i],
        forall|i: int| 0 <= i < n - 1 ==> #[trigger] perm_entries(code_word(c, n), k, n)[i] < 8,
        lehmer(perm_entries(code_word(c, n), k, n), n, (n - 1) as nat) == c,
{
    let p = code_perm(c, n);
    let f = |j: u64| p[j as int] as u64;
    let e = perm_entries(code_word(c, n), k, n);
    lemma_remaining(c, n, 0);
    assert forall|j: u64| j < n implies #[trigger] f(j) < 32 by {
        lemma_remaining(c, n, j as nat);
        lemma_code_digit(c, n, j as nat);
    }
    crate::cube_core::bits::lemma_pack5(f, n);
    assert forall|i: int| 0 <= i < n - 1 implies #[trigger] e[i] == p[i] by {
        lemma_remaining(c, n, i as nat);
        lemma_code_digit(c, n, i as nat);
        assert(crate::cube_core::bits::field5(pack5(f, n), i as u64) == f(i as u64));
        lemma_remaining(c, n, (n - 1) as nat);
        lemma_code_digit(c, n, (n - 1) as nat);
        lemma_entry_bits(pack5(f, n), p[n - 1] as u64, i as u64, k as u64);
    }
    assert forall|i: int| 0 <= i < n - 1 implies #[trigger] e[i] < 8 by {
        assert(e[i] == p[i]);
        lemma_remaining(c, n, i as nat);
        lemma_code_digit(c, n, i as nat);
    }
    lemma_lehmer_code(c, n, (n - 1) as nat);
    lemma_lehmer_same(e, p, n, (n - 1) as nat);
    lemma_fact(0);
    assert(fact(0) == 1);
    assert(fact(1) == 1 * fact(0));
    assert(fact(1) == 1);
    assert(c / 1 == c);
}

/// `lehmer` reads only the first `i` entries.
proof fn lemma_lehmer_same(a: Seq<int>, b: Seq<int>, n: nat, i: nat)
    requires
        i <= a.len(),
        i <= b.len(),
        forall|j: int| 0 <= j < i ==> #[trigger] a[j] == b[j],
    ensures
        lehmer(a, n, i) == lehmer(b, n, i),
    decreases i,
{
    if i > 0 {
        let k = (i - 1) as nat;
        lemma_lehmer_same(a, b, n, k);
        assert(a.take(k as int) =~= b.take(k as int));
        lemma_seen_same(a, b, k as int, a[k as int]);
    }
}

/// `seen_below` reads only the first `i` entries.
proof fn lemma_seen_same(a: Seq<int>, b: Seq<int>, i: int, m: int)
    requires
        a.take(i) == b.take(i),
    ensures
        seen_below(a, i, m) == seen_below(b, i, m),
    decreases m,
{
    if m > 0 {
        lemma_seen_same(a, b, i, m - 1);
    }
}

/// Three bits read out of a word are below 8.
proof fn lemma_three_bits(w: u64, p: u64)
    by (bit_vector)
    ensures
        (w >> p) & (((1u64 << 3u64) - 1u64) as u64) < 8,
{
}

/// The corner positions of a state, read from its corner word.
pub open spec fn corner_entries(s: State) -> Seq<int> {
    perm_entries(s.corners >> 2u64, 3, 8)
}

/// The edges of the solved cube but for the first two, which are exchanged.
pub const ODD_EDGES: u64 = 0xb52507314831002;

/// The state whose corner permutation has the code `c`, with its corners
/// unturned, and whose edges are those of the solved cube, but for the first
/// two exchanged when that permutation is odd.
pub open spec fn cp_sample(c: nat) -> State {
    State {
        corners: code_word(c, 8) << 2u64,
        edges: if code_parity(c, 8, 8) % 2 == 0 {
            State::spec_id().edges
        } else {
            ODD_EDGES
        },
    }
}

/// The corner permutation coordinate: the code of the corner positions in the
/// factorial number system.
#[derive(Debug, PartialEq, Eq, Clone, Copy, Structural)]
pub struct CP {
    coord: u16,
}

impl View for CP {
    type V = u16;

    closed spec fn view(&self) -> u16 {
        self.coord
    }
}

impl CP {
    /// The number of values of the coordinate, `8!`.
    pub const NUM_RAW: u16 = 40320;

    /// The corner permutation coordinate of a state.
    pub fn from_state(state: &State) -> (r: Self)
        ensures
            r@ == lehmer(corner_entries(*state), 8, 7),
    {
        proof {
            assert forall|i: int| 0 <= i < 7 implies #[trigger] perm_entries(state.corners >> 2u64, 3, 8)[i] < 8 by {
                lemma_three_bits(state.corners >> 2u64, (5 * i) as u64);
            }
        }
        Self { coord: perm_to_coord::<8>(state.corners >> 2, 3) }
    }

    /// The coordinate of value `repr`.
    pub fn from_coord(repr: u16) -> (r: Self)
        ensures
            r@ == repr,
    {
        Self { coord: repr }
    }

    /// The value of the coordinate.
    pub fn coord(&self) -> (r: u16)
        ensures
            r == self@,
    {
        self.coord
    }

    /// A state of this coordinate: its corners are permuted as the code
    /// tells, unturned, and its edges are in place but for the first two,
    /// exchanged when the corner permutation is odd.
    pub fn sample_state(&self) -> (r: State)
        ensures
            r == cp_sample(self@ as nat),
            self@ < 40320 ==> r.spec_valid() && lehmer(corner_entries(r), 8, 7) == self@,
    {
        proof {
            if self@ < 40320 {
                lemma_cp_roundtrip(self@ as nat);
                lemma_cp_sample_valid(self@ as nat);
            }
        }
        let (mut corners, even) = coord_to_perm::<8>(self.coord);
        corners <<= 2;
        let edges = if even {
            State::ID().edges
        } else {
            ODD_EDGES
        };
        State { corners, edges }
    }
}

/// The offset that brings the positions of the last eight edges down to
/// `0 .. 8`, one field each.
pub const EP8_OFFSET: u64 = 0x2108421084;

/// The edges 4 to 11 of a state, one 5-bit field each, their positions
/// brought down by 4 when they can be.
pub open spec fn ep8_word(s: State) -> u64 {
    ((s.edges >> 21u64) - EP8_OFFSET) as u64
}

/// Whether the positions of the edges 4 to 11 can be read as a permutation
/// code: subtracting the offset does not go below zero, and the first seven
/// read entries are below 8.
pub open spec fn ep8_readable(s: State) -> bool {
    &&& s.edges >> 21u64 >= EP8_OFFSET
    &&& forall|i: int| 0 <= i < 7 ==> #[trigger] perm_entries(ep8_word(s), 4, 8)[i] < 8
}

/// The state whose last eight edges are permuted as the code `c` tells,
/// unturned, the first four being in place but for the first two, exchanged
/// when that permutation is odd; its corners are those of the solved cube.
pub open spec fn ep8_sample(c: nat) -> State {
    State {
        corners: State::spec_id().corners,
        edges: ((((code_word(c, 8) + EP8_OFFSET) as u64) << 21u64) | if code_parity(c, 8, 8) % 2 == 0 {
            0x31040u64
        } else {
            0x31002u64
        }),
    }
}

/// The permutation coordinate of the eight edges outside the middle slice
/// between faces L and R, for the second phase of the two-phase solver.
#[derive(Debug, PartialEq, Eq, Clone, Copy, Structural)]
pub struct EP8 {
    coord: u16,
}

impl View for EP8 {
    type V = u16;

    closed spec fn view(&self) -> u16 {
        self.coord
    }
}

impl EP8 {
    /// The number of values of the coordinate, `8!`.
    pub const NUM_RAW: u16 = 40320;

    /// The coordinate of a state whose edges 4 to 11 are at positions 4 to 11.
    pub fn from_state(state: &State) -> (r: Self)
        requires
            ep8_readable(*state),
        ensures
            r@ == lehmer(perm_entries(ep8_word(*state), 4, 8), 8, 7),
    {
        let edges = (state.edges >> 21) - EP8_OFFSET;
        assert(edges == ep8_word(*state));
        Self { coord: perm_to_coord::<8>(edges, 4) }
    }

    /// The coordinate of value `repr`.
    pub fn from_coord(repr: u16) -> (r: Self)
        ensures
            r@ == repr,
    {
        Self { coord: repr }
    }

    /// The value of the coordinate.
    pub fn coord(&self) -> (r: u16)
        ensures
            r == self@,
    {
        self.coord
    }

    /// A state of this coordinate: its edges 4 to 11 are permuted as the code
    /// tells, unturned, its first four edges are in place but for the first
    /// two, exchanged when that permutation is odd, and its corners are in
    /// place.
    pub fn sample_state(&self) -> (r: State)
        ensures
            r == ep8_sample(self@ as nat),
            self@ < 40320 ==> r.spec_valid() && lehmer(perm_entries(ep8_word(r), 4, 8), 8, 7) == self@,
    {
        proof {
            if self@ < 40320 {
                lemma_ep8_roundtrip(self@ as nat);
                lemma_ep8_sample_valid(self@ as nat);
            }
        }
        let (mut edges, even) = coord_to_perm::<8>(self.coord);
        proof {
            lemma_code_word_small(self@ as nat, 8);
        }
        edges += EP8_OFFSET;
        edges <<= 21;
        if even {
            edges |= 0x31040;
        } else {
            edges |= 0x31002;
        }
        State { corners: State::ID().corners, edges }
    }
}

/// The edges 4 to 11 of the solved cube, one 5-bit field each from field 4.
pub const EP4_EVEN_REST: u64 = 0xb525073148;

/// The edges 4 to 11 of the solved cube but for the first two, exchanged.
pub const EP4_ODD_REST: u64 = 0xb52507310a;

/// Whether the positions of the first three edges of a state can be read as a
/// permutation code: they are below 8.
pub open spec fn ep4_readable(s: State) -> bool {
    forall|i: int| 0 <= i < 3 ==> #[trigger] perm_entries(s.edges >> 1u64, 4, 4)[i] < 8
}

/// The state whose first four edges are permuted as the code `c` tells,
/// unturned, the other ones being in place but for edges 4 and 5, exchanged
/// when that permutation is odd; its corners are those of the solved cube.
pub open spec fn ep4_sample(c: nat) -> State {
    State {
        corners: State::spec_id().corners,
        edges: (code_word(c, 4) << 1u64) | ((if code_parity(c, 4, 4) % 2 == 0 {
            EP4_EVEN_REST
        } else {
            EP4_ODD_REST
        }) << 20u64),
    }
}

/// The permutation coordinate of the four edges of the middle slice between
/// faces L and R, for the second phase of the two-phase solver.
#[derive(Debug, PartialEq, Eq, Clone, Copy, Structural)]
pub struct EP4 {
    coord: u8,
}

impl View for EP4 {
    type V = u8;

    closed spec fn view(&self) -> u8 {
        self.coord
    }
}

impl EP4 {
    /// The number of values of the coordinate, `4!`.
    pub const NUM_RAW: u8 = 24;

    /// The coordinate of a state whose first four edges are at positions
    /// below 8.
    pub fn from_state(state: &State) -> (r: Self)
        requires
            ep4_readable(*state),
        ensures
            r@ == lehmer(perm_entries(state.edges >> 1u64, 4, 4), 4, 3),
    {
        let c = perm_to_coord::<4>(state.edges >> 1, 4);
        proof {
            let s = perm_entries(state.edges >> 1u64, 4, 4);
            lemma_lehmer_bound(s, 4, 3);
            lemma_lehmer_bound_values(4, 3);
        }
        Self { coord: c as u8 }
    }

    /// The coordinate of value `repr`.
    pub fn from_coord(repr: u8) -> (r: Self)
        ensures
            r@ == repr,
    {
        Self { coord: repr }
    }

    /// The value of the coordinate.
    pub fn coord(&self) -> (r: u8)
        ensures
            r == self@,
    {
        self.coord
    }

    /// A state of this coordinate: its first four edges are permuted as the
    /// code tells, unturned, its other edges are in place but for edges 4 and
    /// 5, exchanged when that permutation is odd, and its corners are in
    /// place.
    pub fn sample_state(&self) -> (r: State)
        ensures
            r == ep4_sample(self@ as nat),
            self@ < 24 ==> r.spec_valid() && lehmer(perm_entries(r.edges >> 1u64, 4, 4), 4, 3) == self@,
    {
        proof {
            if self@ < 24 {
                lemma_ep4_roundtrip(self@ as nat);
                lemma_ep4_sample_valid(self@ as nat);
            }
        }
        let (mut edges, even) = coord_to_perm::<4>(self.coord as u16);
        edges <<= 1;
        if even {
            edges |= EP4_EVEN_REST << 20;
        } else {
            edges |= EP4_ODD_REST << 20;
        }
        State { corners: State::ID().corners, edges }
    }
}

/// The word of a permutation code of at most eight values stays below
/// `2^40`.
proof fn lemma_code_word_small(c: nat, n: nat)
    requires
        1 <= n <= 8,
    ensures
        code_word(c, n) < 0x10000000000,
{
    let p = code_perm(c, n);
    let f = |j: u64| p[j as int] as u64;
    lemma_remaining(c, n, 0);
    assert forall|j: u64| j < n implies #[trigger] f(j) < 32 by {
        lemma_remaining(c, n, j as nat);
        lemma_code_digit(c, n, j as nat);
    }
    crate::cube_core::bits::lemma_pack5(f, n);
    lemma_remaining(c, n, (n - 1) as nat);
    lemma_code_digit(c, n, (n - 1) as nat);
    let w = pack5(f, n);
    let x = p[n - 1] as u64;
    let sh = (5 * n) as u64;
    assert(w | (x << 35u64) < 0x10000000000) by (bit_vector)
        requires
            w >> sh == 0,
            sh <= 40,
            x < 8,
    ;
}

/// `8!` and `4!`.
proof fn lemma_fact_values()
    ensures
        fact(4) == 24,
        fact(8) == 40320,
{
    assert(fact(0) == 1);
    assert(fact(1) == 1);
    assert(fact(2) == 2);
    assert(fact(3) == 6);
    assert(fact(4) == 24);
    assert(fact(5) == 120);
    assert(fact(6) == 720);
    assert(fact(7) == 5040);
    assert(fact(8) == 40320);
}

/// Shifting a small word up and down gives it back, and the low fields of a
/// word survive what is written above them.
proof fn lemma_word_shifts(w: u64, x: u64, i: u64)
    by (bit_vector)
    requires
        w < 0x10000000000,
        x < 0x200000,
        i < 3,
    ensures
        (w << 2u64) >> 2u64 == w,
        ((((w + 0x2108421084u64) as u64) << 21u64) | x) >> 21u64 == (w + 0x2108421084u64) as u64,
        ((((((w + 0x2108421084u64) as u64) << 21u64) | x) >> 21u64) - 0x2108421084u64) as u64 == w,
{
}

/// The low fields of a word survive what is written above them.
proof fn lemma_low_fields(w: u64, x: u64, i: u64)
    by (bit_vector)
    requires
        i < 3,
    ensures
        (((w << 1u64) | (x << 20u64)) >> 1u64 >> ((5 * i) as u64)) & 15u64 == (w >> ((5 * i)
            as u64)) & 15u64,
{
}

/// Four bits read out of a word are its bits masked by 15.
proof fn lemma_four_bits(w: u64, p: u64)
    by (bit_vector)
    ensures
        (w >> p) & (((1u64 << 4u64) - 1u64) as u64) == (w >> p) & 15u64,
{
}

/// The corner permutation coordinate of the sample state of a code is that
/// code, for each of the `8!` codes.
pub proof fn lemma_cp_roundtrip(c: nat)
    requires
        c < 40320,
    ensures
        lehmer(corner_entries(cp_sample(c)), 8, 7) == c,
{
    lemma_fact_values();
    lemma_code_word_small(c, 8);
    lemma_word_shifts(code_word(c, 8), 0, 0);
    assert(cp_sample(c).corners >> 2u64 == code_word(c, 8));
    lemma_perm_code_roundtrip(c, 8, 3);
}

/// The sample state of each of the `8!` codes of the last eight edges can be
/// read back, and its coordinate is that code.
pub proof fn lemma_ep8_roundtrip(c: nat)
    requires
        c < 40320,
    ensures
        ep8_readable(ep8_sample(c)),
        lehmer(perm_entries(ep8_word(ep8_sample(c)), 4, 8), 8, 7) == c,
{
    lemma_fact_values();
    lemma_code_word_small(c, 8);
    let w = code_word(c, 8);
    let x: u64 = if code_parity(c, 8, 8) % 2 == 0 {
        0x31040u64
    } else {
        0x31002u64
    };
    lemma_word_shifts(w, x, 0);
    assert(ep8_word(ep8_sample(c)) == w);
    lemma_perm_code_roundtrip(c, 8, 4);
}

/// The sample state of each of the `4!` codes of the first four edges can be
/// read back, and its coordinate is that code.
pub proof fn lemma_ep4_roundtrip(c: nat)
    requires
        c < 24,
    ensures
        ep4_readable(ep4_sample(c)),
        lehmer(perm_entries(ep4_sample(c).edges >> 1u64, 4, 4), 4, 3) == c,
{
    lemma_fact_values();
    lemma_code_word_small(c, 4);
    let w = code_word(c, 4);
    let x: u64 = if code_parity(c, 4, 4) % 2 == 0 {
        EP4_EVEN_REST
    } else {
        EP4_ODD_REST
    };
    let e = perm_entries(ep4_sample(c).edges >> 1u64, 4, 4);
    let e0 = perm_entries(w, 4, 4);
    lemma_perm_code_roundtrip(c, 4, 4);
    assert forall|i: int| 0 <= i < 3 implies #[trigger] e[i] == e0[i] by {
        lemma_low_fields(w, x, i as u64);
        lemma_four_bits(ep4_sample(c).edges >> 1u64, (5 * i) as u64);
        lemma_four_bits(w, (5 * i) as u64);
    }
    lemma_lehmer_same(e, e0, 4, 3);
}

/// Adding a value to a sequence that does not hold it adds one to the values
/// held below `m` above it.
proof fn lemma_held_below_push(r: Seq<int>, a: int, m: int)
    requires
        !r.contains(a),
        a >= 0,
    ensures
        held_below(r.push(a), m) == held_below(r, m) + if a < m { 1int } else { 0int },
    decreases m,
{
    if m > 0 {
        lemma_held_below_push(r, a, m - 1);
        let q = r.push(a);
        assert(q.contains(m - 1) <==> (r.contains(m - 1) || a == m - 1)) by {
            if q.contains(m - 1) {
                let j = choose|j: int| 0 <= j < q.len() && q[j] == m - 1;
                if j < r.len() {
                    assert(r[j] == m - 1);
                }
            }
            if r.contains(m - 1) {
                let j = choose|j: int| 0 <= j < r.len() && r[j] == m - 1;
                assert(q[j] == m - 1);
            }
            if a == m - 1 {
                assert(q[r.len() as int] == a);
            }
        }
    }
}

/// For a sequence of distinct non-negative values, the elements less than
/// `x` are the values below `x` that it holds.
proof fn lemma_count_less_held(s: Seq<int>, x: int)
    requires
        forall|i: int, j: int| 0 <= i < j < s.len() ==> s[i] != s[j],
        forall|i: int| 0 <= i < s.len() ==> s[i] >= 0,
    ensures
        count_less(s, x) == held_below(s, x),
    decreases s.len(),
{
    if s.len() > 0 {
        let dl = s.drop_last();
        lemma_count_less_held(dl, x);
        assert(!dl.contains(s.last())) by {
            if dl.contains(s.last()) {
                let j = choose|j: int| 0 <= j < dl.len() && dl[j] == s.last();
                assert(s[j] == s[s.len() - 1]);
            }
        }
        assert(s =~= dl.push(s.last()));
        lemma_held_below_push(dl, s.last(), x);
    } else {
        lemma_held_below_zero(s, x);
    }
}

/// Nothing is held below anything by an empty sequence.
proof fn lemma_held_below_zero(s: Seq<int>, m: int)
    requires
        s.len() == 0,
    ensures
        held_below(s, m) == 0,
    decreases m,
{
    if m > 0 {
        lemma_held_below_zero(s, m - 1);
    }
}

/// Two sequences that hold the same values below `m` hold as many below `m`.
proof fn lemma_held_below_same(r1: Seq<int>, r2: Seq<int>, m: int)
    requires
        forall|v: int| 0 <= v < m ==> (r1.contains(v) <==> r2.contains(v)),
    ensures
        held_below(r1, m) == held_below(r2, m),
    decreases m,
{
    if m > 0 {
        lemma_held_below_same(r1, r2, m - 1);
        assert(r1.contains(m - 1) <==> r2.contains(m - 1));
    }
}

/// The permutation of a code is a permutation of `0 .. n`.
pub proof fn lemma_code_perm_is_perm(c: nat, n: nat)
    ensures
        is_perm(code_perm(c, n)),
{
    let p = code_perm(c, n);
    assert forall|i: int| 0 <= i < n implies 0 <= #[trigger] p[i] < n by {
        lemma_remaining(c, n, i as nat);
        lemma_code_digit(c, n, i as nat);
    }
    assert forall|i: int, j: int| 0 <= i < n && 0 <= j < n && i != j implies p[i] != p[j] by {
        let (a, b) = if i < j { (i, j) } else { (j, i) };
        lemma_remaining(c, n, b as nat);
        lemma_code_digit(c, n, b as nat);
        lemma_remaining_unseen(c, n, b as nat);
        let r = remaining(c, n, b as nat);
        assert(r.contains(p[b])) by {
            assert(r[code_digit(c, n, b as nat) as int] == p[b]);
        }
        assert(p.take(b).contains(p[a])) by {
            assert(p.take(b)[a] == p[a]);
        }
    }
}

/// The number of later values of the permutation of a code that are less
/// than its value `i` is digit `i` of the code.
proof fn lemma_later_smaller(c: nat, n: nat, i: nat)
    requires
        i < n,
    ensures
        count_less(code_perm(c, n).subrange(i + 1 as int, n as int), code_perm(c, n)[i as int]) == code_digit(c, n, i),
{
    let p = code_perm(c, n);
    let later = p.subrange(i + 1 as int, n as int);
    let x = p[i as int];
    lemma_code_perm_is_perm(c, n);
    lemma_perm_covers(p);
    lemma_remaining(c, n, i);
    lemma_remaining(c, n, (i + 1) as nat);
    lemma_code_digit(c, n, i);
    lemma_remaining_unseen(c, n, (i + 1) as nat);
    let r = remaining(c, n, i);
    let q = remaining(c, n, (i + 1) as nat);
    let d = code_digit(c, n, i) as int;
    assert(q == r.remove(d));
    assert(x == r[d]);
    assert forall|v: int| 0 <= v < x implies (later.contains(v) <==> q.contains(v)) by {
        assert(q.contains(v) <==> !p.take(i + 1 as int).contains(v));
        assert(p.contains(v));
        let k = choose|k: int| 0 <= k < n && p[k] == v;
        if later.contains(v) {
            let j = choose|j: int| 0 <= j < later.len() && later[j] == v;
            assert(p[i + 1 + j] == v);
            let pt = p.take(i + 1 as int);
            if pt.contains(v) {
                let t = choose|t: int| 0 <= t < pt.len() && pt[t] == v;
                assert(p[t] == v);
            }
        }
        if q.contains(v) {
            if k <= i {
                assert(p.take(i + 1 as int)[k] == v);
            } else {
                assert(later[k - i - 1] == v);
            }
        }
    }
    lemma_held_below_same(later, q, x);
    lemma_count_less_held(later, x);
    lemma_held_below_rank(q, x, d);
}

/// The sum of the digits of a code from digit `i` on.
pub open spec fn digits_from(c: nat, n: nat, i: nat) -> int
    decreases n - i,
{
    if i >= n {
        0
    } else {
        code_digit(c, n, i) + digits_from(c, n, i + 1)
    }
}

/// The inversions of the permutation of a code, from value `i` on, are the
/// sum of its digits from digit `i` on.
proof fn lemma_code_inversions(c: nat, n: nat, i: nat)
    requires
        i <= n,
    ensures
        inversions_front(code_perm(c, n).subrange(i as int, n as int)) == digits_from(c, n, i),
    decreases n - i,
{
    let p = code_perm(c, n);
    let sr = p.subrange(i as int, n as int);
    if i < n {
        lemma_code_inversions(c, n, i + 1);
        lemma_later_smaller(c, n, i);
        assert(sr.drop_first() =~= p.subrange(i + 1 as int, n as int));
        assert(sr[0] == p[i as int]);
    } else {
        assert(sr.len() == 0);
    }
}

/// The sum `(n - 1) + (n - 2) + ...` of the first `i` terms.
pub open spec fn idx_sum(n: nat, i: nat) -> int
    decreases i,
{
    if i == 0 {
        0
    } else {
        idx_sum(n, (i - 1) as nat) + (n - 1 - (i - 1))
    }
}

/// The parity count of a code and the sum of its digits make up `idx_sum`.
proof fn lemma_code_parity_sum(c: nat, n: nat, i: nat)
    requires
        i <= n,
    ensures
        code_parity(c, n, i) + digits_from(c, n, 0) == idx_sum(n, i) + digits_from(c, n, i),
    decreases i,
{
    if i > 0 {
        lemma_code_parity_sum(c, n, (i - 1) as nat);
    }
}

/// The permutation of a code of four or eight values is even exactly when
/// the parity count of the code is.
pub proof fn lemma_code_parity(c: nat, n: nat)
    requires
        n == 4 || n == 8,
    ensures
        is_even_perm(code_perm(c, n)) == (code_parity(c, n, n) % 2 == 0),
{
    let p = code_perm(c, n);
    lemma_code_inversions(c, n, 0);
    assert(p.subrange(0, n as int) =~= p);
    lemma_inversions_front(p);
    lemma_code_parity_sum(c, n, n);
    assert(digits_from(c, n, n) == 0);
    reveal_with_fuel(idx_sum, 9);
    assert(idx_sum(n, n) % 2 == 0);
}

/// Facts on the fields of the words of permutation codes and of the first
/// two edges exchanged.
proof fn lemma_code_word_fields(a: u64, x: u64, i: u64)
    by (bit_vector)
    requires
        i < 12,
        x < 32,
    ensures
        i < 7 ==> ((a | (x << 35u64)) >> ((5 * i) as u64)) & 31u64 == (a >> ((5 * i) as u64)) & 31u64,
        i == 7 ==> ((a | (x << 35u64)) >> ((5 * i) as u64)) & 31u64 == ((a >> ((5 * i) as u64)) & 31u64) | x,
        x | x == x,
        i < 8 && (a >> ((5 * i) as u64)) & 31u64 < 8 && (i == 0 || (a >> ((5 * (i - 1)) as u64)) & 31u64 < 8)
            ==> ((a << 2u64) >> ((5 * i) as u64)) & 31u64 == ((a >> ((5 * i) as u64)) & 31u64) << 2u64,
        i == 0 ==> (0xb52507314831002u64 >> ((5 * i) as u64)) & 31u64 == 2,
        i == 1 ==> (0xb52507314831002u64 >> ((5 * i) as u64)) & 31u64 == 0,
        i >= 2 ==> (0xb52507314831002u64 >> ((5 * i) as u64)) & 31u64 == i << 1u64,
        2u64 >> 1u64 == 1 && 2u64 & 1u64 == 0 && 0u64 >> 1u64 == 0 && 0u64 & 1u64 == 0,
        (i << 1u64) >> 1u64 == i && (i << 1u64) & 1u64 == 0,
{
}

/// The corner fields of the word of a code of eight values are its values.
proof fn lemma_code_word8_fields(c: nat)
    ensures
        forall|i: u64| i < 8 ==> #[trigger] field5(code_word(c, 8), i) == code_perm(c, 8)[i as int],
        forall|i: int| 0 <= i < 8 ==> 0 <= #[trigger] code_perm(c, 8)[i] < 8,
{
    let p = code_perm(c, 8);
    let f = |j: u64| p[j as int] as u64;
    lemma_code_perm_is_perm(c, 8);
    assert forall|j: u64| j < 8 implies #[trigger] f(j) < 32 by {
        assert(0 <= p[j as int] < 8);
    }
    crate::cube_core::bits::lemma_pack5(f, 8);
    assert forall|i: u64| i < 8 implies #[trigger] field5(code_word(c, 8), i) == p[i as int] by {
        assert(field5(pack5(f, 8), i) == f(i));
        assert(0 <= p[7] < 8);
        lemma_code_word_fields(pack5(f, 8), p[7] as u64, i);
        lemma_code_word_fields(pack5(f, 8), p[7] as u64, 7);
    }
}

/// The sums of the orientations of a state whose orientations are all 0 are
/// 0.
proof fn lemma_sums_zero(s: State, n: nat)
    requires
        forall|i: u64| i < 12 ==> #[trigger] s.spec_eo(i) == 0,
        forall|i: u64| i < 8 ==> #[trigger] s.spec_co(i) == 0,
    ensures
        n <= 12 ==> sum_eo(s, n) == 0,
        n <= 8 ==> sum_co(s, n) == 0,
    decreases n,
{
    if n > 0 {
        lemma_sums_zero(s, (n - 1) as nat);
    }
}

/// The edges of the sample states of the corner permutation coordinate: in
/// place, or in place but for the first two, exchanged; unturned.
proof fn lemma_sample_edges(s: State, odd: bool)
    requires
        s.edges == if odd { ODD_EDGES } else { State::spec_id().edges },
    ensures
        forall|i: u64| i < 12 ==> #[trigger] s.spec_eo(i) == 0,
        is_perm(s.edge_perm()),
        is_even_perm(s.edge_perm()) == !odd,
{
    let ep = s.edge_perm();
    let id = Seq::new(12, |t: int| t);
    assert forall|i: u64| #![trigger s.spec_eo(i)] #![trigger s.spec_ep(i)] i < 12 implies s.spec_eo(i) == 0 && s.spec_ep(i)
        == if odd && i < 2 { 1 - i } else { i as int } by {
        lemma_id_piece(i);
        lemma_code_word_fields(0, 0, i);
    }
    lemma_sorted_inversions(id);
    if odd {
        assert(ep =~= swap_seq(id, 0, 1));
        lemma_inversions_swap(id, 0, 1);
    } else {
        assert(ep =~= id);
    }
}

/// The sample state of each code below `8!` of the corner permutation
/// coordinate is valid.
pub proof fn lemma_cp_sample_valid(c: nat)
    requires
        c < 40320,
    ensures
        cp_sample(c).spec_valid(),
{
    let s = cp_sample(c);
    let p = code_perm(c, 8);
    let w = code_word(c, 8);
    lemma_code_word8_fields(c);
    lemma_code_perm_is_perm(c, 8);
    lemma_code_parity(c, 8);
    assert forall|i: u64| #![trigger s.spec_co(i)] #![trigger s.spec_cp(i)] i < 8 implies s.spec_co(i) == 0 && s.spec_cp(i)
        == p[i as int] by {
        assert(field5(w, i) == p[i as int]);
        if i > 0 {
            assert(field5(w, (i - 1) as u64) == p[i - 1]);
        }
        lemma_code_word_fields(w, 0, i);
        lemma_small_fields(field5(w, i), 0);
    }
    lemma_sample_edges(s, code_parity(c, 8, 8) % 2 != 0);
    lemma_sums_zero(s, 8);
    lemma_sums_zero(s, 12);
    assert(s.corner_perm() =~= p);
}

/// A state with the corners of the solved cube and unturned edges whose
/// positions form an even permutation is valid.
proof fn lemma_solved_corners_valid(s: State)
    requires
        s.corners == State::spec_id().corners,
        forall|i: u64| i < 12 ==> #[trigger] s.spec_eo(i) == 0,
        is_perm(s.edge_perm()),
        is_even_perm(s.edge_perm()),
    ensures
        s.spec_valid(),
{
    crate::algebra::coord::ori::lemma_id_corners_sum(s, 8);
    lemma_sums_zero(s, 12);
    let cp = s.corner_perm();
    assert forall|t: int| 0 <= t < cp.len() implies cp[t] == t by {
        assert(s.spec_cp(t as u64) == t);
    }
    lemma_sorted_inversions(cp);
    assert(is_perm(cp)) by {
        assert forall|a: int| 0 <= a < cp.len() implies 0 <= #[trigger] cp[a] < cp.len() by {
            assert(cp[a] == a);
        }
        assert forall|a: int, b: int| 0 <= a < cp.len() && 0 <= b < cp.len() && a != b implies cp[a] != cp[b] by {
            assert(cp[a] == a && cp[b] == b);
        }
    }
}

/// The first four edges in place, or with the first two exchanged when
/// `odd`, as a permutation: even exactly when not `odd`.
proof fn lemma_front_four(odd: bool)
    ensures
        ({
            let pre = if odd {
                seq![1int, 0, 2, 3]
            } else {
                seq![0int, 1, 2, 3]
            };
            &&& is_perm(pre)
            &&& is_even_perm(pre) == !odd
        }),
{
    let id = seq![0int, 1, 2, 3];
    assert forall|t: int| 0 <= t < id.len() implies id[t] == t by {
    }
    lemma_sorted_inversions(id);
    if odd {
        assert(seq![1int, 0, 2, 3] =~= swap_seq(id, 0, 1));
        lemma_inversions_swap(id, 0, 1);
    }
}

/// The fields of the edge word of a sample state of `EP8`: the first four
/// edges come from `x`, the others from the code word `w`, moved up by 4.
proof fn lemma_ep8_fields(w: u64, x: u64, i: u64)
    by (bit_vector)
    requires
        w < 0x10000000000u64,
        field5(w, 0) < 8,
        field5(w, 1) < 8,
        field5(w, 2) < 8,
        field5(w, 3) < 8,
        field5(w, 4) < 8,
        field5(w, 5) < 8,
        field5(w, 6) < 8,
        field5(w, 7) < 8,
        x == 0x31040u64 || x == 0x31002u64,
        i < 12,
    ensures
        i < 4 ==> ((((((w + 0x2108421084u64) as u64) << 21u64) | x) >> ((5 * i) as u64)) & 31u64) >> 1u64 == if x
            == 0x31002u64 && i < 2 {
            (1 - i) as u64
        } else {
            i
        },
        i >= 4 ==> ((((((w + 0x2108421084u64) as u64) << 21u64) | x) >> ((5 * i) as u64)) & 31u64) >> 1u64 == ((w
            >> ((5 * (i - 4)) as u64)) & 31u64) + 4,
        ((((((w + 0x2108421084u64) as u64) << 21u64) | x) >> ((5 * i) as u64)) & 31u64) & 1u64 == 0,
{
}

/// The edges of the sample state of `EP8` for code `c`: the first four in
/// place, but for the first two, exchanged when the permutation of `c` is
/// odd; then that permutation, moved up by 4; all unturned.
#[verifier::spinoff_prover]
#[verifier::rlimit(40)]
proof fn lemma_ep8_edges(c: nat)
    requires
        c < 40320,
    ensures
        ({
            let pre = if code_parity(c, 8, 8) % 2 != 0 {
                seq![1int, 0, 2, 3]
            } else {
                seq![0int, 1, 2, 3]
            };
            &&& forall|i: u64| i < 12 ==> #[trigger] ep8_sample(c).spec_eo(i) == 0
            &&& ep8_sample(c).edge_perm() == pre + shift_seq(code_perm(c, 8), 4)
        }),
{
    let s = ep8_sample(c);
    let p = code_perm(c, 8);
    let w = code_word(c, 8);
    let odd = code_parity(c, 8, 8) % 2 != 0;
    let x: u64 = if odd {
        0x31002u64
    } else {
        0x31040u64
    };
    lemma_code_word8_fields(c);
    lemma_code_word_small(c, 8);
    assert(field5(w, 0) < 8 && field5(w, 1) < 8 && field5(w, 2) < 8 && field5(w, 3) < 8);
    assert(field5(w, 4) < 8 && field5(w, 5) < 8 && field5(w, 6) < 8 && field5(w, 7) < 8);
    let pre = if odd {
        seq![1int, 0, 2, 3]
    } else {
        seq![0int, 1, 2, 3]
    };
    let q = shift_seq(p, 4);
    assert forall|i: u64| #![trigger s.spec_ep(i)] #![trigger s.spec_eo(i)] i < 12 implies s.spec_eo(i) == 0
        && s.spec_ep(i) == (pre + q)[i as int] by {
        lemma_ep8_fields(w, x, i);
        if i >= 4 {
            assert(field5(w, (i - 4) as u64) == p[i - 4]);
        }
    }
    assert(s.edge_perm() =~= pre + q);
}

/// The sample state of each code below `8!` of `EP8` is valid.
pub proof fn lemma_ep8_sample_valid(c: nat)
    requires
        c < 40320,
    ensures
        ep8_sample(c).spec_valid(),
{
    let s = ep8_sample(c);
    let p = code_perm(c, 8);
    let odd = code_parity(c, 8, 8) % 2 != 0;
    lemma_code_perm_is_perm(c, 8);
    lemma_code_parity(c, 8);
    let pre = if odd {
        seq![1int, 0, 2, 3]
    } else {
        seq![0int, 1, 2, 3]
    };
    let q = shift_seq(p, 4);
    lemma_front_four(odd);
    lemma_ep8_edges(c);
    assert forall|a: int, b: int| 0 <= a < pre.len() && 0 <= b < q.len() implies pre[a] < q[b] by {
        assert(0 <= p[b] < 8);
    }
    lemma_inversions_concat(pre, q);
    lemma_inversions_shift(p, 4);
    let e = pre + q;
    assert(is_perm(e)) by {
        assert forall|a: int| 0 <= a < e.len() implies 0 <= #[trigger] e[a] < e.len() by {
            if a >= 4 {
                assert(0 <= p[a - 4] < 8);
            }
        }
        assert forall|a: int, b: int| 0 <= a < e.len() && 0 <= b < e.len() && a != b implies e[a] != e[b] by {
            if a >= 4 && b >= 4 {
                assert(p[a - 4] != p[b - 4]);
            } else if a >= 4 {
                assert(0 <= p[a - 4] < 8);
            } else if b >= 4 {
                assert(0 <= p[b - 4] < 8);
            }
        }
    }
    lemma_solved_corners_valid(s);
}

/// The fields of the edge word of a sample state of `EP4`: the first four
/// edges come from the code word, the others from `r`.
proof fn lemma_ep4_fields(a: u64, x: u64, r: u64, i: u64)
    by (bit_vector)
    requires
        a >> 20u64 == 0,
        field5(a, 0) < 4,
        field5(a, 1) < 4,
        field5(a, 2) < 4,
        field5(a, 3) < 4,
        x < 4,
        r == 0xb525073148u64 || r == 0xb52507310au64,
        i < 12,
    ensures
        i < 4 ==> (((((a | (x << 35u64)) << 1u64) | (r << 20u64)) >> ((5 * i) as u64)) & 31u64) >> 1u64 == (a >> ((5
            * i) as u64)) & 31u64,
        i >= 4 ==> (((((a | (x << 35u64)) << 1u64) | (r << 20u64)) >> ((5 * i) as u64)) & 31u64) >> 1u64 == if r
            == 0xb52507310au64 && i < 6 {
            (9 - i) as u64
        } else {
            i
        },
        (((((a | (x << 35u64)) << 1u64) | (r << 20u64)) >> ((5 * i) as u64)) & 31u64) & 1u64 == 0,
{
}

/// The sample state of each code below `4!` of `EP4` is valid.
pub proof fn lemma_ep4_sample_valid(c: nat)
    requires
        c < 24,
    ensures
        ep4_sample(c).spec_valid(),
{
    let s = ep4_sample(c);
    let p = code_perm(c, 4);
    let odd = code_parity(c, 4, 4) % 2 != 0;
    let r: u64 = if odd {
        EP4_ODD_REST
    } else {
        EP4_EVEN_REST
    };
    let f = |j: u64| p[j as int] as u64;
    lemma_code_perm_is_perm(c, 4);
    lemma_code_parity(c, 4);
    assert forall|j: u64| j < 4 implies #[trigger] f(j) < 32 by {
        assert(0 <= p[j as int] < 4);
    }
    crate::cube_core::bits::lemma_pack5(f, 4);
    let a = pack5(f, 4);
    assert(field5(a, 0) == p[0] && field5(a, 1) == p[1] && field5(a, 2) == p[2] && field5(a, 3) == p[3]);
    assert(0 <= p[3] < 4);
    assert(code_word(c, 4) == a | ((p[3] as u64) << 35u64));
    let post = if odd {
        seq![5int, 4, 6, 7, 8, 9, 10, 11]
    } else {
        seq![4int, 5, 6, 7, 8, 9, 10, 11]
    };
    assert forall|i: u64| #![trigger s.spec_ep(i)] #![trigger s.spec_eo(i)] i < 12 implies s.spec_eo(i) == 0
        && s.spec_ep(i) == (p + post)[i as int] by {
        lemma_ep4_fields(a, p[3] as u64, r, i);
        if i < 4 {
            assert(field5(a, i) == p[i as int]);
        }
    }
    assert(s.edge_perm() =~= p + post);
    let id = seq![0int, 1, 2, 3, 4, 5, 6, 7];
    assert forall|t: int| 0 <= t < id.len() implies id[t] == t by {
    }
    lemma_sorted_inversions(id);
    if odd {
        assert(post =~= shift_seq(swap_seq(id, 0, 1), 4));
        lemma_inversions_swap(id, 0, 1);
        lemma_inversions_shift(swap_seq(id, 0, 1), 4);
    } else {
        assert(post =~= shift_seq(id, 4));
        lemma_inversions_shift(id, 4);
    }
    assert forall|x: int, y: int| 0 <= x < p.len() && 0 <= y < post.len() implies p[x] < post[y] by {
        assert(0 <= p[x] < 4);
    }
    lemma_inversions_concat(p, post);
    let e = p + post;
    assert(is_perm(e)) by {
        assert forall|x: int| 0 <= x < e.len() implies 0 <= #[trigger] e[x] < e.len() by {
            if x < 4 {
                assert(0 <= p[x] < 4);
            }
        }
        assert forall|x: int, y: int| 0 <= x < e.len() && 0 <= y < e.len() && x != y implies e[x] != e[y] by {
            if x < 4 && y < 4 {
                assert(p[x] != p[y]);
            } else if x < 4 {
                assert(0 <= p[x] < 4);
            } else if y < 4 {
                assert(0 <= p[y] < 4);
            }
        }
    }
    lemma_solved_corners_valid(s);
}

} // verus!
