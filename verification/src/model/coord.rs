//! A coordinate is a way to look at a subset of the full cube state: the
//! states of one coset of a subgroup share it.
use vstd::prelude::*;
pub use crate::algebra::coord::ori::{CO, EO};
use crate::algebra::coord::slice::{
    binom, lemma_binom_values, lemma_slice_state_pieces, lemma_slice_state_valid, slice_edges, slice_state,
};
use crate::cube_core::state::State;
use crate::permutation::{
    bytes_as_ints, distinct, is_even_array, is_even_perm, is_perm, lemma_inversions_swap, lemma_swap_perm, swap_seq,
};

verus! {

/// `BINOM[4 * n + k]` is `n choose k`, for `n < 12` and `k < 4`.
const BINOM: [u16; 48] = [
    1, 0, 0, 0, 1, 1, 0, 0, 1, 2, 1, 0, 1, 3, 3, 1, 1, 4, 6, 4, 1, 5, 10, 10, 1, 6, 15, 20, 1,
    7, 21, 35, 1, 8, 28, 56, 1, 9, 36, 84, 1, 10, 45, 120, 1, 11, 55, 165,
];

/// The table holds the binomial coefficients.
proof fn lemma_binom_entries(n: int, k: int)
    requires
        0 <= n < 12,
        0 <= k < 4,
    ensures
        BINOM[4 * n + k] == binom(n as nat, k as nat),
{
    lemma_binom_values();
}

/// Whether one of the first four edges of `s` is at position `p`.
pub open spec fn slice_taken(s: State, p: int) -> bool {
    s.spec_ep(0) == p || s.spec_ep(1) == p || s.spec_ep(2) == p || s.spec_ep(3) == p
}

/// For each of the twelve positions, whether one of the first four edges of
/// `s` is there.
pub open spec fn taken_of(s: State) -> Seq<bool> {
    Seq::new(12, |p: int| slice_taken(s, p))
}

/// The rank of the choice `t` of positions, with `k` of them still to come:
/// each position that is not chosen adds the number of ways to choose the
/// `k - 1` next ones among the positions after it.
pub open spec fn choice_rank(t: Seq<bool>, k: nat) -> int
    decreases t.len(),
{
    if t.len() == 0 || k == 0 {
        0
    } else if t[0] {
        choice_rank(t.drop_first(), (k - 1) as nat)
    } else {
        binom((t.len() - 1) as nat, (k - 1) as nat) + choice_rank(t.drop_first(), k)
    }
}

/// The choice of `k` among `n` positions whose rank is `r`.
pub open spec fn choice_unrank(r: int, n: nat, k: nat) -> Seq<bool>
    decreases n,
{
    if n == 0 {
        Seq::empty()
    } else if k == 0 {
        Seq::new(n, |i: int| false)
    } else {
        let b = binom((n - 1) as nat, (k - 1) as nat) as int;
        if r >= b {
            seq![false] + choice_unrank(r - b, (n - 1) as nat, k)
        } else {
            seq![true] + choice_unrank(r, (n - 1) as nat, (k - 1) as nat)
        }
    }
}

/// The number of positions below `n` that `t` chooses.
pub open spec fn chosen_count(t: Seq<bool>, n: nat) -> nat
    decreases n,
{
    if n == 0 {
        0
    } else {
        chosen_count(t, (n - 1) as nat) + if t[n - 1] {
            1nat
        } else {
            0nat
        }
    }
}

/// The positions below `n` at which `t` holds `b`, in increasing order.
pub open spec fn positions(t: Seq<bool>, b: bool, n: nat) -> Seq<int>
    decreases n,
{
    if n == 0 {
        Seq::empty()
    } else {
        let s = positions(t, b, (n - 1) as nat);
        if t[n - 1] == b {
            s.push(n - 1)
        } else {
            s
        }
    }
}

/// The rank of a choice of `k` positions lies below the number of such
/// choices.
proof fn lemma_rank_bound(t: Seq<bool>, k: nat)
    ensures
        0 <= choice_rank(t, k),
        choice_rank(t, k) <= binom(t.len(), k),
    decreases t.len(),
{
    if t.len() > 0 && k > 0 {
        lemma_rank_bound(t.drop_first(), (k - 1) as nat);
        lemma_rank_bound(t.drop_first(), k);
    }
}

/// The rank of the choice of rank `r` is `r`; that choice has `n` positions,
/// `k` of them chosen.
proof fn lemma_rank_unrank(r: int, n: nat, k: nat)
    requires
        0 <= r < binom(n, k),
    ensures
        choice_unrank(r, n, k).len() == n,
        choice_rank(choice_unrank(r, n, k), k) == r,
        chosen_count(choice_unrank(r, n, k), n) == k,
    decreases n,
{
    let t = choice_unrank(r, n, k);
    if n == 0 {
        if k > 0 {
            assert(binom(0, k) == 0);
        }
    } else if k == 0 {
        lemma_none_chosen(n, n);
    } else {
        let b = binom((n - 1) as nat, (k - 1) as nat) as int;
        assert(binom(n, k) == b + binom((n - 1) as nat, k));
        if r >= b {
            let rest = choice_unrank(r - b, (n - 1) as nat, k);
            lemma_rank_unrank(r - b, (n - 1) as nat, k);
            assert(t.drop_first() =~= rest);
            lemma_count_front(false, rest, (n - 1) as nat);
        } else {
            let rest = choice_unrank(r, (n - 1) as nat, (k - 1) as nat);
            lemma_rank_unrank(r, (n - 1) as nat, (k - 1) as nat);
            assert(t.drop_first() =~= rest);
            lemma_count_front(true, rest, (n - 1) as nat);
        }
    }
}

/// Nothing is chosen when no position is.
proof fn lemma_none_chosen(n: nat, m: nat)
    requires
        m <= n,
    ensures
        chosen_count(Seq::new(n, |i: int| false), m) == 0,
    decreases m,
{
    if m > 0 {
        lemma_none_chosen(n, (m - 1) as nat);
    }
}

/// Counting the chosen positions of a choice with one more position in
/// front.
proof fn lemma_count_front(x: bool, s: Seq<bool>, n: nat)
    requires
        n <= s.len(),
    ensures
        chosen_count(seq![x] + s, n + 1) == (if x {
            1nat
        } else {
            0nat
        }) + chosen_count(s, n),
    decreases n,
{
    let t = seq![x] + s;
    assert(t[0] == x);
    if n > 0 {
        lemma_count_front(x, s, (n - 1) as nat);
        assert(t[n as int] == s[n - 1]);
        assert(chosen_count(t, n + 1) == chosen_count(t, n) + if t[n as int] {
            1nat
        } else {
            0nat
        });
        assert(chosen_count(s, n) == chosen_count(s, (n - 1) as nat) + if s[n - 1] {
            1nat
        } else {
            0nat
        });
    } else {
        assert(chosen_count(t, 1) == chosen_count(t, 0) + if t[0] {
            1nat
        } else {
            0nat
        });
    }
}

/// The positions at which `t` holds `b`: as many as it says, each in range
/// and holding `b`, in increasing order, and each such position is there.
proof fn lemma_positions(t: Seq<bool>, b: bool, n: nat)
    requires
        n <= t.len(),
    ensures
        positions(t, b, n).len() == if b {
            chosen_count(t, n) as int
        } else {
            n - chosen_count(t, n)
        },
        forall|j: int| 0 <= j < positions(t, b, n).len() ==> 0 <= #[trigger] positions(t, b, n)[j] < n
            && t[positions(t, b, n)[j]] == b,
        forall|i: int, j: int|
            0 <= i < j < positions(t, b, n).len() ==> #[trigger] positions(t, b, n)[i] < #[trigger] positions(t, b, n)[j],
        forall|p: int| 0 <= p < n && t[p] == b ==> #[trigger] positions(t, b, n).contains(p),
    decreases n,
{
    if n > 0 {
        let m = (n - 1) as nat;
        lemma_positions(t, b, m);
        let s = positions(t, b, m);
        assert forall|p: int| 0 <= p < n && t[p] == b implies #[trigger] positions(t, b, n).contains(p) by {
            if p < m {
                assert(s.contains(p));
                let j = choose|j: int| 0 <= j < s.len() && s[j] == p;
                if t[m as int] == b {
                    assert(positions(t, b, n)[j] == p);
                }
            } else {
                assert(positions(t, b, n)[s.len() as int] == p);
            }
        }
    }
}

/// Between positions `a` and `b`, the count of chosen positions grows by at
/// most one per position.
proof fn lemma_count_mono(t: Seq<bool>, a: nat, b: nat)
    requires
        a <= b,
    ensures
        chosen_count(t, a) <= chosen_count(t, b) <= chosen_count(t, a) + (b - a),
    decreases b,
{
    if a < b {
        lemma_count_mono(t, a, (b - 1) as nat);
    }
}

/// The chosen positions of the choice of rank `c`, then the others, each in
/// increasing order.
pub open spec fn choice_order(c: int) -> Seq<int> {
    let t = choice_unrank(c, 12, 4);
    positions(t, true, 12) + positions(t, false, 12)
}

/// The edge permutation of the sample state of `c`: `choice_order(c)`, with
/// its first two entries exchanged when that makes it even.
pub open spec fn choice_perm(c: int) -> Seq<int> {
    if is_even_perm(choice_order(c)) {
        choice_order(c)
    } else {
        swap_seq(choice_order(c), 0, 1)
    }
}

/// The sample state of the coordinate `c`: the four edges of the slice at
/// the chosen positions, the others after them, no edge turned, the corners
/// solved.
pub open spec fn choice_sample(c: int) -> State {
    slice_state(choice_perm(c))
}

/// `choice_order(c)` is a permutation of the twelve positions whose first
/// four entries are the chosen positions.
proof fn lemma_choice_order(c: int)
    requires
        0 <= c < 495,
    ensures
        choice_order(c).len() == 12,
        is_perm(choice_order(c)),
        forall|p: int|
            0 <= p < 12 ==> (choice_unrank(c, 12, 4)[p] <==> (choice_order(c)[0] == p || choice_order(c)[1] == p
                || choice_order(c)[2] == p || choice_order(c)[3] == p)),
{
    lemma_binom_values();
    lemma_rank_unrank(c, 12, 4);
    let t = choice_unrank(c, 12, 4);
    let pt = positions(t, true, 12);
    let pf = positions(t, false, 12);
    lemma_positions(t, true, 12);
    lemma_positions(t, false, 12);
    let o = choice_order(c);
    assert(o =~= pt + pf);
    assert forall|i: int| 0 <= i < o.len() implies 0 <= #[trigger] o[i] < o.len() by {
        if i < 4 {
            assert(o[i] == pt[i]);
        } else {
            assert(o[i] == pf[i - 4]);
        }
    }
    assert forall|i: int, j: int| 0 <= i < o.len() && 0 <= j < o.len() && i != j implies o[i] != o[j] by {
        if i < 4 && j < 4 {
            if i < j {
                assert(pt[i] < pt[j]);
            } else {
                assert(pt[j] < pt[i]);
            }
        } else if i >= 4 && j >= 4 {
            if i < j {
                assert(pf[i - 4] < pf[j - 4]);
            } else {
                assert(pf[j - 4] < pf[i - 4]);
            }
        } else if i < 4 {
            assert(t[pt[i]] && !t[pf[j - 4]]);
        } else {
            assert(!t[pf[i - 4]] && t[pt[j]]);
        }
    }
    assert forall|p: int| 0 <= p < 12 implies (t[p] <==> (o[0] == p || o[1] == p || o[2] == p || o[3] == p)) by {
        if t[p] {
            assert(pt.contains(p));
            let j = choose|j: int| 0 <= j < pt.len() && pt[j] == p;
            assert(o[j] == p);
        }
        if o[0] == p {
            assert(t[pt[0]]);
        }
        if o[1] == p {
            assert(t[pt[1]]);
        }
        if o[2] == p {
            assert(t[pt[2]]);
        }
        if o[3] == p {
            assert(t[pt[3]]);
        }
    }
}

/// `choice_perm(c)` is an even permutation of the twelve positions whose
/// first four entries are the chosen positions.
proof fn lemma_choice_perm(c: int)
    requires
        0 <= c < 495,
    ensures
        choice_perm(c).len() == 12,
        is_perm(choice_perm(c)),
        is_even_perm(choice_perm(c)),
        forall|p: int|
            0 <= p < 12 ==> (choice_unrank(c, 12, 4)[p] <==> (choice_perm(c)[0] == p || choice_perm(c)[1] == p
                || choice_perm(c)[2] == p || choice_perm(c)[3] == p)),
{
    lemma_choice_order(c);
    let o = choice_order(c);
    if !is_even_perm(o) {
        assert(distinct(o));
        lemma_inversions_swap(o, 0, 1);
        lemma_swap_perm(o, 0, 1);
        let q = swap_seq(o, 0, 1);
        assert(q[0] == o[1] && q[1] == o[0] && q[2] == o[2] && q[3] == o[3]);
    }
}

/// The coordinate of the sample state of each value below `12 choose 4` is
/// that value.
pub proof fn lemma_choice_roundtrip(c: int)
    requires
        0 <= c < 495,
    ensures
        forall|i: u64| i < 4 ==> #[trigger] choice_sample(c).spec_ep(i) < 12,
        choice_rank(taken_of(choice_sample(c)), 4) == c,
{
    lemma_choice_perm(c);
    lemma_binom_values();
    lemma_rank_unrank(c, 12, 4);
    let pm = choice_perm(c);
    let s = choice_sample(c);
    lemma_slice_state_pieces(pm);
    assert(s.spec_ep(0) == pm[0] && s.spec_ep(1) == pm[1] && s.spec_ep(2) == pm[2] && s.spec_ep(3) == pm[3]);
    assert(taken_of(s) =~= choice_unrank(c, 12, 4));
}

/// The sample state of each value below `12 choose 4` is valid.
pub proof fn lemma_choice_sample_valid(c: int)
    requires
        0 <= c < 495,
    ensures
        choice_sample(c).spec_valid(),
{
    lemma_choice_perm(c);
    lemma_slice_state_valid(choice_perm(c));
}

/// A choice with at least `k` chosen positions has a rank below the number
/// of choices of `k` positions.
proof fn lemma_rank_strict(t: Seq<bool>, k: nat)
    requires
        k <= chosen_count(t, t.len()),
    ensures
        choice_rank(t, k) < binom(t.len(), k),
    decreases t.len(),
{
    if t.len() > 0 && k > 0 {
        let rest = t.drop_first();
        assert(t =~= seq![t[0]] + rest);
        lemma_count_front(t[0], rest, rest.len());
        lemma_rank_bound(rest, (k - 1) as nat);
        if t[0] {
            lemma_rank_strict(rest, (k - 1) as nat);
        } else {
            lemma_rank_strict(rest, k);
        }
    }
}

/// How many of the positions `e` are below `n`.
spec fn count_below(e: Seq<int>, n: int) -> nat {
    (if e[0] < n { 1nat } else { 0nat }) + (if e[1] < n { 1nat } else { 0nat }) + (if e[2] < n {
        1nat
    } else {
        0nat
    }) + (if e[3] < n { 1nat } else { 0nat })
}

/// When the first four edges are at distinct positions, the positions below
/// `n` that they take are those of them that are below `n`.
proof fn lemma_taken_count(s: State, n: nat)
    requires
        n <= 12,
        forall|i: u64, j: u64| i < 4 && j < 4 && i != j ==> s.spec_ep(i) != s.spec_ep(j),
    ensures
        chosen_count(taken_of(s), n) == count_below(
            seq![s.spec_ep(0) as int, s.spec_ep(1) as int, s.spec_ep(2) as int, s.spec_ep(3) as int],
            n as int,
        ),
    decreases n,
{
    if n > 0 {
        lemma_taken_count(s, (n - 1) as nat);
        assert(s.spec_ep(0) != s.spec_ep(1) && s.spec_ep(0) != s.spec_ep(2) && s.spec_ep(0) != s.spec_ep(3));
        assert(s.spec_ep(1) != s.spec_ep(2) && s.spec_ep(1) != s.spec_ep(3) && s.spec_ep(2) != s.spec_ep(3));
    }
}

/// The coordinate of a state whose first four edges are at four distinct
/// positions is below `12 choose 4`.
pub proof fn lemma_choice_closed(s: State)
    requires
        forall|i: u64| i < 4 ==> #[trigger] s.spec_ep(i) < 12,
        forall|i: u64, j: u64| i < 4 && j < 4 && i != j ==> s.spec_ep(i) != s.spec_ep(j),
    ensures
        choice_rank(taken_of(s), 4) < 495,
{
    lemma_taken_count(s, 12);
    assert(s.spec_ep(0) < 12 && s.spec_ep(1) < 12 && s.spec_ep(2) < 12 && s.spec_ep(3) < 12);
    lemma_rank_strict(taken_of(s), 4);
    lemma_binom_values();
}

/// The coordinate of the positions of the four edges of the slice between
/// faces L and R: which positions they take, as a choice of 4 among 12.
#[derive(Debug, PartialEq, Eq, Clone, Copy, Structural)]
pub struct LR {
    coord: u16,
}

impl View for LR {
    type V = u16;

    closed spec fn view(&self) -> u16 {
        self.coord
    }
}

impl LR {
    /// The number of values of the coordinate, `12 choose 4`.
    pub const COUNT: u16 = 495;

    /// The coordinate of the positions taken by the first four edges of
    /// `state`.
    pub fn from_state(state: &State) -> (r: Self)
        requires
            forall|i: u64| i < 4 ==> #[trigger] state.spec_ep(i) < 12,
        ensures
            r@ == choice_rank(taken_of(*state), 4),
    {
        let mut taken: [bool; 12] = [false; 12];
        taken[state.ep(0) as usize] = true;
        taken[state.ep(1) as usize] = true;
        taken[state.ep(2) as usize] = true;
        taken[state.ep(3) as usize] = true;
        let ghost t = taken_of(*state);
        assert(taken@ =~= t);
        proof {
            lemma_rank_bound(t, 4);
            lemma_binom_values();
        }
        let mut n: usize = 12;
        let mut k: usize = 4;
        let mut coord: u16 = 0;
        let mut p: usize = 0;
        assert(t.subrange(0, 12) =~= t);
        while p < 12 && k > 0
            invariant
                p <= 12,
                n == 12 - p,
                k <= 4,
                taken@ == t,
                t.len() == 12,
                choice_rank(t, 4) <= 495,
                coord + choice_rank(t.subrange(p as int, 12), k as nat) == choice_rank(t, 4),
            decreases 12 - p,
        {
            let ghost rest = t.subrange(p as int, 12);
            let ghost next = t.subrange(p + 1, 12);
            assert(rest.drop_first() =~= next);
            assert(rest[0] == t[p as int]);
            proof {
                lemma_rank_bound(next, k as nat);
                lemma_rank_bound(next, (k - 1) as nat);
                lemma_binom_entries(n - 1, k - 1);
            }
            if taken[p] {
                k -= 1;
            } else {
                coord += BINOM[4 * (n - 1) + (k - 1)];
            }
            n -= 1;
            p += 1;
        }
        Self { coord }
    }

    /// Whether the permutation `perm` of the twelve positions is even.
    fn is_even(perm: [u8; 12]) -> (r: bool)
        requires
            is_perm(bytes_as_ints(perm@)),
        ensures
            r == is_even_perm(bytes_as_ints(perm@)),
    {
        is_even_array(perm)
    }

    /// A state of this coordinate: the four edges of the slice at the chosen
    /// positions, in order, the other edges after them, in order, the first
    /// two exchanged when that makes the permutation even; no edge turned and
    /// the corners solved.
    pub fn sample_state(&self) -> (r: State)
        requires
            self@ < 495,
        ensures
            r == choice_sample(self@ as int),
    {
        let ghost c = self.coord as int;
        let ghost t = choice_unrank(c, 12, 4);
        proof {
            lemma_binom_values();
            lemma_rank_unrank(c, 12, 4);
        }
        let mut taken: [bool; 12] = [false; 12];
        let mut n: usize = 12;
        let mut k: usize = 4;
        let mut coord: u16 = self.coord;
        assert(t.subrange(0, 12) =~= t);
        while k > 0
            invariant
                n <= 12,
                k <= 4,
                t.len() == 12,
                coord < binom(n as nat, k as nat),
                choice_unrank(coord as int, n as nat, k as nat) == t.subrange(12 - n, 12),
                forall|j: int| 0 <= j < 12 - n ==> taken@[j] == t[j],
                forall|j: int| 12 - n <= j < 12 ==> !taken@[j],
            decreases n,
        {
            proof {
                if n == 0 {
                    assert(binom(0, k as nat) == 0);
                }
                lemma_binom_entries(n - 1, k - 1);
                assert(binom(n as nat, k as nat) == binom((n - 1) as nat, (k - 1) as nat) + binom(
                    (n - 1) as nat,
                    k as nat,
                ));
            }
            let b = BINOM[4 * (n - 1) + (k - 1)];
            let ghost rest = t.subrange(12 - n, 12);
            let ghost next = t.subrange(13 - n, 12);
            assert(rest.drop_first() =~= next);
            assert(rest[0] == t[12 - n]);
            if coord >= b {
                let ghost u = choice_unrank(coord - b, (n - 1) as nat, k as nat);
                assert((seq![false] + u).drop_first() =~= u);
                coord -= b;
            } else {
                let ghost u = choice_unrank(coord as int, (n - 1) as nat, (k - 1) as nat);
                assert((seq![true] + u).drop_first() =~= u);
                taken[12 - n] = true;
                k -= 1;
            }
            n -= 1;
        }
        assert(taken@ =~= t) by {
            assert forall|j: int| 12 - n <= j < 12 implies !t[j] by {
                assert(t.subrange(12 - n, 12)[j - (12 - n)] == t[j]);
            }
        }
        let mut perm: [u8; 12] = [0; 12];
        let mut ti: usize = 0;
        let mut nti: usize = 4;
        let mut i: usize = 0;
        while i < 12
            invariant
                i <= 12,
                taken@ == t,
                t.len() == 12,
                chosen_count(t, 12) == 4,
                ti == chosen_count(t, i as nat),
                nti == 4 + i - chosen_count(t, i as nat),
                forall|j: int| 0 <= j < ti ==> perm@[j] == positions(t, true, i as nat)[j],
                forall|j: int| 4 <= j < nti ==> perm@[j] == positions(t, false, i as nat)[j - 4],
            decreases 12 - i,
        {
            proof {
                lemma_positions(t, true, i as nat);
                lemma_positions(t, false, i as nat);
                lemma_count_mono(t, (i + 1) as nat, 12);
                lemma_count_mono(t, i as nat, (i + 1) as nat);
            }
            if taken[i] {
                perm[ti] = i as u8;
                ti += 1;
            } else {
                perm[nti] = i as u8;
                nti += 1;
            }
            i += 1;
        }
        proof {
            lemma_positions(t, true, 12);
            lemma_positions(t, false, 12);
            lemma_choice_order(c);
        }
        assert(bytes_as_ints(perm@) =~= choice_order(c));
        if !Self::is_even(perm) {
            let a = perm[0];
            perm[0] = perm[1];
            perm[1] = a;
        }
        proof {
            lemma_choice_perm(c);
        }
        assert(bytes_as_ints(perm@) =~= choice_perm(c));
        assert forall|j: int| 0 <= j < 12 implies #[trigger] perm[j] < 12 by {
            assert(bytes_as_ints(perm@)[j] == perm[j]);
        }
        State { corners: State::ID().corners, edges: slice_edges(&perm) }
    }

    /// The coordinate of value `repr`.
    pub fn from_repr(repr: u16) -> (r: Self)
        ensures
            r@ == repr,
    {
        Self { coord: repr }
    }

    /// The value of the coordinate.
    pub fn repr(&self) -> (r: u16)
        ensures
            r == self@,
    {
        self.coord
    }
}

} // verus!
