use vstd::prelude::*;
use crate::cube_core::bits::pack5;
use crate::cube_core::state::State;
use crate::permutation::{bytes_as_ints, distinct, inversions, is_even_perm, is_perm, lemma_inversions_swap, swap_seq};
use crate::cube_core::bits::lemma_small_fields;
use crate::cube_core::state::{sum_co, sum_eo};
use crate::algebra::coord::ori::{
    eo_bits, eo_sample, lemma_eo_roundtrip, lemma_eo_sample_pieces, lemma_eo_sample_valid, lemma_id_corners_sum,
    lemma_in_place_valid, EO,
};
use crate::cube_core::state::lemma_mul_pieces;

verus! {

/// `LR_BINOM[5 * n + k]` is the binomial coefficient `(n choose k - 1)`, and
/// 0 for `k == 0`.
pub const LR_BINOM: [u16; 60] = [
    0, 1, 0, 0, 0, 0, 1, 1, 0, 0, 0, 1, 2, 1, 0, 0, 1, 3, 3, 1, 0, 1, 4, 6, 4, 0, 1, 5, 10, 10,
    0, 1, 6, 15, 20, 0, 1, 7, 21, 35, 0, 1, 8, 28, 56, 0, 1, 9, 36, 84, 0, 1, 10, 45, 120, 0,
    1, 11, 55, 165,
];

/// The number of the first `n` edges of `s` that are in the slice between
/// faces L and R (at positions 0 to 3).
pub open spec fn lr_slice_count(s: State, n: nat) -> int
    decreases n,
{
    if n == 0 {
        0
    } else {
        lr_slice_count(s, (n - 1) as nat) + if s.spec_ep((n - 1) as u64) < 4 {
            1int
        } else {
            0int
        }
    }
}

/// The slice coordinate read from the first `n` edges: each edge outside the
/// slice adds the number of ways to place the slice edges still to come after
/// it.
pub open spec fn lr_value(s: State, n: nat) -> int
    decreases n,
{
    if n == 0 {
        0
    } else {
        let j = (n - 1) as nat;
        lr_value(s, j) + if s.spec_ep(j as u64) < 4 {
            0int
        } else {
            LR_BINOM[5 * (11 - j) + 4 - lr_slice_count(s, j)] as int
        }
    }
}

/// The state of the decoding of the slice coordinate `c` after `i` edges:
/// the number of slice edges left to place, what is left of the code, the
/// permutation built so far, whether it is even, and the edges placed in the
/// slice so far, in order.
pub open spec fn lr_run(c: int, i: nat) -> (int, int, Seq<int>, bool, Seq<int>)
    decreases i,
{
    if i == 0 {
        (4, c, Seq::new(12, |j: int| j), true, seq![0int, 0, 0, 0])
    } else {
        let j = (i - 1) as nat;
        let (k, r, p, even, pos) = lr_run(c, j);
        let b = LR_BINOM[5 * (11 - j) + k] as int;
        if r >= b {
            (k, r - b, swap_seq(p, j as int, j + k), even != (b > 0), pos)
        } else {
            (k - 1, r, p, even, pos.update(4 - k, j as int))
        }
    }
}

/// The edge permutation of the sample state of the slice coordinate `c`:
/// the one that the decoding builds, made even by exchanging the first two
/// edges placed in the slice.
pub open spec fn lr_perm(c: int) -> Seq<int> {
    let (k, r, p, even, pos) = lr_run(c, 12);
    if even {
        p
    } else {
        swap_seq(p, pos[0], pos[1])
    }
}

/// The state with the corners of the solved cube and edge `i` at position
/// `p[i]`, unturned.
pub open spec fn slice_state(p: Seq<int>) -> State {
    State {
        corners: State::spec_id().corners,
        edges: pack5(|i: u64| (p[i as int] as u64) << 1u64, 12),
    }
}

/// The sample state of the slice coordinate `c`.
pub open spec fn lr_sample(c: int) -> State {
    slice_state(lr_perm(c))
}

/// The coordinate of the positions of the four edges of the slice between
/// faces L and R: which edges are there, as a combination of 4 among 12.
#[derive(Debug, PartialEq, Eq, Clone, Copy, Structural)]
pub struct LR {
    coord: u16,
}

impl View for LR {
    type V = u16;

    closed spec fn view(&self) -> u16 {
        self.coord
    }
}

impl LR {
    /// The number of values of the coordinate, `12 choose 4`.
    pub const NUM_RAW: u16 = 495;

    /// The slice coordinate of a state with at most four edges in the slice.
    pub fn from_state(state: &State) -> (r: Self)
        requires
            lr_slice_count(*state, 12) <= 4,
        ensures
            r@ == lr_value(*state, 12),
    {
        let mut k: usize = 4;
        let mut coord: u16 = 0;
        let mut i: u8 = 0;
        while i < 12
            invariant
                i <= 12,
                lr_slice_count(*state, 12) <= 4,
                0 <= lr_slice_count(*state, i as nat) <= 4,
                k == 4 - lr_slice_count(*state, i as nat),
                coord == lr_value(*state, i as nat),
                coord <= 165 * i,
            decreases 12 - i,
        {
            proof {
                lemma_slice_count_mono(*state, (i + 1) as nat, 12);
                lemma_binom_table_bound(5 * (11 - i) + k);
            }
            if state.ep(i) < 4 {
                k -= 1;
            } else {
                coord += LR_BINOM[5 * (11 - i as usize) + k];
            }
            i += 1;
        }
        Self { coord }
    }

    /// The coordinate of value `repr`.
    pub fn from_coord(repr: u16) -> (r: Self)
        ensures
            r@ == repr,
    {
        Self { coord: repr }
    }

    /// The value of the coordinate.
    pub fn coord(&self) -> (r: u16)
        ensures
            r == self@,
    {
        self.coord
    }
}

/// The count of slice edges only grows.
proof fn lemma_slice_count_mono(s: State, a: nat, b: nat)
    requires
        a <= b,
    ensures
        lr_slice_count(s, a) <= lr_slice_count(s, b),
        0 <= lr_slice_count(s, a),
    decreases b,
{
    if a < b {
        lemma_slice_count_mono(s, a, (b - 1) as nat);
    } else if a > 0 {
        lemma_slice_count_mono(s, (a - 1) as nat, (a - 1) as nat);
    }
}

/// The entries of the table are at most 165.
proof fn lemma_binom_table_bound(i: int)
    requires
        0 <= i < 60,
    ensures
        LR_BINOM[i] <= 165,
{
}

/// `n choose k`.
pub open spec fn binom(n: nat, k: nat) -> nat
    decreases n,
{
    if k == 0 {
        1
    } else if n == 0 {
        0
    } else {
        binom((n - 1) as nat, (k - 1) as nat) + binom((n - 1) as nat, k)
    }
}

/// The binomial coefficients `n choose k` for `n <= 12` and `k <= 4`.
pub(crate) proof fn lemma_binom_values()
    ensures
        binom(0, 0) == 1, binom(0, 1) == 0, binom(0, 2) == 0, binom(0, 3) == 0, binom(0, 4) == 0,
        binom(1, 0) == 1, binom(1, 1) == 1, binom(1, 2) == 0, binom(1, 3) == 0, binom(1, 4) == 0,
        binom(2, 0) == 1, binom(2, 1) == 2, binom(2, 2) == 1, binom(2, 3) == 0, binom(2, 4) == 0,
        binom(3, 0) == 1, binom(3, 1) == 3, binom(3, 2) == 3, binom(3, 3) == 1, binom(3, 4) == 0,
        binom(4, 0) == 1, binom(4, 1) == 4, binom(4, 2) == 6, binom(4, 3) == 4, binom(4, 4) == 1,
        binom(5, 0) == 1, binom(5, 1) == 5, binom(5, 2) == 10, binom(5, 3) == 10, binom(5, 4) == 5,
        binom(6, 0) == 1, binom(6, 1) == 6, binom(6, 2) == 15, binom(6, 3) == 20, binom(6, 4) == 15,
        binom(7, 0) == 1, binom(7, 1) == 7, binom(7, 2) == 21, binom(7, 3) == 35, binom(7, 4) == 35,
        binom(8, 0) == 1, binom(8, 1) == 8, binom(8, 2) == 28, binom(8, 3) == 56, binom(8, 4) == 70,
        binom(9, 0) == 1, binom(9, 1) == 9, binom(9, 2) == 36, binom(9, 3) == 84, binom(9, 4) == 126,
        binom(10, 0) == 1, binom(10, 1) == 10, binom(10, 2) == 45, binom(10, 3) == 120, binom(10, 4) == 210,
        binom(11, 0) == 1, binom(11, 1) == 11, binom(11, 2) == 55, binom(11, 3) == 165, binom(11, 4) == 330,
        binom(12, 0) == 1, binom(12, 1) == 12, binom(12, 2) == 66, binom(12, 3) == 220, binom(12, 4) == 495,
{
    assert(binom(0, 0) == 1);
    assert(binom(0, 1) == 0);
    assert(binom(0, 2) == 0);
    assert(binom(0, 3) == 0);
    assert(binom(0, 4) == 0);
    assert(binom(1, 0) == 1);
    assert(binom(1, 1) == 1);
    assert(binom(1, 2) == 0);
    assert(binom(1, 3) == 0);
    assert(binom(1, 4) == 0);
    assert(binom(2, 0) == 1);
    assert(binom(2, 1) == 2);
    assert(binom(2, 2) == 1);
    assert(binom(2, 3) == 0);
    assert(binom(2, 4) == 0);
    assert(binom(3, 0) == 1);
    assert(binom(3, 1) == 3);
    assert(binom(3, 2) == 3);
    assert(binom(3, 3) == 1);
    assert(binom(3, 4) == 0);
    assert(binom(4, 0) == 1);
    assert(binom(4, 1) == 4);
    assert(binom(4, 2) == 6);
    assert(binom(4, 3) == 4);
    assert(binom(4, 4) == 1);
    assert(binom(5, 0) == 1);
    assert(binom(5, 1) == 5);
    assert(binom(5, 2) == 10);
    assert(binom(5, 3) == 10);
    assert(binom(5, 4) == 5);
    assert(binom(6, 0) == 1);
    assert(binom(6, 1) == 6);
    assert(binom(6, 2) == 15);
    assert(binom(6, 3) == 20);
    assert(binom(6, 4) == 15);
    assert(binom(7, 0) == 1);
    assert(binom(7, 1) == 7);
    assert(binom(7, 2) == 21);
    assert(binom(7, 3) == 35);
    assert(binom(7, 4) == 35);
    assert(binom(8, 0) == 1);
    assert(binom(8, 1) == 8);
    assert(binom(8, 2) == 28);
    assert(binom(8, 3) == 56);
    assert(binom(8, 4) == 70);
    assert(binom(9, 0) == 1);
    assert(binom(9, 1) == 9);
    assert(binom(9, 2) == 36);
    assert(binom(9, 3) == 84);
    assert(binom(9, 4) == 126);
    assert(binom(10, 0) == 1);
    assert(binom(10, 1) == 10);
    assert(binom(10, 2) == 45);
    assert(binom(10, 3) == 120);
    assert(binom(10, 4) == 210);
    assert(binom(11, 0) == 1);
    assert(binom(11, 1) == 11);
    assert(binom(11, 2) == 55);
    assert(binom(11, 3) == 165);
    assert(binom(11, 4) == 330);
    assert(binom(12, 0) == 1);
    assert(binom(12, 1) == 12);
    assert(binom(12, 2) == 66);
    assert(binom(12, 3) == 220);
    assert(binom(12, 4) == 495);
}

/// No way to choose more than there is.
pub(crate) proof fn lemma_binom_zero(n: nat, k: nat)
    requires
        k > n,
    ensures
        binom(n, k) == 0,
    decreases n,
{
    if n > 0 {
        lemma_binom_zero((n - 1) as nat, (k - 1) as nat);
        lemma_binom_zero((n - 1) as nat, k);
    }
}

/// The table holds the binomial coefficients `n choose k - 1`, and 0 for
/// `k == 0`.
proof fn lemma_binom_table(n: int, k: int)
    requires
        0 <= n < 12,
        0 <= k <= 4,
    ensures
        LR_BINOM[5 * n + k] == if k == 0 {
            0
        } else {
            binom(n as nat, (k - 1) as nat)
        },
{
    lemma_binom_values();
}

impl LR {
    /// A state of this coordinate: the edges that the coordinate places in
    /// the slice go there (in order), the others fill the other positions, the
    /// permutation is made even by exchanging the first two slice edges when
    /// needed, and the corners are in place.
    pub fn sample_state(&self) -> (r: State)
        requires
            self@ < 495,
        ensures
            r == lr_sample(self@ as int),
            r.spec_valid(),
            lr_slice_count(r, 12) == 4,
            lr_value(r, 12) == self@,
    {
        proof {
            lemma_lr_roundtrip(self@ as int);
            lemma_lr_sample_valid(self@ as int);
        }
        let ghost c = self.coord as int;
        let mut k: usize = 4;
        let mut coord: u16 = self.coord;
        let mut perm: [u8; 12] = [0, 1, 2, 3, 4, 5, 6, 7, 8, 9, 10, 11];
        let mut even = true;
        let mut pos: [usize; 4] = [0, 0, 0, 0];
        let mut i: usize = 0;
        proof {
            lemma_binom_values();
            assert(lr_run(c, 0).2 =~= Seq::new(12, |j: int| j));
        }
        while i < 12
            invariant
                i <= 12,
                k <= 4,
                k <= 12 - i,
                coord < binom((12 - i) as nat, k as nat),
                k as int == lr_run(c, i as nat).0,
                coord as int == lr_run(c, i as nat).1,
                even == lr_run(c, i as nat).3,
                lr_run(c, i as nat).2.len() == 12,
                forall|j: int| 0 <= j < 12 ==> #[trigger] perm[j] as int == lr_run(c, i as nat).2[j],
                lr_run(c, i as nat).4.len() == 4,
                forall|j: int| 0 <= j < 4 ==> #[trigger] pos[j] as int == lr_run(c, i as nat).4[j],
                forall|j: int| 0 <= j < 4 ==> #[trigger] pos[j] < 12,
            decreases 12 - i,
        {
            let binom_ik = LR_BINOM[5 * (11 - i) + k];
            let ghost run = lr_run(c, i as nat);
            proof {
                lemma_binom_table(11 - i, k as int);
                if k > 0 {
                    assert(binom((12 - i) as nat, k as nat) == binom((11 - i) as nat, (k - 1) as nat)
                        + binom((11 - i) as nat, k as nat));
                }
                if k > 11 - i {
                    lemma_binom_zero((11 - i) as nat, k as nat);
                }
                if k > 0 && k - 1 > 11 - i {
                    lemma_binom_zero((11 - i) as nat, (k - 1) as nat);
                }
            }
            if coord >= binom_ik {
                let t = perm[i];
                perm[i] = perm[i + k];
                perm[i + k] = t;
                even = even != (binom_ik > 0);
                coord -= binom_ik;
                proof {
                    let q = swap_seq(run.2, i as int, i + k);
                    assert forall|j: int| 0 <= j < 12 implies #[trigger] perm[j] as int == q[j] by {
                    }
                }
            } else {
                pos[4 - k] = i;
                k -= 1;
            }
            i += 1;
        }
        if !even {
            let a = pos[0];
            let b = pos[1];
            let t = perm[a];
            perm[a] = perm[b];
            perm[b] = t;
        }
        let ghost fp = lr_perm(c);
        assert forall|j: int| 0 <= j < 12 implies #[trigger] perm[j] as int == fp[j] by {
        }
        assert(bytes_as_ints(perm@) =~= fp);
        proof {
            lemma_lr_perm(c);
        }
        assert forall|j: int| 0 <= j < 12 implies #[trigger] perm[j] < 12 by {
            assert(fp[j] < 12);
        }
        State { corners: State::ID().corners, edges: slice_edges(&perm) }
    }
}

/// The edges of `slice_state(perm)`, packed field by field.
pub(crate) fn slice_edges(perm: &[u8; 12]) -> (r: u64)
    requires
        forall|j: int| 0 <= j < 12 ==> #[trigger] perm[j] < 12,
    ensures
        r == slice_state(bytes_as_ints(perm@)).edges,
{
    let ghost p = bytes_as_ints(perm@);
    let ghost f = |i: u64| (p[i as int] as u64) << 1u64;
    let mut edges: u64 = 0;
    let mut i: u64 = 0;
    while i < 12
        invariant
            i <= 12,
            p == bytes_as_ints(perm@),
            f == (|i: u64| (p[i as int] as u64) << 1u64),
            edges == pack5(f, i as nat),
        decreases 12 - i,
    {
        let x = perm[i as usize] as u64;
        proof {
            lemma_shift_split(x, i);
            assert(p[i as int] == x);
        }
        edges |= x << (5 * i + 1);
        i += 1;
    }
    edges
}

/// Shifting by one, then by a field's offset.
proof fn lemma_shift_split(x: u64, i: u64)
    by (bit_vector)
    requires
        i < 12,
    ensures
        (x << 1u64) << ((5 * i) as u64) == x << ((5 * i + 1) as u64),
{
}

/// Whether the decoding of `c` places edge `j` in the slice.
pub open spec fn lr_marked(c: int, j: nat) -> bool {
    lr_run(c, j + 1).0 < lr_run(c, j).0
}

/// The number of the first `i` edges that the decoding of `c` places in the
/// slice.
pub open spec fn lr_marked_count(c: int, i: nat) -> int
    decreases i,
{
    if i == 0 {
        0
    } else {
        lr_marked_count(c, (i - 1) as nat) + if lr_marked(c, (i - 1) as nat) {
            1int
        } else {
            0int
        }
    }
}

/// The part of `c` that the decoding has taken up after `i` edges.
pub open spec fn lr_decoded(c: int, i: nat) -> int
    decreases i,
{
    if i == 0 {
        0
    } else {
        let j = (i - 1) as nat;
        lr_decoded(c, j) + if lr_marked(c, j) {
            0int
        } else {
            LR_BINOM[5 * (11 - j) + lr_run(c, j).0] as int
        }
    }
}

/// One can choose `k` among `n` when `k <= n`.
pub(crate) proof fn lemma_binom_pos(n: nat, k: nat)
    requires
        k <= n,
    ensures
        binom(n, k) >= 1,
    decreases n,
{
    if k > 0 && n > 0 {
        lemma_binom_pos((n - 1) as nat, (k - 1) as nat);
    }
}

/// What holds after `i` steps of the decoding of a code below `12 choose 4`:
/// `k` slice edges are left to place, in the window of positions `i .. i + k`,
/// the code left fits the ways to place them, the permutation holds the slice
/// edges exactly at the marked positions and in the window, the positions
/// past the window are untouched, the marked positions are recorded in order,
/// and the parity of the permutation is tracked.
#[verifier::spinoff_prover]
#[verifier::rlimit(40)]
proof fn lemma_lr_run(c: int, i: nat)
    requires
        0 <= c < 495,
        i <= 12,
    ensures
        ({
            let (k, r, p, even, pos) = lr_run(c, i);
            &&& 0 <= k <= 4
            &&& k <= 12 - i
            &&& 0 <= r < binom((12 - i) as nat, k as nat)
            &&& k == 4 - lr_marked_count(c, i)
            &&& r == c - lr_decoded(c, i)
            &&& p.len() == 12
            &&& forall|j: int| 0 <= j < 12 ==> 0 <= #[trigger] p[j] < 12
            &&& distinct(p)
            &&& forall|j: int|
                0 <= j < 12 ==> ((#[trigger] p[j] < 4) <==> ((j < i && lr_marked(c, j as nat)) || (i <= j
                    < i + k)))
            &&& forall|j: int| i + k <= j < 12 ==> #[trigger] p[j] == j
            &&& pos.len() == 4
            &&& forall|t: int| 0 <= t < 4 - k ==> 0 <= #[trigger] pos[t] < i && lr_marked(c, pos[t] as nat)
            &&& forall|t1: int, t2: int| 0 <= t1 < t2 < 4 - k ==> pos[t1] < pos[t2]
            &&& is_even_perm(p) == even
        }),
    decreases i,
{
    lemma_binom_values();
    if i == 0 {
        let p = Seq::new(12, |j: int| j);
        crate::permutation::lemma_sorted_inversions(p);
    } else {
        let j = (i - 1) as nat;
        lemma_lr_run(c, j);
        lemma_lr_marked_count_le(c, j);
        let (k, r, p, even, pos) = lr_run(c, j);
        let b = LR_BINOM[5 * (11 - j) + k] as int;
        lemma_binom_table(11 - j, k);
        if k > 0 {
            assert(binom((12 - j) as nat, k as nat) == binom((11 - j) as nat, (k - 1) as nat) + binom(
                (11 - j) as nat,
                k as nat,
            ));
        }
        if k > 11 - j {
            lemma_binom_zero((11 - j) as nat, k as nat);
        }
        if k > 0 && k - 1 > 11 - j {
            lemma_binom_zero((11 - j) as nat, (k - 1) as nat);
        }
        if r >= b {
            assert(!lr_marked(c, j));
            let q = swap_seq(p, j as int, j + k);
            if k > 0 {
                lemma_binom_pos((11 - j) as nat, (k - 1) as nat);
                lemma_inversions_swap(p, j as int, j + k);
                assert(p[j + k] == j + k);
                assert(distinct(q)) by {
                    assert forall|a: int, b2: int| 0 <= a < 12 && 0 <= b2 < 12 && a != b2 implies q[a] != q[b2] by {
                        let pa = if a == j { j + k } else if a == j + k { j as int } else { a };
                        let pb = if b2 == j { j + k } else if b2 == j + k { j as int } else { b2 };
                        assert(q[a] == p[pa] && q[b2] == p[pb]);
                    }
                }
            } else {
                assert(q =~= p);
            }
            assert forall|t: int| 0 <= t < 12 implies ((#[trigger] q[t] < 4) <==> ((t < i && lr_marked(c, t as nat)) || (i
                <= t < i + k))) by {
                if t < j {
                    assert(q[t] == p[t]);
                }
            }
        } else {
            assert(lr_marked(c, j));
        }
    }
}

/// At most `i` of the first `i` edges are marked.
proof fn lemma_lr_marked_count_le(c: int, i: nat)
    ensures
        0 <= lr_marked_count(c, i) <= i,
    decreases i,
{
    if i > 0 {
        lemma_lr_marked_count_le(c, (i - 1) as nat);
    }
}

/// The final permutation of the decoding of a code below `12 choose 4`: a
/// permutation of the twelve positions, even, whose slice positions are the
/// marked ones; and the decoding takes up the whole code.
proof fn lemma_lr_perm(c: int)
    requires
        0 <= c < 495,
    ensures
        is_perm(lr_perm(c)),
        is_even_perm(lr_perm(c)),
        lr_perm(c).len() == 12,
        forall|j: int| 0 <= j < 12 ==> ((#[trigger] lr_perm(c)[j] < 4) <==> lr_marked(c, j as nat)),
        lr_decoded(c, 12) == c,
        lr_marked_count(c, 12) == 4,
{
    lemma_lr_run(c, 12);
    lemma_binom_values();
    let (k, r, p, even, pos) = lr_run(c, 12);
    if k > 0 {
        lemma_binom_zero(0, k as nat);
    }
    assert(k == 0);
    let fp = lr_perm(c);
    if !even {
        let a = pos[0];
        let b = pos[1];
        assert(a < b);
        lemma_inversions_swap(p, a, b);
        assert(distinct(fp)) by {
            assert forall|x: int, y: int| 0 <= x < 12 && 0 <= y < 12 && x != y implies fp[x] != fp[y] by {
                let px = if x == a { b } else if x == b { a } else { x };
                let py = if y == a { b } else if y == b { a } else { y };
                assert(fp[x] == p[px] && fp[y] == p[py]);
            }
        }
        assert forall|j: int| 0 <= j < 12 implies ((#[trigger] fp[j] < 4) <==> lr_marked(c, j as nat)) by {
            let pj = if j == a { b } else if j == b { a } else { j };
            assert(fp[j] == p[pj]);
        }
        assert forall|j: int| 0 <= j < 12 implies 0 <= #[trigger] fp[j] < 12 by {
            let pj = if j == a { b } else if j == b { a } else { j };
            assert(fp[j] == p[pj]);
        }
    }
}

/// The pieces of `slice_state(p)`: edge `j` is at position `p[j]`,
/// unturned.
pub(crate) proof fn lemma_slice_state_pieces(p: Seq<int>)
    requires
        p.len() == 12,
        forall|j: int| 0 <= j < 12 ==> 0 <= #[trigger] p[j] < 12,
    ensures
        forall|j: u64| j < 12 ==> #[trigger] slice_state(p).spec_ep(j) == p[j as int],
        forall|j: u64| j < 12 ==> #[trigger] slice_state(p).spec_eo(j) == 0,
{
    let f = |i: u64| (p[i as int] as u64) << 1u64;
    assert forall|j: u64| j < 12 implies #[trigger] f(j) < 32 by {
        let x = p[j as int] as u64;
        assert(0 <= p[j as int] < 12);
        assert(x < 16 ==> (x << 1u64) < 32) by (bit_vector);
    }
    crate::cube_core::bits::lemma_pack5(f, 12);
    assert forall|j: u64| #![trigger slice_state(p).spec_ep(j)] #![trigger slice_state(p).spec_eo(j)] j < 12 implies slice_state(p).spec_ep(j) == p[j as int]
        && slice_state(p).spec_eo(j) == 0 by {
        assert(crate::cube_core::bits::field5(slice_state(p).edges, j) == f(j));
        lemma_small_fields(p[j as int] as u64, 0);
    }
}

/// The pieces of the sample state of a code below `12 choose 4`: its edges
/// are at the positions of the final permutation, unturned; its corners are
/// those of the solved cube.
proof fn lemma_lr_sample_pieces(c: int)
    requires
        0 <= c < 495,
    ensures
        forall|j: u64| j < 12 ==> #[trigger] lr_sample(c).spec_ep(j) == lr_perm(c)[j as int],
        forall|j: u64| j < 12 ==> #[trigger] lr_sample(c).spec_eo(j) == 0,
{
    lemma_lr_perm(c);
    lemma_slice_state_pieces(lr_perm(c));
}

/// Reading the sample state back edge by edge follows the decoding.
proof fn lemma_lr_read_back(c: int, i: nat)
    requires
        0 <= c < 495,
        i <= 12,
    ensures
        lr_slice_count(lr_sample(c), i) == lr_marked_count(c, i),
        lr_value(lr_sample(c), i) == lr_decoded(c, i),
    decreases i,
{
    if i > 0 {
        let j = (i - 1) as nat;
        lemma_lr_read_back(c, j);
        lemma_lr_sample_pieces(c);
        lemma_lr_perm(c);
        lemma_lr_run(c, j);
        assert(lr_sample(c).spec_ep(j as u64) == lr_perm(c)[j as int]);
    }
}

/// The slice coordinate of the sample state of a code is that code, for each
/// of the `12 choose 4` codes.
pub proof fn lemma_lr_roundtrip(c: int)
    requires
        0 <= c < 495,
    ensures
        lr_slice_count(lr_sample(c), 12) == 4,
        lr_value(lr_sample(c), 12) == c,
{
    lemma_lr_read_back(c, 12);
    lemma_lr_perm(c);
}

/// The sample state of each code below `12 choose 4` is valid.
pub proof fn lemma_lr_sample_valid(c: int)
    requires
        0 <= c < 495,
    ensures
        lr_sample(c).spec_valid(),
{
    lemma_lr_perm(c);
    lemma_slice_state_valid(lr_perm(c));
}

/// `slice_state(p)` is valid when `p` is an even permutation of the twelve
/// positions.
pub(crate) proof fn lemma_slice_state_valid(p: Seq<int>)
    requires
        p.len() == 12,
        is_perm(p),
        is_even_perm(p),
    ensures
        slice_state(p).spec_valid(),
{
    let s = slice_state(p);
    lemma_slice_state_pieces(p);
    lemma_id_corners_sum(s, 8);
    lemma_slice_eo_sum(p, 12);
    let cp = s.corner_perm();
    assert forall|t: int| 0 <= t < cp.len() implies cp[t] == t by {
        assert(s.spec_cp(t as u64) == t);
    }
    crate::permutation::lemma_sorted_inversions(cp);
    assert(s.edge_perm() =~= p) by {
        assert forall|t: int| 0 <= t < 12 implies s.edge_perm()[t] == p[t] by {
            assert(s.spec_ep(t as u64) == p[t]);
        }
    }
    assert forall|i: u64| i < 8 implies #[trigger] s.spec_co(i) <= 2 by {
        assert(s.spec_co(i) == 0);
    }
    assert(is_perm(cp)) by {
        assert forall|a: int| 0 <= a < cp.len() implies 0 <= #[trigger] cp[a] < cp.len() by {
            assert(cp[a] == a);
        }
        assert forall|a: int, b: int| 0 <= a < cp.len() && 0 <= b < cp.len() && a != b implies cp[a] != cp[b] by {
            assert(cp[a] == a && cp[b] == b);
        }
    }
}

/// The edge orientations of `slice_state(p)` sum up to 0.
proof fn lemma_slice_eo_sum(p: Seq<int>, n: nat)
    requires
        p.len() == 12,
        forall|j: int| 0 <= j < 12 ==> 0 <= #[trigger] p[j] < 12,
        n <= 12,
    ensures
        sum_eo(slice_state(p), n) == 0,
    decreases n,
{
    if n > 0 {
        lemma_slice_eo_sum(p, (n - 1) as nat);
        lemma_slice_state_pieces(p);
        assert(slice_state(p).spec_eo((n - 1) as u64) == 0);
    }
}

/// The slice coordinate of a state with exactly four edges in the slice is
/// below `12 choose 4`: after `i` edges, what is taken up and the ways left
/// to place the slice edges still to come add up to at most `12 choose 4`.
pub proof fn lemma_lr_value_bound(s: State, i: nat)
    requires
        lr_slice_count(s, 12) == 4,
        i <= 12,
    ensures
        0 <= lr_value(s, i),
        lr_value(s, i) + binom((12 - i) as nat, (4 - lr_slice_count(s, i)) as nat) <= 495,
        0 <= lr_slice_count(s, i) <= 4,
        lr_slice_count(s, i) >= 4 - (12 - i),
    decreases i,
{
    lemma_binom_values();
    lemma_slice_count_mono(s, i, 12);
    if i > 0 {
        let j = (i - 1) as nat;
        lemma_lr_value_bound(s, j);
        lemma_slice_count_steps(s, i, 12);
        let k = 4 - lr_slice_count(s, j);
        lemma_binom_table(11 - j, k);
        if k > 0 {
            assert(binom((12 - j) as nat, k as nat) == binom((11 - j) as nat, (k - 1) as nat) + binom(
                (11 - j) as nat,
                k as nat,
            ));
        } else {
            assert(binom((12 - j) as nat, 0) == 1 && binom((11 - j) as nat, 0) == 1);
        }
    }
}

/// The count of slice edges grows by at most one per edge.
proof fn lemma_slice_count_steps(s: State, a: nat, b: nat)
    requires
        a <= b,
    ensures
        lr_slice_count(s, b) <= lr_slice_count(s, a) + (b - a),
    decreases b,
{
    if a < b {
        lemma_slice_count_steps(s, a, (b - 1) as nat);
    }
}

/// The slice coordinate of a state with exactly four edges in the slice is
/// below `12 choose 4`.
pub proof fn lemma_lr_closed(s: State)
    requires
        lr_slice_count(s, 12) == 4,
    ensures
        0 <= lr_value(s, 12) < 495,
{
    lemma_lr_value_bound(s, 12);
    lemma_binom_values();
}

/// The sample state of the combined coordinate `c`: the sample state of its
/// slice part, then that of its edge orientation part.
pub open spec fn eolr_sample(c: u32) -> State {
    lr_sample((c % 495) as int).spec_mul(eo_sample((c / 495) as u16))
}

/// The combined coordinate of the edge orientations and of the slice between
/// faces L and R: `eo * 495 + lr`.
#[derive(Debug, PartialEq, Eq, Clone, Copy, Structural)]
pub struct EOLR {
    coord: u32,
}

impl View for EOLR {
    type V = u32;

    closed spec fn view(&self) -> u32 {
        self.coord
    }
}

impl EOLR {
    /// The number of values of the coordinate, `2^11 * (12 choose 4)`.
    pub const NUM_RAW: u32 = 1013760;

    /// The combined coordinate of a state with at most four edges in the
    /// slice.
    pub fn from_state(state: &State) -> (r: Self)
        requires
            lr_slice_count(*state, 12) <= 4,
        ensures
            r@ == eo_bits(*state, 11) * 495 + lr_value(*state, 12),
    {
        let eo = EO::from_state(state);
        let lr = LR::from_state(state);
        proof {
            crate::algebra::coord::ori::lemma_eo_bits_bound(*state, 11);
            assert((1u16 << 11u16) == 2048) by (bit_vector);
            lemma_lr_value_le(*state);
        }
        Self { coord: (eo.coord() as u32) * 495 + lr.coord() as u32 }
    }

    /// The coordinate of value `repr`.
    pub fn from_coord(repr: u32) -> (r: Self)
        ensures
            r@ == repr,
    {
        Self { coord: repr }
    }

    /// The value of the coordinate.
    pub fn coord(&self) -> (r: u32)
        ensures
            r == self@,
    {
        self.coord
    }

    /// A state of this coordinate: the sample state of the slice part, then
    /// that of the edge orientation part.
    pub fn sample_state(&self) -> (r: State)
        ensures
            r == eolr_sample(self@),
            self@ < 1013760 ==> r.spec_valid() && eo_bits(r, 11) * 495 + lr_value(r, 12) == self@,
    {
        proof {
            if self@ < 1013760 {
                lemma_eolr_roundtrip(self@);
                lemma_eolr_sample_valid(self@);
            }
        }
        let eo = EO::from_coord((self.coord / 495) as u16);
        let lr = LR::from_coord((self.coord % 495) as u16);
        proof {
            lemma_eo_sample_pieces((self.coord / 495) as u16);
        }
        lr.sample_state() * eo.sample_state()
    }
}

/// Without the bound on the slice edges, the slice coordinate stays below
/// `12 * 165`.
proof fn lemma_lr_value_le(s: State)
    requires
        lr_slice_count(s, 12) <= 4,
    ensures
        0 <= lr_value(s, 12) < 2000,
{
    lemma_lr_value_le_n(s, 12);
}

/// The slice coordinate read from the first `n` edges is at most `165 * n`.
proof fn lemma_lr_value_le_n(s: State, n: nat)
    requires
        lr_slice_count(s, 12) <= 4,
        n <= 12,
    ensures
        0 <= lr_value(s, n) <= 165 * n,
    decreases n,
{
    if n > 0 {
        let j = (n - 1) as nat;
        lemma_lr_value_le_n(s, j);
        lemma_slice_count_mono(s, j, 12);
        lemma_binom_table_bound(5 * (11 - j) + 4 - lr_slice_count(s, j));
    }
}

/// The combined coordinate of the sample state of each of its
/// `2^11 * (12 choose 4)` codes is that code.
pub proof fn lemma_eolr_roundtrip(c: u32)
    requires
        c < 1013760,
    ensures
        lr_slice_count(eolr_sample(c), 12) <= 4,
        eo_bits(eolr_sample(c), 11) * 495 + lr_value(eolr_sample(c), 12) == c,
{
    let l = (c % 495) as int;
    let e = (c / 495) as u16;
    let a = lr_sample(l);
    let b = eo_sample(e);
    let p = a.spec_mul(b);
    lemma_mul_pieces(a, b);
    lemma_eo_sample_pieces(e);
    lemma_lr_sample_pieces(l);
    lemma_lr_roundtrip(l);
    lemma_eo_roundtrip(e);
    assert forall|i: u64| i < 12 implies #[trigger] p.spec_ep(i) == a.spec_ep(i) by {
        assert(b.spec_ep(i) == i);
    }
    assert forall|i: u64| i < 12 implies #[trigger] p.spec_eo(i) == b.spec_eo(i) by {
        assert(b.spec_ep(i) == i);
        assert(a.spec_eo(i) == 0);
        crate::cube_core::bits::lemma_field_parts(b.edges, i);
        lemma_small_fields(b.spec_eo(i), 0);
    }
    lemma_same_edges_coords(p, a, b, 12);
    lemma_same_edges_coords(p, a, b, 11);
    assert(c / 495 < 2048);
    assert(e == c / 495);
    vstd::arithmetic::div_mod::lemma_fundamental_div_mod(c as int, 495);
    assert((c / 495) * 495 == 495 * (c / 495)) by (nonlinear_arith);
}

/// Two states whose edges are at the same positions have the same slice
/// coordinate, and two with the same edge orientations the same edge
/// orientation coordinate.
proof fn lemma_same_edges_coords(p: State, a: State, b: State, n: nat)
    requires
        n <= 12,
        forall|i: u64| i < 12 ==> #[trigger] p.spec_ep(i) == a.spec_ep(i),
        forall|i: u64| i < 12 ==> #[trigger] p.spec_eo(i) == b.spec_eo(i),
    ensures
        lr_slice_count(p, n) == lr_slice_count(a, n),
        lr_value(p, n) == lr_value(a, n),
        n <= 11 ==> eo_bits(p, n) == eo_bits(b, n),
    decreases n,
{
    if n > 0 {
        lemma_same_edges_coords(p, a, b, (n - 1) as nat);
        assert(p.spec_ep((n - 1) as u64) == a.spec_ep((n - 1) as u64));
        assert(p.spec_eo((n - 1) as u64) == b.spec_eo((n - 1) as u64));
    }
}

/// Two states with the same edge orientations have the same sums of them.
proof fn lemma_same_eo_sum(p: State, b: State, n: nat)
    requires
        n <= 12,
        forall|i: u64| i < 12 ==> #[trigger] p.spec_eo(i) == b.spec_eo(i),
    ensures
        sum_eo(p, n) == sum_eo(b, n),
    decreases n,
{
    if n > 0 {
        lemma_same_eo_sum(p, b, (n - 1) as nat);
        assert(p.spec_eo((n - 1) as u64) == b.spec_eo((n - 1) as u64));
    }
}

/// A state whose corner orientations are all 0 has 0 as their sum.
proof fn lemma_zero_co_sum(p: State, n: nat)
    requires
        n <= 8,
        forall|i: u64| i < 8 ==> #[trigger] p.spec_co(i) == 0,
    ensures
        sum_co(p, n) == 0,
    decreases n,
{
    if n > 0 {
        lemma_zero_co_sum(p, (n - 1) as nat);
        assert(p.spec_co((n - 1) as u64) == 0);
    }
}

/// The sample state of each of the `2^11 * (12 choose 4)` codes of the
/// combined coordinate is valid.
pub proof fn lemma_eolr_sample_valid(c: u32)
    requires
        c < 1013760,
    ensures
        eolr_sample(c).spec_valid(),
{
    let l = (c % 495) as int;
    let e = (c / 495) as u16;
    let a = lr_sample(l);
    let b = eo_sample(e);
    let p = a.spec_mul(b);
    lemma_mul_pieces(a, b);
    lemma_eo_sample_pieces(e);
    lemma_eo_sample_valid(e);
    lemma_lr_sample_pieces(l);
    lemma_lr_perm(l);
    lemma_id_corners_sum(a, 8);
    lemma_id_corners_sum(b, 8);
    assert forall|i: u64| i < 12 implies #[trigger] p.spec_ep(i) == lr_perm(l)[i as int] by {
        assert(b.spec_ep(i) == i);
    }
    assert forall|i: u64| i < 12 implies #[trigger] p.spec_eo(i) == b.spec_eo(i) by {
        assert(b.spec_ep(i) == i);
        assert(a.spec_eo(i) == 0);
        crate::cube_core::bits::lemma_field_parts(b.edges, i);
        lemma_small_fields(b.spec_eo(i), 0);
    }
    assert forall|i: u64| #![trigger p.spec_cp(i)] #![trigger p.spec_co(i)] i < 8 implies p.spec_cp(i) == i && p.spec_co(i)
        == 0 by {
        assert(b.spec_cp(i) == i);
        assert(a.spec_cp(i) == i && a.spec_co(i) == 0 && b.spec_co(i) == 0);
        crate::cube_core::state::lemma_id_piece(11);
    }
    lemma_same_eo_sum(p, b, 12);
    lemma_zero_co_sum(p, 8);
    let cp = p.corner_perm();
    assert forall|t: int| 0 <= t < cp.len() implies cp[t] == t by {
        assert(p.spec_cp(t as u64) == t);
    }
    crate::permutation::lemma_sorted_inversions(cp);
    assert(is_perm(cp)) by {
        assert forall|x: int| 0 <= x < cp.len() implies 0 <= #[trigger] cp[x] < cp.len() by {
            assert(cp[x] == x);
        }
        assert forall|x: int, y: int| 0 <= x < cp.len() && 0 <= y < cp.len() && x != y implies cp[x] != cp[y] by {
            assert(cp[x] == x && cp[y] == y);
        }
    }
    assert(p.edge_perm() =~= lr_perm(l)) by {
        assert forall|t: int| 0 <= t < 12 implies p.edge_perm()[t] == lr_perm(l)[t] by {
            assert(p.spec_ep(t as u64) == lr_perm(l)[t]);
        }
    }
    assert forall|i: u64| i < 8 implies #[trigger] p.spec_co(i) <= 2 by {
        assert(p.spec_co(i) == 0);
    }
}

/// Where the edge positions form a permutation, exactly four edges sit in
/// the slice between faces L and R.
pub proof fn lemma_slice_count_four(s: State)
    requires
        is_perm(s.edge_perm()),
    ensures
        lr_slice_count(s, 12) == 4,
{
    let p = s.edge_perm();
    crate::permutation::lemma_perm_covers(p);
    reveal_with_fuel(lr_slice_count, 13);
    assert(p.contains(0) && p.contains(1) && p.contains(2) && p.contains(3));
    let i0 = choose|i: int| 0 <= i < 12 && p[i] == 0;
    let i1 = choose|i: int| 0 <= i < 12 && p[i] == 1;
    let i2 = choose|i: int| 0 <= i < 12 && p[i] == 2;
    let i3 = choose|i: int| 0 <= i < 12 && p[i] == 3;
    assert forall|i: int| 0 <= i < 12 implies #[trigger] p[i] == s.spec_ep(i as u64) as int by {}
    assert forall|i: int|
        0 <= i < 12 && i != i0 && i != i1 && i != i2 && i != i3 implies #[trigger] s.spec_ep(i as u64) >= 4 by {
        assert(p[i] != p[i0] && p[i] != p[i1] && p[i] != p[i2] && p[i] != p[i3]);
        assert(0 <= p[i] < 12);
    }
}

/// An element of the cube group has four edges in the slice between faces L
/// and R, and so a slice coordinate below 495; so has what one basic move
/// makes of it, applied before or after it.
pub proof fn lemma_move_keeps_slice(s: State, m: int)
    requires
        s.spec_well_formed(),
        0 <= m < 18,
    ensures
        lr_slice_count(s, 12) == 4,
        0 <= lr_value(s, 12) < 495,
        lr_slice_count(s.spec_mul(crate::cube_core::state::basic_state(m)), 12) == 4,
        0 <= lr_value(s.spec_mul(crate::cube_core::state::basic_state(m)), 12) < 495,
        lr_slice_count(crate::cube_core::state::basic_state(m).spec_mul(s), 12) == 4,
        0 <= lr_value(crate::cube_core::state::basic_state(m).spec_mul(s), 12) < 495,
{
    let b = crate::cube_core::state::basic_state(m);
    crate::cube_core::state::lemma_basic_well_formed(m);
    crate::model::sym::lemma_mul_well_formed(s, b);
    crate::model::sym::lemma_mul_well_formed(b, s);
    lemma_slice_count_four(s);
    lemma_slice_count_four(s.spec_mul(b));
    lemma_slice_count_four(b.spec_mul(s));
    lemma_lr_value_bound(s, 12);
    lemma_lr_value_bound(s.spec_mul(b), 12);
    lemma_lr_value_bound(b.spec_mul(s), 12);
    assert(binom(0, 0) == 1);
}

} // verus!
