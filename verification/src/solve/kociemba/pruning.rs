use vstd::prelude::*;
use crate::algebra::move_table::{Coord, RawCoordMoveTable};

verus! {

/// The mark of a coordinate that no sequence of moves reaches.
pub const UNREACHED: u16 = 65535;

/// The coordinate that the move `mvs[j]` leads to from the coordinate `x`,
/// by the move table `tab`.
pub open spec fn succ(tab: Seq<u16>, mvs: Seq<u8>, x: int, j: int) -> int {
    tab[18 * x + mvs[j] as int] as int
}

/// Whether the coordinate `c` is reached from `0` by at most `d` moves of
/// `mvs`, each step going through the move table `tab` from a coordinate
/// below `n`.
pub open spec fn within(tab: Seq<u16>, n: nat, mvs: Seq<u8>, d: nat, c: int) -> bool
    decreases d,
{
    if d == 0 {
        c == 0
    } else {
        ||| within(tab, n, mvs, (d - 1) as nat, c)
        ||| exists|x: int, j: int|
            #![trigger succ(tab, mvs, x, j)]
            0 <= x < n && 0 <= j < mvs.len() && within(tab, n, mvs, (d - 1) as nat, x) && succ(
                tab,
                mvs,
                x,
                j,
            ) == c
    }
}

/// Whether `d` is the least number of moves of `mvs` that reach `c` from `0`.
pub open spec fn is_dist(tab: Seq<u16>, n: nat, mvs: Seq<u8>, c: int, d: nat) -> bool {
    &&& within(tab, n, mvs, d, c)
    &&& forall|k: nat| k < d ==> !#[trigger] within(tab, n, mvs, k, c)
}

/// The number of unreached marks among the first `k` entries.
pub open spec fn count_unreached(s: Seq<u16>, k: nat) -> nat
    decreases k,
{
    if k == 0 {
        0
    } else {
        count_unreached(s, (k - 1) as nat) + if s[k - 1] == UNREACHED {
            1nat
        } else {
            0nat
        }
    }
}

proof fn lemma_count_update(s: Seq<u16>, i: int, v: u16, k: nat)
    requires
        0 <= i < s.len(),
        k <= s.len(),
        s[i] == UNREACHED,
        v != UNREACHED,
    ensures
        count_unreached(s.update(i, v), k) + (if i < k { 1nat } else { 0nat }) == count_unreached(s, k),
    decreases k,
{
    if k > 0 {
        lemma_count_update(s, i, v, (k - 1) as nat);
    }
}

proof fn lemma_count_all(s: Seq<u16>, k: nat)
    requires
        k <= s.len(),
        forall|i: int| 0 <= i < s.len() ==> s[i] == UNREACHED,
    ensures
        count_unreached(s, k) == k,
    decreases k,
{
    if k > 0 {
        lemma_count_all(s, (k - 1) as nat);
    }
}

/// Reaching within fewer moves is reaching within more.
proof fn lemma_within_mono(tab: Seq<u16>, n: nat, mvs: Seq<u8>, j: nat, k: nat, c: int)
    requires
        j <= k,
        within(tab, n, mvs, j, c),
    ensures
        within(tab, n, mvs, k, c),
    decreases k - j,
{
    if j < k {
        assert(within(tab, n, mvs, j + 1, c));
        lemma_within_mono(tab, n, mvs, j + 1, k, c);
    }
}

/// A set of coordinates below `n` that holds `0` and the successors below `n`
/// of its members holds every coordinate below `n` that moves reach.
proof fn lemma_closed(tab: Seq<u16>, n: nat, mvs: Seq<u8>, set: spec_fn(int) -> bool, k: nat, c: int)
    requires
        set(0),
        forall|x: int, j: int|
            0 <= x < n && 0 <= j < mvs.len() && set(x) && 0 <= #[trigger] succ(tab, mvs, x, j) < n
                ==> set(succ(tab, mvs, x, j)),
        within(tab, n, mvs, k, c),
        0 <= c < n,
    ensures
        set(c),
    decreases k,
{
    reveal_with_fuel(within, 2);
    if k > 0 {
        if within(tab, n, mvs, (k - 1) as nat, c) {
            lemma_closed(tab, n, mvs, set, (k - 1) as nat, c);
        } else {
            let (x, j) = choose|x: int, j: int|
                #![trigger succ(tab, mvs, x, j)]
                0 <= x < n && 0 <= j < mvs.len() && within(tab, n, mvs, (k - 1) as nat, x) && succ(
                    tab,
                    mvs,
                    x,
                    j,
                ) == c;
            lemma_closed(tab, n, mvs, set, (k - 1) as nat, x);
        }
    }
}

/// Every entry set is the least number of moves to its coordinate, at most `b`.
pub open spec fn exact_upto(tab: Seq<u16>, n: nat, mvs: Seq<u8>, s: Seq<u16>, b: nat) -> bool {
    forall|c: int|
        0 <= c < n && #[trigger] s[c] != UNREACHED ==> s[c] <= b && is_dist(tab, n, mvs, c, s[c] as nat)
}

/// Every coordinate below `n` that `d` moves reach has its entry set.
pub open spec fn covers(tab: Seq<u16>, n: nat, mvs: Seq<u8>, s: Seq<u16>, d: nat) -> bool {
    forall|c: int| 0 <= c < n && #[trigger] within(tab, n, mvs, d, c) ==> s[c] != UNREACHED
}

/// The successors below `n` of the coordinates with entries below `d` are set.
pub open spec fn expanded(tab: Seq<u16>, n: nat, mvs: Seq<u8>, s: Seq<u16>, d: nat) -> bool {
    forall|x: int, j: int|
        0 <= x < n && 0 <= j < mvs.len() && s[x] != UNREACHED && s[x] < d && 0 <= #[trigger] succ(
            tab,
            mvs,
            x,
            j,
        ) < n ==> s[succ(tab, mvs, x, j)] != UNREACHED
}

/// The successors below `n` of the coordinates with entry `d` are set.
pub open spec fn scanned(tab: Seq<u16>, n: nat, mvs: Seq<u8>, s: Seq<u16>, d: nat) -> bool {
    forall|y: int, j: int|
        0 <= y < n && 0 <= j < mvs.len() && s[y] == d && 0 <= #[trigger] succ(tab, mvs, y, j) < n
            ==> s[succ(tab, mvs, y, j)] != UNREACHED
}

/// An entry set is at most `d` where `d` moves reach its coordinate.
proof fn lemma_entry_bound(tab: Seq<u16>, n: nat, mvs: Seq<u8>, s: Seq<u16>, b: nat, d: nat, x: int)
    requires
        exact_upto(tab, n, mvs, s, b),
        0 <= x < n,
        s[x] != UNREACHED,
        within(tab, n, mvs, d, x),
    ensures
        s[x] <= d,
{
    if s[x] > d {
        assert(!within(tab, n, mvs, d, x));
    }
}

/// Setting the entry of the successor `y` of a coordinate `x` at distance
/// `d` to `d + 1`, where `y` was not reached yet, keeps the entries exact.
proof fn lemma_set_entry(tab: Seq<u16>, n: nat, mvs: Seq<u8>, s: Seq<u16>, x: int, j: int, d: nat)
    requires
        s.len() == n,
        0 <= x < n,
        0 <= j < mvs.len(),
        s[x] == d,
        0 <= succ(tab, mvs, x, j) < n,
        s[succ(tab, mvs, x, j)] == UNREACHED,
        d + 1 < UNREACHED,
        exact_upto(tab, n, mvs, s, d + 1),
        covers(tab, n, mvs, s, d),
    ensures
        exact_upto(tab, n, mvs, s.update(succ(tab, mvs, x, j), (d + 1) as u16), d + 1),
        covers(tab, n, mvs, s.update(succ(tab, mvs, x, j), (d + 1) as u16), d),
{
    let y = succ(tab, mvs, x, j);
    let s2 = s.update(y, (d + 1) as u16);
    assert(within(tab, n, mvs, d, x));
    assert(within(tab, n, mvs, d + 1, y));
    assert forall|k: nat| k < d + 1 implies !#[trigger] within(tab, n, mvs, k, y) by {
        if within(tab, n, mvs, k, y) {
            lemma_within_mono(tab, n, mvs, k, d, y);
        }
    }
    assert forall|c: int| 0 <= c < n && #[trigger] s2[c] != UNREACHED implies s2[c] <= d + 1
        && is_dist(tab, n, mvs, c, s2[c] as nat) by {
        if c != y {
            assert(s2[c] == s[c]);
        }
    }
}

/// After a level whose coordinates were all expanded, the entries cover one
/// move more and every entry up to the level is expanded.
proof fn lemma_next_level(tab: Seq<u16>, n: nat, mvs: Seq<u8>, s: Seq<u16>, d: nat)
    requires
        s.len() == n,
        exact_upto(tab, n, mvs, s, d + 1),
        covers(tab, n, mvs, s, d),
        expanded(tab, n, mvs, s, d),
        scanned(tab, n, mvs, s, d),
    ensures
        covers(tab, n, mvs, s, d + 1),
        expanded(tab, n, mvs, s, d + 1),
{
    assert forall|c: int| 0 <= c < n && #[trigger] within(tab, n, mvs, d + 1, c) implies s[c]
        != UNREACHED by {
        if !within(tab, n, mvs, d, c) {
            let (x, j) = choose|x: int, j: int|
                #![trigger succ(tab, mvs, x, j)]
                0 <= x < n && 0 <= j < mvs.len() && within(tab, n, mvs, d, x) && succ(
                    tab,
                    mvs,
                    x,
                    j,
                ) == c;
            lemma_entry_bound(tab, n, mvs, s, d + 1, d, x);
            assert(succ(tab, mvs, x, j) == c);
        }
    }
}

/// When a level adds no entry, the entries set are exactly the coordinates
/// that moves reach.
proof fn lemma_fixpoint(tab: Seq<u16>, n: nat, mvs: Seq<u8>, s: Seq<u16>, d: nat)
    requires
        s.len() == n,
        d < n,
        exact_upto(tab, n, mvs, s, d + 1),
        covers(tab, n, mvs, s, d),
        expanded(tab, n, mvs, s, d),
        scanned(tab, n, mvs, s, d),
        forall|c: int| 0 <= c < n ==> #[trigger] s[c] != d + 1,
    ensures
        exact_upto(tab, n, mvs, s, n),
        forall|c: int, k: nat| 0 <= c < n && s[c] == UNREACHED ==> !#[trigger] within(tab, n, mvs, k, c),
{
    let set = |c: int| 0 <= c < n && s[c] != UNREACHED;
    lemma_within_mono(tab, n, mvs, 0, d, 0);
    assert forall|x: int, j: int|
        0 <= x < n && 0 <= j < mvs.len() && set(x) && 0 <= #[trigger] succ(tab, mvs, x, j) < n
            implies set(succ(tab, mvs, x, j)) by {
        assert(s[x] != d + 1);
    }
    assert forall|c: int, k: nat| 0 <= c < n && s[c] == UNREACHED implies !#[trigger] within(
        tab,
        n,
        mvs,
        k,
        c,
    ) by {
        if within(tab, n, mvs, k, c) {
            lemma_closed(tab, n, mvs, set, k, c);
        }
    }
}

/// The least number of moves of `mvs` from `0` to each coordinate below `n`
/// through the move table `tab`, found breadth first, level by level;
/// `UNREACHED` where no sequence of moves leads.
pub fn bfs_depths(tab: &Vec<u16>, n: u16, mvs: &[u8]) -> (depth: Vec<u16>)
    requires
        n >= 1,
        tab@.len() == 18 * n,
        forall|j: int| 0 <= j < mvs@.len() ==> mvs@[j] < 18,
    ensures
        depth@.len() == n,
        exact_upto(tab@, n as nat, mvs@, depth@, n as nat),
        forall|c: int, k: nat|
            0 <= c < n && depth@[c] == UNREACHED ==> !#[trigger] within(tab@, n as nat, mvs@, k, c),
{
    let ghost t = tab@;
    let ghost nn = n as nat;
    let ghost m = mvs@;
    let mut depth: Vec<u16> = Vec::new();
    let mut i: u16 = 0;
    while i < n
        invariant
            i <= n,
            depth@.len() == i,
            forall|k: int| 0 <= k < i ==> depth@[k] == UNREACHED,
        decreases n - i,
    {
        depth.push(UNREACHED);
        i += 1;
    }
    proof {
        lemma_count_all(depth@, nn);
        lemma_count_update(depth@, 0, 0, nn);
    }
    depth.set(0, 0);
    let mut remaining: u16 = n - 1;
    let mut d: u16 = 0;
    proof {
        assert forall|c: int| 0 <= c < nn && #[trigger] within(t, nn, m, 0, c) implies depth@[c]
            != UNREACHED by {}
        assert forall|c: int| 0 <= c < nn && #[trigger] depth@[c] != UNREACHED implies depth@[c] <= 0
            && is_dist(t, nn, m, c, depth@[c] as nat) by {
            assert(c == 0);
        }
    }
    loop
        invariant
            t == tab@,
            nn == n,
            m == mvs@,
            t.len() == 18 * nn,
            forall|j: int| 0 <= j < m.len() ==> m[j] < 18,
            depth@.len() == nn,
            exact_upto(t, nn, m, depth@, d as nat),
            covers(t, nn, m, depth@, d as nat),
            expanded(t, nn, m, depth@, d as nat),
            remaining == count_unreached(depth@, nn),
            d + remaining <= nn - 1,
        ensures
            depth@.len() == nn,
            exact_upto(t, nn, m, depth@, nn),
            forall|c: int, k: nat|
                0 <= c < nn && depth@[c] == UNREACHED ==> !#[trigger] within(t, nn, m, k, c),
        decreases remaining,
    {
        let ghost start_remaining = remaining;
        assert forall|c: int| 0 <= c < nn implies #[trigger] depth@[c] != d + 1 by {
            if depth@[c] != UNREACHED {
                assert(depth@[c] <= d);
            } else {
                lemma_count_update(depth@, c, 0, nn);
            }
        }
        let mut added = false;
        let mut x: u16 = 0;
        while x < n
            invariant
                t == tab@,
                nn == n,
                m == mvs@,
                t.len() == 18 * nn,
                forall|j: int| 0 <= j < m.len() ==> m[j] < 18,
                depth@.len() == nn,
                x <= n,
                exact_upto(t, nn, m, depth@, (d + 1) as nat),
                covers(t, nn, m, depth@, d as nat),
                expanded(t, nn, m, depth@, d as nat),
                remaining == count_unreached(depth@, nn),
                added ==> d + 1 + remaining <= nn - 1,
                !added ==> d + remaining <= nn - 1,
                !added ==> remaining == start_remaining,
                added ==> remaining < start_remaining,
                !added ==> forall|c: int| 0 <= c < nn ==> #[trigger] depth@[c] != d + 1,
                forall|y: int, j: int|
                    0 <= y < x && 0 <= j < m.len() && depth@[y] == d && 0 <= #[trigger] succ(
                        t,
                        m,
                        y,
                        j,
                    ) < nn ==> depth@[succ(t, m, y, j)] != UNREACHED,
            decreases n - x,
        {
            if depth[x as usize] == d {
                let mut j: usize = 0;
                while j < mvs.len()
                    invariant
                        t == tab@,
                        nn == n,
                        m == mvs@,
                        t.len() == 18 * nn,
                        forall|j: int| 0 <= j < m.len() ==> m[j] < 18,
                        depth@.len() == nn,
                        x < n,
                        depth@[x as int] == d,
                        j <= m.len(),
                        exact_upto(t, nn, m, depth@, (d + 1) as nat),
                        covers(t, nn, m, depth@, d as nat),
                        expanded(t, nn, m, depth@, d as nat),
                        remaining == count_unreached(depth@, nn),
                        added ==> d + 1 + remaining <= nn - 1,
                        !added ==> d + remaining <= nn - 1,
                        !added ==> remaining == start_remaining,
                        added ==> remaining < start_remaining,
                        !added ==> forall|c: int| 0 <= c < nn ==> #[trigger] depth@[c] != d + 1,
                        forall|y: int, j: int|
                            0 <= y < x && 0 <= j < m.len() && depth@[y] == d && 0 <= #[trigger] succ(
                                t,
                                m,
                                y,
                                j,
                            ) < nn ==> depth@[succ(t, m, y, j)] != UNREACHED,
                        forall|k: int|
                            0 <= k < j && 0 <= #[trigger] succ(t, m, x as int, k) < nn ==> depth@[succ(
                                t,
                                m,
                                x as int,
                                k,
                            )] != UNREACHED,
                    decreases m.len() - j,
                {
                    let idx = 18 * x as usize + mvs[j] as usize;
                    let y = tab[idx];
                    assert(y as int == succ(t, m, x as int, j as int));
                    if y < n && depth[y as usize] == UNREACHED {
                        proof {
                            lemma_set_entry(t, nn, m, depth@, x as int, j as int, d as nat);
                            lemma_count_update(depth@, y as int, (d + 1) as u16, nn);
                        }
                        depth.set(y as usize, d + 1);
                        remaining -= 1;
                        added = true;
                    }
                    j += 1;
                }
            }
            x += 1;
        }
        if !added {
            proof {
                lemma_fixpoint(t, nn, m, depth@, d as nat);
            }
            break;
        }
        proof {
            lemma_next_level(t, nn, m, depth@, d as nat);
        }
        d += 1;
    }
    depth
}

/// Whatever reaches `c` within `k` moves has a least number of moves, at
/// most `k`.
pub proof fn lemma_least_dist(tab: Seq<u16>, n: nat, mvs: Seq<u8>, k: nat, c: int)
    requires
        within(tab, n, mvs, k, c),
    ensures
        exists|d: nat| d <= k && #[trigger] is_dist(tab, n, mvs, c, d),
    decreases k,
{
    if k > 0 && within(tab, n, mvs, (k - 1) as nat, c) {
        lemma_least_dist(tab, n, mvs, (k - 1) as nat, c);
        let d = choose|d: nat| d <= k - 1 && #[trigger] is_dist(tab, n, mvs, c, d);
        assert(is_dist(tab, n, mvs, c, d));
    } else {
        assert forall|j: nat| j < k implies !#[trigger] within(tab, n, mvs, j, c) by {
            if within(tab, n, mvs, j, c) {
                lemma_within_mono(tab, n, mvs, j, (k - 1) as nat, c);
            }
        }
        assert(is_dist(tab, n, mvs, c, k));
    }
}

/// One move adds at most one to the distance: the successor by a move of
/// `mvs` of a coordinate at distance `d` is at distance at most `d + 1`.
pub proof fn lemma_step_dist(tab: Seq<u16>, n: nat, mvs: Seq<u8>, c: int, j: int, d: nat)
    requires
        0 <= c < n,
        0 <= j < mvs.len(),
        is_dist(tab, n, mvs, c, d),
    ensures
        exists|e: nat| e <= d + 1 && #[trigger] is_dist(tab, n, mvs, succ(tab, mvs, c, j), e),
{
    let y = succ(tab, mvs, c, j);
    assert(within(tab, n, mvs, d + 1, y));
    lemma_least_dist(tab, n, mvs, d + 1, y);
}

/// A coordinate has at most one least number of moves.
pub proof fn lemma_dist_unique(tab: Seq<u16>, n: nat, mvs: Seq<u8>, c: int, a: nat, b: nat)
    requires
        is_dist(tab, n, mvs, c, a),
        is_dist(tab, n, mvs, c, b),
    ensures
        a == b,
{
    if a < b {
        assert(!within(tab, n, mvs, a, c));
    } else if b < a {
        assert(!within(tab, n, mvs, b, c));
    }
}

/// Where a move can be undone by another move of the set, the distance
/// modulo 3 of the coordinate it leads to tells the distance itself: one
/// less, one more or the same as before, as `update_dist` computes it from
/// the previous distance and the entry of the pruning table.
pub proof fn lemma_mod3_step(tab: Seq<u16>, n: nat, mvs: Seq<u8>, x: int, j: int, j2: int, d: nat, e: nat)
    requires
        0 <= x < n,
        0 <= j < mvs.len(),
        0 <= j2 < mvs.len(),
        0 <= succ(tab, mvs, x, j) < n,
        succ(tab, mvs, succ(tab, mvs, x, j), j2) == x,
        is_dist(tab, n, mvs, x, d),
        is_dist(tab, n, mvs, succ(tab, mvs, x, j), e),
    ensures
        d == 0 ==> e % 3 != 2,
        e == (if e % 3 == (d + 2) % 3 {
            d - 1
        } else if e % 3 == (d + 1) % 3 {
            d + 1int
        } else {
            d as int
        }),
{
    let y = succ(tab, mvs, x, j);
    lemma_step_dist(tab, n, mvs, x, j, d);
    let e1 = choose|e1: nat| e1 <= d + 1 && #[trigger] is_dist(tab, n, mvs, y, e1);
    lemma_dist_unique(tab, n, mvs, y, e, e1);
    lemma_step_dist(tab, n, mvs, y, j2, e);
    let d1 = choose|d1: nat| d1 <= e + 1 && #[trigger] is_dist(tab, n, mvs, x, d1);
    lemma_dist_unique(tab, n, mvs, x, d, d1);
}

/// The least number of moves that reach `c`, where some number does.
pub open spec fn dist_of(tab: Seq<u16>, n: nat, mvs: Seq<u8>, c: int) -> nat {
    choose|d: nat| is_dist(tab, n, mvs, c, d)
}

/// What the pruning table holds for `c`: the least number of moves that
/// reach it, modulo 3, or 3 where no sequence of moves reaches it.
pub open spec fn packed_value(tab: Seq<u16>, n: nat, mvs: Seq<u8>, c: int) -> u8 {
    if exists|d: nat| is_dist(tab, n, mvs, c, d) {
        (dist_of(tab, n, mvs, c) % 3) as u8
    } else {
        3
    }
}

/// The value at slot `k` of a byte of four two-bit slots.
pub open spec fn slot(byte: u8, k: int) -> u8 {
    if k == 0 {
        byte % 4
    } else if k == 1 {
        (byte / 4) % 4
    } else if k == 2 {
        (byte / 16) % 4
    } else {
        byte / 64
    }
}

proof fn lemma_pack_byte(v0: u8, v1: u8, v2: u8, v3: u8)
    requires
        v0 < 4,
        v1 < 4,
        v2 < 4,
        v3 < 4,
    ensures
        v0 + 4 * v1 + 16 * v2 + 64 * v3 < 256,
        slot((v0 + 4 * v1 + 16 * v2 + 64 * v3) as u8, 0) == v0,
        slot((v0 + 4 * v1 + 16 * v2 + 64 * v3) as u8, 1) == v1,
        slot((v0 + 4 * v1 + 16 * v2 + 64 * v3) as u8, 2) == v2,
        slot((v0 + 4 * v1 + 16 * v2 + 64 * v3) as u8, 3) == v3,
{
    let b = (v0 + 4 * v1 + 16 * v2 + 64 * v3) as u8;
    assert(b as int == v0 + 4 * v1 + 16 * v2 + 64 * v3);
    assert(b % 4 == v0) by (nonlinear_arith)
        requires
            b as int == v0 + 4 * v1 + 16 * v2 + 64 * v3,
            v0 < 4,
    ;
    assert(b / 4 == v1 + 4 * v2 + 16 * v3) by (nonlinear_arith)
        requires
            b as int == v0 + 4 * v1 + 16 * v2 + 64 * v3,
            v0 < 4,
    ;
    assert(b / 16 == v2 + 4 * v3) by (nonlinear_arith)
        requires
            b as int == v0 + 4 * v1 + 16 * v2 + 64 * v3,
            v0 < 4,
            v1 < 4,
    ;
    assert(b / 64 == v3) by (nonlinear_arith)
        requires
            b as int == v0 + 4 * v1 + 16 * v2 + 64 * v3,
            v0 < 4,
            v1 < 4,
            v2 < 4,
    ;
}

/// The two-bit value of a depth: itself modulo 3, or 3 where unreached.
fn pack_value(depth: &Vec<u16>, c: usize) -> (r: u8)
    ensures
        c < depth@.len() ==> r == (if depth@[c as int] == UNREACHED {
            3
        } else {
            depth@[c as int] % 3
        }),
        c >= depth@.len() ==> r == 3,
        r < 4,
{
    if c < depth.len() && depth[c] != UNREACHED {
        (depth[c] % 3) as u8
    } else {
        3
    }
}

/// Distances from the solved coordinate by a set of moves, for every value
/// of a raw coordinate, modulo 3 and four to a byte: consecutive states along
/// a move differ in distance by at most one, so the distance modulo 3 tells
/// whether a move brings a state closer.
pub struct PruningTableR<C: Coord> {
    table: Vec<u8>,
    graph: Ghost<Seq<u16>>,
    moves: Ghost<Seq<u8>>,
    coord: std::marker::PhantomData<C>,
}

impl<C: Coord> PruningTableR<C> {
    /// The bytes of the table.
    pub closed spec fn bytes(&self) -> Seq<u8> {
        self.table@
    }

    /// The move table that the distances were found through.
    pub closed spec fn graph(&self) -> Seq<u16> {
        self.graph@
    }

    /// The indices of the moves that the distances count.
    pub closed spec fn moves(&self) -> Seq<u8> {
        self.moves@
    }

    /// Slot `c % 4` of byte `c / 4` holds, for each coordinate `c`, the least
    /// number of moves of `moves` that reach it through the move table
    /// `graph`, modulo 3, or 3 where none reaches it.
    pub open spec fn wf(&self) -> bool {
        let tab = self.graph();
        let mvs = self.moves();
        &&& self.bytes().len() * 4 >= C::spec_num_raw()
        &&& forall|c: int|
            0 <= c < C::spec_num_raw() ==> #[trigger] slot(self.bytes()[c / 4], c % 4) == packed_value(
                tab,
                C::spec_num_raw(),
                mvs,
                c,
            )
    }

    /// Finds the distance of every coordinate breadth first, by the moves of
    /// `mvs` through the move table, and packs it.
    pub fn build(mvs: &[u8], mv_table: &RawCoordMoveTable<C>) -> (r: Self)
        requires
            mv_table.wf(),
            C::spec_num_raw() >= 1,
            forall|j: int| 0 <= j < mvs@.len() ==> mvs@[j] < 18,
        ensures
            r.wf(),
            r.graph() == mv_table.entries(),
            r.moves() == mvs@,
    {
        let n = C::num_raw();
        let tab = mv_table.table();
        let depth = bfs_depths(tab, n, mvs);
        let ghost t = tab@;
        let ghost nn = n as nat;
        let ghost m = mvs@;
        proof {
            assert forall|c: int| 0 <= c < nn implies #[trigger] packed_value(t, nn, m, c) == (if depth@[c]
                == UNREACHED {
                3
            } else {
                depth@[c] % 3
            }) by {
                if depth@[c] == UNREACHED {
                    if exists|d: nat| is_dist(t, nn, m, c, d) {
                        let d = choose|d: nat| is_dist(t, nn, m, c, d);
                        assert(within(t, nn, m, d, c));
                    }
                } else {
                    let d0 = depth@[c] as nat;
                    assert(is_dist(t, nn, m, c, d0));
                    let d = dist_of(t, nn, m, c);
                    assert(is_dist(t, nn, m, c, d));
                    if d < d0 {
                        assert(!within(t, nn, m, d, c));
                    } else if d0 < d {
                        assert(!within(t, nn, m, d0, c));
                    }
                }
            }
        }
        let mut table: Vec<u8> = Vec::new();
        let mut b: usize = 0;
        let nb: usize = (n as usize + 3) / 4;
        while b < nb
            invariant
                nb == (nn + 3) / 4,
                nn <= 65535,
                b <= nb,
                depth@.len() == nn,
                table@.len() == b,
                forall|c: int|
                    0 <= c < 4 * b && c < nn ==> #[trigger] slot(table@[c / 4], c % 4) == packed_value(
                        t,
                        nn,
                        m,
                        c,
                    ),
                forall|c: int| 0 <= c < nn ==> #[trigger] packed_value(t, nn, m, c) == (if depth@[c]
                    == UNREACHED {
                    3
                } else {
                    depth@[c] % 3
                }),
            decreases nb - b,
        {
            let v0 = pack_value(&depth, 4 * b);
            let v1 = pack_value(&depth, 4 * b + 1);
            let v2 = pack_value(&depth, 4 * b + 2);
            let v3 = pack_value(&depth, 4 * b + 3);
            proof {
                lemma_pack_byte(v0, v1, v2, v3);
            }
            let byte: u8 = v0 + 4 * v1 + 16 * v2 + 64 * v3;
            table.push(byte);
            assert forall|c: int|
                0 <= c < 4 * (b + 1) && c < nn implies #[trigger] slot(table@[c / 4], c % 4)
                == packed_value(t, nn, m, c) by {
                if c >= 4 * b {
                    assert(c / 4 == b);
                    let k = c - 4 * b;
                    assert(c % 4 == k);
                }
            }
            b += 1;
        }
        Self { table, graph: Ghost(t), moves: Ghost(m), coord: std::marker::PhantomData }
    }

    /// The table as bytes.
    pub fn to_binary(&self) -> (r: Vec<u8>)
        ensures
            r@ == self.bytes(),
    {
        self.table.clone()
    }

    /// The table that `buffer` holds, byte for byte.
    pub fn from_binary(buffer: &[u8]) -> (r: Option<Self>)
        ensures
            r matches Some(t) && t.bytes() == buffer@,
    {
        let mut table: Vec<u8> = Vec::new();
        let mut i: usize = 0;
        while i < buffer.len()
            invariant
                i <= buffer@.len(),
                table@ == buffer@.subrange(0, i as int),
            decreases buffer.len() - i,
        {
            table.push(buffer[i]);
            i += 1;
        }
        assert(table@ == buffer@);
        Some(
            Self {
                table,
                graph: Ghost(Seq::empty()),
                moves: Ghost(Seq::empty()),
                coord: std::marker::PhantomData,
            },
        )
    }

    /// The distance modulo 3 of the coordinate `c` (3 where unreached).
    pub fn dist(&self, c: u16) -> (r: u8)
        requires
            self.wf(),
            c < C::spec_num_raw(),
        ensures
            r == packed_value(self.graph(), C::spec_num_raw(), self.moves(), c as int),
    {
        let byte = self.table[(c / 4) as usize];
        let k = c % 4;
        let r = if k == 0 {
            byte % 4
        } else if k == 1 {
            (byte / 4) % 4
        } else if k == 2 {
            (byte / 16) % 4
        } else {
            byte / 64
        };
        assert(r == slot(self.bytes()[(c as int) / 4], (c as int) % 4)) by {
            assert(slot(self.bytes()[(c as int) / 4], (c as int) % 4) == packed_value(self.graph(), C::spec_num_raw(), self.moves(), c as int));
        }
        r
    }
}

} // verus!
