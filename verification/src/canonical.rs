use vstd::prelude::*;
use std::collections::HashMap;
use crate::cube_core::moves::{lemma_move_index, move_of_index};
use crate::moves::Move;
use crate::state::{spec_mv, State};

verus! {

broadcast use vstd::std_specs::hash::group_hash_axioms;

/// The solved cube.
pub open spec fn solved() -> State {
    State { corners: 0xe629062080, edges: 0xb52507314831040 }
}

/// The state reached from the solved cube by the moves of `s`, in order.
pub open spec fn moves_reach(s: Seq<Move>) -> State
    decreases s.len(),
{
    if s.len() == 0 {
        solved()
    } else {
        spec_mv(moves_reach(s.drop_last()), s.last())
    }
}

/// The key of a state in a table of states: its corners, then its edges.
pub open spec fn state_key(s: State) -> u128 {
    (s.corners as u128 * 0x1_0000_0000_0000_0000u128 + s.edges as u128) as u128
}

/// Two states with the same key are equal.
proof fn lemma_state_key(a: State, b: State)
    ensures
        state_key(a) == state_key(b) ==> a == b,
{
    let m: int = 0x1_0000_0000_0000_0000;
    let ka = a.corners * m + a.edges;
    let kb = b.corners * m + b.edges;
    assert(ka < 0x1_0000_0000_0000_0000_0000_0000_0000_0000) by (nonlinear_arith)
        requires
            ka == a.corners * m + a.edges,
            m == 0x1_0000_0000_0000_0000,
            a.corners < m,
            a.edges < m,
    ;
    assert(kb < 0x1_0000_0000_0000_0000_0000_0000_0000_0000) by (nonlinear_arith)
        requires
            kb == b.corners * m + b.edges,
            m == 0x1_0000_0000_0000_0000,
            b.corners < m,
            b.edges < m,
    ;
    if ka == kb {
        assert(a.corners == b.corners && a.edges == b.edges) by (nonlinear_arith)
            requires
                a.corners * m + a.edges == b.corners * m + b.edges,
                0 <= a.edges < m,
                0 <= b.edges < m,
                0 <= a.corners,
                0 <= b.corners,
                m > 0,
        ;
    }
}

/// The key of a state.
fn key_of(s: &State) -> (r: u128)
    ensures
        r == state_key(*s),
{
    proof {
        let m: int = 0x1_0000_0000_0000_0000;
        assert(s.corners * m + s.edges < 0x1_0000_0000_0000_0000_0000_0000_0000_0000) by (nonlinear_arith)
            requires
                m == 0x1_0000_0000_0000_0000,
                s.corners < m,
                s.edges < m,
        ;
    }
    (s.corners as u128) * 0x1_0000_0000_0000_0000 + s.edges as u128
}

/// Whether move sequences `a` and `b` agree before position `d`, where the
/// move of `a` has the smaller index.
pub open spec fn moves_differ_at(a: Seq<Move>, b: Seq<Move>, d: int) -> bool {
    &&& 0 <= d < a.len()
    &&& d < b.len()
    &&& a[d].spec_index() < b[d].spec_index()
    &&& forall|e: int| 0 <= e < d ==> a[e] == b[e]
}

/// Whether `a` comes before `b` in the order of the enumeration: shorter,
/// or as long and with the move of smaller index where they first differ.
pub open spec fn moves_before(a: Seq<Move>, b: Seq<Move>) -> bool {
    ||| a.len() < b.len()
    ||| a.len() == b.len() && exists|d: int| #[trigger] moves_differ_at(a, b, d)
}

/// Each sequence of `canon` comes before the later ones.
pub open spec fn in_order(canon: Seq<Vec<Move>>) -> bool {
    forall|i: int, j: int|
        #![trigger canon[i], canon[j]]
        0 <= i < j < canon.len() ==> moves_before(canon[i]@, canon[j]@)
}

/// No sequence to the state of a sequence of `canon` comes before it.
pub open spec fn least(canon: Seq<Vec<Move>>) -> bool {
    forall|i: int, q: Seq<Move>|
        #![trigger canon[i], moves_reach(q)]
        0 <= i < canon.len() && moves_reach(q) == moves_reach(canon[i]@) ==> !moves_before(q, canon[i]@)
}

/// The move of index `k` has index `k`.
proof fn lemma_index_of_move(k: int)
    requires
        0 <= k < 18,
    ensures
        move_of_index(k).spec_index() == k,
{
}

/// Two different sequences of the same length that agree before `n` differ
/// first at some position from `n` on.
proof fn lemma_first_move_diff(a: Seq<Move>, b: Seq<Move>, n: int) -> (d: int)
    requires
        a.len() == b.len(),
        0 <= n <= a.len(),
        forall|e: int| 0 <= e < n ==> a[e] == b[e],
        a != b,
    ensures
        n <= d < a.len(),
        a[d] != b[d],
        forall|e: int| 0 <= e < d ==> a[e] == b[e],
    decreases a.len() - n,
{
    if n == a.len() {
        assert(a =~= b);
        n
    } else if a[n] != b[n] {
        n
    } else {
        lemma_first_move_diff(a, b, n + 1)
    }
}

/// Of two different sequences of the same length, one comes before the
/// other.
proof fn lemma_moves_total(a: Seq<Move>, b: Seq<Move>)
    requires
        a.len() == b.len(),
        a != b,
    ensures
        moves_before(a, b) || moves_before(b, a),
{
    let d = lemma_first_move_diff(a, b, 0);
    lemma_move_index(a[d]);
    lemma_move_index(b[d]);
    if a[d].spec_index() < b[d].spec_index() {
        assert(moves_differ_at(a, b, d));
    } else {
        assert(moves_differ_at(b, a, d));
    }
}

/// The order of the enumeration is transitive.
proof fn lemma_moves_trans(a: Seq<Move>, b: Seq<Move>, c: Seq<Move>)
    requires
        moves_before(a, b),
        moves_before(b, c),
    ensures
        moves_before(a, c),
{
    if a.len() == b.len() && b.len() == c.len() {
        let d1 = choose|d: int| #[trigger] moves_differ_at(a, b, d);
        let d2 = choose|d: int| #[trigger] moves_differ_at(b, c, d);
        if d1 < d2 {
            assert(moves_differ_at(a, c, d1));
        } else if d2 < d1 {
            assert(moves_differ_at(a, c, d2));
        } else {
            assert(moves_differ_at(a, c, d1));
        }
    }
}

/// The order of the enumeration is strict.
proof fn lemma_moves_asym(a: Seq<Move>, b: Seq<Move>)
    requires
        moves_before(a, b),
    ensures
        !moves_before(b, a),
        a != b,
{
    if a.len() == b.len() {
        let d1 = choose|d: int| #[trigger] moves_differ_at(a, b, d);
        if moves_before(b, a) {
            let d2 = choose|d: int| #[trigger] moves_differ_at(b, a, d);
            if d1 < d2 {
                assert(b[d1] == a[d1]);
            } else if d2 < d1 {
                assert(a[d2] == b[d2]);
            }
        }
    }
}

/// Extending two sequences of the same length by a move each keeps their
/// order, and extending one sequence by two moves orders them as the moves.
proof fn lemma_moves_push(a: Seq<Move>, b: Seq<Move>, x: Move, y: Move)
    requires
        a.len() == b.len(),
        moves_before(a, b) || (a == b && x.spec_index() < y.spec_index()),
    ensures
        moves_before(a.push(x), b.push(y)),
{
    if moves_before(a, b) {
        let d = choose|d: int| #[trigger] moves_differ_at(a, b, d);
        assert(moves_differ_at(a.push(x), b.push(y), d));
    } else {
        assert(moves_differ_at(a.push(x), b.push(y), a.len() as int));
    }
}

/// What the enumeration keeps: the first sequence is empty, none is longer
/// than `bound`, the table maps the key of the state of each sequence to its
/// index and each of its keys to such an index, and each sequence but the
/// first extends an earlier one by a move.
pub open spec fn canon_inv(canon: Seq<Vec<Move>>, map: Map<u128, usize>, bound: int) -> bool {
    &&& canon.len() >= 1
    &&& canon[0]@ == Seq::<Move>::empty()
    &&& forall|i: int| 0 <= i < canon.len() ==> #[trigger] canon[i]@.len() <= bound
    &&& forall|i: int|
        0 <= i < canon.len() ==> map.contains_key(state_key(moves_reach(#[trigger] canon[i]@)))
            && map[state_key(moves_reach(canon[i]@))] == i
    &&& forall|key: u128|
        #[trigger] map.contains_key(key) ==> map[key] < canon.len() && state_key(moves_reach(canon[map[key] as int]@))
            == key
    &&& forall|i: int|
        0 < i < canon.len() ==> (#[trigger] canon[i]@).len() > 0 && exists|j: int|
            0 <= j < i && canon[j]@ == canon[i]@.drop_last()
}

/// Every sequence of at most `l` moves reaches a state whose key is in
/// `map`.
pub open spec fn covers(map: Map<u128, usize>, l: int) -> bool {
    forall|q: Seq<Move>| q.len() <= l ==> #[trigger] map.contains_key(state_key(moves_reach(q)))
}

/// Each sequence of `canon` is a shortest one to its state.
pub open spec fn shortest(canon: Seq<Vec<Move>>) -> bool {
    forall|i: int, q: Seq<Move>|
        #![trigger canon[i], moves_reach(q)]
        0 <= i < canon.len() && moves_reach(q) == moves_reach(canon[i]@) ==> canon[i]@.len() <= q.len()
}

/// Each entry names a sequence and the state it reaches.
pub open spec fn entries_ok(v: Seq<(usize, State)>, canon: Seq<Vec<Move>>) -> bool {
    forall|u: int|
        0 <= u < v.len() ==> (#[trigger] v[u]).0 < canon.len() && v[u].1 == moves_reach(
            canon[v[u].0 as int]@,
        )
}

/// Each entry names a sequence of `l` moves.
pub open spec fn lens_eq(v: Seq<(usize, State)>, canon: Seq<Vec<Move>>, l: int) -> bool {
    forall|u: int| 0 <= u < v.len() ==> canon[(#[trigger] v[u]).0 as int]@.len() == l
}

/// Each sequence of `l` moves is named by an entry.
pub open spec fn frontier_has(canon: Seq<Vec<Move>>, v: Seq<(usize, State)>, l: int) -> bool {
    forall|i: int|
        0 <= i < canon.len() && (#[trigger] canon[i]@).len() == l ==> exists|u: int| 0 <= u < v.len() && v[u].0 == i
}

/// The states one move away from the states of the first `t` entries, for
/// each of the eighteen moves, have their keys in `map`.
pub open spec fn processed(v: Seq<(usize, State)>, map: Map<u128, usize>, t: int) -> bool {
    forall|u: int, k: int|
        #![trigger v[u], move_of_index(k)]
        0 <= u < t && 0 <= k < 18 ==> map.contains_key(state_key(spec_mv(v[u].1, move_of_index(k))))
}

/// Entries stay right when sequences are only added.
proof fn lemma_entries_grow(v: Seq<(usize, State)>, a: Seq<Vec<Move>>, b: Seq<Vec<Move>>, l: int)
    requires
        entries_ok(v, a),
        lens_eq(v, a, l),
        a.len() <= b.len(),
        forall|i: int| 0 <= i < a.len() ==> #[trigger] b[i] == a[i],
    ensures
        entries_ok(v, b),
        lens_eq(v, b, l),
{
    assert forall|u: int| 0 <= u < v.len() implies (#[trigger] v[u]).0 < b.len() && v[u].1 == moves_reach(
        b[v[u].0 as int]@,
    ) && b[v[u].0 as int]@.len() == l by {
        assert(b[v[u].0 as int] == a[v[u].0 as int]);
    }
}

/// Whether the indices of the entries of `v` increase.
pub open spec fn ascending(v: Seq<(usize, State)>) -> bool {
    forall|u1: int, u2: int| #![trigger v[u1], v[u2]] 0 <= u1 < u2 < v.len() ==> v[u1].0 < v[u2].0
}

/// Whether `a` is `b` followed by the move `m`.
pub open spec fn extends(a: Seq<Move>, b: Seq<Move>, m: Move) -> bool {
    a == b.push(m)
}

/// Whether sequence `i` of `canon` extends the sequence of an entry of `v`
/// by a move, the entry and the move coming before move `k` of entry `t`.
pub open spec fn added_entry(canon: Seq<Vec<Move>>, v: Seq<(usize, State)>, t: int, k: int, i: int) -> bool {
    exists|u: int, k0: int|
        #![trigger v[u], move_of_index(k0)]
        0 <= u < v.len() && 0 <= k0 < 18 && (u < t || (u == t && k0 < k)) && extends(
            canon[i]@,
            canon[v[u].0 as int]@,
            move_of_index(k0),
        )
}

/// Whether each sequence of `canon` from index `s` on extends the sequence
/// of an entry of `v` by a move, the entry and the move coming before move
/// `k` of entry `t`.
pub open spec fn added_before(canon: Seq<Vec<Move>>, s: int, v: Seq<(usize, State)>, t: int, k: int) -> bool {
    forall|i: int| s <= i < canon.len() ==> #[trigger] added_entry(canon, v, t, k, i)
}

/// A sequence of `l + 1` moves to a state that the table lacks is one move
/// past a sequence of `l` moves to the same state as the rest of it, named by
/// an entry of the frontier and coming no later than that rest.
proof fn lemma_frontier_parent(
    canon: Seq<Vec<Move>>,
    map: Map<u128, usize>,
    v: Seq<(usize, State)>,
    start: Seq<Vec<Move>>,
    l: int,
    q: Seq<Move>,
) -> (u1: int)
    requires
        l >= 0,
        canon_inv(canon, map, l + 1),
        forall|i: int| 0 <= i < start.len() ==> #[trigger] canon[i] == start[i],
        forall|i: int| 0 <= i < canon.len() && (#[trigger] canon[i])@.len() <= l ==> i < start.len(),
        frontier_has(start, v, l),
        covers(map, l),
        shortest(canon),
        least(canon),
        q.len() == l + 1,
        !map.contains_key(state_key(moves_reach(q))),
    ensures
        0 <= u1 < v.len(),
        0 <= v[u1].0 < canon.len(),
        canon[v[u1].0 as int]@.len() == l,
        moves_reach(canon[v[u1].0 as int]@) == moves_reach(q.drop_last()),
        !moves_before(q.drop_last(), canon[v[u1].0 as int]@),
{
    let q1 = q.drop_last();
    let m1 = q.last();
    let key1 = state_key(moves_reach(q1));
    assert(map.contains_key(key1));
    let i1 = map[key1] as int;
    lemma_state_key(moves_reach(canon[i1]@), moves_reach(q1));
    let c1 = canon[i1]@;
    assert(c1.len() <= q1.len());
    if c1.len() < l {
        let q2 = c1.push(m1);
        assert(q2.drop_last() =~= c1);
        assert(moves_reach(q2) == moves_reach(q));
        assert(map.contains_key(state_key(moves_reach(q2))));
    }
    assert(i1 < start.len());
    assert(start[i1] == canon[i1]);
    let u1 = choose|u: int| 0 <= u < v.len() && v[u].0 == i1;
    u1
}

/// A sequence added for move `k` of entry `t` of the frontier comes before
/// a sequence as long, one move past a sequence that an entry from `t` on
/// names and that comes no later than its rest, unless the entry is `t` and
/// the move comes before move `k`, or the two sequences are equal.
proof fn lemma_later_entry(
    canon: Seq<Vec<Move>>,
    v: Seq<(usize, State)>,
    l: int,
    t: int,
    k: int,
    u1: int,
    q: Seq<Move>,
)
    requires
        lens_eq(v, canon, l),
        entries_ok(v, canon),
        ascending(v),
        in_order(canon),
        0 <= t < v.len(),
        0 <= k < 18,
        t <= u1 < v.len(),
        q.len() == l + 1,
        !moves_before(q.drop_last(), canon[v[u1].0 as int]@),
        u1 == t ==> k <= q.last().spec_index(),
    ensures
        q == canon[v[t].0 as int]@.push(move_of_index(k)) || moves_before(
            canon[v[t].0 as int]@.push(move_of_index(k)),
            q,
        ),
{
    let idx = v[t].0 as int;
    let i1 = v[u1].0 as int;
    let q1 = q.drop_last();
    let m1 = q.last();
    let c1 = canon[i1]@;
    let mk = move_of_index(k);
    assert(q =~= q1.push(m1));
    assert(c1.len() == l && canon[idx]@.len() == l);
    if c1 != q1 {
        lemma_moves_total(c1, q1);
    }
    lemma_index_of_move(k);
    lemma_move_index(m1);
    if u1 > t {
        assert(v[t].0 < v[u1].0);
        assert(moves_before(canon[idx]@, c1));
        if c1 != q1 {
            lemma_moves_trans(canon[idx]@, c1, q1);
        }
        lemma_moves_push(canon[idx]@, q1, mk, m1);
    } else if c1 != q1 || m1.spec_index() > k {
        lemma_moves_push(canon[idx]@, q1, mk, m1);
    } else {
        assert(q =~= canon[idx]@.push(mk));
    }
}

/// A sequence added for move `k` of entry `t` of the frontier, when it
/// reaches a new state, comes before every other sequence to that state:
/// one that came before it would be found shorter, or one move past an
/// entry or a move already processed.
#[verifier::rlimit(30)]
proof fn lemma_new_least(
    canon: Seq<Vec<Move>>,
    map: Map<u128, usize>,
    v: Seq<(usize, State)>,
    start: Seq<Vec<Move>>,
    l: int,
    t: int,
    k: int,
    newv: Seq<Move>,
)
    requires
        l >= 0,
        canon_inv(canon, map, l + 1),
        start.len() <= canon.len(),
        forall|i: int| 0 <= i < start.len() ==> #[trigger] canon[i] == start[i],
        forall|i: int| 0 <= i < canon.len() && (#[trigger] canon[i])@.len() <= l ==> i < start.len(),
        entries_ok(v, canon),
        lens_eq(v, canon, l),
        frontier_has(start, v, l),
        ascending(v),
        covers(map, l),
        shortest(canon),
        least(canon),
        in_order(canon),
        processed(v, map, t),
        0 <= t < v.len(),
        0 <= k < 18,
        forall|k2: int| 0 <= k2 < k ==> map.contains_key(state_key(spec_mv(v[t].1, #[trigger] move_of_index(k2)))),
        newv == canon[v[t].0 as int]@.push(move_of_index(k)),
        !map.contains_key(state_key(moves_reach(newv))),
    ensures
        forall|q: Seq<Move>| #[trigger] moves_reach(q) == moves_reach(newv) ==> !moves_before(q, newv),
{
    let s = moves_reach(newv);
    assert forall|q: Seq<Move>| #[trigger] moves_reach(q) == s implies !moves_before(q, newv) by {
        if moves_before(q, newv) {
            if q.len() <= l {
                assert(map.contains_key(state_key(moves_reach(q))));
            } else {
                let u1 = lemma_frontier_parent(canon, map, v, start, l, q);
                let q1 = q.drop_last();
                let m1 = q.last();
                assert(q =~= q1.push(m1));
                lemma_move_index(m1);
                let ki = m1.spec_index() as int;
                assert(v[u1].1 == moves_reach(canon[v[u1].0 as int]@));
                assert(spec_mv(v[u1].1, move_of_index(ki)) == s);
                if u1 < t {
                    assert(map.contains_key(state_key(spec_mv(v[u1].1, move_of_index(ki)))));
                } else if u1 == t && ki < k {
                    assert(map.contains_key(state_key(spec_mv(v[t].1, move_of_index(ki)))));
                } else {
                    lemma_later_entry(canon, v, l, t, k, u1, q);
                    lemma_moves_asym(q, newv);
                }
            }
        }
    }
}

/// What the enumeration keeps of its order while it tries move `k` of entry
/// `t` of the frontier `v`: the sequences are in order, each the first to
/// its state, the entries of `v` and of the next frontier `next` ascend, and
/// the sequences from `s` on were added for earlier moves.
#[verifier::opaque]
spec fn bfs_order(canon: Seq<Vec<Move>>, v: Seq<(usize, State)>, next: Seq<(usize, State)>, s: int, t: int, k: int) -> bool {
    &&& in_order(canon)
    &&& least(canon)
    &&& ascending(v)
    &&& ascending(next)
    &&& added_before(canon, s, v, t, k)
}

/// At the start of a level, with no sequence added yet, the order holds.
proof fn lemma_bfs_start(canon: Seq<Vec<Move>>, v: Seq<(usize, State)>)
    requires
        in_order(canon),
        least(canon),
        ascending(v),
    ensures
        bfs_order(canon, v, Seq::empty(), canon.len() as int, 0, 0),
{
    reveal(bfs_order);
}

/// Once every move of entry `t` is tried, the order holds for entry `t + 1`.
proof fn lemma_bfs_next_entry(
    canon: Seq<Vec<Move>>,
    v: Seq<(usize, State)>,
    next: Seq<(usize, State)>,
    s: int,
    t: int,
)
    requires
        bfs_order(canon, v, next, s, t, 18),
    ensures
        bfs_order(canon, v, next, s, t + 1, 0),
{
    reveal(bfs_order);
    lemma_added_next_entry(canon, s, v, t);
}

/// At the end of a level, the sequences are in order, each the first to its
/// state, and the entries of the next frontier ascend.
proof fn lemma_bfs_end(
    canon: Seq<Vec<Move>>,
    v: Seq<(usize, State)>,
    next: Seq<(usize, State)>,
    s: int,
    t: int,
)
    requires
        bfs_order(canon, v, next, s, t, 0),
    ensures
        in_order(canon),
        least(canon),
        ascending(next),
{
    reveal(bfs_order);
}

/// After move `k` of entry `t` of the frontier is tried, the sequences stay
/// in order, each the first to its state, and the entries of the next
/// frontier ascend.
proof fn lemma_after_add(
    before: Seq<Vec<Move>>,
    after: Seq<Vec<Move>>,
    map: Map<u128, usize>,
    v: Seq<(usize, State)>,
    nb: Seq<(usize, State)>,
    na: Seq<(usize, State)>,
    start: Seq<Vec<Move>>,
    l: int,
    t: int,
    k: int,
)
    requires
        l >= 0,
        before.len() <= usize::MAX,
        canon_inv(before, map, l + 1),
        start.len() <= before.len(),
        forall|i: int| 0 <= i < start.len() ==> #[trigger] before[i] == start[i],
        forall|i: int| 0 <= i < before.len() && (#[trigger] before[i])@.len() <= l ==> i < start.len(),
        forall|i: int| 0 <= i < start.len() ==> (#[trigger] start[i])@.len() <= l,
        entries_ok(v, before),
        lens_eq(v, before, l),
        frontier_has(start, v, l),
        entries_ok(nb, before),
        covers(map, l),
        shortest(before),
        bfs_order(before, v, nb, start.len() as int, t, k),
        processed(v, map, t),
        0 <= t < v.len(),
        0 <= k < 18,
        forall|k2: int| 0 <= k2 < k ==> map.contains_key(state_key(spec_mv(v[t].1, #[trigger] move_of_index(k2)))),
        map.contains_key(state_key(spec_mv(v[t].1, move_of_index(k)))) ==> after == before && na == nb,
        !map.contains_key(state_key(spec_mv(v[t].1, move_of_index(k)))) ==> after == before.push(after.last())
            && after.last()@ == before[v[t].0 as int]@.push(move_of_index(k)) && na == nb.push(
            (before.len() as usize, spec_mv(v[t].1, move_of_index(k))),
        ),
    ensures
        bfs_order(after, v, na, start.len() as int, t, k + 1),
{
    reveal(bfs_order);
    if map.contains_key(state_key(spec_mv(v[t].1, move_of_index(k)))) {
        lemma_added_more(before, start.len() as int, v, t, k);
    } else {
        lemma_after_new(before, after, map, v, nb, na, start, l, t, k);
    }
}

/// A sequence added before move `k` of entry `t` is added before move
/// `k + 1`.
proof fn lemma_added_more(canon: Seq<Vec<Move>>, s: int, v: Seq<(usize, State)>, t: int, k: int)
    requires
        added_before(canon, s, v, t, k),
    ensures
        added_before(canon, s, v, t, k + 1),
{
    assert forall|i: int| s <= i < canon.len() implies #[trigger] added_entry(canon, v, t, k + 1, i) by {
        assert(added_entry(canon, v, t, k, i));
        let (u, k0) = choose|u: int, k0: int|
            #![trigger v[u], move_of_index(k0)]
            0 <= u < v.len() && 0 <= k0 < 18 && (u < t || (u == t && k0 < k)) && extends(
                canon[i]@,
                canon[v[u].0 as int]@,
                move_of_index(k0),
            );
    }
}

/// After move `k` of entry `t` of the frontier adds a sequence, the
/// sequences stay in order, each the first to its state, and the entries of
/// the next frontier ascend.
#[verifier::rlimit(30)]
proof fn lemma_after_new(
    before: Seq<Vec<Move>>,
    after: Seq<Vec<Move>>,
    map: Map<u128, usize>,
    v: Seq<(usize, State)>,
    nb: Seq<(usize, State)>,
    na: Seq<(usize, State)>,
    start: Seq<Vec<Move>>,
    l: int,
    t: int,
    k: int,
)
    requires
        l >= 0,
        before.len() <= usize::MAX,
        canon_inv(before, map, l + 1),
        start.len() <= before.len(),
        forall|i: int| 0 <= i < start.len() ==> #[trigger] before[i] == start[i],
        forall|i: int| 0 <= i < before.len() && (#[trigger] before[i])@.len() <= l ==> i < start.len(),
        forall|i: int| 0 <= i < start.len() ==> (#[trigger] start[i])@.len() <= l,
        entries_ok(v, before),
        lens_eq(v, before, l),
        frontier_has(start, v, l),
        ascending(v),
        entries_ok(nb, before),
        ascending(nb),
        covers(map, l),
        shortest(before),
        least(before),
        in_order(before),
        processed(v, map, t),
        0 <= t < v.len(),
        0 <= k < 18,
        forall|k2: int| 0 <= k2 < k ==> map.contains_key(state_key(spec_mv(v[t].1, #[trigger] move_of_index(k2)))),
        added_before(before, start.len() as int, v, t, k),
        !map.contains_key(state_key(spec_mv(v[t].1, move_of_index(k)))),
        after == before.push(after.last()),
        after.last()@ == before[v[t].0 as int]@.push(move_of_index(k)),
        na == nb.push((before.len() as usize, spec_mv(v[t].1, move_of_index(k)))),
    ensures
        least(after),
        in_order(after),
        added_before(after, start.len() as int, v, t, k + 1),
        ascending(na),
{
    let s = start.len() as int;
    let idx = v[t].0 as int;
    let mk = move_of_index(k);
    let newv = after.last()@;
    let n = before.len() as int;
    assert(newv.drop_last() =~= before[idx]@);
    assert(moves_reach(newv) == spec_mv(v[t].1, mk));
    lemma_new_least(before, map, v, start, l, t, k, newv);
    assert(after.len() == n + 1);
    assert forall|i: int| 0 <= i < n implies #[trigger] after[i] == before[i] by {
        assert(after[i] == before.push(after.last())[i]);
    }
    assert forall|i: int, q: Seq<Move>|
        #![trigger after[i], moves_reach(q)]
        0 <= i < after.len() && moves_reach(q) == moves_reach(after[i]@) implies !moves_before(q, after[i]@) by {
        if i < n {
            assert(after[i] == before[i]);
        }
    }
    lemma_index_of_move(k);
    assert forall|i: int| 0 <= i < n implies moves_before(#[trigger] before[i]@, newv) by {
        if i >= s {
            assert(added_entry(before, v, t, k, i));
            let (u, k0) = choose|u: int, k0: int|
                #![trigger v[u], move_of_index(k0)]
                0 <= u < v.len() && 0 <= k0 < 18 && (u < t || (u == t && k0 < k)) && extends(
                    before[i]@,
                    before[v[u].0 as int]@,
                    move_of_index(k0),
                );
            lemma_index_of_move(k0);
            if u < t {
                assert(v[u].0 < v[t].0);
                assert(moves_before(before[v[u].0 as int]@, before[idx]@));
            }
            lemma_moves_push(before[v[u].0 as int]@, before[idx]@, move_of_index(k0), mk);
        } else {
            assert(start[i] == before[i]);
        }
    }
    assert forall|i: int, j: int|
        #![trigger after[i], after[j]]
        0 <= i < j < after.len() implies moves_before(after[i]@, after[j]@) by {
        assert(after[i] == before[i]);
        if j < n {
            assert(after[j] == before[j]);
        }
    }
    assert forall|i: int| s <= i < after.len() implies #[trigger] added_entry(after, v, t, k + 1, i) by {
        if i < n {
            assert(added_entry(before, v, t, k, i));
            let (u, k0) = choose|u: int, k0: int|
                #![trigger v[u], move_of_index(k0)]
                0 <= u < v.len() && 0 <= k0 < 18 && (u < t || (u == t && k0 < k)) && extends(
                    before[i]@,
                    before[v[u].0 as int]@,
                    move_of_index(k0),
                );
            assert(after[i] == before[i]);
            assert(after[v[u].0 as int] == before[v[u].0 as int]);
        } else {
            assert(after[idx] == before[idx]);
            assert(extends(after[i]@, after[v[t].0 as int]@, move_of_index(k)));
        }
    }
    lemma_push_ascending(nb, n, spec_mv(v[t].1, mk));
}

/// Queuing an entry whose index is above those of the queue keeps the
/// indices ascending.
proof fn lemma_push_ascending(nb: Seq<(usize, State)>, n: int, x: State)
    requires
        ascending(nb),
        0 <= n <= usize::MAX,
        forall|u: int| 0 <= u < nb.len() ==> (#[trigger] nb[u]).0 < n,
    ensures
        ascending(nb.push((n as usize, x))),
{
    let na = nb.push((n as usize, x));
    assert forall|u1: int, u2: int| #![trigger na[u1], na[u2]] 0 <= u1 < u2 < na.len() implies na[u1].0 < na[u2].0 by {
        assert(na[u1] == nb[u1]);
        if u2 < nb.len() {
            assert(na[u2] == nb[u2]);
        }
    }
}

/// Once every move of entry `t` is tried, the sequences added come before
/// entry `t + 1`.
proof fn lemma_added_next_entry(canon: Seq<Vec<Move>>, s: int, v: Seq<(usize, State)>, t: int)
    requires
        added_before(canon, s, v, t, 18),
    ensures
        added_before(canon, s, v, t + 1, 0),
{
    assert forall|i: int| s <= i < canon.len() implies #[trigger] added_entry(canon, v, t + 1, 0, i) by {
        assert(added_entry(canon, v, t, 18, i));
        let (u, k0) = choose|u: int, k0: int|
            #![trigger v[u], move_of_index(k0)]
            0 <= u < v.len() && 0 <= k0 < 18 && (u < t || (u == t && k0 < 18)) && extends(
                canon[i]@,
                canon[v[u].0 as int]@,
                move_of_index(k0),
            );
    }
}

/// After move `k` of entry `t` of the frontier is tried, what the
/// enumeration keeps while it tries the moves of the entry holds for move
/// `k + 1`.
#[verifier::rlimit(30)]
proof fn lemma_k_step(
    before: Seq<Vec<Move>>,
    after: Seq<Vec<Move>>,
    mb: Map<u128, usize>,
    ma: Map<u128, usize>,
    v: Seq<(usize, State)>,
    nb: Seq<(usize, State)>,
    na: Seq<(usize, State)>,
    start: Seq<Vec<Move>>,
    l: int,
    t: int,
    k: int,
)
    requires
        l >= 0,
        before.len() <= usize::MAX,
        0 <= t < v.len(),
        0 <= k < 18,
        v[t].0 < before.len(),
        v[t].1 == moves_reach(before[v[t].0 as int]@),
        before[v[t].0 as int]@.len() == l,
        canon_inv(before, mb, l + 1),
        start.len() <= before.len(),
        forall|i: int| 0 <= i < start.len() ==> #[trigger] before[i] == start[i],
        forall|i: int| 0 <= i < before.len() && (#[trigger] before[i])@.len() <= l ==> i < start.len(),
        forall|i: int| 0 <= i < start.len() ==> (#[trigger] start[i])@.len() <= l,
        entries_ok(v, before),
        lens_eq(v, before, l),
        frontier_has(start, v, l),
        entries_ok(nb, before),
        covers(mb, l),
        shortest(before),
        processed(v, mb, t),
        bfs_order(before, v, nb, start.len() as int, t, k),
        forall|k2: int| 0 <= k2 < k ==> mb.contains_key(state_key(spec_mv(v[t].1, #[trigger] move_of_index(k2)))),
        after.len() >= before.len(),
        forall|i: int| 0 <= i < before.len() ==> #[trigger] after[i] == before[i],
        forall|key: u128| mb.contains_key(key) ==> #[trigger] ma.contains_key(key),
        ma.contains_key(state_key(spec_mv(v[t].1, move_of_index(k)))),
        forall|i: int| 0 <= i < after.len() && (#[trigger] after[i])@.len() <= l ==> i < before.len(),
        mb.contains_key(state_key(spec_mv(v[t].1, move_of_index(k)))) ==> after == before && na == nb,
        !mb.contains_key(state_key(spec_mv(v[t].1, move_of_index(k)))) ==> after == before.push(after.last())
            && after.last()@ == before[v[t].0 as int]@.push(move_of_index(k)) && na == nb.push(
            (before.len() as usize, spec_mv(v[t].1, move_of_index(k))),
        ),
    ensures
        v[t].0 < after.len(),
        v[t].1 == moves_reach(after[v[t].0 as int]@),
        after[v[t].0 as int]@.len() == l,
        start.len() <= after.len(),
        forall|i: int| 0 <= i < start.len() ==> #[trigger] after[i] == start[i],
        forall|i: int| 0 <= i < after.len() && (#[trigger] after[i])@.len() <= l ==> i < start.len(),
        entries_ok(v, after),
        lens_eq(v, after, l),
        processed(v, ma, t),
        bfs_order(after, v, na, start.len() as int, t, k + 1),
        forall|k2: int| 0 <= k2 < k + 1 ==> ma.contains_key(state_key(spec_mv(v[t].1, #[trigger] move_of_index(k2)))),
{
    lemma_after_add(before, after, mb, v, nb, na, start, l, t, k);
    lemma_entries_grow(v, before, after, l);
    assert(after[v[t].0 as int] == before[v[t].0 as int]);
    assert forall|i: int| 0 <= i < start.len() implies #[trigger] after[i] == start[i] by {
        assert(after[i] == before[i]);
    }
    assert forall|u: int, k3: int|
        #![trigger v[u], move_of_index(k3)]
        0 <= u < t && 0 <= k3 < 18 implies ma.contains_key(state_key(spec_mv(v[u].1, move_of_index(k3)))) by {
        assert(mb.contains_key(state_key(spec_mv(v[u].1, move_of_index(k3)))));
    }
    assert forall|k2: int| 0 <= k2 < k + 1 implies ma.contains_key(
        state_key(spec_mv(v[t].1, #[trigger] move_of_index(k2))),
    ) by {
        if k2 < k {
            assert(mb.contains_key(state_key(spec_mv(v[t].1, move_of_index(k2)))));
        }
    }
}

/// Adds the sequence of `idx` followed by `mv` when the state it reaches is
/// new, and queues it.
fn add_if_new(
    canon: &mut Vec<Vec<Move>>,
    map: &mut HashMap<u128, usize>,
    next: &mut Vec<(usize, State)>,
    idx: usize,
    state: State,
    mv: Move,
    level: usize,
)
    requires
        level < usize::MAX,
        canon_inv(old(canon)@, old(map)@, level + 1),
        idx < old(canon).len(),
        state == moves_reach(old(canon)@[idx as int]@),
        old(canon)@[idx as int]@.len() == level,
        entries_ok(old(next)@, old(canon)@),
        lens_eq(old(next)@, old(canon)@, level + 1),
        frontier_has(old(canon)@, old(next)@, level + 1),
        covers(old(map)@, level as int),
        shortest(old(canon)@),
    ensures
        canon_inv(final(canon)@, final(map)@, level + 1),
        final(canon).len() >= old(canon).len(),
        forall|i: int| 0 <= i < old(canon).len() ==> #[trigger] final(canon)@[i] == old(canon)@[i],
        entries_ok(final(next)@, final(canon)@),
        lens_eq(final(next)@, final(canon)@, level + 1),
        frontier_has(final(canon)@, final(next)@, level + 1),
        covers(final(map)@, level as int),
        shortest(final(canon)@),
        forall|key: u128| old(map)@.contains_key(key) ==> #[trigger] final(map)@.contains_key(key),
        final(map)@.contains_key(state_key(spec_mv(state, mv))),
        forall|i: int|
            0 <= i < final(canon).len() && (#[trigger] final(canon)@[i])@.len() <= level ==> i < old(canon).len(),
        old(map)@.contains_key(state_key(spec_mv(state, mv))) ==> final(canon)@ == old(canon)@ && final(next)@ == old(
            next,
        )@,
        !old(map)@.contains_key(state_key(spec_mv(state, mv))) ==> final(canon)@ == old(canon)@.push(
            final(canon)@.last(),
        ) && final(canon)@.last()@ == old(canon)@[idx as int]@.push(mv) && final(next)@ == old(next)@.push(
            (old(canon)@.len() as usize, spec_mv(state, mv)),
        ),
{
    let next_state = state.mv(mv);
    let key = key_of(&next_state);
    if !map.contains_key(&key) {
        let n = canon.len();
        let mut moves: Vec<Move> = Vec::new();
        let mut m: usize = 0;
        while m < canon[idx].len()
            invariant
                idx < canon.len(),
                m <= canon@[idx as int]@.len(),
                moves@ == canon@[idx as int]@.subrange(0, m as int),
            decreases canon@[idx as int]@.len() - m,
        {
            moves.push(canon[idx][m]);
            m += 1;
        }
        moves.push(mv);
        let ghost old_canon = canon@;
        let ghost old_map = map@;
        proof {
            assert(canon@[idx as int]@.subrange(0, canon@[idx as int]@.len() as int) =~= canon@[idx as int]@);
            assert(moves@.drop_last() =~= canon@[idx as int]@);
            assert(moves_reach(moves@) == next_state);
        }
        map.insert(key, n);
        canon.push(moves);
        next.push((n, next_state));
        proof {
            assert(canon@[n as int]@ == moves@);
            assert(moves@ =~= old_canon[idx as int]@.push(mv));
            assert(canon@ =~= old_canon.push(canon@.last()));
            assert forall|i: int| 0 <= i < canon.len() implies map@.contains_key(
                state_key(moves_reach(#[trigger] canon@[i]@)),
            ) && map@[state_key(moves_reach(canon@[i]@))] == i by {
                if i < n {
                    assert(canon@[i] == old_canon[i]);
                    assert(old_map.contains_key(state_key(moves_reach(old_canon[i]@))));
                    assert(state_key(moves_reach(old_canon[i]@)) != key);
                }
            }
            assert forall|k: u128| #[trigger] map@.contains_key(k) implies map@[k] < canon.len() && state_key(
                moves_reach(canon@[map@[k] as int]@),
            ) == k by {
                if k != key {
                    assert(old_map.contains_key(k));
                    assert(canon@[old_map[k] as int] == old_canon[old_map[k] as int]);
                }
            }
            assert forall|i: int| 0 < i < canon.len() implies (#[trigger] canon@[i]@).len() > 0 && exists|j: int|
                0 <= j < i && canon@[j]@ == canon@[i]@.drop_last() by {
                if i < n {
                    assert(canon@[i] == old_canon[i]);
                    let j = choose|j: int| 0 <= j < i && old_canon[j]@ == old_canon[i]@.drop_last();
                    assert(canon@[j] == old_canon[j]);
                } else {
                    assert(canon@[idx as int] == old_canon[idx as int]);
                }
            }
            assert forall|i: int| 0 <= i < canon.len() implies #[trigger] canon@[i]@.len() <= level + 1 by {
                if i < n {
                    assert(canon@[i] == old_canon[i]);
                }
            }
            lemma_entries_grow(old(next)@, old_canon, canon@, level + 1);
            assert forall|u: int| 0 <= u < next@.len() implies (#[trigger] next@[u]).0 < canon.len() && next@[u].1
                == moves_reach(canon@[next@[u].0 as int]@) by {
                if u < old(next)@.len() {
                    assert(next@[u] == old(next)@[u]);
                }
            }
            assert forall|u: int| 0 <= u < next@.len() implies canon@[(#[trigger] next@[u]).0 as int]@.len()
                == level + 1 by {
                if u < old(next)@.len() {
                    assert(next@[u] == old(next)@[u]);
                }
            }
            assert forall|i: int|
                0 <= i < canon.len() && (#[trigger] canon@[i]@).len() == level + 1 implies exists|u: int|
                0 <= u < next@.len() && next@[u].0 == i by {
                if i < n {
                    assert(canon@[i] == old_canon[i]);
                    let u = choose|u: int| 0 <= u < old(next)@.len() && old(next)@[u].0 == i;
                    assert(next@[u] == old(next)@[u]);
                } else {
                    assert(next@[old(next)@.len() as int].0 == i);
                }
            }
            assert forall|q: Seq<Move>| q.len() <= level implies #[trigger] map@.contains_key(
                state_key(moves_reach(q)),
            ) by {
                assert(old_map.contains_key(state_key(moves_reach(q))));
            }
            assert forall|i: int, q: Seq<Move>|
                #![trigger canon@[i], moves_reach(q)]
                0 <= i < canon.len() && moves_reach(q) == moves_reach(canon@[i]@) implies canon@[i]@.len()
                    <= q.len() by {
                if i < n {
                    assert(canon@[i] == old_canon[i]);
                } else if q.len() <= level {
                    assert(old_map.contains_key(state_key(moves_reach(q))));
                }
            }
            assert forall|i: int|
                0 <= i < canon.len() && (#[trigger] canon@[i])@.len() <= level implies i < old_canon.len() by {
            }
        }
    } else {
        proof {
            assert forall|i: int|
                0 <= i < canon.len() && (#[trigger] canon@[i])@.len() <= level implies i < old(canon).len() by {
            }
        }
    }
}

/// One shortest sequence of moves for each state within `depth` moves of
/// the solved cube, found breadth first: the first one is empty, each other
/// one extends an earlier one by a move, no two reach the same state, none
/// is longer than `depth`, and every sequence of at most `depth` moves
/// reaches the state of one of them. The sequences come in the order of
/// `moves_before` (shorter first, then by the index of the first move where
/// they differ), and each comes first in that order among the sequences to
/// its state.
#[verifier::rlimit(30)]
pub fn canonical_sequences(depth: usize) -> (r: Vec<Vec<Move>>)
    ensures
        r.len() >= 1,
        r@[0]@ == Seq::<Move>::empty(),
        forall|i: int| 0 <= i < r.len() ==> #[trigger] r@[i]@.len() <= depth,
        forall|i: int, j: int| 0 <= i < j < r.len() ==> moves_reach(r@[i]@) != moves_reach(r@[j]@),
        forall|i: int|
            0 < i < r.len() ==> (#[trigger] r@[i]@).len() > 0 && exists|j: int|
                0 <= j < i && r@[j]@ == r@[i]@.drop_last(),
        forall|q: Seq<Move>|
            q.len() <= depth ==> exists|i: int| 0 <= i < r.len() && #[trigger] moves_reach(r@[i]@) == moves_reach(q),
        forall|i: int, q: Seq<Move>|
            #![trigger r@[i], moves_reach(q)]
            0 <= i < r.len() && moves_reach(q) == moves_reach(r@[i]@) ==> r@[i]@.len() <= q.len(),
        in_order(r@),
        least(r@),
{
    let basic = Move::BASIC_MOVES();
    let mut canon: Vec<Vec<Move>> = Vec::new();
    canon.push(Vec::new());
    let solved_state = State::SOLVED();
    let mut states_to_check: Vec<(usize, State)> = Vec::new();
    states_to_check.push((0, solved_state));
    let mut state_to_canon: HashMap<u128, usize> = HashMap::new();
    state_to_canon.insert(key_of(&solved_state), 0);
    proof {
        assert(moves_reach(canon@[0]@) == solved());
        assert forall|k: u128| #[trigger] state_to_canon@.contains_key(k) implies state_to_canon@[k] < canon.len()
            && state_key(moves_reach(canon@[state_to_canon@[k] as int]@)) == k by {
        }
        assert forall|q: Seq<Move>| q.len() <= 0 implies #[trigger] state_to_canon@.contains_key(
            state_key(moves_reach(q)),
        ) by {
            assert(q =~= Seq::<Move>::empty());
        }
        assert forall|i: int| 0 <= i < canon.len() && (#[trigger] canon@[i]@).len() == 0 implies exists|u: int|
            0 <= u < states_to_check@.len() && states_to_check@[u].0 == i by {
            assert(states_to_check@[0].0 == i);
        }
    }
    let mut level: usize = 0;
    while level < depth
        invariant
            level <= depth,
            forall|i: int| 0 <= i < 18 ==> #[trigger] basic[i] == move_of_index(i),
            canon_inv(canon@, state_to_canon@, level as int),
            entries_ok(states_to_check@, canon@),
            lens_eq(states_to_check@, canon@, level as int),
            frontier_has(canon@, states_to_check@, level as int),
            covers(state_to_canon@, level as int),
            shortest(canon@),
            in_order(canon@),
            least(canon@),
            ascending(states_to_check@),
        decreases depth - level,
    {
        let mut next_states_to_check: Vec<(usize, State)> = Vec::new();
        let ghost start = canon@;
        proof {
            assert(next_states_to_check@ =~= Seq::<(usize, State)>::empty());
            lemma_bfs_start(canon@, states_to_check@);
        }
        let mut t: usize = 0;
        while t < states_to_check.len()
            invariant
                level < depth,
                forall|i: int| 0 <= i < 18 ==> #[trigger] basic[i] == move_of_index(i),
                canon_inv(canon@, state_to_canon@, level + 1),
                start.len() <= canon.len(),
                forall|i: int| 0 <= i < start.len() ==> #[trigger] canon@[i] == start[i],
                forall|i: int| 0 <= i < canon.len() && (#[trigger] canon@[i])@.len() <= level ==> i < start.len(),
                entries_ok(states_to_check@, canon@),
                lens_eq(states_to_check@, canon@, level as int),
                frontier_has(start, states_to_check@, level as int),
                entries_ok(next_states_to_check@, canon@),
                lens_eq(next_states_to_check@, canon@, level + 1),
                frontier_has(canon@, next_states_to_check@, level + 1),
                covers(state_to_canon@, level as int),
                shortest(canon@),
                processed(states_to_check@, state_to_canon@, t as int),
                bfs_order(canon@, states_to_check@, next_states_to_check@, start.len() as int, t as int, 0),
                forall|i: int| 0 <= i < start.len() ==> (#[trigger] start[i])@.len() <= level,
            decreases states_to_check.len() - t,
        {
            let (idx, state) = states_to_check[t];
            let mut k: usize = 0;
            while k < 18
                invariant
                    k <= 18,
                    level < depth,
                    t < states_to_check.len(),
                    idx == states_to_check@[t as int].0,
                    state == states_to_check@[t as int].1,
                    forall|i: int| 0 <= i < 18 ==> #[trigger] basic[i] == move_of_index(i),
                    idx < canon.len(),
                    state == moves_reach(canon@[idx as int]@),
                    canon@[idx as int]@.len() == level,
                    canon_inv(canon@, state_to_canon@, level + 1),
                    start.len() <= canon.len(),
                    forall|i: int| 0 <= i < start.len() ==> #[trigger] canon@[i] == start[i],
                    forall|i: int| 0 <= i < canon.len() && (#[trigger] canon@[i])@.len() <= level ==> i < start.len(),
                    entries_ok(states_to_check@, canon@),
                    lens_eq(states_to_check@, canon@, level as int),
                    frontier_has(start, states_to_check@, level as int),
                    entries_ok(next_states_to_check@, canon@),
                    lens_eq(next_states_to_check@, canon@, level + 1),
                    frontier_has(canon@, next_states_to_check@, level + 1),
                    covers(state_to_canon@, level as int),
                    shortest(canon@),
                    processed(states_to_check@, state_to_canon@, t as int),
                    bfs_order(canon@, states_to_check@, next_states_to_check@, start.len() as int, t as int, k as int),
                    forall|i: int| 0 <= i < start.len() ==> (#[trigger] start[i])@.len() <= level,
                    forall|k2: int|
                        0 <= k2 < k ==> state_to_canon@.contains_key(
                            state_key(spec_mv(state, #[trigger] move_of_index(k2))),
                        ),
                decreases 18 - k,
            {
                let ghost before = canon@;
                let ghost map_before = state_to_canon@;
                let ghost next_before = next_states_to_check@;
                proof {
                    assert(before.len() <= usize::MAX);
                }
                add_if_new(&mut canon, &mut state_to_canon, &mut next_states_to_check, idx, state, basic[k], level);
                proof {
                    lemma_k_step(
                        before,
                        canon@,
                        map_before,
                        state_to_canon@,
                        states_to_check@,
                        next_before,
                        next_states_to_check@,
                        start,
                        level as int,
                        t as int,
                        k as int,
                    );
                }
                k += 1;
            }
            proof {
                lemma_bfs_next_entry(canon@, states_to_check@, next_states_to_check@, start.len() as int, t as int);
                assert forall|u: int, k3: int|
                    #![trigger states_to_check@[u], move_of_index(k3)]
                    0 <= u < t + 1 && 0 <= k3 < 18 implies state_to_canon@.contains_key(
                        state_key(spec_mv(states_to_check@[u].1, move_of_index(k3))),
                    ) by {
                    if u == t {
                        assert(state_to_canon@.contains_key(state_key(spec_mv(state, move_of_index(k3)))));
                    }
                }
            }
            t += 1;
        }
        proof {
            lemma_level_covers(canon@, state_to_canon@, states_to_check@, start, level as int);
            lemma_bfs_end(canon@, states_to_check@, next_states_to_check@, start.len() as int, t as int);
        }
        states_to_check = next_states_to_check;
        level += 1;
    }
    proof {
        assert forall|i: int, j: int| 0 <= i < j < canon.len() implies moves_reach(canon@[i]@) != moves_reach(
            canon@[j]@,
        ) by {
            assert(state_to_canon@[state_key(moves_reach(canon@[i]@))] == i);
            assert(state_to_canon@[state_key(moves_reach(canon@[j]@))] == j);
        }
        assert forall|q: Seq<Move>| q.len() <= depth implies exists|i: int|
            0 <= i < canon.len() && #[trigger] moves_reach(canon@[i]@) == moves_reach(q) by {
            let key = state_key(moves_reach(q));
            assert(state_to_canon@.contains_key(key));
            let i = state_to_canon@[key] as int;
            lemma_state_key(moves_reach(canon@[i]@), moves_reach(q));
        }
    }
    canon
}

/// After a level is processed, every sequence of one more move reaches a
/// state whose key is in the table: it is one move past a sequence of the
/// level or of an earlier one.
proof fn lemma_level_covers(
    canon: Seq<Vec<Move>>,
    map: Map<u128, usize>,
    front: Seq<(usize, State)>,
    start: Seq<Vec<Move>>,
    l: int,
)
    requires
        l >= 0,
        canon_inv(canon, map, l + 1),
        start.len() <= canon.len(),
        forall|i: int| 0 <= i < start.len() ==> #[trigger] canon[i] == start[i],
        forall|i: int| 0 <= i < canon.len() && (#[trigger] canon[i])@.len() <= l ==> i < start.len(),
        entries_ok(front, canon),
        frontier_has(start, front, l),
        covers(map, l),
        shortest(canon),
        processed(front, map, front.len() as int),
    ensures
        covers(map, l + 1),
{
    assert forall|q: Seq<Move>| q.len() <= l + 1 implies #[trigger] map.contains_key(state_key(moves_reach(q))) by {
        if q.len() == l + 1 {
            let q1 = q.drop_last();
            let mv = q.last();
            let k1 = state_key(moves_reach(q1));
            assert(map.contains_key(k1));
            let i = map[k1] as int;
            lemma_state_key(moves_reach(canon[i]@), moves_reach(q1));
            assert(canon[i]@.len() <= q1.len());
            lemma_move_index(mv);
            let k = mv.spec_index() as int;
            if canon[i]@.len() == l {
                assert(i < start.len());
                assert(start[i] == canon[i]);
                let u = choose|u: int| 0 <= u < front.len() && front[u].0 == i;
                assert(front[u].1 == moves_reach(q1));
                assert(map.contains_key(state_key(spec_mv(front[u].1, move_of_index(k)))));
            } else {
                let q2 = canon[i]@.push(mv);
                assert(q2.drop_last() =~= canon[i]@);
                assert(map.contains_key(state_key(moves_reach(q2))));
            }
        }
    }
}

} // verus!
