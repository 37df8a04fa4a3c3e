//! A trie of cube states, keyed by the position and orientation of each
//! piece in turn, and its compressed form.
use vstd::prelude::*;
use itertools::Itertools;
use smallvec::SmallVec;
use crate::cube_core::bits::{bits_at, lemma_bits_at_bounds};
use crate::state::State;

verus! {

/// The value of a slot that leads nowhere.
pub const NO_CHILD: usize = usize::MAX;

/// The depth past the last slot of a key.
const MAX_DEPTH: u64 = 2 * 8 + 2 * 12;

/// The number of slots of a node at depth `d` of the trie: a corner position
/// (8) and orientation (3) for each of the 8 corners, then an edge position
/// (12) and orientation (2) for each of the 12 edges.
pub open spec fn slot_count(d: int) -> int {
    if d < 16 {
        if d % 2 == 0 {
            8
        } else {
            3
        }
    } else {
        if d % 2 == 0 {
            12
        } else {
            2
        }
    }
}

/// The digit of `s` that the trie reads at depth `d`.
pub open spec fn key_digit(s: State, d: int) -> int {
    if d < 16 {
        let i = d / 2;
        if d % 2 == 0 {
            bits_at(s.corners, (5 * i + 2) as u64, 3) as int
        } else {
            bits_at(s.corners, (5 * i) as u64, 2) as int
        }
    } else {
        let i = (d - 16) / 2;
        if d % 2 == 0 {
            bits_at(s.edges, (5 * i + 1) as u64, 4) as int
        } else {
            bits_at(s.edges, (5 * i) as u64, 1) as int
        }
    }
}

/// The key of `s` in the trie: its digits at each of the 40 depths.
pub open spec fn trie_key(s: State) -> Seq<int> {
    Seq::new(40, |d: int| key_digit(s, d))
}

/// Whether each digit of `s` fits the node that reads it: the corner
/// orientations are below 3 and the edge positions below 12.
pub open spec fn fits_trie(s: State) -> bool {
    forall|d: int| 0 <= d < 40 ==> #[trigger] key_digit(s, d) < slot_count(d)
}

/// The node at depth `t` that `key` leads to from the root, if every slot on
/// the way leads somewhere.
pub open spec fn descend(b: Seq<usize>, key: Seq<int>, t: nat) -> Option<int>
    decreases t,
{
    if t == 0 {
        Some(0)
    } else {
        match descend(b, key, (t - 1) as nat) {
            Some(p) => {
                let d = t - 1;
                if 0 <= key[d] < slot_count(d) && b[p + key[d]] != NO_CHILD {
                    Some(b[p + key[d]] as int)
                } else {
                    None
                }
            },
            None => None,
        }
    }
}

/// The index of the state stored under `key`, if there is one.
pub open spec fn trie_lookup(b: Seq<usize>, key: Seq<int>) -> Option<int> {
    if key.len() != 40 {
        None
    } else {
        match descend(b, key, 39) {
            Some(n) => if 0 <= key[39] < 2 && b[n + key[39]] != NO_CHILD {
                Some(b[n + key[39]] as int)
            } else {
                None
            },
            None => None,
        }
    }
}

/// Whether the slots `b` hold the states `st` by their keys: a key that
/// finds an index finds that of a state with that key, and the key of each
/// state finds an index.
pub open spec fn keys_ok(b: Seq<usize>, st: Seq<State>) -> bool {
    &&& forall|key: Seq<int>|
        #[trigger] trie_lookup(b, key) is Some ==> 0 <= trie_lookup(b, key)->0 < st.len() && trie_key(
            st[trie_lookup(b, key)->0],
        ) == key
    &&& forall|k: int| 0 <= k < st.len() ==> #[trigger] trie_lookup(b, trie_key(st[k])) is Some
}

/// Whether keys `a` and `b` agree below depth `d`, where the digit of `a` is
/// the smaller.
pub open spec fn first_diff(a: Seq<int>, b: Seq<int>, d: int) -> bool {
    &&& 0 <= d < 40
    &&& a[d] < b[d]
    &&& forall|e: int| 0 <= e < d ==> a[e] == b[e]
}

/// Whether key `a` comes before key `b` in the order of the digits.
pub open spec fn key_before(a: Seq<int>, b: Seq<int>) -> bool {
    exists|d: int| #[trigger] first_diff(a, b, d)
}

/// The shape of the trie: `m` gives the depth of each node by its first
/// slot, and `par` the slot that leads to each node but the root. The nodes
/// lie in `b` one after the other without overlapping; a slot of a node
/// above the last depth leads nowhere or to a node one deeper, and is the
/// only slot that leads there; a slot of a node at the last depth leads
/// nowhere or holds the index of one of the `n_states` states.
pub open spec fn trie_wf(b: Seq<usize>, m: Map<int, int>, par: Map<int, int>, n_states: int) -> bool {
    &&& b.len() < NO_CHILD
    &&& m.contains_key(0) && m[0] == 0
    &&& forall|x: int| #[trigger] m.contains_key(x) ==> 0 <= x && 0 <= m[x] < 40 && x + slot_count(m[x]) <= b.len()
    &&& forall|x: int, y: int|
        #![trigger m.contains_key(x), m.contains_key(y)]
        m.contains_key(x) && m.contains_key(y) && x < y ==> x + slot_count(m[x]) <= y
    &&& forall|x: int, s: int|
        #![trigger m.contains_key(x), b[s]]
        m.contains_key(x) && x <= s < x + slot_count(m[x]) && b[s] != NO_CHILD ==> if m[x] < 39 {
            &&& m.contains_key(b[s] as int)
            &&& m[b[s] as int] == m[x] + 1
            &&& par.contains_key(b[s] as int)
            &&& par[b[s] as int] == s
        } else {
            b[s] < n_states
        }
}

/// A slot lies in at most one node.
proof fn lemma_slot_owner(b: Seq<usize>, m: Map<int, int>, par: Map<int, int>, ns: int, x: int, y: int, s: int)
    requires
        trie_wf(b, m, par, ns),
        m.contains_key(x),
        m.contains_key(y),
        x <= s < x + slot_count(m[x]),
        y <= s < y + slot_count(m[y]),
    ensures
        x == y,
{
    if x < y {
        assert(x + slot_count(m[x]) <= y);
    } else if y < x {
        assert(y + slot_count(m[y]) <= x);
    }
}

/// The node that a key leads to at depth `t` is a node of that depth.
proof fn lemma_descend_node(b: Seq<usize>, m: Map<int, int>, par: Map<int, int>, ns: int, key: Seq<int>, t: nat)
    requires
        trie_wf(b, m, par, ns),
        t <= 39,
        descend(b, key, t) is Some,
    ensures
        m.contains_key(descend(b, key, t)->0),
        m[descend(b, key, t)->0] == t,
    decreases t,
{
    if t > 0 {
        lemma_descend_node(b, m, par, ns, key, (t - 1) as nat);
        let p = descend(b, key, (t - 1) as nat)->0;
        let s = p + key[t - 1];
        assert(m.contains_key(p) && p <= s < p + slot_count(m[p]) && b[s] != NO_CHILD);
    }
}

/// Changing one slot, of a node at depth `z` or deeper, changes none of the
/// nodes that keys lead to down to depth `z`.
proof fn lemma_descend_frame(
    b: Seq<usize>,
    b2: Seq<usize>,
    m: Map<int, int>,
    par: Map<int, int>,
    ns: int,
    key: Seq<int>,
    t: nat,
    x: int,
    s: int,
)
    requires
        trie_wf(b, m, par, ns),
        b.len() <= b2.len(),
        forall|i: int| 0 <= i < b.len() && i != s ==> b2[i] == b[i],
        m.contains_key(x),
        x <= s < x + slot_count(m[x]),
        t <= m[x],
    ensures
        descend(b2, key, t) == descend(b, key, t),
    decreases t,
{
    if t > 0 {
        lemma_descend_frame(b, b2, m, par, ns, key, (t - 1) as nat, x, s);
        if descend(b, key, (t - 1) as nat) is Some {
            lemma_descend_node(b, m, par, ns, key, (t - 1) as nat);
            let p = descend(b, key, (t - 1) as nat)->0;
            let d = t - 1;
            if 0 <= key[d] < slot_count(d) {
                let q = p + key[d];
                if q == s {
                    lemma_slot_owner(b, m, par, ns, p, x, s);
                }
            }
        }
    }
}

/// Two keys that lead to the same node at depth `t` agree on their first `t`
/// digits.
proof fn lemma_descend_unique(
    b: Seq<usize>,
    m: Map<int, int>,
    par: Map<int, int>,
    ns: int,
    k1: Seq<int>,
    k2: Seq<int>,
    t: nat,
)
    requires
        trie_wf(b, m, par, ns),
        t <= 39,
        k1.len() == 40,
        k2.len() == 40,
        descend(b, k1, t) is Some,
        descend(b, k1, t) == descend(b, k2, t),
    ensures
        k1.subrange(0, t as int) == k2.subrange(0, t as int),
    decreases t,
{
    if t > 0 {
        let d = (t - 1) as nat;
        lemma_descend_node(b, m, par, ns, k1, d);
        lemma_descend_node(b, m, par, ns, k2, d);
        let p1 = descend(b, k1, d)->0;
        let p2 = descend(b, k2, d)->0;
        let s1 = p1 + k1[d as int];
        let s2 = p2 + k2[d as int];
        assert(m.contains_key(p1) && p1 <= s1 < p1 + slot_count(m[p1]) && b[s1] != NO_CHILD);
        assert(m.contains_key(p2) && p2 <= s2 < p2 + slot_count(m[p2]) && b[s2] != NO_CHILD);
        assert(s1 == s2);
        lemma_slot_owner(b, m, par, ns, p1, p2, s1);
        lemma_descend_unique(b, m, par, ns, k1, k2, d);
        assert(k1.subrange(0, t as int) =~= k1.subrange(0, d as int).push(k1[d as int]));
        assert(k2.subrange(0, t as int) =~= k2.subrange(0, d as int).push(k2[d as int]));
    }
}

/// With no state yet, every slot of the root leads nowhere, and so does every
/// key below it.
proof fn lemma_empty_descend(b: Seq<usize>, key: Seq<int>, t: nat)
    requires
        b.len() >= 8,
        forall|i: int| 0 <= i < 8 ==> b[i] == NO_CHILD,
        t >= 1,
    ensures
        descend(b, key, t) is None,
    decreases t,
{
    if t > 1 {
        lemma_empty_descend(b, key, (t - 1) as nat);
    } else {
        assert(descend(b, key, 0) == Some(0int));
        if 0 <= key[0] < 8 {
            assert(b[0 + key[0]] == NO_CHILD);
        }
    }
}

/// The slots after adding a node one deeper than the node at `x`, led to
/// by slot `s` of that node.
pub open spec fn with_node(b: Seq<usize>, s: int, size: int) -> Seq<usize> {
    b.update(s, b.len() as usize) + Seq::new(size as nat, |i: int| NO_CHILD)
}

/// Adding an empty node below a slot that led nowhere keeps the shape of the
/// trie.
proof fn lemma_add_node_wf(b: Seq<usize>, m: Map<int, int>, par: Map<int, int>, ns: int, x: int, s: int)
    requires
        trie_wf(b, m, par, ns),
        m.contains_key(x),
        m[x] < 39,
        x <= s < x + slot_count(m[x]),
        b[s] == NO_CHILD,
        b.len() + slot_count(m[x] + 1) < NO_CHILD,
    ensures
        trie_wf(
            with_node(b, s, slot_count(m[x] + 1)),
            m.insert(b.len() as int, m[x] + 1),
            par.insert(b.len() as int, s),
            ns,
        ),
{
    let l = b.len() as int;
    let size = slot_count(m[x] + 1);
    let b2 = with_node(b, s, size);
    let m2 = m.insert(l, m[x] + 1);
    let par2 = par.insert(l, s);
    assert(b2.len() == l + size);
    assert(m.contains_key(0) && 0 + slot_count(m[0]) <= l);
    assert forall|y: int| #[trigger] m2.contains_key(y) implies 0 <= y && 0 <= m2[y] < 40 && y + slot_count(m2[y])
        <= b2.len() by {
        if y != l {
            assert(m.contains_key(y));
        }
    }
    assert forall|y: int, z: int|
        #![trigger m2.contains_key(y), m2.contains_key(z)]
        m2.contains_key(y) && m2.contains_key(z) && y < z implies y + slot_count(m2[y]) <= z by {
        if z == l {
            assert(m.contains_key(y));
        } else {
            assert(m.contains_key(y) && m.contains_key(z));
        }
    }
    assert forall|y: int, q: int|
        #![trigger m2.contains_key(y), b2[q]]
        m2.contains_key(y) && y <= q < y + slot_count(m2[y]) && b2[q] != NO_CHILD implies if m2[y] < 39 {
            &&& m2.contains_key(b2[q] as int)
            &&& m2[b2[q] as int] == m2[y] + 1
            &&& par2.contains_key(b2[q] as int)
            &&& par2[b2[q] as int] == q
        } else {
            b2[q] < ns
        } by {
        if y == l {
            assert(b2[q] == NO_CHILD);
        } else if q == s {
            lemma_slot_owner(b, m, par, ns, y, x, s);
        } else {
            assert(m.contains_key(y));
            assert(q < l);
            assert(b2[q] == b[q]);
            if m[y] < 39 {
                let c = b[q] as int;
                assert(m.contains_key(c));
                assert(c + slot_count(m[c]) <= l);
            }
        }
    }
}

/// After adding an empty node below a slot that led nowhere, a key leads to
/// the same node as before at each depth, except to the new node at its
/// depth when it led nowhere.
proof fn lemma_add_node_descend(
    b: Seq<usize>,
    m: Map<int, int>,
    par: Map<int, int>,
    ns: int,
    x: int,
    s: int,
    key: Seq<int>,
    t: nat,
)
    requires
        trie_wf(b, m, par, ns),
        m.contains_key(x),
        m[x] < 39,
        x <= s < x + slot_count(m[x]),
        b[s] == NO_CHILD,
        t <= 39,
    ensures
        descend(with_node(b, s, slot_count(m[x] + 1)), key, t) == descend(b, key, t) || (t == m[x] + 1
            && descend(b, key, t) is None && descend(with_node(b, s, slot_count(m[x] + 1)), key, t) == Some(
            b.len() as int,
        )),
    decreases t,
{
    let l = b.len() as int;
    let b2 = with_node(b, s, slot_count(m[x] + 1));
    if t > 0 {
        let d = (t - 1) as nat;
        lemma_add_node_descend(b, m, par, ns, x, s, key, d);
        if descend(b, key, d) is Some && descend(b2, key, d) == descend(b, key, d) {
            lemma_descend_node(b, m, par, ns, key, d);
            let p = descend(b, key, d)->0;
            if 0 <= key[d as int] < slot_count(d as int) {
                let q = p + key[d as int];
                if q == s {
                    lemma_slot_owner(b, m, par, ns, p, x, s);
                } else {
                    assert(q < l);
                    assert(b2[q] == b[q]);
                }
            }
        } else if descend(b2, key, d) == Some(l) {
            if 0 <= key[d as int] < slot_count(d as int) {
                assert(b2[l + key[d as int]] == NO_CHILD);
            }
        }
    }
}

/// Adding an empty node below a slot that led nowhere changes no lookup.
proof fn lemma_add_node_lookup(
    b: Seq<usize>,
    m: Map<int, int>,
    par: Map<int, int>,
    ns: int,
    x: int,
    s: int,
    key: Seq<int>,
)
    requires
        trie_wf(b, m, par, ns),
        m.contains_key(x),
        m[x] < 39,
        x <= s < x + slot_count(m[x]),
        b[s] == NO_CHILD,
    ensures
        trie_lookup(with_node(b, s, slot_count(m[x] + 1)), key) == trie_lookup(b, key),
{
    let l = b.len() as int;
    let b2 = with_node(b, s, slot_count(m[x] + 1));
    if key.len() == 40 {
        lemma_add_node_descend(b, m, par, ns, x, s, key, 39);
        if descend(b, key, 39) is Some && descend(b2, key, 39) == descend(b, key, 39) {
            lemma_descend_node(b, m, par, ns, key, 39);
            let n = descend(b, key, 39)->0;
            if 0 <= key[39] < 2 {
                let q = n + key[39];
                if q == s {
                    lemma_slot_owner(b, m, par, ns, n, x, s);
                }
                assert(q < l);
                assert(b2[q] == b[q]);
            }
        } else if descend(b2, key, 39) == Some(l) {
            if 0 <= key[39] < 2 {
                assert(b2[l + key[39]] == NO_CHILD);
            }
        }
    }
}

/// Storing state `ns` in slot `s` of a node at the last depth keeps the
/// shape of the trie.
proof fn lemma_add_leaf_wf(b: Seq<usize>, m: Map<int, int>, par: Map<int, int>, ns: int, x: int, s: int)
    requires
        trie_wf(b, m, par, ns),
        m.contains_key(x),
        m[x] == 39,
        x <= s < x + slot_count(m[x]),
        0 <= ns < NO_CHILD,
    ensures
        trie_wf(b.update(s, ns as usize), m, par, ns + 1),
{
    let b2 = b.update(s, ns as usize);
    assert forall|y: int, q: int|
        #![trigger m.contains_key(y), b2[q]]
        m.contains_key(y) && y <= q < y + slot_count(m[y]) && b2[q] != NO_CHILD implies if m[y] < 39 {
            &&& m.contains_key(b2[q] as int)
            &&& m[b2[q] as int] == m[y] + 1
            &&& par.contains_key(b2[q] as int)
            &&& par[b2[q] as int] == q
        } else {
            b2[q] < ns + 1
        } by {
        if q == s {
            lemma_slot_owner(b, m, par, ns, y, x, s);
        } else {
            assert(b2[q] == b[q]);
        }
    }
}

/// After storing state `ns` in slot `s` of the node at `x`, at the last
/// depth, the keys that lead there find it, and the others find what they
/// found before.
proof fn lemma_add_leaf_lookup(
    b: Seq<usize>,
    m: Map<int, int>,
    par: Map<int, int>,
    ns: int,
    x: int,
    s: int,
    key: Seq<int>,
)
    requires
        trie_wf(b, m, par, ns),
        m.contains_key(x),
        m[x] == 39,
        x <= s < x + slot_count(m[x]),
        0 <= ns < NO_CHILD,
    ensures
        trie_lookup(b.update(s, ns as usize), key) == if key.len() == 40 && descend(b, key, 39) == Some(x) && key[39]
            == s - x {
            Some(ns)
        } else {
            trie_lookup(b, key)
        },
{
    let b2 = b.update(s, ns as usize);
    if key.len() == 40 {
        lemma_descend_frame(b, b2, m, par, ns, key, 39, x, s);
        if descend(b, key, 39) is Some {
            lemma_descend_node(b, m, par, ns, key, 39);
            let n = descend(b, key, 39)->0;
            if 0 <= key[39] < 2 {
                let q = n + key[39];
                if q == s {
                    lemma_slot_owner(b, m, par, ns, n, x, s);
                }
            }
        }
    }
}

/// The slots below `n` of the node at `node` that lead somewhere, with what
/// they hold, in order.
pub open spec fn kids(b: Seq<usize>, node: int, n: int) -> Seq<(int, int)>
    decreases n,
{
    if n <= 0 {
        Seq::empty()
    } else {
        let k = kids(b, node, n - 1);
        if b[node + n - 1] != NO_CHILD {
            k.push((n - 1, b[node + n - 1] as int))
        } else {
            k
        }
    }
}

/// Where the chain of only children from `node` at depth `d` ends, `idx`
/// being the slot that led to `node`: the first node on it that does not
/// have exactly one child, or what the chain reaches at the last depth; with
/// its depth and the slot that led to it.
pub open spec fn seg_end(b: Seq<usize>, node: int, d: int, idx: int) -> (int, int, int)
    decreases 40 - d,
{
    if d >= 40 || d < 0 {
        (node, d, idx)
    } else {
        let k = kids(b, node, slot_count(d));
        if k.len() == 1 {
            seg_end(b, k[0].1, d + 1, k[0].0)
        } else {
            (node, d, idx)
        }
    }
}

/// The 4 bits of `w` from bit `4 * j`.
pub open spec fn nibble(w: u64, j: int) -> u64 {
    (w >> ((4 * j) as u64)) & 15u64
}

/// The number of words of the compressed form of the node at `node`, at
/// depth `d`: its header, an entry for each slot that leads somewhere, and
/// the compressed forms of the nodes that end the chains of only children
/// that those slots start, short of the last depth.
pub open spec fn packed_len(b: Seq<usize>, node: int, d: int) -> int
    decreases 40 - d, 13int,
{
    if d < 0 || d >= 40 {
        0
    } else {
        1 + kids(b, node, slot_count(d)).len() + packed_kids(b, node, d, slot_count(d))
    }
}

/// The number of words of the compressed forms of the nodes that end the
/// chains of only children that the slots below `j` of the node at `node`,
/// at depth `d`, start, short of the last depth.
pub open spec fn packed_kids(b: Seq<usize>, node: int, d: int, j: int) -> int
    decreases 40 - d, j,
{
    if d < 0 || d >= 40 || j <= 0 || j > 12 {
        0
    } else {
        let (cn, cd, cs) = seg_end(b, b[node + j - 1] as int, d + 1, j - 1);
        packed_kids(b, node, d, j - 1) + if b[node + j - 1] != NO_CHILD && d < cd < 40 {
            packed_len(b, cn, cd)
        } else {
            0
        }
    }
}

/// The compressed form of a node takes at least its header.
proof fn lemma_packed_len_pos(b: Seq<usize>, node: int, d: int)
    requires
        0 <= d < 40,
    ensures
        packed_len(b, node, d) >= 1,
    decreases 40 - d, 13int,
{
    lemma_packed_kids_nonneg(b, node, d, slot_count(d));
}

/// The compressed forms below the slots of a node take no negative room.
proof fn lemma_packed_kids_nonneg(b: Seq<usize>, node: int, d: int, j: int)
    requires
        0 <= d < 40,
        0 <= j <= 12,
    ensures
        packed_kids(b, node, d, j) >= 0,
    decreases 40 - d, j,
{
    if j > 0 {
        lemma_packed_kids_nonneg(b, node, d, j - 1);
        let (cn, cd, cs) = seg_end(b, b[node + j - 1] as int, d + 1, j - 1);
        if b[node + j - 1] != NO_CHILD && d < cd < 40 {
            lemma_packed_len_pos(b, cn, cd);
        }
    }
}

/// Whether `out`, between `h` and `hi`, holds the compressed form of the
/// node at `node`, at depth `d`, led to by slot `sib` of its parent. The
/// compressed form of a node starts with a header: its depth from bit 58,
/// `sib` from bit 54, zeros from bit 48, and for each slot `j` that leads
/// somewhere, at bits `4 * j`, its rank among those slots, from 1 (the bits
/// of the other slots are zeros). Then comes an entry for each such slot, in
/// order (see `entry_ok`).
pub open spec fn encodes(out: Seq<u64>, h: int, hi: int, b: Seq<usize>, node: int, d: int, sib: int) -> bool
    decreases 40 - d, 1int,
{
    let n = slot_count(d);
    let total = kids(b, node, n).len();
    &&& 0 <= d < 40
    &&& 0 <= h
    &&& h + 1 + total <= hi <= out.len()
    &&& out[h] >> 58u64 == d
    &&& (out[h] >> 54u64) & 15u64 == sib
    &&& (out[h] >> 48u64) & 63u64 == 0
    &&& forall|j: int|
        0 <= j < 12 ==> #[trigger] nibble(out[h], j) == if j < n && b[node + j] != NO_CHILD {
            kids(b, node, j).len() + 1
        } else {
            0
        }
    &&& forall|j: int|
        #![trigger kids(b, node, j)]
        0 <= j < n && b[node + j] != NO_CHILD ==> entry_ok(out, h, hi, b, node, d, j)
}

/// Whether the entry of slot `j` of the node at `node`, at depth `d`, whose
/// compressed form starts at `h`, is right: for the chain of only children
/// that the slot starts, what it reaches at the last depth, with bit 63 set,
/// or the index of the compressed form of the node that ends it, which
/// comes right after the entries and the compressed forms for the slots
/// before `j`, and before `hi`.
pub open spec fn entry_ok(out: Seq<u64>, h: int, hi: int, b: Seq<usize>, node: int, d: int, j: int) -> bool
    decreases 40 - d, 0int,
{
    let total = kids(b, node, slot_count(d)).len();
    let e = h + 1 + kids(b, node, j).len();
    let (cn, cd, cs) = seg_end(b, b[node + j] as int, d + 1, j);
    if cd >= 40 {
        out[e] == (cn as u64) | 0x8000_0000_0000_0000u64
    } else if d < cd && out[e] == h + 1 + total + packed_kids(b, node, d, j) && h + 1 + total <= out[e] < hi {
        encodes(out, out[e] as int, hi, b, cn, cd, cs)
    } else {
        false
    }
}

/// The slots that lead somewhere: at most `n`, each below `n`, in
/// increasing order, each holding what it leads to; the rank of slot `j`
/// among them is the number of those below `j`.
proof fn lemma_kids(b: Seq<usize>, node: int, n: int)
    requires
        n >= 0,
    ensures
        kids(b, node, n).len() <= n,
        forall|r: int|
            0 <= r < kids(b, node, n).len() ==> 0 <= (#[trigger] kids(b, node, n)[r]).0 < n && b[node
                + kids(b, node, n)[r].0] != NO_CHILD && kids(b, node, n)[r].1 == b[node + kids(b, node, n)[r].0],
        forall|j: int|
            0 <= j < n && b[node + j] != NO_CHILD ==> kids(b, node, j).len() < kids(b, node, n).len() && kids(
                b,
                node,
                n,
            )[#[trigger] kids(b, node, j).len() as int] == (j, b[node + j] as int),
        forall|j: int| 0 <= j <= n ==> #[trigger] kids(b, node, j).len() <= kids(b, node, n).len(),
    decreases n,
{
    if n > 0 {
        lemma_kids(b, node, n - 1);
        assert forall|j: int|
            0 <= j < n && b[node + j] != NO_CHILD implies kids(b, node, j).len() < kids(b, node, n).len() && kids(
                b,
                node,
                n,
            )[#[trigger] kids(b, node, j).len() as int] == (j, b[node + j] as int) by {
            if j < n - 1 {
                assert(kids(b, node, n - 1)[kids(b, node, j).len() as int] == (j, b[node + j] as int));
            }
        }
    }
}

/// The chain of only children from a node at depth `d` ends at or below
/// that depth, on a node of its depth or, at the last depth, on a state;
/// and the slot that led there is a slot of its parent.
proof fn lemma_seg_end(b: Seq<usize>, m: Map<int, int>, par: Map<int, int>, ns: int, node: int, d: int, idx: int)
    requires
        trie_wf(b, m, par, ns),
        1 <= d <= 40,
        d < 40 ==> m.contains_key(node) && m[node] == d,
        d == 40 ==> 0 <= node < ns,
        0 <= idx < 12,
    ensures
        d <= seg_end(b, node, d, idx).1 <= 40,
        0 <= seg_end(b, node, d, idx).2 < 12,
        seg_end(b, node, d, idx).1 < 40 ==> m.contains_key(seg_end(b, node, d, idx).0) && m[seg_end(
            b,
            node,
            d,
            idx,
        ).0] == seg_end(b, node, d, idx).1,
        seg_end(b, node, d, idx).1 == 40 ==> 0 <= seg_end(b, node, d, idx).0 < ns,
    decreases 40 - d,
{
    if d < 40 {
        let k = kids(b, node, slot_count(d));
        lemma_kids(b, node, slot_count(d));
        if k.len() == 1 {
            let (j, v) = k[0];
            assert(m.contains_key(node) && node <= node + j < node + slot_count(m[node]) && b[node + j]
                != NO_CHILD);
            lemma_seg_end(b, m, par, ns, v, d + 1, j);
        }
    }
}

/// The compressed form of a node stays where the words it reads stay.
proof fn lemma_encodes_frame(
    out: Seq<u64>,
    out2: Seq<u64>,
    h: int,
    hi: int,
    hi2: int,
    b: Seq<usize>,
    node: int,
    d: int,
    sib: int,
)
    requires
        encodes(out, h, hi, b, node, d, sib),
        hi <= hi2 <= out2.len(),
        forall|i: int| h <= i < hi ==> out2[i] == out[i],
    ensures
        encodes(out2, h, hi2, b, node, d, sib),
    decreases 40 - d,
{
    let n = slot_count(d);
    assert(out2[h] == out[h]);
    lemma_kids(b, node, n);
    assert forall|j: int| 0 <= j < n && b[node + j] != NO_CHILD implies #[trigger] entry_ok(out2, h, hi2, b, node, d, j) by {
        assert(kids(b, node, j) == kids(b, node, j));
        assert(entry_ok(out, h, hi, b, node, d, j));
        assert(kids(b, node, j).len() < kids(b, node, n).len());
        lemma_entry_frame(out, out2, h, hi, hi2, b, node, d, j);
    }
    assert(forall|j: int|
        #![trigger kids(b, node, j)]
        0 <= j < n && b[node + j] != NO_CHILD ==> entry_ok(out2, h, hi2, b, node, d, j));
    assert(forall|j: int|
        0 <= j < 12 ==> #[trigger] nibble(out2[h], j) == if j < n && b[node + j] != NO_CHILD {
            kids(b, node, j).len() + 1
        } else {
            0
        });
    reveal_with_fuel(encodes, 2);
    reveal_with_fuel(entry_ok, 2);
}

/// The entry of a slot stays where the words it reads stay.
proof fn lemma_entry_frame(
    out: Seq<u64>,
    out2: Seq<u64>,
    h: int,
    hi: int,
    hi2: int,
    b: Seq<usize>,
    node: int,
    d: int,
    j: int,
)
    requires
        entry_ok(out, h, hi, b, node, d, j),
        0 <= h,
        0 <= j,
        hi <= hi2 <= out2.len(),
        out2[h + 1 + kids(b, node, j).len()] == out[h + 1 + kids(b, node, j).len()],
        forall|i: int| h + 1 + kids(b, node, slot_count(d)).len() <= i < hi ==> out2[i] == out[i],
    ensures
        entry_ok(out2, h, hi2, b, node, d, j),
    decreases 40 - d, 0int,
{
    let e = h + 1 + kids(b, node, j).len();
    let (cn, cd, cs) = seg_end(b, b[node + j] as int, d + 1, j);
    if cd < 40 {
        lemma_encodes_frame(out, out2, out[e] as int, hi, hi2, b, cn, cd, cs);
    }
}

/// The header of a node before any slot is recorded: its depth and the slot
/// that led to it, and no rank.
proof fn lemma_header_start(d: u64, sib: u64, j: u64)
    by (bit_vector)
    requires
        d < 40,
        sib < 16,
        j < 12,
    ensures
        ((d << 58u64) | (sib << 54u64)) >> 58u64 == d,
        (((d << 58u64) | (sib << 54u64)) >> 54u64) & 15u64 == sib,
        (((d << 58u64) | (sib << 54u64)) >> ((4 * j) as u64)) & 15u64 == 0,
        (((d << 58u64) | (sib << 54u64)) >> 48u64) & 63u64 == 0,
{
}

/// Recording rank `v` at slot `idx` of a header sets those 4 bits and keeps
/// the others.
proof fn lemma_header_set(w: u64, idx: u64, v: u64, j: u64)
    by (bit_vector)
    requires
        idx < 12,
        j < 12,
        v < 16,
        (w >> ((4 * idx) as u64)) & 15u64 == 0,
    ensures
        ((w | (v << ((4 * idx) as u64))) >> ((4 * j) as u64)) & 15u64 == if j == idx {
            v
        } else {
            (w >> ((4 * j) as u64)) & 15u64
        },
        (w | (v << ((4 * idx) as u64))) >> 58u64 == w >> 58u64,
        ((w | (v << ((4 * idx) as u64))) >> 54u64) & 15u64 == (w >> 54u64) & 15u64,
        ((w | (v << ((4 * idx) as u64))) >> 48u64) & 63u64 == (w >> 48u64) & 63u64,
{
}

/// After the compressed form of the chain that slot `idx` starts is
/// appended and its entry written, the entries of the slots up to `idx` are
/// right.
proof fn lemma_entries_step(
    before: Seq<u64>,
    mid: Seq<u64>,
    after: Seq<u64>,
    h: int,
    b: Seq<usize>,
    node: int,
    d: int,
    idx: int,
    entry: u64,
)
    requires
        0 <= h,
        0 <= d < 40,
        0 <= idx < slot_count(d),
        b[node + idx] != NO_CHILD,
        h + 1 + kids(b, node, slot_count(d)).len() <= before.len(),
        kids(b, node, idx).len() < kids(b, node, slot_count(d)).len(),
        forall|j: int|
            0 <= j < idx && b[node + j] != NO_CHILD ==> #[trigger] entry_ok(before, h, before.len() as int, b, node, d, j),
        before.len() <= mid.len(),
        mid.subrange(0, before.len() as int) == before,
        after == mid.update(h + 1 + kids(b, node, idx).len(), entry),
        seg_end(b, b[node + idx] as int, d + 1, idx).1 > d,
        seg_end(b, b[node + idx] as int, d + 1, idx).1 >= 40 ==> entry == (seg_end(b, b[node + idx] as int, d + 1, idx).0 as u64)
            | 0x8000_0000_0000_0000u64,
        seg_end(b, b[node + idx] as int, d + 1, idx).1 < 40 ==> before.len() == h + 1 + kids(b, node, slot_count(d)).len()
            + packed_kids(b, node, d, idx),
        seg_end(b, b[node + idx] as int, d + 1, idx).1 < 40 ==> entry == before.len() && encodes(
            mid,
            before.len() as int,
            mid.len() as int,
            b,
            seg_end(b, b[node + idx] as int, d + 1, idx).0,
            seg_end(b, b[node + idx] as int, d + 1, idx).1,
            seg_end(b, b[node + idx] as int, d + 1, idx).2,
        ),
    ensures
        forall|j: int|
            0 <= j <= idx && b[node + j] != NO_CHILD ==> #[trigger] entry_ok(after, h, after.len() as int, b, node, d, j),
{
    lemma_kids(b, node, idx);
    let total = kids(b, node, slot_count(d)).len();
    assert forall|i: int| h + 1 + total <= i < before.len() implies after[i] == before[i] by {
        assert(mid.subrange(0, before.len() as int)[i] == before[i]);
    }
    let (cn, cd, cs) = seg_end(b, b[node + idx] as int, d + 1, idx);
    if cd < 40 {
        lemma_encodes_frame(mid, after, before.len() as int, mid.len() as int, after.len() as int, b, cn, cd, cs);
    }
    assert forall|j: int| 0 <= j <= idx && b[node + j] != NO_CHILD implies #[trigger] entry_ok(
        after,
        h,
        after.len() as int,
        b,
        node,
        d,
        j,
    ) by {
        if j < idx {
            assert(kids(b, node, j).len() < kids(b, node, idx).len());
            assert(mid.subrange(0, before.len() as int)[h + 1 + kids(b, node, j).len()] == before[h + 1 + kids(
                b,
                node,
                j,
            ).len()]);
            lemma_entry_frame(before, after, h, before.len() as int, after.len() as int, b, node, d, j);
        }
    }
}

/// Calls `Itertools::exactly_one` on the items of `items`: the only item
/// when there is exactly one, nothing otherwise.
#[verifier::external_body]
fn exactly_one_of(items: Vec<(usize, usize)>) -> (r: Option<(usize, usize)>)
    ensures
        r == if items@.len() == 1 {
            Some(items@[0])
        } else {
            None
        },
{
    items.into_iter().exactly_one().ok()
}

/// Calls `Itertools::tuple_windows` on the items of `items`: the pairs of
/// consecutive items, in order.
#[verifier::external_body]
fn pair_windows(items: &[(usize, usize); 40]) -> (r: Vec<((usize, usize), (usize, usize))>)
    ensures
        r@.len() == 39,
        forall|i: int| 0 <= i < 39 ==> #[trigger] r@[i] == (items@[i], items@[i + 1]),
{
    items.iter().copied().tuple_windows().collect()
}

/// A trie of states being built: each state is stored under its key, the
/// last one inserted under a key replacing the others.
///
/// `branches` holds the nodes one after the other, a node at depth `d`
/// taking `slot_count(d)` slots; a slot holds the index of the first slot of
/// the node one deeper that it leads to, or at the last depth the index of a
/// state in `states`, or `NO_CHILD`.
pub struct TrieBuilder {
    branches: Vec<usize>,
    states: Vec<State>,
    depth_of: Ghost<Map<int, int>>,
    parent_of: Ghost<Map<int, int>>,
}

impl TrieBuilder {
    /// The shape of the trie holds.
    closed spec fn shaped(&self) -> bool {
        trie_wf(self.branches@, self.depth_of@, self.parent_of@, self.states@.len() as int)
    }

    /// The shape of the trie holds, and it holds its states by their keys.
    pub closed spec fn wf(&self) -> bool {
        &&& self.shaped()
        &&& keys_ok(self.branches@, self.states@)
    }

    /// The states inserted, in order.
    pub closed spec fn inserted(&self) -> Seq<State> {
        self.states@
    }

    /// The index, among the states inserted, of the state stored under `key`.
    pub closed spec fn lookup(&self, key: Seq<int>) -> Option<int> {
        trie_lookup(self.branches@, key)
    }

    /// The number of slots of the trie.
    pub closed spec fn slots(&self) -> nat {
        self.branches@.len()
    }

    /// An empty trie: the root, whose slots lead nowhere.
    pub fn new() -> (r: Self)
        ensures
            r.wf(),
            r.inserted() == Seq::<State>::empty(),
            forall|key: Seq<int>| #[trigger] r.lookup(key) is None,
            r.slots() == 8,
    {
        let mut branches: Vec<usize> = Vec::new();
        let mut i: usize = 0;
        while i < 8
            invariant
                i <= 8,
                branches@.len() == i,
                forall|j: int| 0 <= j < i ==> branches@[j] == NO_CHILD,
            decreases 8 - i,
        {
            branches.push(NO_CHILD);
            i += 1;
        }
        let r = Self {
            branches,
            states: Vec::new(),
            depth_of: Ghost(Map::<int, int>::empty().insert(0, 0)),
            parent_of: Ghost(Map::empty()),
        };
        proof {
            assert forall|key: Seq<int>| #[trigger] r.lookup(key) is None by {
                if key.len() == 40 {
                    lemma_empty_descend(r.branches@, key, 39);
                }
            }
            assert forall|key: Seq<int>| #[trigger] trie_lookup(r.branches@, key) is None by {
                assert(r.lookup(key) is None);
            }
            let m = r.depth_of@;
            assert forall|x: int, y: int|
                #![trigger m.contains_key(x), m.contains_key(y)]
                m.contains_key(x) && m.contains_key(y) && x < y implies x + slot_count(m[x]) <= y by {
            }
        }
        r
    }

    /// The node that slot `pos` of the node at `node` leads to; when the slot
    /// leads nowhere, a new node of `size` slots that lead nowhere, which the
    /// slot then leads to.
    fn get_or_insert_branch(&mut self, node: usize, pos: usize, size: usize) -> (r: usize)
        requires
            old(self).shaped(),
            old(self).depth_of@.contains_key(node as int),
            old(self).depth_of@[node as int] < 39,
            pos < slot_count(old(self).depth_of@[node as int]),
            size == slot_count(old(self).depth_of@[node as int] + 1),
            old(self).branches@.len() + 12 < NO_CHILD,
        ensures
            final(self).shaped(),
            final(self).states@ == old(self).states@,
            old(self).branches@.len() <= final(self).branches@.len() <= old(self).branches@.len() + size,
            forall|i: int|
                0 <= i < old(self).branches@.len() && i != node + pos ==> final(self).branches@[i] == old(
                    self,
                ).branches@[i],
            r == final(self).branches@[node + pos],
            r != NO_CHILD,
            final(self).depth_of@.contains_key(r as int),
            final(self).depth_of@[r as int] == old(self).depth_of@[node as int] + 1,
            forall|x: int|
                old(self).depth_of@.contains_key(x) ==> #[trigger] final(self).depth_of@.contains_key(x)
                    && final(self).depth_of@[x] == old(self).depth_of@[x],
            forall|key: Seq<int>|
                #[trigger] trie_lookup(final(self).branches@, key) == trie_lookup(old(self).branches@, key),
    {
        let ghost b0 = self.branches@;
        let ghost m0 = self.depth_of@;
        let ghost par0 = self.parent_of@;
        let ghost ns = self.states@.len() as int;
        let ghost x = node as int;
        let ghost s = node + pos;
        proof {
            assert(x <= s < x + slot_count(m0[x]));
        }
        if self.branches[node + pos] == NO_CHILD {
            proof {
                lemma_add_node_wf(b0, m0, par0, ns, x, s);
                assert forall|key: Seq<int>|
                    #[trigger] trie_lookup(with_node(b0, s, size as int), key) == trie_lookup(b0, key) by {
                    lemma_add_node_lookup(b0, m0, par0, ns, x, s, key);
                }
            }
            let len = self.branches.len();
            self.branches.set(node + pos, len);
            let mut k: usize = 0;
            while k < size
                invariant
                    k <= size,
                    size <= 12,
                    len == b0.len(),
                    b0.len() + 12 < NO_CHILD,
                    0 <= s < b0.len(),
                    self.states@.len() == ns,
                    self.states@ == old(self).states@,
                    self.depth_of@ == m0,
                    self.parent_of@ == par0,
                    self.branches@ == b0.update(s, len) + Seq::new(k as nat, |i: int| NO_CHILD),
                decreases size - k,
            {
                self.branches.push(NO_CHILD);
                k += 1;
                proof {
                    assert(self.branches@ =~= b0.update(s, len) + Seq::new(k as nat, |i: int| NO_CHILD));
                }
            }
            self.depth_of = Ghost(m0.insert(len as int, m0[x] + 1));
            self.parent_of = Ghost(par0.insert(len as int, s));
            assert(self.branches@ =~= with_node(b0, s, size as int));
        }
        self.branches[node + pos]
    }

    /// Stores `state` under its key: the nodes on its way that are missing
    /// are added, and the last slot of the way holds its index.
    pub fn insert(&mut self, state: State)
        requires
            old(self).wf(),
            fits_trie(state),
            old(self).slots() + 480 < usize::MAX,
            old(self).inserted().len() + 1 < usize::MAX,
        ensures
            final(self).wf(),
            final(self).inserted() == old(self).inserted().push(state),
            final(self).lookup(trie_key(state)) == Some(old(self).inserted().len() as int),
            forall|key: Seq<int>| key != trie_key(state) ==> #[trigger] final(self).lookup(key) == old(self).lookup(key),
            final(self).slots() <= old(self).slots() + 468,
    {
        let ghost key = trie_key(state);
        let mut branches: [(usize, usize); 40] = [(0, 0); 40];
        let mut b: usize = 0;
        let mut i: u8 = 0;
        while i < 8
            invariant
                i <= 8,
                b == 2 * i,
                forall|d: int| 0 <= d < b ==> #[trigger] branches@[d] == (key_digit(state, d) as usize, slot_count(d) as usize),
            decreases 8 - i,
        {
            let pos = State::get_block(state.corners, 5 * i + 2, 3);
            let ori = State::get_block(state.corners, 5 * i, 2);
            branches[b] = (pos as usize, 8);
            branches[b + 1] = (ori as usize, 3);
            proof {
                assert(key_digit(state, b as int) == pos);
                assert(key_digit(state, b + 1) == ori);
            }
            b += 2;
            i += 1;
        }
        let mut i: u8 = 0;
        while i < 12
            invariant
                i <= 12,
                b == 16 + 2 * i,
                forall|d: int| 0 <= d < b ==> #[trigger] branches@[d] == (key_digit(state, d) as usize, slot_count(d) as usize),
            decreases 12 - i,
        {
            let pos = State::get_block(state.edges, 5 * i + 1, 4);
            let ori = State::get_block(state.edges, 5 * i, 1);
            branches[b] = (pos as usize, 12);
            branches[b + 1] = (ori as usize, 2);
            proof {
                assert(key_digit(state, b as int) == pos);
                assert(key_digit(state, b + 1) == ori);
            }
            b += 2;
            i += 1;
        }
        let windows = pair_windows(&branches);
        let ghost b_orig = self.branches@;
        let mut node: usize = 0;
        let mut w: usize = 0;
        while w < windows.len()
            invariant
                w <= 39,
                windows@.len() == 39,
                fits_trie(state),
                key == trie_key(state),
                forall|d: int| 0 <= d < 40 ==> #[trigger] branches@[d] == (key_digit(state, d) as usize, slot_count(d) as usize),
                forall|j: int| 0 <= j < 39 ==> #[trigger] windows@[j] == (branches@[j], branches@[j + 1]),
                self.shaped(),
                self.states@ == old(self).states@,
                self.depth_of@.contains_key(node as int),
                self.depth_of@[node as int] == w,
                descend(self.branches@, key, w as nat) == Some(node as int),
                forall|k: Seq<int>| #[trigger] trie_lookup(self.branches@, k) == trie_lookup(b_orig, k),
                b_orig == old(self).branches@,
                self.branches@.len() <= b_orig.len() + 12 * w,
                b_orig.len() + 480 < usize::MAX,
            decreases 39 - w,
        {
            let (a, c) = windows[w];
            proof {
                assert(a == branches@[w as int] && c == branches@[w + 1]);
                assert(0 <= key_digit(state, w as int) < slot_count(w as int));
                assert(slot_count(w + 1) <= 12);
            }
            let ghost before = self.branches@;
            let ghost m_before = self.depth_of@;
            let ghost par_before = self.parent_of@;
            let ghost ns = self.states@.len() as int;
            node = self.get_or_insert_branch(node, a.0, c.1);
            proof {
                let x = descend(before, key, w as nat)->0;
                lemma_descend_frame(before, self.branches@, m_before, par_before, ns, key, w as nat, x, x + key[w as int]);
                assert(descend(self.branches@, key, (w + 1) as nat) == Some(node as int));
            }
            w += 1;
        }
        proof {
            assert(0 <= key_digit(state, 39) < 2);
        }
        let ghost before = self.branches@;
        let ghost m_before = self.depth_of@;
        let ghost par_before = self.parent_of@;
        let ghost ns = self.states@.len() as int;
        self.insert_leaf(node, branches[39].0, state);
        proof {
            let x = node as int;
            let s = x + key[39];
            lemma_add_leaf_lookup(before, m_before, par_before, ns, x, s, key);
            assert forall|k: Seq<int>| k != key implies #[trigger] trie_lookup(self.branches@, k) == trie_lookup(
                b_orig,
                k,
            ) by {
                lemma_add_leaf_lookup(before, m_before, par_before, ns, x, s, k);
                if k.len() == 40 && descend(before, k, 39) == Some(x) && k[39] == s - x {
                    lemma_descend_unique(before, m_before, par_before, ns, k, key, 39);
                    assert(k =~= k.subrange(0, 39).push(k[39]));
                    assert(key =~= key.subrange(0, 39).push(key[39]));
                }
            }
            let b1 = self.branches@;
            let st0 = old(self).states@;
            let st1 = self.states@;
            assert(trie_lookup(b1, key) == Some(st0.len() as int));
            assert forall|k: Seq<int>| #[trigger] trie_lookup(b1, k) is Some implies 0 <= trie_lookup(b1, k)->0 < st1.len()
                && trie_key(st1[trie_lookup(b1, k)->0]) == k by {
                if k != key {
                    assert(trie_lookup(b_orig, k) is Some);
                }
            }
            assert forall|j: int| 0 <= j < st1.len() implies #[trigger] trie_lookup(b1, trie_key(st1[j])) is Some by {
                if j < st0.len() && trie_key(st1[j]) != key {
                    assert(st1[j] == st0[j]);
                    assert(trie_lookup(b_orig, trie_key(st0[j])) is Some);
                }
            }
        }
    }

    /// The slots of the trie.
    pub closed spec fn slot_values(&self) -> Seq<usize> {
        self.branches@
    }

    /// The compressed form of the trie (see `encodes`), with the states
    /// inserted.
    pub fn build(self) -> (r: Trie)
        requires
            self.wf(),
        ensures
            r.wf(),
            r.stored() == self.inserted(),
            r.shape() == self.slot_values(),
            encodes(r.words(), 0, r.words().len() as int, self.slot_values(), 0, 0, 0),
            r.words().len() == packed_len(self.slot_values(), 0, 0),
    {
        let mut branches: Vec<u64> = Vec::new();
        self.build_branch(0, 0, 0, &mut branches);
        let ghost shape = self.branches@;
        let ghost m = self.depth_of@;
        let ghost par = self.parent_of@;
        Trie { branches, states: self.states, shape: Ghost(shape), depths: Ghost(m), parents: Ghost(par) }
    }

    /// Appends the compressed form of the node at `node`, at depth `d`, led
    /// to by slot `sibling_idx` of its parent, to `branches`, and returns
    /// where it starts.
    fn build_branch(&self, node: usize, d: u64, sibling_idx: u64, branches: &mut Vec<u64>) -> (r: usize)
        requires
            self.shaped(),
            d < 40,
            self.depth_of@.contains_key(node as int),
            self.depth_of@[node as int] == d,
            sibling_idx < 12,
        ensures
            r == old(branches)@.len(),
            final(branches)@.len() == old(branches)@.len() + packed_len(self.branches@, node as int, d as int),
            final(branches)@.subrange(0, r as int) == old(branches)@,
            encodes(
                final(branches)@,
                r as int,
                final(branches)@.len() as int,
                self.branches@,
                node as int,
                d as int,
                sibling_idx as int,
            ),
        decreases 40 - d,
    {
        let ghost b = self.branches@;
        let ghost m = self.depth_of@;
        let ghost par = self.parent_of@;
        let ghost ns = self.states@.len() as int;
        let max_children = Self::max_children(d);
        let ghost total = kids(b, node as int, max_children as int).len();
        proof {
            lemma_kids(b, node as int, max_children as int);
        }
        let mut num_children: usize = 0;
        let mut idx: usize = 0;
        while idx < max_children
            invariant
                idx <= max_children,
                max_children == slot_count(d as int),
                node + max_children <= b.len(),
                b.len() < NO_CHILD,
                b == self.branches@,
                num_children == kids(b, node as int, idx as int).len(),
                num_children <= idx,
            decreases max_children - idx,
        {
            if self.branches[node + idx] != NO_CHILD {
                num_children += 1;
            }
            idx += 1;
        }
        let header_offset = branches.len();
        let mut k: usize = 0;
        while k < num_children + 1
            invariant
                k <= num_children + 1,
                num_children <= 12,
                branches@.len() == header_offset + k,
                branches@.subrange(0, header_offset as int) == old(branches)@,
            decreases num_children + 1 - k,
        {
            branches.push(0);
            k += 1;
        }
        let mut child_idx: usize = 0;
        let mut header: u64 = (d << 58) | (sibling_idx << 54);
        proof {
            assert forall|j: int| 0 <= j < 12 implies #[trigger] nibble(header, j) == 0 by {
                lemma_header_start(d, sibling_idx, j as u64);
            }
            lemma_header_start(d, sibling_idx, 0);
        }
        let mut idx: usize = 0;
        while idx < max_children
            invariant
                self.shaped(),
                b == self.branches@,
                m == self.depth_of@,
                par == self.parent_of@,
                ns == self.states@.len(),
                d < 40,
                m.contains_key(node as int),
                m[node as int] == d,
                sibling_idx < 12,
                idx <= max_children,
                max_children == slot_count(d as int),
                node + max_children <= b.len(),
                total == kids(b, node as int, max_children as int).len(),
                total <= 12,
                child_idx == kids(b, node as int, idx as int).len(),
                branches@.len() == header_offset + 1 + total + packed_kids(b, node as int, d as int, idx as int),
                packed_kids(b, node as int, d as int, idx as int) >= 0,
                branches@.subrange(0, header_offset as int) == old(branches)@,
                header >> 58u64 == d,
                (header >> 54u64) & 15u64 == sibling_idx,
                (header >> 48u64) & 63u64 == 0,
                forall|j: int|
                    0 <= j < 12 ==> #[trigger] nibble(header, j) == if j < idx && j < max_children && b[node + j]
                        != NO_CHILD {
                        kids(b, node as int, j).len() + 1
                    } else {
                        0
                    },
                forall|j: int|
                    0 <= j < idx && b[node + j] != NO_CHILD ==> #[trigger] entry_ok(
                        branches@,
                        header_offset as int,
                        branches@.len() as int,
                        b,
                        node as int,
                        d as int,
                        j,
                    ),
            decreases max_children - idx,
        {
            proof {
                lemma_kids(b, node as int, max_children as int);
            }
            let child = self.branches[node + idx];
            if child != NO_CHILD {
                proof {
                    let s = node + idx;
                    assert(m.contains_key(node as int) && node <= s < node + slot_count(m[node as int]) && b[s]
                        != NO_CHILD);
                    lemma_seg_end(b, m, par, ns, child as int, d + 1, idx as int);
                    assert(kids(b, node as int, idx as int).len() < total);
                    lemma_kids(b, node as int, idx as int);
                    assert(nibble(header, idx as int) == 0);
                }
                let (cn, child_d, sib) = self.segment_end(child, d + 1, idx as u64);
                let ghost before = branches@;
                let entry: u64;
                if Self::is_leaf(child_d) {
                    assert(1u64 << 63u64 == 0x8000_0000_0000_0000u64) by (bit_vector);
                    entry = (cn as u64) | (1u64 << 63);
                } else {
                    let c = self.build_branch(cn, child_d, sib, branches);
                    entry = c as u64;
                }
                let ghost mid = branches@;
                child_idx += 1;
                let ghost old_header = header;
                header = header | ((child_idx as u64) << (4 * idx as u64));
                let cur_len = branches.len();
                let e = header_offset + child_idx;
                branches.set(e, entry);
                proof {
                    assert(mid.subrange(0, before.len() as int) =~= before);
                    lemma_entries_step(before, mid, branches@, header_offset as int, b, node as int, d as int, idx as int, entry);
                    assert forall|j: int| 0 <= j < 12 implies #[trigger] nibble(header, j) == if j < idx + 1 && j
                        < max_children && b[node + j] != NO_CHILD {
                        kids(b, node as int, j).len() + 1
                    } else {
                        0
                    } by {
                        lemma_header_set(old_header, idx as u64, child_idx as u64, j as u64);
                        assert(nibble(header, j) == if j == idx {
                            child_idx as u64
                        } else {
                            nibble(old_header, j)
                        });
                    }
                    lemma_header_set(old_header, idx as u64, child_idx as u64, 0);
                }
            }
            proof {
                lemma_packed_kids_nonneg(b, node as int, d as int, idx + 1);
            }
            idx += 1;
        }
        let ghost before = branches@;
        branches.set(header_offset, header);
        proof {
            let after = branches@;
            let h = header_offset as int;
            assert forall|j: int|
                0 <= j < max_children && b[node + j] != NO_CHILD implies #[trigger] entry_ok(
                    after,
                    h,
                    after.len() as int,
                    b,
                    node as int,
                    d as int,
                    j,
                ) by {
                lemma_kids(b, node as int, max_children as int);
                lemma_entry_frame(before, after, h, before.len() as int, after.len() as int, b, node as int, d as int, j);
            }
            assert(forall|j: int|
                #![trigger kids(b, node as int, j)]
                0 <= j < max_children && b[node + j] != NO_CHILD ==> entry_ok(
                    after,
                    h,
                    after.len() as int,
                    b,
                    node as int,
                    d as int,
                    j,
                ));
            assert(after.subrange(0, h) =~= before.subrange(0, h));
            reveal_with_fuel(encodes, 2);
            reveal_with_fuel(entry_ok, 2);
        }
        header_offset
    }

    /// Where the chain of only children from `node`, at depth `d`, ends (see
    /// `seg_end`).
    fn segment_end(&self, node: usize, d: u64, sibling_idx: u64) -> (r: (usize, u64, u64))
        requires
            self.shaped(),
            1 <= d <= 40,
            d < 40 ==> self.depth_of@.contains_key(node as int) && self.depth_of@[node as int] == d,
            sibling_idx < 12,
        ensures
            (r.0 as int, r.1 as int, r.2 as int) == seg_end(
                self.branches@,
                node as int,
                d as int,
                sibling_idx as int,
            ),
    {
        let ghost b = self.branches@;
        let ghost m = self.depth_of@;
        let ghost start = seg_end(b, node as int, d as int, sibling_idx as int);
        let mut node = node;
        let mut d = d;
        let mut sibling_idx = sibling_idx;
        loop
            invariant
                self.shaped(),
                b == self.branches@,
                m == self.depth_of@,
                1 <= d <= 40,
                d < 40 ==> m.contains_key(node as int) && m[node as int] == d,
                sibling_idx < 12,
                seg_end(b, node as int, d as int, sibling_idx as int) == start,
            ensures
                (node as int, d as int, sibling_idx as int) == start,
            decreases 40 - d,
        {
            if Self::is_leaf(d) {
                break;
            }
            let max_children = Self::max_children(d);
            proof {
                lemma_kids(b, node as int, max_children as int);
            }
            let mut list: Vec<(usize, usize)> = Vec::new();
            let mut idx: usize = 0;
            while idx < max_children
                invariant
                    idx <= max_children,
                    max_children == slot_count(d as int),
                    node + max_children <= b.len(),
                    b.len() < NO_CHILD,
                    b == self.branches@,
                    list@.len() == kids(b, node as int, idx as int).len(),
                    forall|r: int|
                        0 <= r < list@.len() ==> (#[trigger] list@[r].0 as int, list@[r].1 as int) == kids(
                            b,
                            node as int,
                            idx as int,
                        )[r],
                decreases max_children - idx,
            {
                let child = self.branches[node + idx];
                if child != NO_CHILD {
                    list.push((idx, child));
                }
                idx += 1;
            }
            match exactly_one_of(list) {
                Some((i, only_child)) => {
                    proof {
                        let s = node + i;
                        assert((i as int, only_child as int) == kids(b, node as int, max_children as int)[0]);
                        assert(m.contains_key(node as int) && node <= s < node + slot_count(m[node as int])
                            && b[s] != NO_CHILD);
                    }
                    node = only_child;
                    d += 1;
                    sibling_idx = i as u64;
                },
                None => {
                    break;
                },
            }
        }
        (node, d, sibling_idx)
    }

    /// Whether depth `s` is past the last slot of a key.
    fn is_leaf(s: u64) -> (r: bool)
        ensures
            r == (s >= 40),
    {
        s >= MAX_DEPTH
    }

    /// The number of slots of a node at depth `s`.
    fn max_children(s: u64) -> (r: usize)
        ensures
            r == slot_count(s as int),
    {
        match (s < 2 * 8, s % 2 == 0) {
            (true, true) => 8,
            (true, false) => 3,
            (false, true) => 12,
            (false, false) => 2,
        }
    }

    /// Stores `state` in slot `pos` of the node at `node`, at the last depth.
    fn insert_leaf(&mut self, node: usize, pos: usize, state: State)
        requires
            old(self).shaped(),
            old(self).depth_of@.contains_key(node as int),
            old(self).depth_of@[node as int] == 39,
            pos < 2,
            old(self).states@.len() + 1 < NO_CHILD,
        ensures
            final(self).shaped(),
            final(self).states@ == old(self).states@.push(state),
            final(self).branches@ == old(self).branches@.update(node + pos, old(self).states@.len() as usize),
            final(self).depth_of@ == old(self).depth_of@,
    {
        proof {
            lemma_add_leaf_wf(
                self.branches@,
                self.depth_of@,
                self.parent_of@,
                self.states@.len() as int,
                node as int,
                node + pos,
            );
        }
        let n = self.states.len();
        self.branches.set(node + pos, n);
        self.states.push(state);
    }
}

impl Default for TrieBuilder {
    fn default() -> (r: Self)
        ensures
            r.wf(),
            r.inserted() == Seq::<State>::empty(),
            forall|key: Seq<int>| #[trigger] r.lookup(key) is None,
    {
        TrieBuilder::new()
    }
}

/// A compressed trie of states: `branches` holds the compressed form of the
/// root (see `encodes`), `states` the states that its entries point to.
pub struct Trie {
    branches: Vec<u64>,
    states: Vec<State>,
    shape: Ghost<Seq<usize>>,
    depths: Ghost<Map<int, int>>,
    parents: Ghost<Map<int, int>>,
}

impl Trie {
    /// The words of the compressed form.
    pub closed spec fn words(&self) -> Seq<u64> {
        self.branches@
    }

    /// The states that the entries point to.
    pub closed spec fn stored(&self) -> Seq<State> {
        self.states@
    }

    /// The slots of the trie that this one is the compressed form of.
    pub closed spec fn shape(&self) -> Seq<usize> {
        self.shape@
    }

    /// The depths of the nodes of the trie that this one is the compressed
    /// form of.
    pub closed spec fn depths(&self) -> Map<int, int> {
        self.depths@
    }

    /// The words hold the compressed form of a trie that holds the states by
    /// their keys.
    pub closed spec fn wf(&self) -> bool {
        &&& trie_wf(self.shape@, self.depths@, self.parents@, self.states@.len() as int)
        &&& keys_ok(self.shape@, self.states@)
        &&& encodes(self.branches@, 0, self.branches@.len() as int, self.shape@, 0, 0, 0)
    }

    /// The number of bytes that the words and the states take, counting a
    /// word as a `usize`.
    pub fn footprint(&self) -> (r: usize)
        requires
            self.words().len() * vstd::layout::size_of::<usize>() + self.stored().len()
                * vstd::layout::size_of::<State>() <= usize::MAX,
        ensures
            r == self.words().len() * vstd::layout::size_of::<usize>() + self.stored().len()
                * vstd::layout::size_of::<State>(),
    {
        self.branches.len() * core::mem::size_of::<usize>() + self.states.len() * core::mem::size_of::<State>()
    }
}

/// A stack of at most 13 words stored inline, as in a `SmallVec` of
/// capacity 13.
#[verifier::external_body]
pub struct TrieStack {
    inner: SmallVec<[u64; 13]>,
}

/// The words that a `TrieStack` holds, from the bottom up.
pub uninterp spec fn trie_stack_items(s: TrieStack) -> Seq<u64>;

/// `SmallVec::from_elem`: a stack that holds `x` alone.
#[verifier::external_body]
fn trie_stack_of(x: u64) -> (r: TrieStack)
    ensures
        trie_stack_items(r) == seq![x],
{
    TrieStack { inner: SmallVec::from_elem(x, 1) }
}

/// `last` on the slice of a `SmallVec`: the top word, if there is one.
#[verifier::external_body]
fn trie_stack_last(s: &TrieStack) -> (r: Option<u64>)
    ensures
        r == if trie_stack_items(*s).len() == 0 {
            None
        } else {
            Some(trie_stack_items(*s).last())
        },
{
    s.inner.last().copied()
}

/// `last_mut` on the slice of a `SmallVec`: replaces the top word by `x`.
#[verifier::external_body]
fn trie_stack_set_last(s: &mut TrieStack, x: u64)
    requires
        trie_stack_items(*old(s)).len() > 0,
    ensures
        trie_stack_items(*final(s)) == trie_stack_items(*old(s)).drop_last().push(x),
{
    *s.inner.last_mut().unwrap() = x;
}

/// `SmallVec::push`: puts `x` on top.
#[verifier::external_body]
fn trie_stack_push(s: &mut TrieStack, x: u64)
    requires
        trie_stack_items(*old(s)).len() < usize::MAX,
    ensures
        trie_stack_items(*final(s)) == trie_stack_items(*old(s)).push(x),
{
    s.inner.push(x)
}

/// `SmallVec::pop`: removes the top word, if there is one.
#[verifier::external_body]
fn trie_stack_pop(s: &mut TrieStack)
    ensures
        trie_stack_items(*final(s)) == if trie_stack_items(*old(s)).len() == 0 {
            trie_stack_items(*old(s))
        } else {
            trie_stack_items(*old(s)).drop_last()
        },
{
    s.inner.pop();
}

/// `SmallVec::len`: the number of words.
#[verifier::external_body]
fn trie_stack_len(s: &TrieStack) -> (r: usize)
    ensures
        r == trie_stack_items(*s).len(),
{
    s.inner.len()
}

/// The position of corner `i` of `cs`.
pub open spec fn corner_pos(cs: State, i: u64) -> u64 {
    bits_at(cs.corners, (5 * i + 2) as u64, 3)
}

/// The orientation of corner `i` of `cs`.
pub open spec fn corner_ori(cs: State, i: u64) -> u64 {
    bits_at(cs.corners, (5 * i) as u64, 2)
}

/// The position of edge `i` of `cs`.
pub open spec fn edge_pos(cs: State, i: u64) -> u64 {
    bits_at(cs.edges, (5 * i + 1) as u64, 4)
}

/// The orientation of edge `i` of `cs`.
pub open spec fn edge_ori(cs: State, i: u64) -> u64 {
    bits_at(cs.edges, (5 * i) as u64, 1)
}

/// The corner word of the coset that a walk in the order of `cs` follows,
/// after the first `n` corners: corner `i` of `cs` puts `i` in the position
/// of the slot where it is, and its opposite orientation in slot `i`.
pub open spec fn walk_corners(cs: State, n: nat) -> u64
    decreases n,
{
    if n == 0 {
        0
    } else {
        let i = (n - 1) as u64;
        walk_corners(cs, (n - 1) as nat) | (i << ((5 * corner_pos(cs, i) + 2) as u64)) | (((3 - corner_ori(cs, i))
            % 3) as u64) << ((5 * i) as u64)
    }
}

/// The edge word of the coset that a walk in the order of `cs` follows,
/// after the first `n` edges: edge `i` of `cs` puts `i` in the position of
/// the slot where it is, and its orientation in slot `i`.
pub open spec fn walk_edges(cs: State, n: nat) -> u64
    decreases n,
{
    if n == 0 {
        0
    } else {
        let i = (n - 1) as u64;
        walk_edges(cs, (n - 1) as nat) | (i << ((5 * edge_pos(cs, i) + 1) as u64)) | (edge_ori(cs, i) << ((5
            * i) as u64))
    }
}

/// The coset that a walk in the order of `cs` follows: its positions are
/// those of the inverse of `cs`, its orientations those of `cs`, opposed.
pub open spec fn walk_coset(cs: State) -> State {
    State { corners: walk_corners(cs, 8), edges: walk_edges(cs, 12) }
}

/// Whether the edges of `cs` are at twelve distinct positions below 12.
pub open spec fn edges_placed(cs: State) -> bool {
    &&& forall|i: u64| i < 12 ==> #[trigger] edge_pos(cs, i) < 12
    &&& forall|i: u64, j: u64| i < 12 && j < 12 && i != j ==> edge_pos(cs, i) != edge_pos(cs, j)
}

/// Adding edge `i` at position `p`, with orientation `o`, to an edge word
/// changes the position of slot `p` only, by `i`.
proof fn lemma_walk_edge_step(acc: u64, i: u64, p: u64, o: u64, k: u64)
    by (bit_vector)
    requires
        i < 12,
        p < 12,
        o < 2,
        k < 12,
    ensures
        bits_at(acc | (i << ((5 * p + 1) as u64)) | (o << ((5 * i) as u64)), (5 * k + 1) as u64, 4) == if k == p {
            bits_at(acc, (5 * k + 1) as u64, 4) | i
        } else {
            bits_at(acc, (5 * k + 1) as u64, 4)
        },
        0u64 | i == i,
{
}

/// With its edges at distinct positions, the position of each slot in the
/// edge word of the walk, after `n` edges, is the edge at that position
/// among them, or 0.
proof fn lemma_walk_edge_positions(cs: State, n: nat, k: u64)
    requires
        edges_placed(cs),
        n <= 12,
        k < 12,
    ensures
        bits_at(walk_edges(cs, n), (5 * k + 1) as u64, 4) == 0 || exists|i: u64|
            i < n && edge_pos(cs, i) == k && bits_at(walk_edges(cs, n), (5 * k + 1) as u64, 4) == i,
        forall|i: u64| i < n && edge_pos(cs, i) == k ==> bits_at(walk_edges(cs, n), (5 * k + 1) as u64, 4) == i,
    decreases n,
{
    if n == 0 {
        assert(bits_at(0, (5 * k + 1) as u64, 4) == 0) by (bit_vector)
            requires
                k < 12,
        ;
    } else {
        let i = (n - 1) as u64;
        lemma_walk_edge_positions(cs, (n - 1) as nat, k);
        let acc = walk_edges(cs, (n - 1) as nat);
        let p = edge_pos(cs, i);
        let o = edge_ori(cs, i);
        let w = cs.edges;
        assert(o < 2) by (bit_vector)
            requires
                o == bits_at(w, (5 * i) as u64, 1),
        ;
        lemma_walk_edge_step(acc, i, p, o, k);
        let v = bits_at(walk_edges(cs, n), (5 * k + 1) as u64, 4);
        assert(walk_edges(cs, n) == acc | (i << ((5 * p + 1) as u64)) | (o << ((5 * i) as u64)));
        if k == p {
            if bits_at(acc, (5 * k + 1) as u64, 4) != 0 {
                let i2 = choose|i2: u64|
                    i2 < n - 1 && edge_pos(cs, i2) == k && bits_at(acc, (5 * k + 1) as u64, 4) == i2;
                assert(edge_pos(cs, i2) != edge_pos(cs, i));
            }
            assert(v == i);
            assert(i < n && edge_pos(cs, i) == k && v == i);
            assert forall|i3: u64| i3 < n && edge_pos(cs, i3) == k implies v == i3 by {
                if i3 != i {
                    assert(edge_pos(cs, i3) != edge_pos(cs, i));
                }
            }
        } else {
            assert(v == bits_at(acc, (5 * k + 1) as u64, 4));
            if v != 0 {
                let i2 = choose|i2: u64|
                    i2 < n - 1 && edge_pos(cs, i2) == k && bits_at(acc, (5 * k + 1) as u64, 4) == i2;
                assert(i2 < n && edge_pos(cs, i2) == k && v == i2);
            }
        }
    }
}

/// Adding corner `i` at position `p`, with orientation `o`, to a corner word
/// changes the position of slot `p` only, by `i`.
proof fn lemma_walk_corner_step(acc: u64, i: u64, p: u64, o: u64, k: u64)
    by (bit_vector)
    requires
        i < 8,
        p < 8,
        o < 3,
        k < 8,
    ensures
        bits_at(acc | (i << ((5 * p + 2) as u64)) | (o << ((5 * i) as u64)), (5 * k + 2) as u64, 3) == if k == p {
            bits_at(acc, (5 * k + 2) as u64, 3) | i
        } else {
            bits_at(acc, (5 * k + 2) as u64, 3)
        },
        0u64 | i == i,
        bits_at(0u64, (5 * k + 2) as u64, 3) == 0,
{
}

/// Whether the corners of `cs` are at distinct positions.
pub open spec fn corners_placed(cs: State) -> bool {
    forall|i: u64, j: u64| i < 8 && j < 8 && i != j ==> corner_pos(cs, i) != corner_pos(cs, j)
}

/// With its corners at distinct positions, the position of each slot in the
/// corner word of the walk, after `n` corners, is the corner at that
/// position among them, or 0.
proof fn lemma_walk_corner_positions(cs: State, n: nat, k: u64)
    requires
        corners_placed(cs),
        n <= 8,
        k < 8,
    ensures
        bits_at(walk_corners(cs, n), (5 * k + 2) as u64, 3) == 0 || exists|i: u64|
            i < n && corner_pos(cs, i) == k && bits_at(walk_corners(cs, n), (5 * k + 2) as u64, 3) == i,
        forall|i: u64|
            i < n && corner_pos(cs, i) == k ==> bits_at(walk_corners(cs, n), (5 * k + 2) as u64, 3) == i,
    decreases n,
{
    if n == 0 {
        lemma_walk_corner_step(0, 0, 0, 0, k);
    } else {
        let i = (n - 1) as u64;
        lemma_walk_corner_positions(cs, (n - 1) as nat, k);
        let acc = walk_corners(cs, (n - 1) as nat);
        let p = corner_pos(cs, i);
        lemma_bits_at_bounds(cs.corners, (5 * i) as u64);
        lemma_bits_at_bounds(cs.corners, (5 * i + 2) as u64);
        let o = ((3 - corner_ori(cs, i)) % 3) as u64;
        lemma_walk_corner_step(acc, i, p, o, k);
        let v = bits_at(walk_corners(cs, n), (5 * k + 2) as u64, 3);
        assert(walk_corners(cs, n) == acc | (i << ((5 * p + 2) as u64)) | (o << ((5 * i) as u64)));
        if k == p {
            if bits_at(acc, (5 * k + 2) as u64, 3) != 0 {
                let i2 = choose|i2: u64|
                    i2 < n - 1 && corner_pos(cs, i2) == k && bits_at(acc, (5 * k + 2) as u64, 3) == i2;
                assert(corner_pos(cs, i2) != corner_pos(cs, i));
            }
            assert(v == i);
            assert(i < n && corner_pos(cs, i) == k && v == i);
            assert forall|i3: u64| i3 < n && corner_pos(cs, i3) == k implies v == i3 by {
                if i3 != i {
                    assert(corner_pos(cs, i3) != corner_pos(cs, i));
                }
            }
        } else {
            assert(v == bits_at(acc, (5 * k + 2) as u64, 3));
            if v != 0 {
                let i2 = choose|i2: u64|
                    i2 < n - 1 && corner_pos(cs, i2) == k && bits_at(acc, (5 * k + 2) as u64, 3) == i2;
                assert(i2 < n && corner_pos(cs, i2) == k && v == i2);
            }
        }
    }
}

/// The edge positions of the coset of a walk are below 12.
proof fn lemma_walk_coset_placed(cs: State)
    requires
        edges_placed(cs),
    ensures
        forall|k: u64| k < 12 ==> #[trigger] edge_pos(walk_coset(cs), k) < 12,
{
    assert forall|k: u64| k < 12 implies #[trigger] edge_pos(walk_coset(cs), k) < 12 by {
        lemma_walk_edge_positions(cs, 12, k);
    }
}

/// The depth that a header word holds.
pub open spec fn header_depth(w: u64) -> int {
    let d = (w >> 58u64) as int;
    if d < 64 {
        d
    } else {
        63
    }
}

/// The parent slot that a header word holds.
pub open spec fn header_sib(w: u64) -> int {
    ((w >> 54u64) & 15u64) as int
}

/// The slot that a walk in the order of the coset `cs` visits `i`-th at a
/// node of depth `d`, led to by slot `sib` of its parent: for a position,
/// the position of piece `i` in `cs`; for an orientation, `i` turned by the
/// orientation in `cs` of slot `sib`.
pub open spec fn visit_slot(cs: State, d: int, i: int, sib: int) -> int {
    if d < 16 {
        if d % 2 == 0 {
            corner_pos(cs, i as u64) as int
        } else {
            (i + corner_ori(cs, sib as u64)) % 3
        }
    } else {
        if d % 2 == 0 {
            edge_pos(cs, i as u64) as int
        } else {
            (i + edge_ori(cs, sib as u64)) % 2
        }
    }
}

/// The indices of the states that a walk in the order of `cs` reaches,
/// in order, from the `i`-th slot it visits on of the node whose compressed
/// form starts at `h` in `w`: for each slot, the state of a leaf entry, or
/// what the walk reaches below the node of the entry.
pub open spec fn walk(w: Seq<u64>, cs: State, h: int, i: int) -> Seq<int>
    decreases 64 - header_depth(w[h]), 13 - i,
{
    let d = header_depth(w[h]);
    if i < 0 || i >= slot_count(d) {
        Seq::empty()
    } else {
        let rest = walk(w, cs, h, i + 1);
        let c = nibble(w[h], visit_slot(cs, d, i, header_sib(w[h]))) as int;
        if c == 0 {
            rest
        } else {
            let e = w[h + c];
            if e >= 0x8000_0000_0000_0000 {
                seq![e - 0x8000_0000_0000_0000] + rest
            } else if header_depth(w[e as int]) > d {
                walk(w, cs, e as int, 0) + rest
            } else {
                rest
            }
        }
    }
}

/// The number of steps that the walk of `walk` takes.
pub open spec fn walk_work(w: Seq<u64>, cs: State, h: int, i: int) -> nat
    decreases 64 - header_depth(w[h]), 13 - i,
{
    let d = header_depth(w[h]);
    if i < 0 || i >= slot_count(d) {
        1
    } else {
        let rest = walk_work(w, cs, h, i + 1) + 1;
        let c = nibble(w[h], visit_slot(cs, d, i, header_sib(w[h]))) as int;
        if c == 0 {
            rest
        } else {
            let e = w[h + c];
            if e >= 0x8000_0000_0000_0000 {
                rest
            } else if header_depth(w[e as int]) > d {
                walk_work(w, cs, e as int, 0) + rest
            } else {
                rest
            }
        }
    }
}

/// The node of a stack word: its low 56 bits.
pub open spec fn frame_node(x: u64) -> int {
    bits_at(x, 0, 56) as int
}

/// The next slot to visit of a stack word: its bits from 60.
pub open spec fn frame_slot(x: u64) -> int {
    bits_at(x, 60, 4) as int
}

/// What a walk with the stack `st` has left to reach: the rest of the top
/// node, then of the nodes below it.
pub open spec fn pending(w: Seq<u64>, cs: State, st: Seq<u64>) -> Seq<int>
    decreases st.len(),
{
    if st.len() == 0 {
        Seq::empty()
    } else {
        walk(w, cs, frame_node(st.last()), frame_slot(st.last())) + pending(w, cs, st.drop_last())
    }
}

/// The number of steps that a walk with the stack `st` has left.
pub open spec fn pending_work(w: Seq<u64>, cs: State, st: Seq<u64>) -> nat
    decreases st.len(),
{
    if st.len() == 0 {
        0
    } else {
        walk_work(w, cs, frame_node(st.last()), frame_slot(st.last())) + pending_work(w, cs, st.drop_last())
    }
}

/// Whether the stack word `x`, `k`-th from the bottom, fits the words `w` of
/// the compressed form of the trie `b`, whose nodes have the depths `m`: its
/// node holds the compressed form of a node of `b`, at a depth at least `k`,
/// led to by a slot below 12, and its next slot is at most the number of
/// slots.
pub open spec fn frame_ok(w: Seq<u64>, b: Seq<usize>, m: Map<int, int>, x: u64, k: int) -> bool {
    exists|bn: int, bs: int|
        #![trigger encodes(w, frame_node(x), w.len() as int, b, bn, header_depth(w[frame_node(x)]), bs)]
        encodes(w, frame_node(x), w.len() as int, b, bn, header_depth(w[frame_node(x)]), bs) && m.contains_key(bn)
            && m[bn] == header_depth(w[frame_node(x)]) && 0 <= bs < 12 && frame_slot(x) <= slot_count(
            header_depth(w[frame_node(x)]),
        ) && header_depth(w[frame_node(x)]) >= k
}

/// Whether each word of the stack `st` fits the words `w`.
pub open spec fn frames_ok(w: Seq<u64>, b: Seq<usize>, m: Map<int, int>, st: Seq<u64>) -> bool {
    forall|k: int| 0 <= k < st.len() ==> #[trigger] frame_ok(w, b, m, st[k], k)
}

/// One step of a walk at the node whose compressed form starts at `h`, of
/// the node `bn` of `b`, led to by slot `bs`: the slot it visits `i`-th, and
/// what that slot adds to the walk.
proof fn lemma_walk_step(
    w: Seq<u64>,
    b: Seq<usize>,
    m: Map<int, int>,
    par: Map<int, int>,
    ns: int,
    cs: State,
    h: int,
    bn: int,
    bs: int,
    i: int,
)
    requires
        trie_wf(b, m, par, ns),
        ns < 0x8000_0000_0000_0000,
        w.len() < 0x8000_0000_0000_0000,
        encodes(w, h, w.len() as int, b, bn, header_depth(w[h]), bs),
        m.contains_key(bn),
        m[bn] == header_depth(w[h]),
        0 <= bs < 12,
        0 <= i < slot_count(header_depth(w[h])),
        forall|k: u64| k < 12 ==> #[trigger] edge_pos(cs, k) < 12,
    ensures
        ({
            let d = header_depth(w[h]);
            let j = visit_slot(cs, d, i, bs);
            let c = nibble(w[h], j) as int;
            &&& 0 <= h < w.len()
            &&& d < 40
            &&& bs == header_sib(w[h])
            &&& 0 <= j < slot_count(d)
            &&& c == 0 ==> walk(w, cs, h, i) == walk(w, cs, h, i + 1) && walk_work(w, cs, h, i) == walk_work(
                w,
                cs,
                h,
                i + 1,
            ) + 1
            &&& c != 0 ==> h + c < w.len() && ({
                let e = w[h + c];
                ||| e >= 0x8000_0000_0000_0000 && e - 0x8000_0000_0000_0000 < ns && walk(w, cs, h, i) == seq![
                    e - 0x8000_0000_0000_0000,
                ] + walk(w, cs, h, i + 1)
                ||| e < w.len() && header_depth(w[e as int]) > d && walk(w, cs, h, i) == walk(w, cs, e as int, 0)
                    + walk(w, cs, h, i + 1) && walk_work(w, cs, h, i) == walk_work(w, cs, e as int, 0) + walk_work(
                    w,
                    cs,
                    h,
                    i + 1,
                ) + 1 && exists|cn: int, cs2: int|
                    #![trigger encodes(w, e as int, w.len() as int, b, cn, header_depth(w[e as int]), cs2)]
                    encodes(w, e as int, w.len() as int, b, cn, header_depth(w[e as int]), cs2) && m.contains_key(
                        cn,
                    ) && m[cn] == header_depth(w[e as int]) && 0 <= cs2 < 12
            })
        }),
{
    let d = header_depth(w[h]);
    let n = slot_count(d);
    let j = visit_slot(cs, d, i, bs);
    let c = nibble(w[h], j) as int;
    lemma_walk_bits(0, 0, 0, w[h]);
    lemma_kids(b, bn, n);
    if d < 16 {
        if d % 2 == 0 {
            lemma_bits_at_bounds(cs.corners, (5 * i + 2) as u64);
        }
    }
    assert(0 <= j < n);
    assert(nibble(w[h], j) == if j < n && b[bn + j] != NO_CHILD {
        kids(b, bn, j).len() + 1
    } else {
        0
    });
    if c != 0 {
        assert(kids(b, bn, j) == kids(b, bn, j));
        assert(entry_ok(w, h, w.len() as int, b, bn, d, j));
        assert(m.contains_key(bn) && bn <= bn + j < bn + slot_count(m[bn]) && b[bn + j] != NO_CHILD);
        lemma_seg_end(b, m, par, ns, b[bn + j] as int, d + 1, j);
        let (cn, cd, cs2) = seg_end(b, b[bn + j] as int, d + 1, j);
        let e = w[h + c];
        if cd >= 40 {
            lemma_walk_bits(0, cn as u64, 0, 0);
            assert(e - 0x8000_0000_0000_0000 == cn);
        } else {
            lemma_walk_bits(0, e, 0, w[e as int]);
            assert(header_depth(w[e as int]) == cd);
            assert(encodes(w, e as int, w.len() as int, b, cn, header_depth(w[e as int]), cs2));
        }
    }
}

/// Facts on the bits of stack words, header words and entries.
proof fn lemma_walk_bits(x: u64, e: u64, j: u64, w: u64)
    by (bit_vector)
    ensures
        1u64 << 60u64 == 0x1000_0000_0000_0000u64,
        bits_at(x, 60, 4) < 15 ==> x <= 0xefff_ffff_ffff_ffffu64,
        bits_at(x, 60, 4) < 15 ==> bits_at((x + 0x1000_0000_0000_0000u64) as u64, 0, 56) == bits_at(x, 0, 56)
            && bits_at((x + 0x1000_0000_0000_0000u64) as u64, 60, 4) == bits_at(x, 60, 4) + 1,
        e < 0x100_0000_0000_0000u64 && j < 16 ==> bits_at(e | (j << 56u64), 0, 56) == e && bits_at(
            e | (j << 56u64),
            60,
            4,
        ) == 0,
        e < 0x8000_0000_0000_0000u64 ==> bits_at(e, 0, 63) == e && bits_at(e | 0x8000_0000_0000_0000u64, 0, 63)
            == e && e | 0x8000_0000_0000_0000u64 >= 0x8000_0000_0000_0000u64 && (e | 0x8000_0000_0000_0000u64)
            - 0x8000_0000_0000_0000u64 == e,
        bits_at(w, 58, 6) == w >> 58u64,
        w >> 58u64 <= 63,
        bits_at(w, 54, 4) == (w >> 54u64) & 15u64,
        bits_at(e, 0, 63) == e ==> e < 0x8000_0000_0000_0000u64,
        bits_at(e, 0, 63) != e ==> e >= 0x8000_0000_0000_0000u64 && bits_at(e, 0, 63) == e
            - 0x8000_0000_0000_0000u64,
        bits_at(x, 0, 56) < 0x100_0000_0000_0000u64,
        bits_at(0u64, 60, 4) == 0,
        bits_at(0u64, 0, 56) == 0,
{
}

/// The top word of a stack that fits the compressed form, with the node of
/// the trie and the parent slot that its node stands for.
proof fn lemma_top_frame(
    w: Seq<u64>,
    b: Seq<usize>,
    m: Map<int, int>,
    par: Map<int, int>,
    ns: int,
    st: Seq<u64>,
) -> (r: (int, int))
    requires
        frames_ok(w, b, m, st),
        st.len() > 0,
        trie_wf(b, m, par, ns),
    ensures
        ({
            let x = st.last();
            let h = frame_node(x);
            let d = header_depth(w[h]);
            &&& encodes(w, h, w.len() as int, b, r.0, d, r.1)
            &&& m.contains_key(r.0)
            &&& m[r.0] == d
            &&& 0 <= r.1 < 12
            &&& frame_slot(x) <= slot_count(d)
            &&& d >= st.len() - 1
            &&& 0 <= h < w.len()
            &&& d < 40
            &&& st.len() <= 40
            &&& w[h] >> 58u64 == d
            &&& (w[h] >> 54u64) & 15u64 == r.1
            &&& frame_slot(x) < 16
        }),
{
    let k = st.len() - 1;
    let x = st.last();
    assert(frame_ok(w, b, m, st[k], k));
    let (bn, bs) = choose|bn: int, bs: int|
        encodes(w, frame_node(x), w.len() as int, b, bn, header_depth(w[frame_node(x)]), bs) && m.contains_key(bn)
            && m[bn] == header_depth(w[frame_node(x)]) && 0 <= bs < 12 && frame_slot(x) <= slot_count(
            header_depth(w[frame_node(x)]),
        ) && header_depth(w[frame_node(x)]) >= k;
    lemma_bits_at_bounds(x, 60);
    (bn, bs)
}

/// The pending states and steps of a stack with `x` on top of `rest`.
proof fn lemma_pending_push(w: Seq<u64>, cs: State, rest: Seq<u64>, x: u64)
    ensures
        pending(w, cs, rest.push(x)) == walk(w, cs, frame_node(x), frame_slot(x)) + pending(w, cs, rest),
        pending_work(w, cs, rest.push(x)) == walk_work(w, cs, frame_node(x), frame_slot(x)) + pending_work(
            w,
            cs,
            rest,
        ),
{
    assert(rest.push(x).drop_last() =~= rest);
    assert(rest.push(x).last() == x);
}

/// A stack stays fitting when its top word is replaced by one for the same
/// node of the same compressed form, with its next slot still in range.
proof fn lemma_frames_replace_top(
    w: Seq<u64>,
    b: Seq<usize>,
    m: Map<int, int>,
    st: Seq<u64>,
    y: u64,
    bn: int,
    bs: int,
)
    requires
        frames_ok(w, b, m, st),
        st.len() > 0,
        frame_node(y) == frame_node(st.last()),
        frame_slot(y) <= slot_count(header_depth(w[frame_node(y)])),
        encodes(w, frame_node(y), w.len() as int, b, bn, header_depth(w[frame_node(y)]), bs),
        m.contains_key(bn),
        m[bn] == header_depth(w[frame_node(y)]),
        0 <= bs < 12,
        header_depth(w[frame_node(y)]) >= st.len() - 1,
    ensures
        frames_ok(w, b, m, st.drop_last().push(y)),
{
    let st2 = st.drop_last().push(y);
    assert forall|q: int| 0 <= q < st2.len() implies #[trigger] frame_ok(w, b, m, st2[q], q) by {
        if q < st.len() - 1 {
            assert(st2[q] == st[q]);
            assert(frame_ok(w, b, m, st[q], q));
        } else {
            assert(st2[q] == y);
        }
    }
}

/// A stack stays fitting when a word for a node of the compressed form, at
/// a depth at least its height, with its first slot next, is put on top.
proof fn lemma_frames_push(
    w: Seq<u64>,
    b: Seq<usize>,
    m: Map<int, int>,
    st: Seq<u64>,
    y: u64,
    bn: int,
    bs: int,
)
    requires
        frames_ok(w, b, m, st),
        frame_slot(y) == 0,
        encodes(w, frame_node(y), w.len() as int, b, bn, header_depth(w[frame_node(y)]), bs),
        m.contains_key(bn),
        m[bn] == header_depth(w[frame_node(y)]),
        0 <= bs < 12,
        header_depth(w[frame_node(y)]) >= st.len(),
    ensures
        frames_ok(w, b, m, st.push(y)),
{
    let st2 = st.push(y);
    assert forall|q: int| 0 <= q < st2.len() implies #[trigger] frame_ok(w, b, m, st2[q], q) by {
        if q < st.len() {
            assert(st2[q] == st[q]);
            assert(frame_ok(w, b, m, st[q], q));
        } else {
            assert(st2[q] == y);
        }
    }
}

/// A stack stays fitting when its top word is removed.
proof fn lemma_frames_pop(w: Seq<u64>, b: Seq<usize>, m: Map<int, int>, st: Seq<u64>)
    requires
        frames_ok(w, b, m, st),
        st.len() > 0,
    ensures
        frames_ok(w, b, m, st.drop_last()),
{
    let st2 = st.drop_last();
    assert forall|q: int| 0 <= q < st2.len() implies #[trigger] frame_ok(w, b, m, st2[q], q) by {
        assert(st2[q] == st[q]);
        assert(frame_ok(w, b, m, st[q], q));
    }
}

/// Whether a walk in the order of `cs` visits each slot of each node once:
/// the positions of its corners are the eight positions, and those of its
/// edges the twelve.
pub open spec fn visits_all(cs: State) -> bool {
    &&& forall|k: u64| k < 8 ==> #[trigger] has_corner_at(cs, k)
    &&& corners_placed(cs)
    &&& forall|k: u64| k < 12 ==> #[trigger] has_edge_at(cs, k)
    &&& edges_placed(cs)
}

/// Whether a corner of `cs` is at position `k`.
pub open spec fn has_corner_at(cs: State, k: u64) -> bool {
    exists|i: u64| i < 8 && #[trigger] corner_pos(cs, i) == k
}

/// Whether an edge of `cs` is at position `k`.
pub open spec fn has_edge_at(cs: State, k: u64) -> bool {
    exists|i: u64| i < 12 && #[trigger] edge_pos(cs, i) == k
}

/// The coset of a walk in the order of a coset whose pieces are at distinct
/// positions visits each slot once.
proof fn lemma_walk_coset_visits(coset: State)
    requires
        corners_placed(coset),
        edges_placed(coset),
    ensures
        visits_all(walk_coset(coset)),
{
    let wc = walk_coset(coset);
    let pc = Seq::new(8, |i: int| corner_pos(coset, i as u64) as int);
    let pe = Seq::new(12, |i: int| edge_pos(coset, i as u64) as int);
    assert forall|i: int| 0 <= i < 8 implies 0 <= #[trigger] pc[i] < 8 by {
        lemma_bits_at_bounds(coset.corners, (5 * i + 2) as u64);
    }
    assert forall|i: int, j: int| 0 <= i < 8 && 0 <= j < 8 && i != j implies pc[i] != pc[j] by {
        assert(corner_pos(coset, i as u64) != corner_pos(coset, j as u64));
    }
    assert forall|i: int| 0 <= i < 12 implies 0 <= #[trigger] pe[i] < 12 by {
        assert(edge_pos(coset, i as u64) < 12);
    }
    assert forall|i: int, j: int| 0 <= i < 12 && 0 <= j < 12 && i != j implies pe[i] != pe[j] by {
        assert(edge_pos(coset, i as u64) != edge_pos(coset, j as u64));
    }
    crate::permutation::lemma_perm_covers(pc);
    crate::permutation::lemma_perm_covers(pe);
    // Each slot holds the piece whose position it is.
    assert forall|k: u64| k < 8 implies exists|c: u64| c < 8 && corner_pos(coset, c) == k && #[trigger] corner_pos(
        wc,
        k,
    ) == c by {
        assert(pc.contains(k as int));
        let c = choose|c: int| 0 <= c < 8 && pc[c] == k as int;
        lemma_walk_corner_positions(coset, 8, k);
        assert(corner_pos(coset, c as u64) == k);
    }
    assert forall|k: u64| k < 12 implies exists|c: u64| c < 12 && edge_pos(coset, c) == k && #[trigger] edge_pos(
        wc,
        k,
    ) == c by {
        assert(pe.contains(k as int));
        let c = choose|c: int| 0 <= c < 12 && pe[c] == k as int;
        lemma_walk_edge_positions(coset, 12, k);
        assert(edge_pos(coset, c as u64) == k);
    }
    assert forall|k: u64| k < 8 implies #[trigger] has_corner_at(wc, k) by {
        let p = corner_pos(coset, k);
        lemma_bits_at_bounds(coset.corners, (5 * k + 2) as u64);
        let c = choose|c: u64| c < 8 && corner_pos(coset, c) == p && corner_pos(wc, p) == c;
        if c != k {
            assert(corner_pos(coset, c) != corner_pos(coset, k));
        }
        assert(corner_pos(wc, p) == k);
    }
    assert forall|k: u64| k < 12 implies #[trigger] has_edge_at(wc, k) by {
        let p = edge_pos(coset, k);
        let c = choose|c: u64| c < 12 && edge_pos(coset, c) == p && edge_pos(wc, p) == c;
        if c != k {
            assert(edge_pos(coset, c) != edge_pos(coset, k));
        }
        assert(edge_pos(wc, p) == k);
    }
    assert forall|i: u64, j: u64| i < 8 && j < 8 && i != j implies corner_pos(wc, i) != corner_pos(wc, j) by {
        let ci = choose|c: u64| c < 8 && corner_pos(coset, c) == i && corner_pos(wc, i) == c;
        let cj = choose|c: u64| c < 8 && corner_pos(coset, c) == j && corner_pos(wc, j) == c;
    }
    assert forall|i: u64, j: u64| i < 12 && j < 12 && i != j implies edge_pos(wc, i) != edge_pos(wc, j) by {
        let ci = choose|c: u64| c < 12 && edge_pos(coset, c) == i && edge_pos(wc, i) == c;
        let cj = choose|c: u64| c < 12 && edge_pos(coset, c) == j && edge_pos(wc, j) == c;
    }
    assert forall|i: u64| i < 12 implies #[trigger] edge_pos(wc, i) < 12 by {
        let c = choose|c: u64| c < 12 && edge_pos(coset, c) == i && edge_pos(wc, i) == c;
    }
}

/// Whether a walk in the order of `cs` visits slot `j` of a node at depth
/// `d` led to by slot `s` of its parent.
pub open spec fn visited(cs: State, d: int, s: int, j: int) -> bool {
    exists|i: int| 0 <= i < slot_count(d) && #[trigger] visit_slot(cs, d, i, s) == j
}

/// At each node, a walk in the order of a coset that visits each slot once
/// visits slots in range, each exactly once.
proof fn lemma_visit_bijective(cs: State, d: int, s: int)
    requires
        visits_all(cs),
        0 <= d < 40,
        0 <= s,
    ensures
        forall|i: int| 0 <= i < slot_count(d) ==> 0 <= #[trigger] visit_slot(cs, d, i, s) < slot_count(d),
        forall|j: int| 0 <= j < slot_count(d) ==> #[trigger] visited(cs, d, s, j),
        forall|i: int, i2: int|
            0 <= i < slot_count(d) && 0 <= i2 < slot_count(d) && #[trigger] visit_slot(cs, d, i, s)
                == #[trigger] visit_slot(cs, d, i2, s) ==> i == i2,
{
    let n = slot_count(d);
    if d < 16 && d % 2 == 0 {
        assert forall|i: int| 0 <= i < n implies 0 <= #[trigger] visit_slot(cs, d, i, s) < n by {
            lemma_bits_at_bounds(cs.corners, (5 * i + 2) as u64);
        }
        assert forall|j: int| 0 <= j < n implies #[trigger] visited(cs, d, s, j) by {
            assert(has_corner_at(cs, j as u64));
            let i = choose|i: u64| i < 8 && #[trigger] corner_pos(cs, i) == j as u64;
            assert(visit_slot(cs, d, i as int, s) == j);
        }
        assert forall|i: int, i2: int|
            0 <= i < n && 0 <= i2 < n && #[trigger] visit_slot(cs, d, i, s) == #[trigger] visit_slot(cs, d, i2, s) implies i
                == i2 by {
            if i != i2 {
                assert(corner_pos(cs, i as u64) != corner_pos(cs, i2 as u64));
            }
        }
    } else if d >= 16 && d % 2 == 0 {
        assert forall|j: int| 0 <= j < n implies #[trigger] visited(cs, d, s, j) by {
            assert(has_edge_at(cs, j as u64));
            let i = choose|i: u64| i < 12 && #[trigger] edge_pos(cs, i) == j as u64;
            assert(visit_slot(cs, d, i as int, s) == j);
        }
        assert forall|i: int, i2: int|
            0 <= i < n && 0 <= i2 < n && #[trigger] visit_slot(cs, d, i, s) == #[trigger] visit_slot(cs, d, i2, s) implies i
                == i2 by {
            if i != i2 {
                assert(edge_pos(cs, i as u64) != edge_pos(cs, i2 as u64));
            }
        }
        assert forall|i: int| 0 <= i < n implies 0 <= #[trigger] visit_slot(cs, d, i, s) < n by {
            assert(edge_pos(cs, i as u64) < 12);
        }
    } else if d < 16 {
        let o = corner_ori(cs, s as u64) as int;
        assert forall|j: int| 0 <= j < n implies #[trigger] visited(cs, d, s, j) by {
            let i = (j + 3 - o % 3) % 3;
            assert(visit_slot(cs, d, i, s) == j);
        }
    } else {
        let o = edge_ori(cs, s as u64) as int;
        assert forall|j: int| 0 <= j < n implies #[trigger] visited(cs, d, s, j) by {
            let i = (j + 2 - o % 2) % 2;
            assert(visit_slot(cs, d, i, s) == j);
        }
    }
}

/// The indices of the states that a walk of the trie `b`, uncompressed, in
/// the order of `cs`, reaches, in order, from the `i`-th slot it visits on of
/// the node at `node`, at depth `d`, led to by slot `sib` of its parent.
pub open spec fn slot_walk(b: Seq<usize>, cs: State, node: int, d: int, sib: int, i: int) -> Seq<int>
    decreases 40 - d, 13 - i,
{
    if d < 0 || d >= 40 || i < 0 || i >= slot_count(d) {
        Seq::empty()
    } else {
        let rest = slot_walk(b, cs, node, d, sib, i + 1);
        let j = visit_slot(cs, d, i, sib);
        if !(0 <= j < slot_count(d)) || b[node + j] == NO_CHILD {
            rest
        } else if d == 39 {
            seq![b[node + j] as int] + rest
        } else {
            slot_walk(b, cs, b[node + j] as int, d + 1, j, 0) + rest
        }
    }
}

/// What slot `j` of the node at `node`, at depth `d`, adds to an
/// uncompressed walk: the state it holds at the last depth, or the walk of
/// the node it leads to.
pub open spec fn slot_part(b: Seq<usize>, cs: State, node: int, d: int, j: int) -> Seq<int> {
    if b[node + j] == NO_CHILD {
        Seq::empty()
    } else if d == 39 {
        seq![b[node + j] as int]
    } else {
        slot_walk(b, cs, b[node + j] as int, d + 1, j, 0)
    }
}

/// At a node whose only slot that leads somewhere is `j0`, the walk from the
/// `i`-th visit on is what `j0` adds, if it is visited from then on.
proof fn lemma_single_slot(b: Seq<usize>, cs: State, node: int, d: int, sib: int, i: int, j0: int)
    requires
        visits_all(cs),
        0 <= d < 40,
        0 <= sib,
        0 <= i <= slot_count(d),
        0 <= j0 < slot_count(d),
        forall|j: int|
            0 <= j < slot_count(d) && j != j0 ==> #[trigger] slot_part(b, cs, node, d, j) == Seq::<int>::empty(),
    ensures
        slot_walk(b, cs, node, d, sib, i) == if exists|i2: int| i <= i2 < slot_count(d) && #[trigger] visit_slot(cs, d, i2, sib)
            == j0 {
            slot_part(b, cs, node, d, j0)
        } else {
            Seq::<int>::empty()
        },
    decreases slot_count(d) - i,
{
    lemma_visit_bijective(cs, d, sib);
    if i < slot_count(d) {
        lemma_single_slot(b, cs, node, d, sib, i + 1, j0);
        let j = visit_slot(cs, d, i, sib);
        assert(slot_walk(b, cs, node, d, sib, i) =~= slot_part(b, cs, node, d, j) + slot_walk(b, cs, node, d, sib, i + 1));
        if j == j0 {
            assert forall|i2: int| i + 1 <= i2 < slot_count(d) implies #[trigger] visit_slot(cs, d, i2, sib) != j0 by {
            }
            assert(slot_walk(b, cs, node, d, sib, i + 1) == Seq::<int>::empty());
            assert(slot_walk(b, cs, node, d, sib, i) =~= slot_part(b, cs, node, d, j0));
        } else {
            assert(slot_part(b, cs, node, d, j) == Seq::<int>::empty());
            if exists|i2: int| i <= i2 < slot_count(d) && #[trigger] visit_slot(cs, d, i2, sib) == j0 {
                let i2 = choose|i2: int| i <= i2 < slot_count(d) && #[trigger] visit_slot(cs, d, i2, sib) == j0;
                assert(i2 != i);
                assert(i + 1 <= i2 < slot_count(d) && visit_slot(cs, d, i2, sib) == j0);
            }
        }
    }
}

/// Along a chain of only children, an uncompressed walk reaches what it
/// reaches from the end of the chain: the state there at the last depth, or
/// the walk of the node that ends it.
proof fn lemma_chain_walk(
    b: Seq<usize>,
    m: Map<int, int>,
    par: Map<int, int>,
    ns: int,
    cs: State,
    x: int,
    d: int,
    s: int,
)
    requires
        trie_wf(b, m, par, ns),
        visits_all(cs),
        1 <= d < 40,
        m.contains_key(x),
        m[x] == d,
        0 <= s < 12,
    ensures
        seg_end(b, x, d, s).1 < 40 ==> slot_walk(b, cs, x, d, s, 0) == slot_walk(
            b,
            cs,
            seg_end(b, x, d, s).0,
            seg_end(b, x, d, s).1,
            seg_end(b, x, d, s).2,
            0,
        ),
        seg_end(b, x, d, s).1 >= 40 ==> slot_walk(b, cs, x, d, s, 0) == seq![seg_end(b, x, d, s).0],
    decreases 40 - d,
{
    let n = slot_count(d);
    let k = kids(b, x, n);
    lemma_kids(b, x, n);
    if k.len() == 1 {
        let (j0, v) = k[0];
        assert forall|j: int| 0 <= j < n && j != j0 implies #[trigger] slot_part(b, cs, x, d, j) == Seq::<int>::empty() by {
            if b[x + j] != NO_CHILD {
                assert(kids(b, x, j).len() < 1);
                assert(k[kids(b, x, j).len() as int] == (j, b[x + j] as int));
            }
        }
        lemma_single_slot(b, cs, x, d, s, 0, j0);
        lemma_visit_bijective(cs, d, s);
        assert(visited(cs, d, s, j0));
        let i0 = choose|i0: int| 0 <= i0 < n && #[trigger] visit_slot(cs, d, i0, s) == j0;
        assert(0 <= i0 < n && visit_slot(cs, d, i0, s) == j0);
        assert(slot_walk(b, cs, x, d, s, 0) == slot_part(b, cs, x, d, j0));
        assert(m.contains_key(x) && x <= x + j0 < x + slot_count(m[x]) && b[x + j0] != NO_CHILD);
        assert(v == b[x + j0]);
        assert(seg_end(b, x, d, s) == seg_end(b, v, d + 1, j0));
        if d < 39 {
            lemma_chain_walk(b, m, par, ns, cs, v, d + 1, j0);
        } else {
            assert(seg_end(b, v, 40, j0) == (v, 40int, j0));
        }
    } else {
        assert(seg_end(b, x, d, s) == (x, d, s));
    }
}

/// The walk of the compressed form of a node, in the order of a coset that
/// visits each slot once, reaches what the uncompressed walk of the node
/// reaches, in the same order.
proof fn lemma_walk_node(
    w: Seq<u64>,
    b: Seq<usize>,
    m: Map<int, int>,
    par: Map<int, int>,
    ns: int,
    cs: State,
    h: int,
    bn: int,
    d: int,
    sib: int,
    i: int,
)
    requires
        trie_wf(b, m, par, ns),
        ns < 0x8000_0000_0000_0000,
        w.len() < 0x8000_0000_0000_0000,
        visits_all(cs),
        encodes(w, h, w.len() as int, b, bn, d, sib),
        m.contains_key(bn),
        m[bn] == d,
        0 <= sib < 12,
        0 <= i <= slot_count(d),
    ensures
        walk(w, cs, h, i) == slot_walk(b, cs, bn, d, sib, i),
    decreases 40 - d, 13 - i,
{
    let n = slot_count(d);
    lemma_walk_bits(0, 0, 0, w[h]);
    assert(header_depth(w[h]) == d);
    if i < n {
        lemma_walk_node(w, b, m, par, ns, cs, h, bn, d, sib, i + 1);
        lemma_visit_bijective(cs, d, sib);
        let j = visit_slot(cs, d, i, sib);
        assert(0 <= j < n);
        lemma_kids(b, bn, n);
        assert(nibble(w[h], j) == if j < n && b[bn + j] != NO_CHILD {
            kids(b, bn, j).len() + 1
        } else {
            0
        });
        if b[bn + j] != NO_CHILD {
            let c = kids(b, bn, j).len() + 1;
            assert(kids(b, bn, j) == kids(b, bn, j));
            assert(entry_ok(w, h, w.len() as int, b, bn, d, j));
            assert(m.contains_key(bn) && bn <= bn + j < bn + slot_count(m[bn]) && b[bn + j] != NO_CHILD);
            let v = b[bn + j] as int;
            lemma_seg_end(b, m, par, ns, v, d + 1, j);
            let (cn, cd, cs2) = seg_end(b, v, d + 1, j);
            let e = w[h + c];
            if cd >= 40 {
                lemma_walk_bits(0, cn as u64, 0, 0);
                if d < 39 {
                    lemma_chain_walk(b, m, par, ns, cs, v, d + 1, j);
                }
            } else {
                lemma_walk_bits(0, e, 0, w[e as int]);
                assert(header_depth(w[e as int]) == cd);
                lemma_walk_node(w, b, m, par, ns, cs, e as int, cn, cd, cs2, 0);
                lemma_chain_walk(b, m, par, ns, cs, v, d + 1, j);
            }
        }
    }
}

/// The compressed form of a trie keeps its walks: in the order of a coset
/// whose pieces are at distinct positions, the walk of the compressed trie
/// reaches the states that the walk of the trie it compresses reaches, in
/// the same order.
pub proof fn lemma_compressed_walk(t: Trie, coset: State)
    requires
        t.wf(),
        t.words().len() < 0x100_0000_0000_0000,
        t.stored().len() < 0x8000_0000_0000_0000,
        corners_placed(coset),
        edges_placed(coset),
    ensures
        walk(t.words(), walk_coset(coset), 0, 0) == slot_walk(t.shape(), walk_coset(coset), 0, 0, 0, 0),
{
    lemma_walk_coset_visits(coset);
    lemma_walk_node(t.branches@, t.shape@, t.depths@, t.parents@, t.states@.len() as int, walk_coset(coset), 0, 0, 0, 0, 0);
}

/// The coset of a walk in the order of the keys: that of the solved cube.
pub open spec fn key_order() -> State {
    walk_coset(State { corners: 0xe629062080, edges: 0xb52507314831040 })
}

/// Whether a walk in the order of `cs` visits the slots of each node in
/// increasing order: its pieces are each at its own position, unturned.
spec fn in_key_order(cs: State) -> bool {
    &&& forall|k: u64| k < 8 ==> #[trigger] corner_pos(cs, k) == k
    &&& forall|k: u64| k < 8 ==> #[trigger] corner_ori(cs, k) == 0
    &&& forall|k: u64| k < 12 ==> #[trigger] edge_pos(cs, k) == k
    &&& forall|k: u64| k < 12 ==> #[trigger] edge_ori(cs, k) == 0
}

/// The fields of the solved cube: corner `i` at position `i`, and no piece
/// turned.
pub(crate) proof fn lemma_solved_fields(i: u64)
    by (bit_vector)
    requires
        i < 12,
    ensures
        i < 8 ==> bits_at(0xe629062080u64, (5 * i + 2) as u64, 3) == i,
        i < 8 ==> bits_at(0xe629062080u64, (5 * i) as u64, 2) == 0,
        bits_at(0xb52507314831040u64, (5 * i) as u64, 1) == 0,
{
}

/// Adding piece `i` at position `i`, unturned, to a word of the walk leaves
/// the orientation of each slot as it was.
proof fn lemma_walk_ori_step(acc: u64, i: u64, s: u64)
    by (bit_vector)
    requires
        i < 12,
        s < 12,
    ensures
        i < 8 && s < 8 ==> bits_at(acc | (i << ((5 * i + 2) as u64)) | (0u64 << ((5 * i) as u64)), (5 * s) as u64, 2)
            == bits_at(acc, (5 * s) as u64, 2),
        bits_at(acc | (i << ((5 * i + 1) as u64)) | (0u64 << ((5 * i) as u64)), (5 * s) as u64, 1) == bits_at(
            acc,
            (5 * s) as u64,
            1,
        ),
        bits_at(0u64, (5 * s) as u64, 2) == 0,
        bits_at(0u64, (5 * s) as u64, 1) == 0,
{
}

/// The slots of the words of the walk of the solved cube, after `n`
/// pieces, are unturned.
proof fn lemma_key_order_ori(n: nat, s: u64)
    requires
        n <= 12,
        s < 12,
    ensures
        n <= 8 && s < 8 ==> bits_at(
            walk_corners(State { corners: 0xe629062080, edges: 0xb52507314831040 }, n),
            (5 * s) as u64,
            2,
        ) == 0,
        bits_at(walk_edges(State { corners: 0xe629062080, edges: 0xb52507314831040 }, n), (5 * s) as u64, 1) == 0,
    decreases n,
{
    let sv = State { corners: 0xe629062080, edges: 0xb52507314831040 };
    if n == 0 {
        lemma_walk_ori_step(0, 0, s);
    } else {
        let i = (n - 1) as u64;
        lemma_key_order_ori((n - 1) as nat, s);
        lemma_solved_fields(i);
        lemma_solved_edges(i);
        let ac = walk_corners(sv, (n - 1) as nat);
        let ae = walk_edges(sv, (n - 1) as nat);
        lemma_walk_ori_step(ac, i, s);
        lemma_walk_ori_step(ae, i, s);
        if n <= 8 {
            assert(corner_pos(sv, i) == i);
            assert(corner_ori(sv, i) == 0);
            assert(walk_corners(sv, n) == ac | (i << ((5 * i + 2) as u64)) | (0u64 << ((5 * i) as u64)));
        }
        assert(edge_pos(sv, i) == i);
        assert(edge_ori(sv, i) == 0);
        assert(walk_edges(sv, n) == ae | (i << ((5 * i + 1) as u64)) | (0u64 << ((5 * i) as u64)));
    }
}

/// The walk in the order of the keys visits the slots of each node in
/// increasing order, and the solved cube has its pieces at distinct
/// positions.
proof fn lemma_key_order()
    ensures
        in_key_order(key_order()),
        corners_placed(State { corners: 0xe629062080, edges: 0xb52507314831040 }),
        edges_placed(State { corners: 0xe629062080, edges: 0xb52507314831040 }),
{
    let sv = State { corners: 0xe629062080, edges: 0xb52507314831040 };
    let cs = key_order();
    assert forall|i: u64| i < 12 implies #[trigger] edge_pos(sv, i) == i by {
        lemma_solved_edges(i);
    }
    assert forall|i: u64| i < 8 implies #[trigger] corner_pos(sv, i) == i by {
        lemma_solved_fields(i);
    }
    assert(corners_placed(sv));
    assert(edges_placed(sv));
    assert forall|k: u64| k < 8 implies #[trigger] corner_pos(cs, k) == k by {
        lemma_walk_corner_positions(sv, 8, k);
        assert(corner_pos(sv, k) == k);
    }
    assert forall|k: u64| k < 12 implies #[trigger] edge_pos(cs, k) == k by {
        lemma_walk_edge_positions(sv, 12, k);
        assert(edge_pos(sv, k) == k);
    }
    assert forall|k: u64| k < 8 implies #[trigger] corner_ori(cs, k) == 0 by {
        lemma_key_order_ori(8, k);
    }
    assert forall|k: u64| k < 12 implies #[trigger] edge_ori(cs, k) == 0 by {
        lemma_key_order_ori(12, k);
    }
}

/// In the order of the keys, the `i`-th slot visited is slot `i`.
proof fn lemma_visit_in_order(cs: State, d: int, i: int, sib: int)
    requires
        in_key_order(cs),
        0 <= d < 40,
        0 <= i < slot_count(d),
        d % 2 == 1 ==> 0 <= sib < slot_count(d - 1),
    ensures
        visit_slot(cs, d, i, sib) == i,
{
    if d < 16 {
        if d % 2 == 0 {
            assert(corner_pos(cs, i as u64) == i as u64);
        } else {
            assert(corner_ori(cs, sib as u64) == 0);
        }
    } else {
        if d % 2 == 0 {
            assert(edge_pos(cs, i as u64) == i as u64);
        } else {
            assert(edge_ori(cs, sib as u64) == 0);
        }
    }
}

/// The node that a key leads to at depth `t` depends on its first `t` digits
/// only.
proof fn lemma_descend_prefix(b: Seq<usize>, k1: Seq<int>, k2: Seq<int>, t: nat)
    requires
        forall|e: int| 0 <= e < t ==> k1[e] == k2[e],
    ensures
        descend(b, k1, t) == descend(b, k2, t),
    decreases t,
{
    if t > 0 {
        lemma_descend_prefix(b, k1, k2, (t - 1) as nat);
        assert(k1[t - 1] == k2[t - 1]);
    }
}

/// A key that leads to a node at depth `t` leads to one at each depth above.
proof fn lemma_descend_some(b: Seq<usize>, key: Seq<int>, t: nat, u: nat)
    requires
        u <= t,
        descend(b, key, t) is Some,
    ensures
        descend(b, key, u) is Some,
    decreases t,
{
    if u < t {
        lemma_descend_some(b, key, (t - 1) as nat, u);
    }
}

/// Whether each index of `r` is that of a state of `st` whose key agrees
/// with `key` below depth `d`.
pub open spec fn prefixed(st: Seq<State>, r: Seq<int>, key: Seq<int>, d: int) -> bool {
    forall|p: int|
        0 <= p < r.len() ==> 0 <= #[trigger] r[p] < st.len() && forall|e: int|
            0 <= e < d ==> trie_key(st[r[p]])[e] == key[e]
}

/// Whether the states of `st` at the indices of `r` come in increasing
/// order of their keys.
pub open spec fn sorted_keys(st: Seq<State>, r: Seq<int>) -> bool {
    forall|p: int, q: int|
        #![trigger r[p], r[q]]
        0 <= p < q < r.len() ==> key_before(trie_key(st[r[p]]), trie_key(st[r[q]]))
}

/// Whether the key of state `k` of `st` is that of a state at an index of
/// `r`.
pub open spec fn key_reached(st: Seq<State>, r: Seq<int>, k: int) -> bool {
    exists|p: int| 0 <= p < r.len() && #[trigger] trie_key(st[r[p]]) == trie_key(st[k])
}

/// Whether the indices of `r` are those of states of `st`, and each key of a
/// state of `st` is that of a state at an index of `r`.
pub open spec fn reaches_keys(st: Seq<State>, r: Seq<int>) -> bool {
    &&& forall|p: int| 0 <= p < r.len() ==> 0 <= #[trigger] r[p] < st.len()
    &&& forall|k: int| 0 <= k < st.len() ==> #[trigger] key_reached(st, r, k)
}

/// An uncompressed walk in the order of the keys, from the `i`-th slot of
/// the node that `key0` leads to at depth `d`, reaches states whose keys
/// agree with `key0` below `d` and have at least `i` at `d`, in increasing
/// order of their keys.
proof fn lemma_slot_walk_sorted(
    b: Seq<usize>,
    m: Map<int, int>,
    par: Map<int, int>,
    st: Seq<State>,
    cs: State,
    key0: Seq<int>,
    x: int,
    d: int,
    sib: int,
    i: int,
)
    requires
        trie_wf(b, m, par, st.len() as int),
        keys_ok(b, st),
        in_key_order(cs),
        key0.len() == 40,
        0 <= d < 40,
        0 <= i <= slot_count(d),
        descend(b, key0, d as nat) == Some(x),
        d % 2 == 1 ==> 0 <= sib < slot_count(d - 1),
    ensures
        prefixed(st, slot_walk(b, cs, x, d, sib, i), key0, d),
        forall|p: int|
            0 <= p < slot_walk(b, cs, x, d, sib, i).len() ==> i <= trie_key(
                st[#[trigger] slot_walk(b, cs, x, d, sib, i)[p]],
            )[d],
        sorted_keys(st, slot_walk(b, cs, x, d, sib, i)),
    decreases 40 - d, 13 - i,
{
    let n = slot_count(d);
    if i < n {
        lemma_slot_walk_sorted(b, m, par, st, cs, key0, x, d, sib, i + 1);
        lemma_visit_in_order(cs, d, i, sib);
        let rest = slot_walk(b, cs, x, d, sib, i + 1);
        let r = slot_walk(b, cs, x, d, sib, i);
        if b[x + i] != NO_CHILD {
            let key1 = key0.update(d, i);
            lemma_descend_prefix(b, key1, key0, d as nat);
            let part = slot_part(b, cs, x, d, i);
            assert(r == part + rest);
            if d == 39 {
                let v = b[x + i] as int;
                assert(trie_lookup(b, key1) == Some(v));
                assert(trie_key(st[v]) == key1);
                assert(part == seq![v]);
            } else {
                assert(descend(b, key1, (d + 1) as nat) == Some(b[x + i] as int));
                lemma_slot_walk_sorted(b, m, par, st, cs, key1, b[x + i] as int, d + 1, i, 0);
            }
            assert(prefixed(st, part, key1, d + 1));
            assert(sorted_keys(st, part));
            assert forall|p: int| 0 <= p < r.len() implies 0 <= #[trigger] r[p] < st.len() && (forall|e: int|
                0 <= e < d ==> trie_key(st[r[p]])[e] == key0[e]) && i <= trie_key(st[r[p]])[d] by {
                if p < part.len() {
                    assert(r[p] == part[p]);
                    assert(trie_key(st[r[p]])[d] == key1[d]);
                    assert forall|e: int| 0 <= e < d implies trie_key(st[r[p]])[e] == key0[e] by {
                        assert(trie_key(st[part[p]])[e] == key1[e]);
                    }
                } else {
                    assert(r[p] == rest[p - part.len()]);
                }
            }
            assert forall|p: int, q: int|
                #![trigger r[p], r[q]]
                0 <= p < q < r.len() implies key_before(trie_key(st[r[p]]), trie_key(st[r[q]])) by {
                if q < part.len() {
                    assert(r[p] == part[p] && r[q] == part[q]);
                } else if p >= part.len() {
                    assert(r[p] == rest[p - part.len()] && r[q] == rest[q - part.len()]);
                } else {
                    assert(r[p] == part[p] && r[q] == rest[q - part.len()]);
                    let kp = trie_key(st[r[p]]);
                    let kq = trie_key(st[r[q]]);
                    assert(kp[d] == key1[d]);
                    assert(i + 1 <= trie_key(st[rest[q - part.len()]])[d]);
                    assert forall|e: int| 0 <= e < d implies kp[e] == kq[e] by {
                        assert(trie_key(st[part[p]])[e] == key1[e]);
                        assert(trie_key(st[rest[q - part.len()]])[e] == key0[e]);
                    }
                    assert(first_diff(kp, kq, d));
                }
            }
        } else {
            assert(r == rest);
        }
    }
}

/// An uncompressed walk in the order of the keys, from a slot at or before
/// the one that `key` takes at the node it leads to at depth `d`, reaches
/// the index that `key` finds.
proof fn lemma_slot_walk_reaches(
    b: Seq<usize>,
    m: Map<int, int>,
    par: Map<int, int>,
    ns: int,
    cs: State,
    key: Seq<int>,
    x: int,
    d: int,
    sib: int,
    i: int,
)
    requires
        trie_wf(b, m, par, ns),
        in_key_order(cs),
        key.len() == 40,
        0 <= d < 40,
        descend(b, key, d as nat) == Some(x),
        trie_lookup(b, key) is Some,
        0 <= i <= key[d],
        d % 2 == 1 ==> 0 <= sib < slot_count(d - 1),
    ensures
        slot_walk(b, cs, x, d, sib, i).contains(trie_lookup(b, key)->0),
    decreases 40 - d, 13 - i,
{
    let v = trie_lookup(b, key)->0;
    if d < 39 {
        lemma_descend_some(b, key, 39, (d + 1) as nat);
    }
    assert(0 <= key[d] < slot_count(d) && b[x + key[d]] != NO_CHILD);
    lemma_visit_in_order(cs, d, i, sib);
    let rest = slot_walk(b, cs, x, d, sib, i + 1);
    let r = slot_walk(b, cs, x, d, sib, i);
    let part = slot_part(b, cs, x, d, i);
    assert(r == part + rest);
    if i < key[d] {
        lemma_slot_walk_reaches(b, m, par, ns, cs, key, x, d, sib, i + 1);
        let k = choose|k: int| 0 <= k < rest.len() && rest[k] == v;
        assert(r[part.len() + k] == v);
    } else if d == 39 {
        assert(r[0] == v);
    } else {
        if d + 1 < 39 {
            lemma_descend_some(b, key, 39, (d + 2) as nat);
        }
        assert(0 <= key[d + 1]);
        lemma_slot_walk_reaches(b, m, par, ns, cs, key, b[x + i] as int, d + 1, i, 0);
        let k = choose|k: int| 0 <= k < part.len() && part[k] == v;
        assert(r[k] == v);
    }
}

/// Walking a compressed trie in the order of the keys reaches the states it
/// holds in increasing order of their keys, and for each state stored, a
/// state with its key.
pub proof fn lemma_ordered_walk(t: Trie)
    requires
        t.wf(),
        t.words().len() < 0x100_0000_0000_0000,
        t.stored().len() < 0x8000_0000_0000_0000,
    ensures
        sorted_keys(t.stored(), walk(t.words(), key_order(), 0, 0)),
        reaches_keys(t.stored(), walk(t.words(), key_order(), 0, 0)),
{
    let sv = State { corners: 0xe629062080, edges: 0xb52507314831040 };
    let b = t.shape@;
    let m = t.depths@;
    let par = t.parents@;
    let st = t.states@;
    let ns = st.len() as int;
    let cs = key_order();
    lemma_key_order();
    lemma_compressed_walk(t, sv);
    let r = slot_walk(b, cs, 0, 0, 0, 0);
    let key0 = Seq::new(40, |e: int| 0int);
    assert(descend(b, key0, 0) == Some(0int));
    lemma_slot_walk_sorted(b, m, par, st, cs, key0, 0, 0, 0, 0);
    assert forall|k: int| 0 <= k < st.len() implies #[trigger] key_reached(st, r, k) by {
        let key = trie_key(st[k]);
        assert(trie_lookup(b, key) is Some);
        let v = trie_lookup(b, key)->0;
        assert(descend(b, key, 0) == Some(0int));
        lemma_bits_at_bounds(st[k].corners, 2);
        assert(key[0] >= 0);
        lemma_slot_walk_reaches(b, m, par, ns, cs, key, 0, 0, 0, 0);
        let p = choose|p: int| 0 <= p < r.len() && r[p] == v;
        assert(trie_key(st[r[p]]) == key);
    }
    assert(walk(t.words(), key_order(), 0, 0) == r);
    assert(prefixed(st, r, key0, 0));
}

/// The rank of slot `j` among the slots of a node at depth `d`, led to by
/// slot `sib` of its parent, in the order of a walk in the order of `cs`.
pub open spec fn visit_rank(cs: State, d: int, j: int, sib: int) -> int {
    choose|i: int| 0 <= i < slot_count(d) && #[trigger] visit_slot(cs, d, i, sib) == j
}

/// The key of a state in the order of a walk in the order of `cs`: at each
/// depth, the rank of its digit among the slots of the node it leads to.
pub open spec fn walk_key(cs: State, key: Seq<int>) -> Seq<int> {
    Seq::new(40, |d: int| visit_rank(cs, d, key[d], if d == 0 { 0 } else { key[d - 1] }))
}

/// Whether the states of `st` at the indices of `r` come in increasing
/// order of their keys in the order of a walk in the order of `cs`.
pub open spec fn sorted_walk_keys(cs: State, st: Seq<State>, r: Seq<int>) -> bool {
    forall|p: int, q: int|
        #![trigger r[p], r[q]]
        0 <= p < q < r.len() ==> key_before(walk_key(cs, trie_key(st[r[p]])), walk_key(cs, trie_key(st[r[q]])))
}

/// At each node, the slot that a walk that visits each slot once visits
/// `i`-th has rank `i`.
proof fn lemma_visit_rank(cs: State, d: int, i: int, sib: int)
    requires
        visits_all(cs),
        0 <= d < 40,
        0 <= sib,
        0 <= i < slot_count(d),
    ensures
        visit_rank(cs, d, visit_slot(cs, d, i, sib), sib) == i,
{
    lemma_visit_bijective(cs, d, sib);
    let j = visit_slot(cs, d, i, sib);
    assert(visited(cs, d, sib, j));
    let k = visit_rank(cs, d, j, sib);
    assert(0 <= k < slot_count(d) && visit_slot(cs, d, k, sib) == j);
}

/// An uncompressed walk in the order of a coset that visits each slot once,
/// from the `i`-th slot it visits of the node that `key0` leads to at depth
/// `d`, reaches states whose keys agree with `key0` below `d` and whose
/// digits at `d` have rank at least `i`, in increasing order of their keys in
/// the order of the walk.
proof fn lemma_slot_walk_coset_sorted(
    b: Seq<usize>,
    m: Map<int, int>,
    par: Map<int, int>,
    st: Seq<State>,
    cs: State,
    key0: Seq<int>,
    x: int,
    d: int,
    sib: int,
    i: int,
)
    requires
        trie_wf(b, m, par, st.len() as int),
        keys_ok(b, st),
        visits_all(cs),
        key0.len() == 40,
        0 <= d < 40,
        0 <= i <= slot_count(d),
        descend(b, key0, d as nat) == Some(x),
        sib == if d == 0 {
            0
        } else {
            key0[d - 1]
        },
        0 <= sib,
    ensures
        prefixed(st, slot_walk(b, cs, x, d, sib, i), key0, d),
        forall|p: int|
            0 <= p < slot_walk(b, cs, x, d, sib, i).len() ==> i <= walk_key(
                cs,
                trie_key(st[#[trigger] slot_walk(b, cs, x, d, sib, i)[p]]),
            )[d],
        sorted_walk_keys(cs, st, slot_walk(b, cs, x, d, sib, i)),
    decreases 40 - d, 13 - i,
{
    let n = slot_count(d);
    if i < n {
        lemma_slot_walk_coset_sorted(b, m, par, st, cs, key0, x, d, sib, i + 1);
        lemma_visit_bijective(cs, d, sib);
        let j = visit_slot(cs, d, i, sib);
        assert(0 <= j < n);
        lemma_visit_rank(cs, d, i, sib);
        let rest = slot_walk(b, cs, x, d, sib, i + 1);
        let r = slot_walk(b, cs, x, d, sib, i);
        if b[x + j] != NO_CHILD {
            let key1 = key0.update(d, j);
            lemma_descend_prefix(b, key1, key0, d as nat);
            let part = slot_part(b, cs, x, d, j);
            assert(r == part + rest);
            if d == 39 {
                let v = b[x + j] as int;
                assert(trie_lookup(b, key1) == Some(v));
                assert(trie_key(st[v]) == key1);
                assert(part == seq![v]);
            } else {
                assert(descend(b, key1, (d + 1) as nat) == Some(b[x + j] as int));
                lemma_slot_walk_coset_sorted(b, m, par, st, cs, key1, b[x + j] as int, d + 1, j, 0);
            }
            assert(prefixed(st, part, key1, d + 1));
            assert(sorted_walk_keys(cs, st, part));
            assert forall|p: int| 0 <= p < part.len() implies walk_key(cs, trie_key(st[#[trigger] part[p]]))[d] == i by {
                let k = trie_key(st[part[p]]);
                assert(k[d] == key1[d]);
                if d > 0 {
                    assert(k[d - 1] == key1[d - 1]);
                }
            }
            assert forall|p: int| 0 <= p < r.len() implies 0 <= #[trigger] r[p] < st.len() && (forall|e: int|
                0 <= e < d ==> trie_key(st[r[p]])[e] == key0[e]) && i <= walk_key(cs, trie_key(st[r[p]]))[d] by {
                if p < part.len() {
                    assert(r[p] == part[p]);
                    assert forall|e: int| 0 <= e < d implies trie_key(st[r[p]])[e] == key0[e] by {
                        assert(trie_key(st[part[p]])[e] == key1[e]);
                    }
                } else {
                    assert(r[p] == rest[p - part.len()]);
                }
            }
            assert forall|p: int, q: int|
                #![trigger r[p], r[q]]
                0 <= p < q < r.len() implies key_before(
                    walk_key(cs, trie_key(st[r[p]])),
                    walk_key(cs, trie_key(st[r[q]])),
                ) by {
                if q < part.len() {
                    assert(r[p] == part[p] && r[q] == part[q]);
                } else if p >= part.len() {
                    assert(r[p] == rest[p - part.len()] && r[q] == rest[q - part.len()]);
                } else {
                    assert(r[p] == part[p] && r[q] == rest[q - part.len()]);
                    let kp = trie_key(st[r[p]]);
                    let kq = trie_key(st[r[q]]);
                    assert(walk_key(cs, kp)[d] == i);
                    assert(i + 1 <= walk_key(cs, trie_key(st[rest[q - part.len()]]))[d]);
                    assert forall|e: int| 0 <= e < d implies kp[e] == kq[e] by {
                        assert(trie_key(st[part[p]])[e] == key1[e]);
                        assert(trie_key(st[rest[q - part.len()]])[e] == key0[e]);
                    }
                    assert forall|e: int| 0 <= e < d implies walk_key(cs, kp)[e] == walk_key(cs, kq)[e] by {
                        assert(kp[e] == kq[e]);
                        if e > 0 {
                            assert(kp[e - 1] == kq[e - 1]);
                        }
                    }
                    assert(first_diff(walk_key(cs, kp), walk_key(cs, kq), d));
                }
            }
        } else {
            assert(r == rest);
        }
    }
}

/// An uncompressed walk in the order of a coset that visits each slot once,
/// from a slot visited at or before the one that `key` takes at the node it
/// leads to at depth `d`, reaches the index that `key` finds.
proof fn lemma_slot_walk_coset_reaches(
    b: Seq<usize>,
    m: Map<int, int>,
    par: Map<int, int>,
    ns: int,
    cs: State,
    key: Seq<int>,
    x: int,
    d: int,
    sib: int,
    i: int,
)
    requires
        trie_wf(b, m, par, ns),
        visits_all(cs),
        key.len() == 40,
        0 <= d < 40,
        descend(b, key, d as nat) == Some(x),
        trie_lookup(b, key) is Some,
        sib == if d == 0 {
            0
        } else {
            key[d - 1]
        },
        0 <= sib,
        0 <= i <= visit_rank(cs, d, key[d], sib),
    ensures
        slot_walk(b, cs, x, d, sib, i).contains(trie_lookup(b, key)->0),
    decreases 40 - d, 13 - i,
{
    let v = trie_lookup(b, key)->0;
    if d < 39 {
        lemma_descend_some(b, key, 39, (d + 1) as nat);
    }
    assert(0 <= key[d] < slot_count(d) && b[x + key[d]] != NO_CHILD);
    lemma_visit_bijective(cs, d, sib);
    assert(visited(cs, d, sib, key[d]));
    let rk = visit_rank(cs, d, key[d], sib);
    assert(0 <= rk < slot_count(d) && visit_slot(cs, d, rk, sib) == key[d]);
    let j = visit_slot(cs, d, i, sib);
    let rest = slot_walk(b, cs, x, d, sib, i + 1);
    let r = slot_walk(b, cs, x, d, sib, i);
    let part = slot_part(b, cs, x, d, j);
    assert(r == part + rest);
    if j != key[d] {
        lemma_slot_walk_coset_reaches(b, m, par, ns, cs, key, x, d, sib, i + 1);
        let k = choose|k: int| 0 <= k < rest.len() && rest[k] == v;
        assert(r[part.len() + k] == v);
    } else if d == 39 {
        assert(r[0] == v);
    } else {
        if d + 1 < 39 {
            lemma_descend_some(b, key, 39, (d + 2) as nat);
        }
        assert(0 <= key[d + 1] < slot_count(d + 1));
        lemma_visit_bijective(cs, d + 1, key[d]);
        assert(visited(cs, d + 1, key[d], key[d + 1]));
        lemma_slot_walk_coset_reaches(b, m, par, ns, cs, key, b[x + j] as int, d + 1, key[d], 0);
        let k = choose|k: int| 0 <= k < part.len() && part[k] == v;
        assert(r[k] == v);
    }
}

/// Walking a compressed trie in the order of a coset whose pieces are at
/// distinct positions reaches the states it holds in increasing order of
/// their keys in the order of the walk, and for each state stored, a state
/// with its key.
pub proof fn lemma_ordered_coset_walk(t: Trie, coset: State)
    requires
        t.wf(),
        t.words().len() < 0x100_0000_0000_0000,
        t.stored().len() < 0x8000_0000_0000_0000,
        corners_placed(coset),
        edges_placed(coset),
    ensures
        sorted_walk_keys(walk_coset(coset), t.stored(), walk(t.words(), walk_coset(coset), 0, 0)),
        reaches_keys(t.stored(), walk(t.words(), walk_coset(coset), 0, 0)),
{
    let b = t.shape@;
    let m = t.depths@;
    let par = t.parents@;
    let st = t.states@;
    let ns = st.len() as int;
    let cs = walk_coset(coset);
    lemma_walk_coset_visits(coset);
    lemma_compressed_walk(t, coset);
    let r = slot_walk(b, cs, 0, 0, 0, 0);
    let key0 = Seq::new(40, |e: int| 0int);
    assert(descend(b, key0, 0) == Some(0int));
    lemma_slot_walk_coset_sorted(b, m, par, st, cs, key0, 0, 0, 0, 0);
    assert forall|k: int| 0 <= k < st.len() implies #[trigger] key_reached(st, r, k) by {
        let key = trie_key(st[k]);
        assert(trie_lookup(b, key) is Some);
        let v = trie_lookup(b, key)->0;
        assert(descend(b, key, 0) == Some(0int));
        lemma_bits_at_bounds(st[k].corners, 2);
        assert(0 <= key[0] < 8);
        lemma_visit_bijective(cs, 0, 0);
        assert(visited(cs, 0, 0, key[0]));
        lemma_slot_walk_coset_reaches(b, m, par, ns, cs, key, 0, 0, 0, 0);
        let p = choose|p: int| 0 <= p < r.len() && r[p] == v;
        assert(trie_key(st[r[p]]) == key);
    }
    assert(walk(t.words(), walk_coset(coset), 0, 0) == r);
    assert(prefixed(st, r, key0, 0));
}

/// The order of keys is transitive.
proof fn lemma_key_before_trans(a: Seq<int>, b: Seq<int>, c: Seq<int>)
    requires
        key_before(a, b),
        key_before(b, c),
    ensures
        key_before(a, c),
{
    let d1 = choose|d: int| #[trigger] first_diff(a, b, d);
    let d2 = choose|d: int| #[trigger] first_diff(b, c, d);
    if d1 < d2 {
        assert(first_diff(a, c, d1));
    } else if d2 < d1 {
        assert(first_diff(a, c, d2));
    } else {
        assert(first_diff(a, c, d1));
    }
}

/// Whether a state of `st` has the key `key`.
pub open spec fn has_key(st: Seq<State>, key: Seq<int>) -> bool {
    exists|j: int| 0 <= j < st.len() && #[trigger] trie_key(st[j]) == key
}

/// The keys of the states of `st` at the indices of `r`, in order.
pub open spec fn walk_keys(st: Seq<State>, r: Seq<int>) -> Seq<Seq<int>> {
    Seq::new(r.len(), |p: int| trie_key(st[r[p]]))
}

/// Two sequences of keys, each in increasing order, that hold the same keys
/// are equal.
proof fn lemma_sorted_keys_unique(a: Seq<Seq<int>>, b: Seq<Seq<int>>)
    requires
        forall|p: int, q: int| #![trigger a[p], a[q]] 0 <= p < q < a.len() ==> key_before(a[p], a[q]),
        forall|p: int, q: int| #![trigger b[p], b[q]] 0 <= p < q < b.len() ==> key_before(b[p], b[q]),
        forall|p: int| 0 <= p < a.len() ==> b.contains(#[trigger] a[p]),
        forall|p: int| 0 <= p < b.len() ==> a.contains(#[trigger] b[p]),
    ensures
        a == b,
    decreases a.len(),
{
    if a.len() == 0 {
        if b.len() > 0 {
            assert(a.contains(b[0]));
        }
        assert(a =~= b);
    } else {
        assert(b.contains(a[0]));
        let j = choose|j: int| 0 <= j < b.len() && b[j] == a[0];
        assert(a.contains(b[0]));
        let i = choose|i: int| 0 <= i < a.len() && a[i] == b[0];
        if j > 0 {
            assert(key_before(b[0], b[j]));
            if i > 0 {
                assert(key_before(a[0], a[i]));
                lemma_key_before_trans(b[0], a[0], b[0]);
            }
            let d = choose|d: int| #[trigger] first_diff(b[0], b[0], d);
        }
        assert(b.len() > 0 && b[0] == a[0]);
        let a1 = a.drop_first();
        let b1 = b.drop_first();
        assert forall|p: int| 0 <= p < a1.len() implies b1.contains(#[trigger] a1[p]) by {
            assert(a1[p] == a[p + 1]);
            assert(b.contains(a[p + 1]));
            let q = choose|q: int| 0 <= q < b.len() && b[q] == a[p + 1];
            assert(key_before(a[0], a[p + 1]));
            if q == 0 {
                let d = choose|d: int| #[trigger] first_diff(a[0], a[0], d);
            }
            assert(b1[q - 1] == a1[p]);
        }
        assert forall|p: int| 0 <= p < b1.len() implies a1.contains(#[trigger] b1[p]) by {
            assert(b1[p] == b[p + 1]);
            assert(a.contains(b[p + 1]));
            let q = choose|q: int| 0 <= q < a.len() && a[q] == b[p + 1];
            assert(key_before(b[0], b[p + 1]));
            if q == 0 {
                let d = choose|d: int| #[trigger] first_diff(b[0], b[0], d);
            }
            assert(a1[q - 1] == b1[p]);
        }
        assert forall|p: int, q: int| #![trigger a1[p], a1[q]] 0 <= p < q < a1.len() implies key_before(a1[p], a1[q]) by {
            assert(a[p + 1] == a1[p] && a[q + 1] == a1[q]);
        }
        assert forall|p: int, q: int| #![trigger b1[p], b1[q]] 0 <= p < q < b1.len() implies key_before(b1[p], b1[q]) by {
            assert(b[p + 1] == b1[p] && b[q + 1] == b1[q]);
        }
        lemma_sorted_keys_unique(a1, b1);
        assert(a =~= seq![a[0]] + a1);
        assert(b =~= seq![b[0]] + b1);
    }
}

/// Walking two compressed tries in the order of the keys reaches the same
/// keys in the same order when they store states with the same keys: the
/// result does not depend on the order in which states were inserted, nor on
/// how often each was.
pub proof fn lemma_ordered_keys_same(t1: Trie, t2: Trie)
    requires
        t1.wf(),
        t1.words().len() < 0x100_0000_0000_0000,
        t1.stored().len() < 0x8000_0000_0000_0000,
        t2.wf(),
        t2.words().len() < 0x100_0000_0000_0000,
        t2.stored().len() < 0x8000_0000_0000_0000,
        forall|k: int| 0 <= k < t1.stored().len() ==> #[trigger] has_key(t2.stored(), trie_key(t1.stored()[k])),
        forall|k: int| 0 <= k < t2.stored().len() ==> #[trigger] has_key(t1.stored(), trie_key(t2.stored()[k])),
    ensures
        walk_keys(t1.stored(), walk(t1.words(), key_order(), 0, 0)) == walk_keys(
            t2.stored(),
            walk(t2.words(), key_order(), 0, 0),
        ),
{
    let s1 = t1.stored();
    let s2 = t2.stored();
    let r1 = walk(t1.words(), key_order(), 0, 0);
    let r2 = walk(t2.words(), key_order(), 0, 0);
    lemma_ordered_walk(t1);
    lemma_ordered_walk(t2);
    let a = walk_keys(s1, r1);
    let b = walk_keys(s2, r2);
    assert forall|p: int, q: int| #![trigger a[p], a[q]] 0 <= p < q < a.len() implies key_before(a[p], a[q]) by {
        assert(r1[p] == r1[p] && r1[q] == r1[q]);
    }
    assert forall|p: int, q: int| #![trigger b[p], b[q]] 0 <= p < q < b.len() implies key_before(b[p], b[q]) by {
        assert(r2[p] == r2[p] && r2[q] == r2[q]);
    }
    assert forall|p: int| 0 <= p < a.len() implies b.contains(#[trigger] a[p]) by {
        assert(0 <= r1[p] < s1.len());
        assert(has_key(s2, trie_key(s1[r1[p]])));
        let j = choose|j: int| 0 <= j < s2.len() && #[trigger] trie_key(s2[j]) == trie_key(s1[r1[p]]);
        assert(key_reached(s2, r2, j));
        let q = choose|q: int| 0 <= q < r2.len() && #[trigger] trie_key(s2[r2[q]]) == trie_key(s2[j]);
        assert(b[q] == a[p]);
    }
    assert forall|p: int| 0 <= p < b.len() implies a.contains(#[trigger] b[p]) by {
        assert(0 <= r2[p] < s2.len());
        assert(has_key(s1, trie_key(s2[r2[p]])));
        let j = choose|j: int| 0 <= j < s1.len() && #[trigger] trie_key(s1[j]) == trie_key(s2[r2[p]]);
        assert(key_reached(s1, r1, j));
        let q = choose|q: int| 0 <= q < r1.len() && #[trigger] trie_key(s1[r1[q]]) == trie_key(s1[j]);
        assert(a[q] == b[p]);
    }
    lemma_sorted_keys_unique(a, b);
}

/// A walk through a compressed trie in the order of a coset: the coset
/// turned for the walk, and the stack of the nodes being walked, each with
/// the next slot to visit.
pub struct TriePtr {
    coset: State,
    stack: TrieStack,
}

impl TriePtr {
    /// The coset that the walk follows.
    pub closed spec fn coset(&self) -> State {
        self.coset
    }

    /// The stack: for each node being walked, the index of its header in the
    /// low 56 bits and the next slot to visit from bit 60.
    pub closed spec fn stack(&self) -> Seq<u64> {
        trie_stack_items(self.stack)
    }

    /// Whether the walk fits `trie`: the edge positions of its coset are
    /// below 12 and each word of its stack fits the compressed form.
    pub closed spec fn walks(&self, trie: &Trie) -> bool {
        &&& forall|k: u64| k < 12 ==> #[trigger] edge_pos(self.coset, k) < 12
        &&& frames_ok(trie.words(), trie.shape(), trie.depths(), self.stack())
    }

    /// What the walk has left to reach in `trie`: the indices of the states.
    pub closed spec fn left(&self, trie: &Trie) -> Seq<int> {
        pending(trie.words(), self.coset, self.stack())
    }

    /// The next state that the walk reaches in `trie`, if there is one.
    #[verifier::spinoff_prover]
    #[verifier::rlimit(60)]
    pub fn next(&mut self, trie: &Trie) -> (r: Option<State>)
        requires
            trie.wf(),
            trie.words().len() < 0x100_0000_0000_0000,
            trie.stored().len() < 0x8000_0000_0000_0000,
            old(self).walks(trie),
        ensures
            final(self).walks(trie),
            final(self).coset() == old(self).coset(),
            old(self).left(trie).len() == 0 ==> r is None && final(self).left(trie).len() == 0,
            old(self).left(trie).len() > 0 ==> 0 <= old(self).left(trie)[0] < trie.stored().len() && r == Some(
                trie.stored()[old(self).left(trie)[0]],
            ) && final(self).left(trie) == old(self).left(trie).drop_first(),
    {
        let ghost w = trie.branches@;
        let ghost b = trie.shape@;
        let ghost m = trie.depths@;
        let ghost par = trie.parents@;
        let ghost ns = trie.states@.len() as int;
        let ghost cs = self.coset;
        let ghost full = pending(w, cs, self.stack());
        let wlen = trie.branches.len();
        let slen = trie.states.len();
        loop
            invariant
                slen == ns,
                trie.wf(),
                w == trie.branches@,
                b == trie.shape@,
                m == trie.depths@,
                par == trie.parents@,
                ns == trie.states@.len(),
                wlen == w.len(),
                w.len() < 0x100_0000_0000_0000,
                ns < 0x8000_0000_0000_0000,
                trie_wf(b, m, par, ns),
                self.coset == cs,
                cs == old(self).coset,
                forall|k: u64| k < 12 ==> #[trigger] edge_pos(cs, k) < 12,
                frames_ok(w, b, m, self.stack()),
                pending(w, cs, self.stack()) == full,
                full == pending(w, cs, old(self).stack()),
            ensures
                full.len() == 0,
                self.stack().len() == 0,
                frames_ok(w, b, m, self.stack()),
                self.coset == cs,
            decreases pending_work(w, cs, self.stack()),
        {
            let ghost st = self.stack();
            match trie_stack_last(&self.stack) {
                None => {
                    break;
                },
                Some(top) => {
                    let ghost rest = st.drop_last();
                    let ghost h = frame_node(top);
                    let ghost (bn, bs) = lemma_top_frame(w, b, m, par, ns, st);
                    proof {
                        assert(st =~= rest.push(top));
                        lemma_pending_push(w, cs, rest, top);
                        lemma_walk_bits(top, 0, 0, w[h]);
                    }
                    let node = State::get_block(top, 0, 56) as usize;
                    let i = State::get_block(top, 60, 4) as u8;
                    let branch = trie.branches[node];
                    let d = State::get_block(branch, 58, 6);
                    let n = TrieBuilder::max_children(d);
                    if (i as usize) < n {
                        proof {
                            lemma_walk_step(w, b, m, par, ns, cs, h, bn, bs, i as int);
                        }
                        let ghost top2 = (top + 0x1000_0000_0000_0000u64) as u64;
                        trie_stack_set_last(&mut self.stack, top + (1 << 60));
                        proof {
                            lemma_frames_replace_top(w, b, m, st, top2, bn, bs);
                            lemma_pending_push(w, cs, rest, top2);
                        }
                        let parent_i = State::get_block(branch, 54, 4) as u8;
                        proof {
                            assert(branch == w[h]);
                            assert(d as int == header_depth(w[h]));
                            assert(parent_i == bs);
                            lemma_bits_at_bounds(cs.corners, (5 * parent_i) as u64);
                            lemma_bits_at_bounds(cs.edges, (5 * parent_i) as u64);
                            lemma_bits_at_bounds(cs.corners, (5 * i + 2) as u64);
                            lemma_bits_at_bounds(cs.edges, (5 * i + 1) as u64);
                        }
                        let j = match (d < 2 * 8, d % 2 == 0) {
                            (true, true) => State::get_block(self.coset.corners, 5 * i + 2, 3) as u8,
                            (true, false) => {
                                (i + State::get_block(self.coset.corners, 5 * parent_i, 2) as u8) % 3
                            },
                            (false, true) => State::get_block(self.coset.edges, 5 * i + 1, 4) as u8,
                            (false, false) => {
                                (i + State::get_block(self.coset.edges, 5 * parent_i, 1) as u8) % 2
                            },
                        };
                        assert(j as int == visit_slot(cs, d as int, i as int, bs));
                        assert(j < 12);
                        let child_idx = State::get_block(branch, 4 * j, 4);
                        proof {
                            let sh = (4 * j) as u8;
                            assert(sh as u64 == (4 * (j as int)) as u64);
                            lemma_bits_at_bounds(branch, sh as u64);
                            assert(child_idx == (branch >> (sh as u64)) & 15u64);
                        }
                        assert(child_idx == nibble(w[h], j as int));
                        if child_idx != 0 {
                            let child = trie.branches[node + child_idx as usize];
                            let leaf = State::get_block(child, 0, 63);
                            proof {
                                lemma_walk_bits(0, child, j as u64, 0);
                            }
                            if child != leaf {
                                proof {
                                    assert(child >= 0x8000_0000_0000_0000u64);
                                    assert(leaf == child - 0x8000_0000_0000_0000u64);
                                    assert(leaf < ns);
                                    assert(full =~= seq![leaf as int] + pending(w, cs, self.stack()));
                                    assert(pending(w, cs, self.stack()) =~= full.drop_first());
                                    assert(full[0] == leaf);
                                    assert(old(self).left(trie) == full);
                                    assert(leaf < slen);
                                }
                                let li = leaf as usize;
                                assert(li as int == leaf as int);
                                return Some(trie.states[li]);
                            }
                            let ghost top3 = child | ((j as u64) << 56u64);
                            let ghost st2 = self.stack();
                            trie_stack_push(&mut self.stack, child | ((j as u64) << 56));
                            proof {
                                let e = child as int;
                                let (cn, cs2) = choose|cn: int, cs2: int|
                                    encodes(w, e, w.len() as int, b, cn, header_depth(w[e]), cs2) && m.contains_key(cn)
                                        && m[cn] == header_depth(w[e]) && 0 <= cs2 < 12;
                                lemma_frames_push(w, b, m, st2, top3, cn, cs2);
                                lemma_pending_push(w, cs, st2, top3);
                                assert(pending(w, cs, self.stack()) =~= full);
                            }
                        }
                    } else {
                        trie_stack_pop(&mut self.stack);
                        proof {
                            lemma_frames_pop(w, b, m, st);
                        }
                    }
                },
            }
        }
        None
    }

    /// The number of nodes being walked.
    pub fn depth(&self) -> (r: u8)
        requires
            self.stack().len() < 256,
        ensures
            r == self.stack().len(),
    {
        trie_stack_len(&self.stack) as u8
    }

    /// The start of a walk, in the order of `coset`, from the root of a
    /// compressed trie.
    pub fn first(coset: State) -> (r: TriePtr)
        requires
            edges_placed(coset),
        ensures
            r.coset() == walk_coset(coset),
            r.stack() == seq![0u64],
            forall|k: u64| k < 12 ==> #[trigger] edge_pos(r.coset(), k) < 12,
    {
        // This is similar to state inversion, except that the orientation part
        // is inverted but its position is not swapped.
        let mut corners: u64 = 0;
        let mut i: u8 = 0;
        while i < 8
            invariant
                i <= 8,
                corners == walk_corners(coset, i as nat),
            decreases 8 - i,
        {
            let pos = State::get_block(coset.corners, 5 * i + 2, 3) as u8;
            let ori = State::get_block(coset.corners, 5 * i, 2);
            proof {
                lemma_bits_at_bounds(coset.corners, (5 * i + 2) as u64);
                lemma_bits_at_bounds(coset.corners, (5 * i) as u64);
            }
            corners |= (i as u64) << (5 * pos + 2);
            corners |= ((3 - ori) % 3) << (5 * i);
            i += 1;
        }
        let mut edges: u64 = 0;
        let mut i: u8 = 0;
        while i < 12
            invariant
                i <= 12,
                edges_placed(coset),
                corners == walk_corners(coset, 8),
                edges == walk_edges(coset, i as nat),
            decreases 12 - i,
        {
            let pos = State::get_block(coset.edges, 5 * i + 1, 4) as u8;
            let ori = State::get_block(coset.edges, 5 * i, 1);
            proof {
                assert(edge_pos(coset, i as u64) < 12);
            }
            edges |= (i as u64) << (5 * pos + 1);
            edges |= ori << (5 * i);
            i += 1;
        }
        let r = TriePtr { coset: State { corners, edges }, stack: trie_stack_of(0) };
        proof {
            lemma_walk_coset_placed(coset);
            assert(r.coset == walk_coset(coset));
        }
        r
    }
}

/// The edges of the solved cube are each at its own position.
pub(crate) proof fn lemma_solved_edges(i: u64)
    by (bit_vector)
    requires
        i < 12,
    ensures
        bits_at(0xb52507314831040u64, (5 * i + 1) as u64, 4) == i,
{
}

/// The states of a compressed trie, in the order of a coset.
pub struct TrieIter<'a> {
    trie: &'a Trie,
    ptr: TriePtr,
}

impl<'a> TrieIter<'a> {
    /// The walk fits the trie, which fits the machine.
    pub closed spec fn wf(&self) -> bool {
        &&& self.trie.wf()
        &&& self.trie.words().len() < 0x100_0000_0000_0000
        &&& self.trie.stored().len() < 0x8000_0000_0000_0000
        &&& self.ptr.walks(self.trie)
    }

    /// The indices of the states left to reach, in order.
    pub closed spec fn left(&self) -> Seq<int> {
        self.ptr.left(self.trie)
    }

    /// The states of the trie.
    pub closed spec fn stored(&self) -> Seq<State> {
        self.trie.stored()
    }

    /// The next state, if there is one.
    pub fn next(&mut self) -> (r: Option<State>)
        requires
            old(self).wf(),
        ensures
            final(self).wf(),
            final(self).stored() == old(self).stored(),
            old(self).left().len() == 0 ==> r is None && final(self).left().len() == 0,
            old(self).left().len() > 0 ==> 0 <= old(self).left()[0] < old(self).stored().len() && r == Some(
                old(self).stored()[old(self).left()[0]],
            ) && final(self).left() == old(self).left().drop_first(),
    {
        self.ptr.next(self.trie)
    }
}

impl Trie {
    /// The states of the trie in the order of their keys, each key of a
    /// state stored once.
    pub fn ordered<'a>(&'a self) -> (r: TrieIter<'a>)
        requires
            self.wf(),
            self.words().len() < 0x100_0000_0000_0000,
            self.stored().len() < 0x8000_0000_0000_0000,
        ensures
            r.wf(),
            r.stored() == self.stored(),
            r.left() == walk(self.words(), key_order(), 0, 0),
            sorted_keys(self.stored(), r.left()),
            reaches_keys(self.stored(), r.left()),
    {
        let solved = State::SOLVED();
        proof {
            assert forall|i: u64| i < 12 implies #[trigger] edge_pos(solved, i) == i by {
                lemma_solved_edges(i);
            }
            lemma_ordered_walk(*self);
        }
        self.ordered_coset(solved)
    }

    /// The states of the trie in the order of `coset`: at each node, the
    /// slots are visited in the order that `visit_slot` gives, so that, when
    /// the corners of `coset` are at distinct positions, the states come in
    /// the order of their keys in `walk_key`, each key of a state stored
    /// once.
    pub fn ordered_coset<'a>(&'a self, coset: State) -> (r: TrieIter<'a>)
        requires
            self.wf(),
            self.words().len() < 0x100_0000_0000_0000,
            self.stored().len() < 0x8000_0000_0000_0000,
            edges_placed(coset),
        ensures
            r.wf(),
            r.stored() == self.stored(),
            r.left() == walk(self.words(), walk_coset(coset), 0, 0),
            corners_placed(coset) ==> sorted_walk_keys(walk_coset(coset), self.stored(), r.left()),
            corners_placed(coset) ==> reaches_keys(self.stored(), r.left()),
    {
        let ptr = TriePtr::first(coset);
        proof {
            if corners_placed(coset) {
                lemma_ordered_coset_walk(*self, coset);
            }
            let w = self.branches@;
            lemma_walk_bits(0, 0, 0, w[0]);
            assert(frame_node(0) == 0 && frame_slot(0) == 0);
            assert(header_depth(w[0]) == 0);
            assert(encodes(w, frame_node(0), w.len() as int, self.shape@, 0, header_depth(w[frame_node(0)]), 0));
            assert(frame_ok(w, self.shape@, self.depths@, ptr.stack()[0], 0));
            assert(ptr.stack() =~= Seq::<u64>::empty().push(0u64));
            lemma_pending_push(w, ptr.coset, Seq::<u64>::empty(), 0u64);
            assert(pending(w, ptr.coset, ptr.stack()) =~= walk(w, ptr.coset, 0, 0));
        }
        TrieIter { trie: self, ptr }
    }
}

} // verus!
