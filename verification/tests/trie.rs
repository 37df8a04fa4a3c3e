use std::collections::HashSet;

use rubik_lib::moves::Move;
use rubik_lib::state::State;
use rubik_lib::trie::{TrieBuilder, TrieIter, TriePtr};

// A word of the compressed trie counts as a `usize`, a state as two `u64`.
const WORD: usize = std::mem::size_of::<usize>();
const STATE: usize = std::mem::size_of::<State>();

#[test]
fn trie_empty_is_a_lone_root() {
    let trie = TrieBuilder::new().build();
    assert_eq!(trie.footprint(), WORD);
    let trie = TrieBuilder::default().build();
    assert_eq!(trie.footprint(), WORD);
}

#[test]
fn trie_single_state_is_one_chain() {
    let mut builder = TrieBuilder::new();
    builder.insert(State::SOLVED());
    let trie = builder.build();
    // The root header and one entry that reaches the state directly.
    assert_eq!(trie.footprint(), 2 * WORD + STATE);
}

#[test]
fn trie_same_state_twice_keeps_one_leaf() {
    let mut builder = TrieBuilder::new();
    builder.insert(State::SOLVED());
    builder.insert(State::SOLVED());
    let trie = builder.build();
    assert_eq!(trie.footprint(), 2 * WORD + 2 * STATE);
}

#[test]
fn trie_two_states_branch_where_they_differ() {
    // A front quarter turn keeps the first four corners, so both keys share
    // their first eight digits and part at the ninth: the root, with one
    // entry, then the branching node, with two.
    let mut builder = TrieBuilder::new();
    builder.insert(State::SOLVED());
    builder.insert(State::SOLVED().mv(Move::F()));
    let trie = builder.build();
    assert_eq!(trie.footprint(), 5 * WORD + 2 * STATE);
}

#[test]
fn trie_states_that_part_at_the_root() {
    // A left quarter turn moves corner 0: the root has two entries.
    let mut builder = TrieBuilder::new();
    builder.insert(State::SOLVED());
    builder.insert(State::SOLVED().mv(Move::L()));
    let trie = builder.build();
    assert_eq!(trie.footprint(), 3 * WORD + 2 * STATE);
}

// The order of the keys of the trie: the 5-bit fields of the pieces, the
// first piece first.
fn rev(bits: u64, n: usize) -> u64 {
    let mut res = 0;
    for i in 0..n {
        res |= ((bits >> (5 * i)) & 0b11111) << (5 * (n - i - 1))
    }
    res
}

fn key(s: &State) -> (u64, u64) {
    (rev(s.corners, 8), rev(s.edges, 12))
}

// The distinct states within `d` moves of the solved cube.
fn states_to_depth(d: usize) -> Vec<State> {
    let mut seen = HashSet::new();
    seen.insert(State::SOLVED());
    let mut all = vec![State::SOLVED()];
    let mut frontier = vec![State::SOLVED()];
    for _ in 0..d {
        let mut next = vec![];
        for s in frontier {
            for m in Move::BASIC_MOVES() {
                let t = s.mv(m);
                if seen.insert(t) {
                    next.push(t);
                    all.push(t);
                }
            }
        }
        frontier = next;
    }
    all
}

fn collect(mut it: TrieIter) -> Vec<State> {
    let mut v = vec![];
    while let Some(s) = it.next() {
        v.push(s);
    }
    v
}

#[test]
fn trie_normal_ordering() {
    let mut trie = TrieBuilder::new();
    let mut states = states_to_depth(4);
    for &state in states.iter() {
        trie.insert(state);
    }
    states.sort_by_key(key);
    let trie = trie.build();
    assert_eq!(states, collect(trie.ordered()));
}

#[test]
fn trie_coset_ordering1() {
    let mut trie = TrieBuilder::new();
    let state1 = State::SOLVED();
    let state2 = state1.mv(Move::F());
    let state3 = state1.mv(Move::F_());
    trie.insert(state1);
    trie.insert(state2);
    trie.insert(state3);
    let trie = trie.build();
    let states: Vec<State> = collect(trie.ordered_coset(State::SOLVED().mv(Move::F_())));
    assert_eq!(states, vec![state2, state1, state3]);
}

#[test]
fn trie_coset_ordering2() {
    let mut trie = TrieBuilder::new();
    let state1 = State::SOLVED().mv(Move::D_());
    let state2 = State::SOLVED().mv(Move::L());
    trie.insert(state1);
    trie.insert(state2);
    let trie = trie.build();
    let states: Vec<State> = collect(trie.ordered_coset(State::SOLVED().mv(Move::F())));
    assert_eq!(states, vec![state1, state2]);
}

#[test]
fn trie_coset_ordering3() {
    let mut trie = TrieBuilder::new();
    let mut states = states_to_depth(4);
    for &state in states.iter() {
        trie.insert(state);
    }
    let coset = State::SOLVED().mv(Move::F2()).mv(Move::U());
    for state in states.iter_mut() {
        *state = coset.compose(state);
    }
    let trie = trie.build();
    states.sort_by_key(key);
    assert_eq!(
        states,
        collect(trie.ordered_coset(coset))
            .iter()
            .map(|s| coset.compose(s))
            .collect::<Vec<_>>()
    );
}

#[test]
fn trie_walk_depth_starts_at_the_root() {
    let ptr = TriePtr::first(State::SOLVED());
    assert_eq!(ptr.depth(), 1);
}

#[test]
fn trie_order_does_not_depend_on_insertion() {
    let basic = Move::BASIC_MOVES();
    let states: Vec<State> = basic.iter().map(|m| State::SOLVED().mv(*m)).collect();
    let mut forward = TrieBuilder::new();
    for s in states.iter() {
        forward.insert(*s);
    }
    let mut backward = TrieBuilder::new();
    for s in states.iter().rev() {
        backward.insert(*s);
        backward.insert(*s);
    }
    let forward = forward.build();
    let backward = backward.build();
    let mut a = forward.ordered();
    let mut b = backward.ordered();
    let mut n = 0;
    loop {
        let x = a.next();
        let y = b.next();
        assert_eq!(x, y);
        if x.is_none() {
            break;
        }
        n += 1;
    }
    assert_eq!(n, 18);
}
