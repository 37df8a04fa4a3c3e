use std::collections::HashSet;

use rubik_lib::canonical::canonical_sequences;
use rubik_lib::moves::Move;
use rubik_lib::state::State;

fn reach(moves: &[Move]) -> State {
    let mut s = State::SOLVED();
    for m in moves {
        s = s.mv(*m);
    }
    s
}

#[test]
fn canonical_depth_zero_is_solved_only() {
    let c = canonical_sequences(0);
    assert_eq!(c.len(), 1);
    assert!(c[0].is_empty());
}

#[test]
fn canonical_depth_one_has_every_basic_move() {
    let c = canonical_sequences(1);
    assert_eq!(c.len(), 19);
    let basic = Move::BASIC_MOVES();
    for (i, m) in basic.iter().enumerate() {
        assert_eq!(c[i + 1], vec![*m]);
    }
}

#[test]
fn canonical_counts_by_depth() {
    assert_eq!(canonical_sequences(2).len(), 1 + 18 + 243);
    let c = canonical_sequences(3);
    assert_eq!(c.len(), 1 + 18 + 243 + 3240);
    let mut seen = HashSet::new();
    for (i, moves) in c.iter().enumerate() {
        assert!(seen.insert(reach(moves)));
        if i > 0 {
            assert!(c[i - 1].len() <= moves.len());
            assert!(c[..i].contains(&moves[..moves.len() - 1].to_vec()));
        }
    }
}

fn indices(moves: &[Move]) -> (usize, Vec<u8>) {
    (moves.len(), moves.iter().map(|m| m.index()).collect())
}

#[test]
fn canonical_sequences_come_in_order_and_first_to_their_state() {
    let c = canonical_sequences(3);
    for i in 1..c.len() {
        assert!(indices(&c[i - 1]) < indices(&c[i]));
    }
    // After L, the turns of L reach states already kept (L2, the solved cube,
    // L'), so the first sequence of two moves is L then R.
    let basic = Move::BASIC_MOVES();
    assert_eq!(c[19], vec![basic[0], basic[3]]);
    // Every sequence of two moves reaching the state of a kept sequence of two
    // moves comes after it.
    for a in basic.iter() {
        for b in basic.iter() {
            let q = vec![*a, *b];
            let s = reach(&q);
            let kept = c.iter().find(|m| reach(m) == s).unwrap();
            assert!(indices(kept) <= indices(&q));
        }
    }
}
