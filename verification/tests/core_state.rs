use std::collections::HashSet;
use std::hash::Hash;

use rubik_lib::cube_core::moves::{Direction, Face, Move};
use rubik_lib::cube_core::state::State;

fn assert_distinct<T: Eq + Hash>(iter: impl Iterator<Item = T>) {
    let mut elems = HashSet::new();
    for elem in iter {
        if !elems.insert(elem) {
            panic!("elements are not distinct");
        }
    }
}

#[test]
fn double_double_rotation_cancel() {
    for mv in [Move::L2(), Move::R2(), Move::D2(), Move::U2(), Move::B2(), Move::F2()] {
        assert_eq!(mv * mv, State::ID());
    }
}

#[test]
fn all_moves_are_distinct() {
    assert_distinct(Move::BASIC_MOVES().iter().map(|&mv| (mv * State::ID()).corners));
    assert_distinct(Move::BASIC_MOVES().iter().map(|&mv| (mv * State::ID()).edges));
}

#[test]
fn two_quarters_equal_half_turn() {
    for face in Face::ALL_FACES {
        let q = Move { face, dir: Direction::Clockwise };
        let qi = q.inv();
        let h = Move { face, dir: Direction::HalfTurn };
        let hs: State = h.into();
        assert_eq!(q * q, hs);
        assert_eq!(qi * qi, hs);
    }
}

#[test]
fn four_quarters_cancel() {
    for face in Face::ALL_FACES {
        let q = Move { face, dir: Direction::Clockwise };
        let qi = q.inv();
        assert_eq!(q * q * q * q, State::ID());
        assert_eq!(qi * qi * qi * qi, State::ID());
    }
}

#[test]
fn state_inversion() {
    let basic = State::BASIC_MOVES();
    for i in 0..18 {
        for j in 0..18 {
            let state = basic[i] * basic[j];
            let inv = state.inv();
            assert!(state.valid());
            assert!(inv.valid());
            assert_eq!(state * inv, State::ID());
            assert_eq!(inv * state, State::ID());
        }
    }
}

#[test]
fn state_idempotence() {
    assert!(State::ID().valid());
    for s in State::BASIC_MOVES() {
        assert_eq!(s, s * State::ID());
        assert_eq!(s, State::ID() * s);
    }
}

#[test]
fn product_is_associative() {
    let basic = State::BASIC_MOVES();
    for i in 0..18 {
        for j in 0..18 {
            let k = (i * 7 + j * 5) % 18;
            assert_eq!((basic[i] * basic[j]) * basic[k], basic[i] * (basic[j] * basic[k]));
        }
    }
}

#[test]
fn pieces_of_a_turn() {
    let r = State::R();
    assert_eq!(r.cp(1), 3);
    assert_eq!(r.co(1), 0);
    assert_eq!(State::ID().ep(7), 7);
    assert_eq!(State::ID().eo(7), 0);
    assert!(!r.mirrored());
    let u = State::U();
    assert_eq!(u.co(2), 1);
    assert_eq!(u.cp(2), 6);
    assert_eq!(u.eo(1), 1);
}

#[test]
fn invalid_states() {
    let mut twisted = State::ID();
    twisted.corners |= 1;
    assert!(!twisted.valid());
    let mut flipped = State::ID();
    flipped.edges |= 1;
    assert!(!flipped.valid());
    let swapped = State {
        corners: State::ID().corners,
        edges: 0b_10110_10100_10010_10000_01110_01100_01010_01000_00110_00100_00000_00010,
    };
    assert!(!swapped.valid());
    let repeated = State {
        corners: State::ID().corners & !(0b11100 << 5),
        edges: State::ID().edges,
    };
    assert!(!repeated.valid());
}

#[test]
fn move_times_move() {
    let basic = State::BASIC_MOVES();
    let moves = Move::BASIC_MOVES();
    for i in 0..18 {
        let s: State = moves[i].into();
        assert_eq!(s, basic[i]);
        assert_eq!(State::ID() * moves[i], basic[i]);
        assert_eq!(moves[i] * moves[(i + 3) % 18], basic[i] * basic[(i + 3) % 18]);
    }
}

#[test]
fn state_text_of_the_solved_cube() {
    assert_eq!(
        State::ID().to_string(),
        "\ncorners:\n- permutation: 0 1 2 3 4 5 6 7\n- orientation: 0 0 0 0 0 0 0 0\nedges:\n\
         - permutation: 00 01 02 03 04 05 06 07 08 09 10 11\n\
         - orientation:  0  0  0  0  0  0  0  0  0  0  0  0\n"
    );
}

#[test]
fn state_text_notes_a_mirror() {
    let mirror = rubik_lib::model::sym::MIR_LR();
    let text = mirror.to_string();
    assert!(text.starts_with("\ncorners (mirrored):\n- permutation:"));
    assert_eq!(text.lines().count(), 7);
}
