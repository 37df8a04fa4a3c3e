use std::collections::HashSet;

use rubik_lib::cube_core::moves::{Axis, Direction, Face, Move, Moves};
use rubik_lib::cube_core::state::State;

#[test]
fn move_display() {
    assert_eq!(Move::L().to_string(), "L");
    assert_eq!(Move::R().to_string(), "R");
    assert_eq!(Move::D().to_string(), "D");
    assert_eq!(Move::U().to_string(), "U");
    assert_eq!(Move::B().to_string(), "B");
    assert_eq!(Move::F().to_string(), "F");
    assert_eq!(Move::F_().to_string(), "F'");
    assert_eq!(Move::F2().to_string(), "F2");
}

#[test]
fn move_index() {
    let moves = Move::BASIC_MOVES();
    for i in 0..moves.len() {
        assert_eq!(i as u8, moves[i].index());
    }
}

#[test]
fn unique_moves_to_depth_4() {
    let mut states = HashSet::new();
    let mut iter = Moves::to_depth(4);
    while let Some((_, s)) = iter.next() {
        states.insert(s);
    }
    assert_eq!(states.len(), 46741);
}

#[test]
fn from_moves() {
    let moves_orig = [Move::F(), Move::B_(), Move::L()];
    let moves = Moves::from_moves(&moves_orig);
    assert_eq!(&moves_orig[..], &moves.moves().to_vec()[..]);
}

#[test]
fn inv_moves() {
    let moves = Moves::from_moves(&[Move::F(), Move::B_(), Move::L()]);
    let mut state = State::ID();
    for &mv in moves.moves().to_vec().iter() {
        state = mv * state;
    }
    let mut inv_state = State::ID();
    for &mv in moves.inv_moves().to_vec().iter() {
        inv_state = mv * inv_state;
    }
    assert_eq!(state.inv(), inv_state);
}

#[test]
fn moves_append_and_from_move() {
    let one = Moves::from_move(Move::U2());
    let two = one.append(Move::R_());
    assert_eq!(&two.moves().to_vec()[..], &[Move::U2(), Move::R_()][..]);
    assert!(Moves::from_moves(&[]).moves().to_vec().is_empty());
}

#[test]
fn moves_to_depth_order() {
    let mut iter = Moves::to_depth(1);
    let (first, s) = iter.next().unwrap();
    assert!(first.moves().to_vec().is_empty());
    assert_eq!(s, State::ID());
    let basic = Move::BASIC_MOVES();
    for k in 0..18 {
        let (m, s) = iter.next().unwrap();
        assert_eq!(&m.moves().to_vec()[..], &[basic[k]][..]);
        assert_eq!(s, basic[k] * State::ID());
    }
    assert!(iter.next().is_none());
}

#[test]
fn face_and_direction_helpers() {
    assert_eq!(Face::Up.axis(), Axis::Y);
    assert_eq!(Face::Front.index(), 5);
    let (neg, pos) = Axis::Z.faces();
    assert_eq!((neg, pos), (Face::Back, Face::Front));
    assert_eq!(Axis::X.index(), 0);
    assert_eq!(Direction::Clockwise.inv(), Direction::CounterClockwise);
    assert_eq!(Direction::HalfTurn.inv(), Direction::HalfTurn);
    assert_eq!(Direction::CounterClockwise.suffix(), "'");
    assert_eq!(Direction::HalfTurn.index(), 2);
    assert_eq!(Move::B_().inv(), Move::B());
    assert_eq!(Move::D2().index(), 8);
    assert_eq!(Face::Left.to_string(), "L");
}
