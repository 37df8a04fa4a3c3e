use std::collections::{HashMap, HashSet};

use rubik_lib::cube_core::state::State;
use rubik_lib::model::moves::{Direction, Face, Move};
use rubik_lib::model::sym::{Symmetries, MIR_LR, ROT_L, ROT_LBD, ROT_U2};

fn test_conj(mv1: Move, mv2: Move, sym: State) {
    let expected: State = mv1.into();
    assert_eq!(sym * mv2 * sym.inv(), expected);
}

fn test_order(state: State, order: usize) {
    let mut power = State::ID();
    for _ in 0..order {
        power = power * state;
    }
    assert_eq!(power, State::ID());
}

#[test]
fn rot_lbd() {
    test_conj(Move::U(), Move::F(), ROT_LBD());
    test_conj(Move::F(), Move::R(), ROT_LBD());
    test_conj(Move::R(), Move::U(), ROT_LBD());
    test_conj(Move::L(), Move::D(), ROT_LBD());
    test_conj(Move::B(), Move::L(), ROT_LBD());
    test_conj(Move::D(), Move::B(), ROT_LBD());
    test_order(ROT_LBD(), 3);
}

#[test]
fn rot_l() {
    test_conj(Move::L(), Move::L(), ROT_L());
    test_conj(Move::R(), Move::R(), ROT_L());
    test_conj(Move::U(), Move::F(), ROT_L());
    test_conj(Move::F(), Move::D(), ROT_L());
    test_conj(Move::D(), Move::B(), ROT_L());
    test_conj(Move::B(), Move::U(), ROT_L());
    test_order(ROT_L(), 4);
}

#[test]
fn rot_u2() {
    test_conj(Move::U(), Move::U(), ROT_U2());
    test_conj(Move::D(), Move::D(), ROT_U2());
    test_conj(Move::L(), Move::R(), ROT_U2());
    test_conj(Move::R(), Move::L(), ROT_U2());
    test_conj(Move::B(), Move::F(), ROT_U2());
    test_conj(Move::F(), Move::B(), ROT_U2());
    test_order(ROT_U2(), 2);
}

#[test]
fn mir_lr() {
    test_conj(Move::L(), Move::R_(), MIR_LR());
    test_conj(Move::R(), Move::L_(), MIR_LR());
    test_conj(Move::D(), Move::D_(), MIR_LR());
    test_conj(Move::U(), Move::U_(), MIR_LR());
    test_conj(Move::B(), Move::B_(), MIR_LR());
    test_conj(Move::F(), Move::F_(), MIR_LR());
    test_order(MIR_LR(), 2);
}

#[test]
fn rot_lbd_l() {
    let sym = ROT_L().inv() * ROT_LBD();
    test_conj(Move::L(), Move::D(), sym);
    test_conj(Move::D(), Move::R(), sym);
    test_conj(Move::R(), Move::U(), sym);
    test_conj(Move::U(), Move::L(), sym);
    test_conj(Move::F(), Move::F(), sym);
    test_conj(Move::B(), Move::B(), sym);
}

#[test]
fn symmetries_come_with_their_inverses() {
    let sym = Symmetries::all();
    assert_eq!(sym.elems.len(), 48);
    assert_eq!(sym.elems_inv.len(), 48);
    assert_eq!(sym.elems[0], State::ID());
    assert_eq!(sym.elems[1], MIR_LR());
    assert_eq!(sym.elems[2], ROT_U2());
    for i in 0..48 {
        assert_eq!(sym.elems[i] * sym.elems_inv[i], State::ID());
        assert_eq!(sym.elems_inv[i] * sym.elems[i], State::ID());
    }
}

#[test]
fn repr_is_smallest_conjugate() {
    let sym = Symmetries::all();
    let state = State::R() * State::U();
    let (repr, idx) = sym.repr(state);
    assert_eq!(repr, sym.elems_inv[idx as usize] * state * sym.elems[idx as usize]);
    for i in 0..48 {
        let c = sym.elems_inv[i] * state * sym.elems[i];
        assert!((repr.corners, repr.edges) <= (c.corners, c.edges));
    }
}

#[test]
fn conj_by_identity_symmetry() {
    let sym = Symmetries::all();
    let s = State::R() * State::U();
    assert_eq!(sym.conj(s, 0), s);
    let c = sym.conj(s, 5);
    assert_eq!(sym.elems_inv[5] * c * sym.elems[5], s);
}

#[test]
fn moves_move_display() {
    assert_eq!(Move::L().to_string(), "L");
    assert_eq!(Move::R().to_string(), "R");
    assert_eq!(Move::D().to_string(), "D");
    assert_eq!(Move::U().to_string(), "U");
    assert_eq!(Move::B().to_string(), "B");
    assert_eq!(Move::F().to_string(), "F");
    assert_eq!(Move::F_().to_string(), "F'");
    assert_eq!(Move::F2().to_string(), "F2");
}

#[test]
fn conj_keeps_products_and_the_solved_cube() {
    let sym = Symmetries::all();
    let a = State::R() * State::U();
    let b = State::F_() * State::L2();
    for k in [0u8, 1, 5, 17, 47] {
        assert_eq!(sym.conj(a * b, k), sym.conj(a, k) * sym.conj(b, k));
        assert_eq!(sym.conj(State::ID(), k), State::ID());
    }
    assert_eq!(sym.conj(a, 0), a);
}

#[test]
fn all_symmetries_form_a_group() {
    let sym = Symmetries::all();
    assert_eq!(sym.elems.len(), 48);
    let all_syms: HashSet<State> = sym.elems.iter().cloned().collect();
    for i in 0..48 {
        for j in 0..48 {
            assert!(all_syms.contains(&(sym.elems[i] * sym.elems[j])), "{} {}", i, j);
            assert!(all_syms.contains(&sym.elems[i].inv()), "{}", i);
        }
    }
}

#[test]
fn symmetries_are_distinct() {
    let sym = Symmetries::all();
    let all_syms: HashSet<State> = sym.elems.iter().cloned().collect();
    assert_eq!(all_syms.len(), 48);
}

#[test]
fn state_repr() {
    let sym = Symmetries::all();
    let mut reprs: HashMap<State, Vec<Move>> = HashMap::new();
    for dir in [Direction::Clockwise, Direction::CounterClockwise, Direction::HalfTurn] {
        for face in Face::ALL_FACES {
            let mv = Move { face, dir };
            let state = State::ID() * mv;
            let (repr, _sidx) = sym.repr(state);
            assert!(repr.valid());
            reprs.entry(repr).or_insert(Vec::new()).push(mv);
        }
    }
    for v in reprs.values() {
        let names: Vec<String> = v.iter().map(|m| m.to_string()).collect();
        println!("{}", names.join(" "));
    }
    assert_eq!(
        reprs.values().cloned().collect::<HashSet<_>>(),
        HashSet::from([
            vec![Move::L2(), Move::R2(), Move::D2(), Move::U2(), Move::B2(), Move::F2()],
            vec![
                Move::L(),
                Move::R(),
                Move::D(),
                Move::U(),
                Move::B(),
                Move::F(),
                Move::L_(),
                Move::R_(),
                Move::D_(),
                Move::U_(),
                Move::B_(),
                Move::F_()
            ]
        ])
    );
}
