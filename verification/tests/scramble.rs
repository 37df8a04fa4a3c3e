use rubik_lib::cube_core::moves::Move;
use rubik_lib::cube_core::scramble::{possible_moves, scramble, scramble_step};
use rubik_lib::cube_core::state::State;

#[test]
fn scramble_follows_the_rules() {
    for n in [0usize, 1, 2, 5, 25] {
        let (moves, state) = scramble(n);
        assert_eq!(moves.len(), n);
        let mut s = State::ID();
        for (i, &mv) in moves.iter().enumerate() {
            if i >= 1 {
                assert!(mv.face != moves[i - 1].face);
            }
            if i >= 2 && moves[i - 2].face.axis() == moves[i - 1].face.axis() {
                assert!(mv.face.axis() != moves[i - 1].face.axis());
            }
            s = mv * s;
        }
        assert_eq!(s, state);
        assert!(state.valid());
    }
}

#[test]
fn possible_moves_after_moves() {
    assert_eq!(possible_moves(&[]).len(), 18);
    let after_l = possible_moves(&[Move::L()]);
    assert_eq!(after_l.len(), 15);
    assert!(after_l.iter().all(|m| m.face != Move::L().face));
    let after_lr = possible_moves(&[Move::L(), Move::R2()]);
    assert_eq!(after_lr.len(), 12);
    assert_eq!(after_lr[0], Move::D());
}

#[test]
fn scramble_step_picks_by_rank() {
    let mut moves = vec![Move::U()];
    let mut state = Move::U() * State::ID();
    scramble_step(&mut moves, &mut state, 0);
    assert_eq!(moves, vec![Move::U(), Move::L()]);
    assert_eq!(state, Move::L() * (Move::U() * State::ID()));
}
