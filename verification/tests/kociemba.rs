use rubik_lib::solve::kociemba::coords::{is_phase2_move, Phase1, Phase2, PHASE2_MOVES};
use rubik_lib::solve::kociemba::{prune_move, update_dist, Until};

#[test]
fn phase2_moves() {
    let moves = (0..18).filter(|&i| is_phase2_move(i)).collect::<Vec<_>>();
    assert_eq!(&PHASE2_MOVES, &moves[..])
}

#[test]
fn pruning_moves() {
    assert!(prune_move(0, 1));
    assert!(prune_move(3, 2));
    assert!(!prune_move(0, 3));
    assert!(!prune_move(0, 6));
    assert!(prune_move(4, 4));
}

#[test]
fn distances() {
    assert_eq!(update_dist(5, 1), 4);
    assert_eq!(update_dist(5, 0), 6);
    assert_eq!(update_dist(5, 2), 5);
    assert_eq!(update_dist(0, 1), 1);
    assert_eq!(update_dist(0, 0), 0);
}

#[test]
fn goals() {
    assert!(Phase1 { eolr: 15, co: 0 }.reached_goal());
    assert!(!Phase1 { eolr: 16, co: 0 }.reached_goal());
    assert!(!Phase1 { eolr: 0, co: 1 }.reached_goal());
    assert!(Phase2 { cp: 0, ep8: 0, ep4: 0 }.reached_goal());
    assert!(!Phase2 { cp: 0, ep8: 0, ep4: 1 }.reached_goal());
}

#[test]
fn until_counts_down() {
    let mut u = Until::MaxIterations(2);
    assert_eq!(u.next(), Some(()));
    assert_eq!(u.next(), Some(()));
    assert_eq!(u.next(), None);
    assert_eq!(u, Until::MaxIterations(0));
    let mut n = Until::NextSolution;
    assert_eq!(n.next(), Some(()));
}

/// Tables in which every coordinate is 0 but the first-phase class of every
/// state, which is 1; the class 1 goes to 0 by move L only, and the pruning
/// table gives class 1 the distance 1.
fn toy_tables() -> rubik_lib::solve::kociemba::coords::Tables {
    let mut sym_conj_inv_mv = Vec::new();
    for mv in 0..18u8 {
        for _ in 0..16 {
            sym_conj_inv_mv.push(mv);
        }
    }
    let mut eolr_mv = vec![0u32; 18 * 64430];
    for mv in 1..18 {
        eolr_mv[18 + mv] = 16;
    }
    let mut prune_eolr_co = vec![0u8; (2187 * 64430 + 3) / 4];
    prune_eolr_co[2187 / 4] = 1 << (2 * (2187 % 4));
    rubik_lib::solve::kociemba::coords::Tables {
        sym_prod: vec![0; 256],
        sym_inv: vec![0; 16],
        sym_conj_inv_mv,
        eolr_raw_to_sym: vec![16; 1013760],
        eolr_mv,
        co_mv: vec![0; 18 * 2187],
        co_sym: vec![0; 16 * 2187],
        cp_raw_to_sym: vec![0; 40320],
        cp_mv: vec![0; 18 * 2768],
        ep8_mv: vec![0; 18 * 40320],
        ep8_sym: vec![0; 16 * 40320],
        ep4_mv: vec![0; 18 * 24],
        prune_eolr_co,
        prune_cp_ep8: vec![0; (40320 * 2768 + 3) / 4],
    }
}

#[test]
fn tables_are_checked() {
    let tables = toy_tables();
    assert!(tables.check());
    let mut bad = toy_tables();
    bad.sym_inv[3] = 16;
    assert!(!bad.check());
    let mut short = toy_tables();
    short.co_mv.pop();
    assert!(!short.check());
}

#[test]
fn solver_follows_the_tables() {
    let mut solver = rubik_lib::solve::kociemba::Solver::new(toy_tables());
    let state = rubik_lib::cube_core::state::State::D_() * rubik_lib::cube_core::state::State::L_();
    assert!(solver.init(&state));
    // L then D: the first move that leaves class 1, then the first quarter
    // turn that does not belong to the second phase; the second phase has
    // nothing to do.
    assert_eq!(solver.next(), Some(vec![0, 6]));
    // No solution shorter than two moves is left.
    assert_eq!(solver.next(), None);
}

#[test]
fn solver_step_budget() {
    let mut solver = rubik_lib::solve::kociemba::Solver::new(toy_tables());
    let state = rubik_lib::cube_core::state::State::D_() * rubik_lib::cube_core::state::State::L_();
    assert!(solver.init(&state));
    assert_eq!(solver.step_until(Until::MaxIterations(1)), None);
    assert_eq!(solver.step_until(Until::NextSolution), Some(Some(vec![0, 6])));
    assert_eq!(solver.step_until(Until::MaxIterations(100)), Some(None));
}
