use rubik_lib::algebra::coord::CO;
use rubik_lib::algebra::move_table::RawCoordMoveTable;
use rubik_lib::solve::kociemba::coords::{ALL_MOVES, PHASE2_MOVES};
use rubik_lib::solve::kociemba::pruning::{bfs_depths, PruningTableR, UNREACHED};

/// A move table on `n` coordinates where move 0 goes from `x` to `next[x]`
/// and every other move stays in place.
fn table_of(next: &[u16]) -> Vec<u16> {
    let mut tab = Vec::new();
    for x in 0..next.len() {
        for m in 0..18 {
            tab.push(if m == 0 { next[x] } else { x as u16 });
        }
    }
    tab
}

#[test]
fn bfs_depths_on_a_cycle() {
    let tab = table_of(&[1, 2, 3, 0]);
    assert_eq!(bfs_depths(&tab, 4, &[0]), vec![0, 1, 2, 3]);
    assert_eq!(bfs_depths(&tab, 4, &[1, 2]), vec![0, UNREACHED, UNREACHED, UNREACHED]);
}

#[test]
fn bfs_depths_keeps_the_shortest_path() {
    // 0 -> 1 -> 2 -> 3 by move 0, and 0 -> 3 by move 5.
    let mut tab = table_of(&[1, 2, 3, 3, 4]);
    tab[5] = 3;
    assert_eq!(bfs_depths(&tab, 5, &[0, 5]), vec![0, 1, 2, 1, UNREACHED]);
}

#[test]
fn co_pruning_table_from_the_solved_cube() {
    let moves = RawCoordMoveTable::<CO>::build();
    let prune = PruningTableR::<CO>::build(&ALL_MOVES, &moves);
    assert_eq!(prune.dist(0), 0);
    for m in 0..18u8 {
        let c = moves.coord_mv(0, m);
        assert_eq!(prune.dist(c), if c == 0 { 0 } else { 1 });
    }
    // Every corner orientation is reached.
    for c in 0..2187u16 {
        assert!(prune.dist(c) < 3);
    }
}

#[test]
fn phase2_moves_keep_the_corner_orientation() {
    let moves = RawCoordMoveTable::<CO>::build();
    let prune = PruningTableR::<CO>::build(&PHASE2_MOVES, &moves);
    assert_eq!(prune.dist(0), 0);
    for c in 1..2187u16 {
        assert_eq!(prune.dist(c), 3);
    }
}

#[test]
fn pruning_table_binary_roundtrip() {
    let moves = RawCoordMoveTable::<CO>::build();
    let prune = PruningTableR::<CO>::build(&ALL_MOVES, &moves);
    let bytes = prune.to_binary();
    assert_eq!(bytes.len(), (2187 + 3) / 4);
    let back = PruningTableR::<CO>::from_binary(&bytes).unwrap();
    assert_eq!(back.to_binary(), bytes);
}

#[test]
fn distances_modulo_3_give_the_next_distance() {
    let moves = RawCoordMoveTable::<CO>::build();
    let prune = PruningTableR::<CO>::build(&ALL_MOVES, &moves);
    let depth = bfs_depths(moves.table(), 2187, &ALL_MOVES);
    for c in 0..2187u16 {
        for m in 0..18u8 {
            let next = moves.coord_mv(c, m);
            let d = rubik_lib::solve::kociemba::update_dist(depth[c as usize] as u8, prune.dist(next));
            assert_eq!(d as u16, depth[next as usize]);
        }
    }
}
