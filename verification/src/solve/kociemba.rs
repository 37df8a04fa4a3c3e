pub mod coords;
pub mod pruning;

use vstd::prelude::*;
use crate::algebra::coord::slice::lr_slice_count;
use crate::cube_core::state::{basic_state, lemma_basic_tidy, State};
use crate::solve::kociemba::coords::{
    p1_of_state, p2_of_state, is_phase2_move, lemma_phase2_moves, p1_dist, p1_mv, p1_ok, p2_dist, p2_mv, p2_ok, phase2_readable, slice_readable,
    Phase1, Phase2, Tables, PHASE2_MOVES,
};

verus! {

/// How long a search goes on: until the next solution, or for at most a
/// number of steps.
#[derive(Clone, Copy, Debug, PartialEq, Eq, Structural)]
pub enum Until {
    NextSolution,
    MaxIterations(usize),
}

impl Until {
    /// Whether one more step may be taken; a bounded count is used up by one.
    pub fn next(&mut self) -> (r: Option<()>)
        ensures
            match *old(self) {
                Until::NextSolution => r == Some(()) && *final(self) == Until::NextSolution,
                Until::MaxIterations(n) => if n == 0 {
                    r is None && *final(self) == Until::MaxIterations(0)
                } else {
                    r == Some(()) && *final(self) == Until::MaxIterations((n - 1) as usize)
                },
            },
    {
        match self {
            Until::NextSolution => Some(()),
            Until::MaxIterations(0) => None,
            Until::MaxIterations(n) => {
                *n -= 1;
                Some(())
            },
        }
    }
}

/// Whether the move of index `mv` is to be skipped after the move of index
/// `prev_mv`: both turn faces of one axis, and the second does not turn the
/// face that comes right after the first one's.
pub fn prune_move(prev_mv: u8, mv: u8) -> (r: bool)
    ensures
        r == (prev_mv / 6 == mv / 6 && prev_mv / 3 + 1 != mv / 3),
{
    let prev_face = prev_mv / 3;
    let face = mv / 3;
    let prev_axis = prev_mv / 6;
    let axis = mv / 6;
    prev_axis == axis && (prev_face + 1) != face
}

/// The distance of a state next to one at distance `prev_dist`, from its
/// distance modulo 3: one less, one more, or the same.
pub fn update_dist(prev_dist: u8, new_dist_mod_3: u8) -> (r: u8)
    requires
        prev_dist <= 253,
        prev_dist == 0 ==> new_dist_mod_3 != 2,
    ensures
        r == if new_dist_mod_3 == (prev_dist + 2) % 3 {
            prev_dist - 1
        } else if new_dist_mod_3 == (prev_dist + 1) % 3 {
            prev_dist + 1
        } else {
            prev_dist as int
        },
{
    if new_dist_mod_3 == (prev_dist + 2) % 3 {
        prev_dist - 1
    } else if new_dist_mod_3 == (prev_dist + 1) % 3 {
        prev_dist + 1
    } else {
        prev_dist
    }
}

/// A level of the search: the coordinates reached, the distance tracked to
/// the goal, and the index of the next move to try from them.
#[derive(Clone, Copy, Debug)]
pub struct Record<C> {
    pub coords: C,
    pub dist: u8,
    pub next_mv: u8,
}

/// The first-phase coordinates after the moves `ms`, from `c`.
pub open spec fn p1_apply(t: &Tables, c: Phase1, ms: Seq<int>) -> Phase1
    decreases ms.len(),
{
    if ms.len() == 0 {
        c
    } else {
        p1_mv(t, p1_apply(t, c, ms.drop_last()), ms.last())
    }
}

/// The second-phase coordinates after the moves `ms`, from `c`.
pub open spec fn p2_apply(t: &Tables, c: Phase2, ms: Seq<int>) -> Phase2
    decreases ms.len(),
{
    if ms.len() == 0 {
        c
    } else {
        p2_mv(t, p2_apply(t, c, ms.drop_last()), ms.last())
    }
}

/// The state reached from `s` by the basic moves of indices `ms`, in turn.
pub open spec fn moves_applied(s: State, ms: Seq<int>) -> State
    decreases ms.len(),
{
    if ms.len() == 0 {
        s
    } else {
        moves_applied(s, ms.drop_last()).spec_mul(basic_state(ms.last()))
    }
}

/// The moves taken at the first `k` levels of a first-phase search.
pub open spec fn moves1(st: Seq<Record<Phase1>>, k: int) -> Seq<int> {
    Seq::new(k as nat, |i: int| st[i].next_mv - 1)
}

/// The moves taken at the first `k` levels of a second-phase search.
pub open spec fn moves2(st: Seq<Record<Phase2>>, k: int) -> Seq<int> {
    Seq::new(k as nat, |i: int| PHASE2_MOVES[st[i].next_mv - 1] as int)
}

/// The goal of the first phase.
pub open spec fn p1_goal(c: Phase1) -> bool {
    c.eolr / 16 == 0 && c.co == 0
}

/// The goal of the second phase.
pub open spec fn p2_goal(c: Phase2) -> bool {
    c.cp == 0 && c.ep8 == 0 && c.ep4 == 0
}

/// The first-phase moves of a search found: none, from coordinates at the
/// goal, or moves at whose end the pruning table gives a distance of 0
/// modulo 3 (the goal, where the tables are right) and whose last move is a
/// quarter turn of a face other than L and R (a move of the second phase is
/// left to the second phase).
pub open spec fn phase1_found(t: &Tables, init: Phase1, ms: Seq<int>) -> bool {
    ||| ms.len() == 0 && p1_goal(init)
    ||| ms.len() > 0 && p1_dist(t, p1_apply(t, init, ms)) % 3 == 0 && ms.last() / 3 >= 2 && ms.last() % 3
        < 2
}

/// The second-phase moves of a search found: none, from coordinates at the
/// goal, or moves at whose end the pruning table gives a distance of 0
/// modulo 3 and the slice edges are in place.
pub open spec fn phase2_found(t: &Tables, init: Phase2, ms: Seq<int>) -> bool {
    ||| ms.len() == 0 && p2_goal(init)
    ||| ms.len() > 0 && p2_dist(t, p2_apply(t, init, ms)) % 3 == 0 && p2_apply(t, init, ms).ep4 == 0
}

/// The two-phase solver: an iterative deepening search through the tables,
/// first to the subgroup of the second phase, then to the solved cube, each
/// solution shorter than the one before.
pub struct Solver {
    tables: Tables,
    init: State,
    best: Vec<u8>,
    phase1: Vec<Record<Phase1>>,
    phase1_init: Record<Phase1>,
    phase1_target_len: u8,
    phase1_zero_done: bool,
    phase2: Vec<Record<Phase2>>,
    phase2_init: Record<Phase2>,
    phase2_target_len: u8,
    phase2_max_len: u8,
    in_phase2: bool,
}

impl Solver {
    /// The tables.
    pub closed spec fn spec_tables(&self) -> Tables {
        self.tables
    }

    /// The state to solve.
    pub closed spec fn spec_init(&self) -> State {
        self.init
    }

    /// The best solution so far (30 moves before the first).
    pub closed spec fn spec_best(&self) -> Seq<u8> {
        self.best@
    }

    /// The coordinates that the first phase starts from.
    pub closed spec fn start1(&self) -> Phase1 {
        self.phase1_init.coords
    }

    /// The coordinates that the second phase starts from.
    pub closed spec fn start2(&self) -> Phase2 {
        self.phase2_init.coords
    }

    /// The levels of the first-phase search are consistent: each holds the
    /// coordinates reached by the moves of the levels below it.
    pub closed spec fn wf1(&self) -> bool {
        let t = &self.tables;
        let s1 = self.phase1@;
        &&& p1_ok(self.phase1_init.coords)
        &&& self.phase1_init.dist <= 253
        &&& self.phase1_init.next_mv == 0
        &&& s1.len() <= self.phase1_target_len
        &&& s1.len() > 0 ==> self.phase1_target_len < self.best@.len() && self.phase1_target_len <= 20
        &&& forall|k: int|
            #![trigger s1[k]]
            0 <= k < s1.len() ==> s1[k].next_mv <= 18 && s1[k].dist <= 253 && p1_ok(s1[k].coords) && s1[k].coords
                == p1_apply(t, self.phase1_init.coords, moves1(s1, k))
        &&& forall|k: int| 0 <= k < s1.len() - 1 ==> #[trigger] s1[k].next_mv >= 1
    }

    /// The levels of the second-phase search are consistent.
    pub closed spec fn wf2(&self) -> bool {
        let t = &self.tables;
        let s2 = self.phase2@;
        &&& p2_ok(self.phase2_init.coords)
        &&& self.phase2_init.dist <= 253
        &&& self.phase2_init.next_mv == 0
        &&& s2.len() <= self.phase2_target_len
        &&& self.phase2_target_len <= self.phase2_max_len
        &&& self.phase2_max_len <= 30
        &&& forall|k: int|
            #![trigger s2[k]]
            0 <= k < s2.len() ==> s2[k].next_mv <= 10 && s2[k].dist <= 253 && p2_ok(s2[k].coords) && s2[k].coords
                == p2_apply(t, self.phase2_init.coords, moves2(s2, k))
        &&& forall|k: int| 0 <= k < s2.len() - 1 ==> #[trigger] s2[k].next_mv >= 1
    }

    /// The state of the search is consistent; during the second phase, the
    /// first-phase levels hold a first-phase solution, and a second-phase
    /// solution of the allowed length would give a shorter solution.
    pub closed spec fn wf(&self) -> bool {
        &&& self.tables.wf()
        &&& self.best@.len() <= 30
        &&& forall|k: int| 0 <= k < self.best@.len() ==> #[trigger] self.best@[k] < 18
        &&& self.wf1()
        &&& self.wf2()
        &&& self.in_phase2 ==> {
            &&& self.phase1@.len() + self.phase2_max_len < self.best@.len()
            &&& forall|k: int| 0 <= k < self.phase1@.len() ==> #[trigger] self.phase1@[k].next_mv >= 1
            &&& phase1_found(&self.tables, self.phase1_init.coords, moves1(self.phase1@, self.phase1@.len() as int))
            &&& self.phase2_init.coords == p2_of_state(
                &self.tables,
                moves_applied(self.init, moves1(self.phase1@, self.phase1@.len() as int)),
            )
        }
    }

    /// A solver with the given tables, before any state is set.
    pub fn new(tables: Tables) -> (r: Self)
        requires
            tables.wf(),
        ensures
            r.wf(),
            r.spec_tables() == tables,
            r.spec_best().len() == 30,
    {
        let best = vec![0u8; 30];
        let r = Self {
            tables,
            init: State::ID(),
            best,
            phase1: Vec::new(),
            phase1_init: Record { coords: Phase1 { eolr: 0, co: 0 }, dist: 0, next_mv: 0 },
            phase1_target_len: 0,
            phase1_zero_done: false,
            phase2: Vec::new(),
            phase2_init: Record { coords: Phase2 { cp: 0, ep8: 0, ep4: 0 }, dist: 0, next_mv: 0 },
            phase2_target_len: 0,
            phase2_max_len: 0,
            in_phase2: false,
        };
        assert(r.best@.len() == 30);
        r
    }
}

/// The number of moves from the first-phase coordinates to the goal, found
/// by following the pruning table down: each step takes the first move whose
/// distance modulo 3 is one less. `None` where no move goes down (the table
/// is not the one of these moves) or after 253 steps.
fn phase1_min_len(coords: Phase1, tables: &Tables) -> (r: Option<u8>)
    requires
        tables.wf(),
        p1_ok(coords),
    ensures
        r matches Some(d) ==> d <= 253,
{
    let mut coords = coords;
    let mut num_moves: u8 = 0;
    let mut next_d = (coords.depth_mod_3(tables) + 2) % 3;
    while !coords.reached_goal()
        invariant
            tables.wf(),
            p1_ok(coords),
            num_moves <= 253,
            next_d < 3,
        decreases 253 - num_moves,
    {
        if num_moves == 253 {
            return None;
        }
        let mut i: u8 = 0;
        let mut found = false;
        while i < 18 && !found
            invariant
                tables.wf(),
                p1_ok(coords),
                i <= 18,
            decreases 18 - i + if found { 0int } else { 1int },
        {
            let next_coords = coords.mv(i, tables);
            if next_coords.depth_mod_3(tables) == next_d {
                coords = next_coords;
                found = true;
            } else {
                i += 1;
            }
        }
        if !found {
            return None;
        }
        num_moves += 1;
        next_d = (next_d + 2) % 3;
    }
    Some(num_moves)
}

/// The number of moves of the second phase that bring the corner and
/// eight-edge permutations to the goal, found by following the pruning table
/// down, as for the first phase.
fn phase2_min_len(coords: Phase2, tables: &Tables) -> (r: Option<u8>)
    requires
        tables.wf(),
        p2_ok(coords),
    ensures
        r matches Some(d) ==> d <= 253,
{
    proof {
        lemma_phase2_moves_below();
    }
    let mut coords = coords;
    let mut num_moves: u8 = 0;
    let mut next_d = (coords.depth_cp_ep8_mod_3(tables) + 2) % 3;
    while coords.cp / 16 != 0 || coords.ep8 != 0
        invariant
            tables.wf(),
            p2_ok(coords),
            num_moves <= 253,
            next_d < 3,
            forall|i: int| 0 <= i < 10 ==> #[trigger] PHASE2_MOVES[i] < 18,
        decreases 253 - num_moves,
    {
        if num_moves == 253 {
            return None;
        }
        let mut i: usize = 0;
        let mut found = false;
        while i < 10 && !found
            invariant
                tables.wf(),
                p2_ok(coords),
                i <= 10,
                forall|i: int| 0 <= i < 10 ==> #[trigger] PHASE2_MOVES[i] < 18,
            decreases 10 - i + if found { 0int } else { 1int },
        {
            let next_coords = coords.mv(PHASE2_MOVES[i], tables);
            if next_coords.depth_cp_ep8_mod_3(tables) == next_d {
                coords = next_coords;
                found = true;
            } else {
                i += 1;
            }
        }
        if !found {
            return None;
        }
        num_moves += 1;
        next_d = (next_d + 2) % 3;
    }
    Some(num_moves)
}

/// The moves of the second phase are moves.
proof fn lemma_phase2_moves_below()
    ensures
        forall|i: int| 0 <= i < 10 ==> #[trigger] PHASE2_MOVES[i] < 18,
{
    assert forall|i: int| 0 <= i < 10 implies #[trigger] PHASE2_MOVES[i] < 18 by {
        lemma_phase2_moves(0);
    }
}

proof fn lemma_p1_apply_push(t: &Tables, c: Phase1, ms: Seq<int>, m: int)
    ensures
        p1_apply(t, c, ms.push(m)) == p1_mv(t, p1_apply(t, c, ms), m),
{
    assert(ms.push(m).drop_last() =~= ms);
}

proof fn lemma_p2_apply_push(t: &Tables, c: Phase2, ms: Seq<int>, m: int)
    ensures
        p2_apply(t, c, ms.push(m)) == p2_mv(t, p2_apply(t, c, ms), m),
{
    assert(ms.push(m).drop_last() =~= ms);
}

impl Solver {
    /// Starts a search for the state: the first phase starts from its
    /// coordinates, at the number of moves that the pruning table gives.
    /// `false`, with nothing to search, where the state's slice edges cannot
    /// be read, where its coordinates fall outside the tables, or where the
    /// pruning table leads nowhere from them.
    pub fn init(&mut self, state: &State) -> (r: bool)
        requires
            old(self).wf(),
        ensures
            final(self).wf(),
            final(self).spec_tables() == old(self).spec_tables(),
            final(self).spec_best().len() == 30,
            final(self).spec_init() == *state,
            r ==> lr_slice_count(*state, 12) <= 4,
            r ==> final(self).start1() == p1_of_state(&final(self).spec_tables(), *state),
    {
        self.phase1.clear();
        self.in_phase2 = false;
        self.best = vec![0u8; 30];
        self.init = *state;
        assert(self.best@.len() == 30);
        if !slice_readable(state) {
            return false;
        }
        let c = match Phase1::from_state(state, &self.tables) {
            Some(c) => c,
            None => {
                return false;
            },
        };
        let d = match phase1_min_len(c, &self.tables) {
            Some(d) => d,
            None => {
                return false;
            },
        };
        self.phase1_init = Record { coords: c, dist: d, next_mv: 0 };
        self.phase1_target_len = d;
        self.phase1_zero_done = d > 0;
        true
    }

    /// One step of the first-phase search: try the next move at the deepest
    /// level, go back up when the moves are used up, or go one move deeper
    /// when the levels are exhausted. `Some(true)` where the levels hold a
    /// first-phase solution, `Some(false)` where the search is over (no
    /// solution shorter than the best within 20 moves), `None` otherwise.
    #[verifier::rlimit(60)]
    fn phase1_step(&mut self) -> (r: Option<bool>)
        requires
            old(self).wf(),
            !old(self).in_phase2,
        ensures
            final(self).wf(),
            !final(self).in_phase2,
            final(self).tables == old(self).tables,
            final(self).best == old(self).best,
            final(self).init == old(self).init,
            final(self).phase1_init == old(self).phase1_init,
            r == Some(true) ==> {
                &&& forall|k: int| 0 <= k < final(self).phase1@.len() ==> #[trigger] final(self).phase1@[k].next_mv >= 1
                &&& phase1_found(
                    &final(self).tables,
                    final(self).phase1_init.coords,
                    moves1(final(self).phase1@, final(self).phase1@.len() as int),
                )
            },
    {
        let len = self.phase1.len();
        if len == 0 {
            if !self.phase1_zero_done && self.phase1_init.coords.reached_goal() {
                self.phase1_zero_done = true;
                assert(moves1(self.phase1@, 0).len() == 0);
                return Some(true);
            }
            let lim: usize = if self.best.len() < 21 { self.best.len() } else { 21 };
            if self.phase1_target_len as usize + 1 >= lim {
                return Some(false);
            }
            self.phase1_target_len += 1;
            self.phase1.push(self.phase1_init);
            proof {
                assert(moves1(self.phase1@, 0) =~= Seq::<int>::empty());
            }
            return None;
        }
        let last = self.phase1[len - 1];
        let coords = last.coords;
        let dist = last.dist;
        let mv = last.next_mv;
        let ghost s0 = self.phase1@;
        if mv < 18 {
            self.phase1.set(len - 1, Record { coords, dist, next_mv: mv + 1 });
            proof {
                let s1 = self.phase1@;
                assert forall|k: int| 0 <= k < s1.len() implies #[trigger] s1[k].coords == p1_apply(
                    &self.tables,
                    self.phase1_init.coords,
                    moves1(s1, k),
                ) by {
                    assert(moves1(s1, k) =~= moves1(s0, k));
                }
            }
            if len > 1 {
                let prev_mv = self.phase1[len - 2].next_mv - 1;
                if prune_move(prev_mv, mv) {
                    return None;
                }
            }
            let next_coords = coords.mv(mv, &self.tables);
            let dist_mod_3 = next_coords.depth_mod_3(&self.tables);
            if dist == 0 && dist_mod_3 == 2 {
                return None;
            }
            let new_dist = update_dist(dist, dist_mod_3);
            let rem_steps = self.phase1_target_len - len as u8;
            if new_dist > rem_steps {
                return None;
            }
            let ghost s1 = self.phase1@;
            proof {
                assert(s1[len - 1].coords == coords);
                let ms = moves1(s1, len as int);
                assert(ms =~= moves1(s1, len - 1).push(mv as int));
                lemma_p1_apply_push(&self.tables, self.phase1_init.coords, moves1(s1, len - 1), mv as int);
                assert(p1_apply(&self.tables, self.phase1_init.coords, ms) == next_coords);
            }
            if len as u8 == self.phase1_target_len {
                if is_phase2_move(mv) {
                    return None;
                } else {
                    proof {
                        let ms = moves1(s1, len as int);
                        assert(new_dist == 0);
                        assert(dist_mod_3 % 3 == 0);
                        assert(ms.last() == mv);
                        assert(ms.len() > 0);
                        assert(p1_dist(&self.tables, next_coords) == dist_mod_3);
                        assert(phase1_found(&self.tables, self.phase1_init.coords, ms));
                        assert forall|k: int| 0 <= k < s1.len() implies #[trigger] s1[k].next_mv >= 1 by {
                            if k == len - 1 {
                            } else {
                                assert(s1[k] == s0[k]);
                            }
                        }
                    }
                    return Some(true);
                }
            }
            self.phase1.push(Record { dist: new_dist, next_mv: 0, coords: next_coords });
            proof {
                let s2 = self.phase1@;
                assert forall|k: int| 0 <= k < s2.len() implies #[trigger] s2[k].coords == p1_apply(
                    &self.tables,
                    self.phase1_init.coords,
                    moves1(s2, k),
                ) by {
                    assert(moves1(s2, k) =~= moves1(s1, k));
                }
            }
        } else {
            self.phase1.pop();
            proof {
                let s1 = self.phase1@;
                assert forall|k: int| 0 <= k < s1.len() implies #[trigger] s1[k].coords == p1_apply(
                    &self.tables,
                    self.phase1_init.coords,
                    moves1(s1, k),
                ) by {
                    assert(moves1(s1, k) =~= moves1(s0, k));
                }
            }
        }
        None
    }
}

impl Solver {
    /// One step of the second-phase search, as for the first phase, with
    /// the moves of the second phase only and at most `phase2_max_len` of
    /// them. `Some(true)` where the levels hold a second-phase solution.
    #[verifier::rlimit(60)]
    fn phase2_step(&mut self) -> (r: Option<bool>)
        requires
            old(self).wf(),
            old(self).in_phase2,
        ensures
            final(self).wf(),
            final(self).in_phase2,
            final(self).tables == old(self).tables,
            final(self).best == old(self).best,
            final(self).init == old(self).init,
            final(self).phase1 == old(self).phase1,
            final(self).phase1_init == old(self).phase1_init,
            final(self).phase1_target_len == old(self).phase1_target_len,
            final(self).phase2_init == old(self).phase2_init,
            final(self).phase2_max_len == old(self).phase2_max_len,
            r == Some(true) ==> {
                &&& forall|k: int| 0 <= k < final(self).phase2@.len() ==> #[trigger] final(self).phase2@[k].next_mv >= 1
                &&& final(self).phase2@.len() <= final(self).phase2_max_len
                &&& phase2_found(
                    &final(self).tables,
                    final(self).phase2_init.coords,
                    moves2(final(self).phase2@, final(self).phase2@.len() as int),
                )
            },
    {
        proof {
            lemma_phase2_moves_below();
        }
        let len = self.phase2.len();
        if len == 0 {
            if self.phase2_target_len == 0 && self.phase2_init.coords.reached_goal() {
                assert(moves2(self.phase2@, 0).len() == 0);
                return Some(true);
            }
            if self.phase2_target_len == self.phase2_max_len {
                return Some(false);
            }
            self.phase2_target_len += 1;
            self.phase2.push(self.phase2_init);
            proof {
                assert(moves2(self.phase2@, 0) =~= Seq::<int>::empty());
            }
            return None;
        }
        let last = self.phase2[len - 1];
        let coords = last.coords;
        let dist = last.dist;
        let mv = last.next_mv;
        let ghost s0 = self.phase2@;
        if mv < 10 {
            self.phase2.set(len - 1, Record { coords, dist, next_mv: mv + 1 });
            proof {
                let s1 = self.phase2@;
                assert forall|k: int| 0 <= k < s1.len() implies #[trigger] s1[k].coords == p2_apply(
                    &self.tables,
                    self.phase2_init.coords,
                    moves2(s1, k),
                ) by {
                    assert(moves2(s1, k) =~= moves2(s0, k));
                }
            }
            let m = PHASE2_MOVES[mv as usize];
            if len > 1 {
                let prev_idx = self.phase2[len - 2].next_mv - 1;
                let prev_mv = PHASE2_MOVES[prev_idx as usize];
                if prune_move(prev_mv, m) {
                    return None;
                }
            }
            let next_coords = coords.mv(m, &self.tables);
            let dist_mod_3 = next_coords.depth_cp_ep8_mod_3(&self.tables);
            if dist == 0 && dist_mod_3 == 2 {
                return None;
            }
            let new_dist = update_dist(dist, dist_mod_3);
            let rem_steps = self.phase2_target_len - len as u8;
            if new_dist > rem_steps {
                return None;
            }
            let ghost s1 = self.phase2@;
            proof {
                assert(s1[len - 1].coords == coords);
                let ms = moves2(s1, len as int);
                assert(ms =~= moves2(s1, len - 1).push(m as int));
                lemma_p2_apply_push(&self.tables, self.phase2_init.coords, moves2(s1, len - 1), m as int);
                assert(p2_apply(&self.tables, self.phase2_init.coords, ms) == next_coords);
            }
            if len as u8 == self.phase2_target_len {
                if next_coords.ep4 == 0 {
                    proof {
                        let ms = moves2(s1, len as int);
                        assert(new_dist == 0);
                        assert(dist_mod_3 % 3 == 0);
                        assert(ms.len() > 0);
                        assert(p2_dist(&self.tables, next_coords) == dist_mod_3);
                        assert(phase2_found(&self.tables, self.phase2_init.coords, ms));
                        assert forall|k: int| 0 <= k < s1.len() implies #[trigger] s1[k].next_mv >= 1 by {
                            if k == len - 1 {
                            } else {
                                assert(s1[k] == s0[k]);
                            }
                        }
                    }
                    return Some(true);
                } else {
                    return None;
                }
            }
            self.phase2.push(Record { dist: new_dist, coords: next_coords, next_mv: 0 });
            proof {
                let s2 = self.phase2@;
                assert forall|k: int| 0 <= k < s2.len() implies #[trigger] s2[k].coords == p2_apply(
                    &self.tables,
                    self.phase2_init.coords,
                    moves2(s2, k),
                ) by {
                    assert(moves2(s2, k) =~= moves2(s1, k));
                }
            }
        } else {
            self.phase2.pop();
            proof {
                let s1 = self.phase2@;
                assert forall|k: int| 0 <= k < s1.len() implies #[trigger] s1[k].coords == p2_apply(
                    &self.tables,
                    self.phase2_init.coords,
                    moves2(s1, k),
                ) by {
                    assert(moves2(s1, k) =~= moves2(s0, k));
                }
            }
        }
        None
    }
}

/// The moves of a sequence of move indices, as integers.
pub open spec fn ints(s: Seq<u8>) -> Seq<int> {
    s.map_values(|x: u8| x as int)
}

impl Solver {
    /// Starts the second phase from the state that the first-phase moves of
    /// the levels reach: its coordinates, its distance, and at most as many
    /// moves as keep the whole solution shorter than the best. `false`, with
    /// no second phase to search, where that state cannot be read by the
    /// second-phase coordinates, where its coordinates fall outside the
    /// tables, where the pruning table leads nowhere, or where no move is
    /// left for the second phase.
    fn init_phase2(&mut self) -> (r: bool)
        requires
            old(self).wf(),
            !old(self).in_phase2,
            forall|k: int| 0 <= k < old(self).phase1@.len() ==> #[trigger] old(self).phase1@[k].next_mv >= 1,
        ensures
            final(self).wf(),
            !final(self).in_phase2,
            final(self).tables == old(self).tables,
            final(self).best == old(self).best,
            final(self).init == old(self).init,
            final(self).phase1 == old(self).phase1,
            final(self).phase1_init == old(self).phase1_init,
            final(self).phase1_target_len == old(self).phase1_target_len,
            r ==> final(self).phase2@.len() == 0 && final(self).phase1@.len() + final(self).phase2_max_len
                < final(self).best@.len(),
            r ==> final(self).phase2_init.coords == p2_of_state(
                &final(self).tables,
                moves_applied(final(self).init, moves1(final(self).phase1@, final(self).phase1@.len() as int)),
            ),
    {
        if self.phase1.len() >= self.best.len() {
            return false;
        }
        let moves = State::BASIC_MOVES();
        let mut state = self.init;
        let mut i: usize = 0;
        while i < self.phase1.len()
            invariant
                self.wf(),
                forall|k: int| 0 <= k < self.phase1@.len() ==> #[trigger] self.phase1@[k].next_mv >= 1,
                forall|j: int| 0 <= j < 18 ==> #[trigger] moves[j] == basic_state(j),
                i <= self.phase1@.len(),
                state == moves_applied(self.init, moves1(self.phase1@, i as int)),
            decreases self.phase1@.len() - i,
        {
            let mv = self.phase1[i].next_mv - 1;
            proof {
                lemma_basic_tidy(mv as int);
                assert(moves1(self.phase1@, i + 1).drop_last() =~= moves1(self.phase1@, i as int));
            }
            state = state * moves[mv as usize];
            i += 1;
        }
        if !phase2_readable(&state) {
            return false;
        }
        let coords = match Phase2::from_state(&state, &self.tables) {
            Some(c) => c,
            None => {
                return false;
            },
        };
        let d = match phase2_min_len(coords, &self.tables) {
            Some(d) => d,
            None => {
                return false;
            },
        };
        self.phase2_init = Record { coords, dist: d, next_mv: 0 };
        self.phase2_max_len = (self.best.len() - self.phase1.len() - 1) as u8;
        self.phase2_target_len = if d < self.phase2_max_len { d } else { self.phase2_max_len };
        self.phase2.clear();
        true
    }

    /// Records the solution that the levels of both phases hold: the
    /// first-phase moves, then the second-phase moves. It becomes the best
    /// solution, and the first phase is started over where its length is no
    /// longer below the best.
    #[verifier::rlimit(60)]
    fn record_solution(&mut self) -> (moves: Vec<u8>)
        requires
            old(self).wf(),
            old(self).in_phase2,
            forall|k: int| 0 <= k < old(self).phase2@.len() ==> #[trigger] old(self).phase2@[k].next_mv >= 1,
            old(self).phase2@.len() <= old(self).phase2_max_len,
            phase2_found(
                &old(self).tables,
                old(self).phase2_init.coords,
                moves2(old(self).phase2@, old(self).phase2@.len() as int),
            ),
        ensures
            final(self).wf(),
            final(self).tables == old(self).tables,
            final(self).phase1_init == old(self).phase1_init,
            final(self).init == old(self).init,
            moves@.len() < old(self).best@.len(),
            final(self).best@ == moves@,
            forall|k: int| 0 <= k < moves@.len() ==> #[trigger] moves@[k] < 18,
            exists|k1: int|
                0 <= k1 <= moves@.len() && phase1_found(
                    &final(self).spec_tables(),
                    final(self).start1(),
                    ints(moves@.subrange(0, k1)),
                ) && final(self).start2() == p2_of_state(
                    &final(self).spec_tables(),
                    moves_applied(final(self).spec_init(), ints(moves@.subrange(0, k1))),
                ) && #[trigger] phase2_found(
                    &final(self).spec_tables(),
                    final(self).start2(),
                    ints(moves@.subrange(k1, moves@.len() as int)),
                ),
    {
        let ghost p1 = self.phase1@;
        let ghost mid = moves_applied(self.init, moves1(p1, p1.len() as int));
        assert(self.phase2_init.coords == p2_of_state(&self.tables, mid));
        proof {
            lemma_phase2_moves_below();
            assert(phase1_found(&self.tables, self.phase1_init.coords, moves1(p1, p1.len() as int)));
        }
        let mut moves: Vec<u8> = Vec::new();
        let mut best: Vec<u8> = Vec::new();
        let mut i: usize = 0;
        while i < self.phase1.len()
            invariant
                i <= self.phase1@.len(),
                forall|k: int| 0 <= k < self.phase1@.len() ==> #[trigger] self.phase1@[k].next_mv >= 1,
                self.wf(),
                self.phase1@ == p1,
                self.phase2_init.coords == p2_of_state(&self.tables, mid),
                moves@ == best@,
                ints(moves@) =~= moves1(self.phase1@, i as int),
                forall|k: int| 0 <= k < moves@.len() ==> #[trigger] moves@[k] < 18,
            decreases self.phase1@.len() - i,
        {
            let m = self.phase1[i].next_mv - 1;
            let ghost before = moves@;
            moves.push(m);
            best.push(m);
            proof {
                assert(moves1(self.phase1@, i + 1) =~= moves1(self.phase1@, i as int).push(m as int));
                assert(ints(moves@) =~= ints(before).push(m as int));
            }
            i += 1;
        }
        let l1 = moves.len();
        let mut j: usize = 0;
        while j < self.phase2.len()
            invariant
                j <= self.phase2@.len(),
                forall|k: int| 0 <= k < self.phase2@.len() ==> #[trigger] self.phase2@[k].next_mv >= 1,
                forall|i: int| 0 <= i < 10 ==> #[trigger] PHASE2_MOVES[i] < 18,
                self.wf(),
                self.phase1@ == p1,
                self.phase2_init.coords == p2_of_state(&self.tables, mid),
                l1 == self.phase1@.len(),
                moves@ == best@,
                moves@.len() == l1 + j,
                ints(moves@.subrange(0, l1 as int)) =~= moves1(self.phase1@, l1 as int),
                ints(moves@.subrange(l1 as int, moves@.len() as int)) =~= moves2(self.phase2@, j as int),
                forall|k: int| 0 <= k < moves@.len() ==> #[trigger] moves@[k] < 18,
            decreases self.phase2@.len() - j,
        {
            let m = PHASE2_MOVES[(self.phase2[j].next_mv - 1) as usize];
            let ghost before = moves@;
            moves.push(m);
            best.push(m);
            proof {
                assert(moves@.subrange(0, l1 as int) =~= before.subrange(0, l1 as int));
                assert(moves@.subrange(l1 as int, moves@.len() as int) =~= before.subrange(
                    l1 as int,
                    before.len() as int,
                ).push(m));
                assert(moves2(self.phase2@, j + 1) =~= moves2(self.phase2@, j as int).push(m as int));
                assert(ints(moves@.subrange(l1 as int, moves@.len() as int)) =~= ints(before.subrange(
                    l1 as int,
                    before.len() as int,
                )).push(m as int));
            }
            j += 1;
        }
        self.best = best;
        if self.phase1_target_len as usize >= self.best.len() {
            self.phase1.clear();
        }
        self.in_phase2 = false;
        proof {
            assert(phase2_found(
                &self.tables,
                self.phase2_init.coords,
                ints(moves@.subrange(l1 as int, moves@.len() as int)),
            ));
            assert(phase1_found(
                &self.tables,
                self.phase1_init.coords,
                ints(moves@.subrange(0, l1 as int)),
            ));
            assert(moves@.len() < old(self).best@.len());
            assert(self.spec_tables() == self.tables);
            assert(phase1_found(
                &self.spec_tables(),
                self.start1(),
                ints(moves@.subrange(0, l1 as int)),
            ));
            assert(phase2_found(
                &self.spec_tables(),
                self.start2(),
                ints(moves@.subrange(l1 as int, moves@.len() as int)),
            ));
            assert(ints(moves@.subrange(0, l1 as int)) =~= moves1(p1, p1.len() as int));
            assert(self.start2() == p2_of_state(
                &self.spec_tables(),
                moves_applied(self.spec_init(), ints(moves@.subrange(0, l1 as int))),
            ));
        }
        moves
    }

    /// Searches on for at most as many steps as `until` allows (for the next
    /// solution, with no bound), and for at most `2^64 - 1` steps.
    /// `Some(Some(moves))` with a solution shorter than the best one before,
    /// which becomes the best; `Some(None)` where no shorter solution is
    /// left; `None` where the steps ran out first.
    pub fn step_until(&mut self, until: Until) -> (r: Option<Option<Vec<u8>>>)
        requires
            old(self).wf(),
        ensures
            final(self).wf(),
            final(self).spec_tables() == old(self).spec_tables(),
            final(self).start1() == old(self).start1(),
            final(self).spec_init() == old(self).spec_init(),
            r matches Some(Some(m)) ==> {
                &&& m@.len() < old(self).spec_best().len()
                &&& final(self).spec_best() == m@
                &&& forall|k: int| 0 <= k < m@.len() ==> #[trigger] m@[k] < 18
                &&& exists|k1: int|
                    0 <= k1 <= m@.len() && phase1_found(
                        &final(self).spec_tables(),
                        final(self).start1(),
                        ints(m@.subrange(0, k1)),
                    ) && final(self).start2() == p2_of_state(
                        &final(self).spec_tables(),
                        moves_applied(final(self).spec_init(), ints(m@.subrange(0, k1))),
                    ) && #[trigger] phase2_found(
                        &final(self).spec_tables(),
                        final(self).start2(),
                        ints(m@.subrange(k1, m@.len() as int)),
                    )
            },
            r matches Some(None) ==> final(self).spec_best() == old(self).spec_best(),
    {
        let mut until = until;
        let mut fuel: u64 = 0xffff_ffff_ffff_ffff;
        while fuel > 0
            invariant
                self.wf(),
                self.tables == old(self).tables,
                self.best@ == old(self).best@,
                self.phase1_init == old(self).phase1_init,
                self.init == old(self).init,
            decreases fuel,
        {
            fuel -= 1;
            if until.next().is_none() {
                return None;
            }
            if self.in_phase2 {
                match self.phase2_step() {
                    None => {},
                    Some(true) => {
                        let moves = self.record_solution();
                        return Some(Some(moves));
                    },
                    Some(false) => {
                        self.in_phase2 = false;
                    },
                }
            } else {
                match self.phase1_step() {
                    None => {},
                    Some(true) => {
                        if self.init_phase2() {
                            self.in_phase2 = true;
                        }
                    },
                    Some(false) => {
                        return Some(None);
                    },
                }
            }
        }
        None
    }

    /// The next solution, shorter than the one before; `None` where no
    /// shorter one is left.
    pub fn next(&mut self) -> (r: Option<Vec<u8>>)
        requires
            old(self).wf(),
        ensures
            final(self).wf(),
            final(self).spec_tables() == old(self).spec_tables(),
            final(self).spec_init() == old(self).spec_init(),
            final(self).start1() == old(self).start1(),
            r matches Some(m) ==> {
                &&& m@.len() < old(self).spec_best().len()
                &&& final(self).spec_best() == m@
                &&& forall|k: int| 0 <= k < m@.len() ==> #[trigger] m@[k] < 18
                &&& exists|k1: int|
                    0 <= k1 <= m@.len() && phase1_found(
                        &final(self).spec_tables(),
                        final(self).start1(),
                        ints(m@.subrange(0, k1)),
                    ) && final(self).start2() == p2_of_state(
                        &final(self).spec_tables(),
                        moves_applied(final(self).spec_init(), ints(m@.subrange(0, k1))),
                    ) && #[trigger] phase2_found(
                        &final(self).spec_tables(),
                        final(self).start2(),
                        ints(m@.subrange(k1, m@.len() as int)),
                    )
            },
    {
        match self.step_until(Until::NextSolution) {
            Some(found) => found,
            None => None,
        }
    }
}

} // verus!
