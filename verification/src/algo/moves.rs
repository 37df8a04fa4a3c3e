use vstd::prelude::*;
use smallvec::SmallVec;
use std::collections::VecDeque;
use crate::cube_core::moves::{
    decode, encode, lemma_decode, lemma_encode, lemma_move_index, lemma_pow19_mono, move_of_index,
    pow19, valid_code, Move,
};
use crate::cube_core::state::{basic_state, State};

verus! {

/// The state reached from the solved cube by the moves of `s`, each applied
/// after the previous ones.
pub open spec fn moves_state_after(s: Seq<Move>) -> State
    decreases s.len(),
{
    if s.len() == 0 {
        State::spec_id()
    } else {
        moves_state_after(s.drop_last()).spec_mul(basic_state(s.last().spec_index() as int))
    }
}

/// The value of `19` to the power `15`, the most moves a code holds.
proof fn lemma_pow19_15()
    ensures
        pow19(14) == 799006685782884121,
        pow19(15) == 15181127029874798299,
{
    reveal_with_fuel(pow19, 16);
}

/// A sequence of at most 15 moves stored inline, as in a `SmallVec` of
/// capacity 15.
#[verifier::external_body]
pub struct MoveList15 {
    inner: SmallVec<[Move; 15]>,
}

/// The moves that a `MoveList15` holds, in order.
pub uninterp spec fn move_list15_items(v: MoveList15) -> Seq<Move>;

/// `SmallVec::new`: an empty vector.
#[verifier::external_body]
fn move_list15_new() -> (r: MoveList15)
    ensures
        move_list15_items(r) == Seq::<Move>::empty(),
{
    MoveList15 { inner: SmallVec::new() }
}

/// `SmallVec::push`: appends `m` at the end.
#[verifier::external_body]
fn move_list15_push(v: &mut MoveList15, m: Move)
    ensures
        move_list15_items(*final(v)) == move_list15_items(*old(v)).push(m),
{
    v.inner.push(m)
}

/// `SmallVec::len`: the number of moves held.
#[verifier::external_body]
fn move_list15_len(v: &MoveList15) -> (r: usize)
    ensures
        r == move_list15_items(*v).len(),
{
    v.inner.len()
}

/// Indexing a `SmallVec`: the move at position `i`.
#[verifier::external_body]
fn move_list15_get(v: &MoveList15, i: usize) -> (r: Move)
    requires
        i < move_list15_items(*v).len(),
    ensures
        r == move_list15_items(*v)[i as int],
{
    v.inner[i]
}

impl MoveList15 {
    /// The moves held, in order, in a vector.
    pub fn to_vec(&self) -> (r: Vec<Move>)
        ensures
            r@ == move_list15_items(*self),
    {
        let n = move_list15_len(self);
        let mut r: Vec<Move> = Vec::new();
        let mut i: usize = 0;
        while i < n
            invariant
                i <= n,
                n == move_list15_items(*self).len(),
                r@ == move_list15_items(*self).subrange(0, i as int),
            decreases n - i,
        {
            r.push(move_list15_get(self, i));
            i += 1;
        }
        assert(r@ =~= move_list15_items(*self));
        r
    }
}

/// An encoded sequence of basic moves.
/// It is encoded using a power series with move indices.
/// Due to the chosen size of the encoding, the sequences can
/// be of length at most 15.
pub struct Moves {
    encoded: u64,
}

impl View for Moves {
    type V = Seq<Move>;

    closed spec fn view(&self) -> Seq<Move> {
        decode(self.encoded as nat)
    }
}

impl Moves {
    /// Whether every digit of the code is a move, as it is for every sequence
    /// built from moves.
    pub closed spec fn wf(self) -> bool {
        valid_code(self.encoded as nat)
    }

    /// The code of the sequence.
    pub closed spec fn code(self) -> nat {
        self.encoded as nat
    }

    /// The code is the encoding of the sequence.
    pub proof fn lemma_code(self)
        requires
            self.wf(),
        ensures
            self.code() == encode(self@),
    {
        lemma_decode(self.encoded as nat);
    }

    /// The sequence of code `encoded`.
    pub fn from_encoding(encoded: u64) -> (r: Self)
        ensures
            r.code() == encoded,
            r@ == decode(encoded as nat),
    {
        Self { encoded }
    }

    /// The empty sequence.
    fn empty() -> (r: Self)
        ensures
            r@ == Seq::<Move>::empty(),
            r.code() == 0,
            r.wf(),
    {
        Self { encoded: 0 }
    }

    /// The sequence made of one move.
    pub fn from_move(mv: Move) -> (r: Self)
        ensures
            r@ == seq![mv],
            r.wf(),
    {
        proof {
            lemma_encode(seq![mv]);
            let e = Seq::<Move>::empty();
            assert(seq![mv].drop_last() =~= e);
            assert(encode(e) == 0);
            assert(seq![mv].last() == mv);
            assert(encode(seq![mv]) == mv.spec_index() + 1);
        }
        Self { encoded: mv.index() as u64 + 1 }
    }

    /// The sequence of the given moves; there can be at most 15 of them.
    pub fn from_moves(moves: &[Move]) -> (r: Self)
        requires
            moves.len() <= 15,
        ensures
            r@ == moves@,
            r.wf(),
    {
        let mut result = Self::empty();
        let mut count: usize = 0;
        while count < moves.len()
            invariant
                count <= moves.len() <= 15,
                result@ == moves@.subrange(0, count as int),
                result.wf(),
            decreases moves.len() - count,
        {
            proof {
                result.lemma_code();
                lemma_encode(result@);
                lemma_pow19_mono(count as nat, 14);
                lemma_pow19_15();
                lemma_move_index(moves@[count as int]);
            }
            result = result.append(moves[count]);
            assert(moves@.subrange(0, count + 1) =~= moves@.subrange(0, count as int).push(moves@[count as int]));
            count += 1;
        }
        assert(moves@.subrange(0, moves.len() as int) =~= moves@);
        result
    }

    /// The sequence followed by the move `mv`.
    pub fn append(&self, mv: Move) -> (r: Self)
        requires
            self.wf(),
            19 * encode(self@) + mv.spec_index() + 1 <= u64::MAX,
        ensures
            r@ == self@.push(mv),
            r.wf(),
    {
        proof {
            self.lemma_code();
            lemma_encode(self@.push(mv));
            assert(self@.push(mv).drop_last() =~= self@);
        }
        Self { encoded: 19 * self.encoded + mv.index() as u64 + 1 }
    }

    /// The moves of the sequence, in order.
    pub fn moves(&self) -> (r: MoveList15)
        requires
            self.wf(),
        ensures
            move_list15_items(r) == self@,
    {
        let mut reversed: Vec<Move> = Vec::new();
        let mut encoding = self.encoded;
        let moves = Move::BASIC_MOVES();
        while encoding > 0
            invariant
                valid_code(encoding as nat),
                decode(self.encoded as nat) == decode(encoding as nat) + reversed@.reverse(),
                forall|i: int| 0 <= i < 18 ==> #[trigger] moves[i] == move_of_index(i),
            decreases encoding,
        {
            let d = encoding % 19;
            let mv = moves[(d - 1) as usize];
            proof {
                let e = encoding as nat;
                assert(decode(e) == decode(e / 19).push(mv));
                assert(reversed@.push(mv).reverse() =~= seq![mv] + reversed@.reverse());
                assert(decode(e / 19).push(mv) + reversed@.reverse() =~= decode(e / 19) + (seq![mv] + reversed@.reverse()));
            }
            reversed.push(mv);
            encoding /= 19;
        }
        let mut result = move_list15_new();
        let mut i = reversed.len();
        while i > 0
            invariant
                i <= reversed.len(),
                move_list15_items(result) == reversed@.reverse().subrange(0, (reversed.len() - i) as int),
            decreases i,
        {
            i -= 1;
            move_list15_push(&mut result, reversed[i]);
            assert(reversed@.reverse().subrange(0, (reversed.len() - i) as int) =~= reversed@.reverse().subrange(0, (reversed.len() - i - 1) as int).push(reversed@[i as int]));
        }
        assert(decode(0) =~= Seq::<Move>::empty());
        assert(reversed@.reverse().subrange(0, reversed.len() as int) =~= reversed@.reverse());
        result
    }

    /// The inverse moves of the sequence, in reverse order: the sequence that
    /// undoes this one.
    pub fn inv_moves(&self) -> (r: MoveList15)
        requires
            self.wf(),
        ensures
            move_list15_items(r).len() == self@.len(),
            forall|i: int|
                0 <= i < self@.len() ==> #[trigger] move_list15_items(r)[i] == (Move {
                    face: self@[self@.len() - 1 - i].face,
                    dir: self@[self@.len() - 1 - i].dir.spec_inv(),
                }),
    {
        let mut result = move_list15_new();
        let mut encoding = self.encoded;
        let moves = Move::BASIC_MOVES();
        let ghost full = decode(self.encoded as nat);
        while encoding > 0
            invariant
                full == decode(self.encoded as nat),
                valid_code(encoding as nat),
                decode(encoding as nat) == full.subrange(0, decode(encoding as nat).len() as int),
                decode(encoding as nat).len() <= full.len(),
                move_list15_items(result).len() == full.len() - decode(encoding as nat).len(),
                forall|i: int|
                    0 <= i < move_list15_items(result).len() ==> #[trigger] move_list15_items(
                        result,
                    )[i] == (Move {
                        face: full[full.len() - 1 - i].face,
                        dir: full[full.len() - 1 - i].dir.spec_inv(),
                    }),
                forall|i: int| 0 <= i < 18 ==> #[trigger] moves[i] == move_of_index(i),
            decreases encoding,
        {
            let d = encoding % 19;
            let mv = moves[(d - 1) as usize];
            let ghost e = encoding as nat;
            let ghost l = decode(e).len();
            proof {
                assert(decode(e) == decode(e / 19).push(mv));
                assert(full[l - 1] == decode(e)[l - 1]);
                assert(mv == full[l - 1]);
                assert(decode(e / 19) =~= full.subrange(0, l - 1));
            }
            move_list15_push(&mut result, mv.inv());
            encoding /= 19;
        }
        assert(decode(0) =~= Seq::<Move>::empty());
        result
    }

    /// All sequences of at most `d` moves, in the order of their codes, each
    /// with the state that it reaches.
    pub fn to_depth(d: u8) -> (r: MovesIter)
        requires
            d <= 14,
        ensures
            r.spec_max() == pow19(d as nat),
            r.spec_queue().len() == 1,
            r.spec_queue()[0].0@ == Seq::<Move>::empty(),
            r.spec_queue()[0].1 == State::spec_id(),
            r.spec_queue()[0].0.wf(),
            r.wf(),
    {
        let mut max: u64 = 1;
        let mut k: u8 = 0;
        while k < d
            invariant
                k <= d <= 14,
                max == pow19(k as nat),
            decreases d - k,
        {
            proof {
                lemma_pow19_mono((k + 1) as nat, 15);
                lemma_pow19_15();
                assert(pow19((k + 1) as nat) == 19 * pow19(k as nat));
            }
            max = max * 19;
            k += 1;
        }
        let mut next: VecDeque<(Moves, State)> = VecDeque::new();
        next.push_back((Moves::empty(), State::ID()));
        proof {
            lemma_pow19_mono(d as nat, 14);
            lemma_pow19_mono(0, d as nat);
            lemma_pow19_15();
            assert(moves_state_after(Seq::<Move>::empty()) == State::spec_id());
        }
        let r = MovesIter { next, max };
        assert(r.spec_queue()[0].0@ =~= Seq::<Move>::empty());
        r
    }
}

/// The sequences of moves up to a given length, in breadth-first order, each
/// with the state that it reaches.
pub struct MovesIter {
    next: VecDeque<(Moves, State)>,
    max: u64,
}

impl MovesIter {
    /// The sequences still to be produced, in order, with their states.
    pub closed spec fn spec_queue(self) -> Seq<(Moves, State)> {
        self.next@
    }

    /// A sequence is extended when 19 times its code is below this bound.
    pub closed spec fn spec_max(self) -> nat {
        self.max as nat
    }

    /// Each queued state is the one its sequence reaches; codes stay small
    /// enough to be extended.
    pub open spec fn wf(self) -> bool {
        &&& 1 <= self.spec_max() <= pow19(14)
        &&& forall|i: int|
            0 <= i < self.spec_queue().len() ==> {
                &&& (#[trigger] self.spec_queue()[i]).1 == moves_state_after(self.spec_queue()[i].0@)
                &&& self.spec_queue()[i].0.code() < self.spec_max() + 19
                &&& self.spec_queue()[i].0.wf()
            }
    }

    /// The next sequence and its state. When its code times 19 is below the
    /// bound, its eighteen extensions by one move, in the order of the moves,
    /// join the end of the queue.
    pub fn next(&mut self) -> (r: Option<(Moves, State)>)
        requires
            old(self).wf(),
        ensures
            final(self).wf(),
            final(self).spec_max() == old(self).spec_max(),
            old(self).spec_queue().len() == 0 ==> r is None && final(self).spec_queue() == old(
                self,
            ).spec_queue(),
            old(self).spec_queue().len() > 0 ==> {
                let m = old(self).spec_queue()[0].0;
                let n = old(self).spec_queue().len() - 1;
                &&& r == Some(old(self).spec_queue()[0])
                &&& old(self).spec_queue()[0].1 == moves_state_after(m@)
                &&& final(self).spec_queue().len() == n + (if 19 * m.code() < old(self).spec_max() {
                    18int
                } else {
                    0int
                })
                &&& forall|i: int|
                    0 <= i < n ==> #[trigger] final(self).spec_queue()[i] == old(self).spec_queue()[i
                        + 1]
                &&& 19 * m.code() < old(self).spec_max() ==> forall|k: int|
                    0 <= k < 18 ==> (#[trigger] final(self).spec_queue()[n + k]).0@ == m@.push(
                        move_of_index(k),
                    )
            },
    {
        let ghost q0 = self.next@;
        let ghost max0 = self.max;
        match self.next.pop_front() {
            None => None,
            Some((moves, state)) => {
                assert(q0[0] == (moves, state));
                proof {
                    moves.lemma_code();
                    lemma_pow19_15();
                }
                if 19 * moves.encoded < self.max {
                    let basic = Move::BASIC_MOVES();
                    let ghost n0 = self.next@.len();
                    let mut i: usize = 0;
                    while i < 18
                        invariant
                            i <= 18,
                            n0 == q0.len() - 1,
                            self.next@.len() == n0 + i,
                            self.max == max0,
                            1 <= self.max <= pow19(14),
                            pow19(14) == 799006685782884121nat,
                            19 * moves.code() < self.max,
                            moves.code() == encode(moves@),
                            moves.wf(),
                            state == moves_state_after(moves@),
                            forall|j: int| 0 <= j < 18 ==> #[trigger] basic[j] == move_of_index(j),
                            forall|j: int| 0 <= j < n0 ==> #[trigger] self.next@[j] == q0[j + 1],
                            forall|k: int|
                                0 <= k < i ==> {
                                    &&& (#[trigger] self.next@[n0 + k]).0@ == moves@.push(
                                        move_of_index(k),
                                    )
                                    &&& self.next@[n0 + k].1 == moves_state_after(self.next@[n0 + k].0@)
                                    &&& self.next@[n0 + k].0.code() < self.max + 19
                                    &&& self.next@[n0 + k].0.wf()
                                },
                        decreases 18 - i,
                    {
                        let mv = basic[i];
                        proof {
                            lemma_move_index(mv);
                            assert(moves@.push(mv).drop_last() =~= moves@);
                        }
                        let child = moves.append(mv);
                        proof {
                            child.lemma_code();
                            lemma_encode(moves@.push(mv));
                        }
                        let child_state = state * mv;
                        self.next.push_back((child, child_state));
                        i += 1;
                    }
                }
                proof {
                    let n0 = q0.len() - 1;
                    assert forall|j: int| 0 <= j < n0 implies #[trigger] self.next@[j] == q0[j + 1] by {
                    }
                    assert forall|j: int| 0 <= j < self.next@.len() implies {
                        &&& (#[trigger] self.next@[j]).1 == moves_state_after(self.next@[j].0@)
                        &&& self.next@[j].0.code() < self.max + 19
                        &&& self.next@[j].0.wf()
                    } by {
                        if j < n0 {
                            assert(self.next@[j] == q0[j + 1]);
                        } else {
                            assert(self.next@[n0 + (j - n0)] == self.next@[j]);
                        }
                    }
                }
                Some((moves, state))
            },
        }
    }
}

} // verus!
