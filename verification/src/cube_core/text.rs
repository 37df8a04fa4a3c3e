//! The text of a cube state: the positions and orientations of its pieces.
use vstd::prelude::*;
use crate::cube_core::bits::{bits_at, lemma_bits_at_bounds};
use crate::cube_core::state::State;

verus! {

/// The character of the decimal digit `d`.
pub open spec fn digit(d: int) -> char {
    (48 + d) as char
}

/// The numbers of `v`, each in one digit after a space.
pub open spec fn spaced(v: Seq<u8>) -> Seq<char>
    decreases v.len(),
{
    if v.len() == 0 {
        Seq::empty()
    } else {
        spaced(v.drop_last()) + seq![' ', digit(v.last() as int)]
    }
}

/// The numbers of `v`, each in two digits after a space.
pub open spec fn spaced_pairs(v: Seq<u8>) -> Seq<char>
    decreases v.len(),
{
    if v.len() == 0 {
        Seq::empty()
    } else {
        spaced_pairs(v.drop_last()) + seq![' ', digit(v.last() as int / 10), digit(v.last() as int % 10)]
    }
}

/// The numbers of `v`, each in one digit after two spaces.
pub open spec fn double_spaced(v: Seq<u8>) -> Seq<char>
    decreases v.len(),
{
    if v.len() == 0 {
        Seq::empty()
    } else {
        double_spaced(v.drop_last()) + seq![' ', ' ', digit(v.last() as int)]
    }
}

/// The text of a state whose corners have the positions `cp` and the
/// orientations `co`, and whose edges have the positions `ep` and the
/// orientations `eo`: a blank line, then the corners, noting a mirrored
/// state, then the edges, each list on a line of its own.
pub open spec fn pieces_text(mirrored: bool, cp: Seq<u8>, co: Seq<u8>, ep: Seq<u8>, eo: Seq<u8>) -> Seq<char> {
    seq!['\n'] + "corners"@ + (if mirrored {
        " (mirrored)"@
    } else {
        Seq::empty()
    }) + ":"@ + seq!['\n'] + "- permutation:"@ + spaced(cp) + seq!['\n'] + "- orientation:"@ + spaced(co)
        + seq!['\n'] + "edges:"@ + seq!['\n'] + "- permutation:"@ + spaced_pairs(ep) + seq!['\n']
        + "- orientation:"@ + double_spaced(eo) + seq!['\n']
}

/// The text of `s` (see `pieces_text`).
pub open spec fn state_text(s: State) -> Seq<char> {
    pieces_text(
        s.spec_mirrored(),
        Seq::new(8, |i: int| s.spec_cp(i as u64) as u8),
        Seq::new(8, |i: int| s.spec_co(i as u64) as u8),
        Seq::new(12, |i: int| s.spec_ep(i as u64) as u8),
        Seq::new(12, |i: int| s.spec_eo(i as u64) as u8),
    )
}

/// The text of `s`, in the older layout, which is never mirrored (see
/// `pieces_text`).
pub open spec fn legacy_state_text(s: crate::state::State) -> Seq<char> {
    pieces_text(
        false,
        Seq::new(8, |i: int| bits_at(s.corners, (5 * i + 2) as u64, 3) as u8),
        Seq::new(8, |i: int| bits_at(s.corners, (5 * i) as u64, 2) as u8),
        Seq::new(12, |i: int| bits_at(s.edges, (5 * i + 1) as u64, 4) as u8),
        Seq::new(12, |i: int| bits_at(s.edges, (5 * i) as u64, 1) as u8),
    )
}

/// The text of the decimal digit `d`.
fn digit_str(d: u8) -> (r: &'static str)
    requires
        d < 10,
    ensures
        r@ == seq![digit(d as int)],
{
    proof {
        reveal_strlit("0");
        reveal_strlit("1");
        reveal_strlit("2");
        reveal_strlit("3");
        reveal_strlit("4");
        reveal_strlit("5");
        reveal_strlit("6");
        reveal_strlit("7");
        reveal_strlit("8");
        reveal_strlit("9");
    }
    match d {
        0 => "0",
        1 => "1",
        2 => "2",
        3 => "3",
        4 => "4",
        5 => "5",
        6 => "6",
        7 => "7",
        8 => "8",
        _ => "9",
    }
}

/// A line break.
fn line_break() -> (r: &'static str)
    ensures
        r@ == seq!['\n'],
{
    proof {
        reveal_strlit("\n");
    }
    "\n"
}

/// A space.
fn space() -> (r: &'static str)
    ensures
        r@ == seq![' '],
{
    proof {
        reveal_strlit(" ");
    }
    " "
}

/// The text of a state with pieces at the given positions and orientations
/// (see `pieces_text`).
fn pieces_to_string(mirrored: bool, cp: [u8; 8], co: [u8; 8], ep: [u8; 12], eo: [u8; 12]) -> (r: String)
    requires
        forall|i: int| 0 <= i < 8 ==> cp[i] < 10 && co[i] < 10,
        forall|i: int| 0 <= i < 12 ==> ep[i] < 100 && eo[i] < 10,
    ensures
        r@ == pieces_text(mirrored, cp@, co@, ep@, eo@),
{
    let mut out = String::new();
    out.append(line_break());
    out.append("corners");
    if mirrored {
        out.append(" (mirrored)");
    }
    out.append(":");
    out.append(line_break());
    out.append("- permutation:");
    let ghost head = out@;
    let mut i: usize = 0;
    while i < 8
        invariant
            i <= 8,
            forall|j: int| 0 <= j < 8 ==> cp[j] < 10,
            out@ == head + spaced(cp@.take(i as int)),
        decreases 8 - i,
    {
        out.append(space());
        out.append(digit_str(cp[i]));
        assert(cp@.take(i + 1).drop_last() =~= cp@.take(i as int));
        i += 1;
        assert(out@ =~= head + spaced(cp@.take(i as int)));
    }
    assert(cp@.take(8) =~= cp@);
    out.append(line_break());
    out.append("- orientation:");
    let ghost head = out@;
    let mut i: usize = 0;
    while i < 8
        invariant
            i <= 8,
            forall|j: int| 0 <= j < 8 ==> co[j] < 10,
            out@ == head + spaced(co@.take(i as int)),
        decreases 8 - i,
    {
        out.append(space());
        out.append(digit_str(co[i]));
        assert(co@.take(i + 1).drop_last() =~= co@.take(i as int));
        i += 1;
        assert(out@ =~= head + spaced(co@.take(i as int)));
    }
    assert(co@.take(8) =~= co@);
    out.append(line_break());
    out.append("edges:");
    out.append(line_break());
    out.append("- permutation:");
    let ghost head = out@;
    let mut i: usize = 0;
    while i < 12
        invariant
            i <= 12,
            forall|j: int| 0 <= j < 12 ==> ep[j] < 100,
            out@ == head + spaced_pairs(ep@.take(i as int)),
        decreases 12 - i,
    {
        out.append(space());
        out.append(digit_str(ep[i] / 10));
        out.append(digit_str(ep[i] % 10));
        assert(ep@.take(i + 1).drop_last() =~= ep@.take(i as int));
        i += 1;
        assert(out@ =~= head + spaced_pairs(ep@.take(i as int)));
    }
    assert(ep@.take(12) =~= ep@);
    out.append(line_break());
    out.append("- orientation:");
    let ghost head = out@;
    let mut i: usize = 0;
    while i < 12
        invariant
            i <= 12,
            forall|j: int| 0 <= j < 12 ==> eo[j] < 10,
            out@ == head + double_spaced(eo@.take(i as int)),
        decreases 12 - i,
    {
        out.append(space());
        out.append(space());
        out.append(digit_str(eo[i]));
        assert(eo@.take(i + 1).drop_last() =~= eo@.take(i as int));
        i += 1;
        assert(out@ =~= head + double_spaced(eo@.take(i as int)));
    }
    assert(eo@.take(12) =~= eo@);
    out.append(line_break());
    assert(out@ =~= pieces_text(mirrored, cp@, co@, ep@, eo@));
    out
}

impl State {
    /// The positions and orientations of the pieces, in lines of text (see
    /// `state_text`).
    pub fn to_string(&self) -> (r: String)
        ensures
            r@ == state_text(*self),
    {
        let mut cp: [u8; 8] = [0; 8];
        let mut co: [u8; 8] = [0; 8];
        let mut i: u8 = 0;
        while i < 8
            invariant
                i <= 8,
                forall|j: int| 0 <= j < i ==> cp[j] == self.spec_cp(j as u64) && co[j] == self.spec_co(j as u64),
                forall|j: int| 0 <= j < 8 ==> cp[j] < 8 && co[j] < 4,
            decreases 8 - i,
        {
            cp[i as usize] = self.cp(i);
            co[i as usize] = self.co(i);
            i += 1;
        }
        let mut ep: [u8; 12] = [0; 12];
        let mut eo: [u8; 12] = [0; 12];
        let mut i: u8 = 0;
        while i < 12
            invariant
                i <= 12,
                forall|j: int| 0 <= j < i ==> ep[j] == self.spec_ep(j as u64) && eo[j] == self.spec_eo(j as u64),
                forall|j: int| 0 <= j < 12 ==> ep[j] < 16 && eo[j] < 2,
            decreases 12 - i,
        {
            ep[i as usize] = self.ep(i);
            eo[i as usize] = self.eo(i);
            i += 1;
        }
        let r = pieces_to_string(self.mirrored(), cp, co, ep, eo);
        assert(cp@ =~= Seq::new(8, |i: int| self.spec_cp(i as u64) as u8));
        assert(co@ =~= Seq::new(8, |i: int| self.spec_co(i as u64) as u8));
        assert(ep@ =~= Seq::new(12, |i: int| self.spec_ep(i as u64) as u8));
        assert(eo@ =~= Seq::new(12, |i: int| self.spec_eo(i as u64) as u8));
        r
    }
}

impl crate::state::State {
    /// The positions and orientations of the pieces, in lines of text (see
    /// `legacy_state_text`).
    pub fn to_string(&self) -> (r: String)
        ensures
            r@ == legacy_state_text(*self),
    {
        let mut cp: [u8; 8] = [0; 8];
        let mut co: [u8; 8] = [0; 8];
        let mut i: u8 = 0;
        while i < 8
            invariant
                i <= 8,
                forall|j: int|
                    0 <= j < i ==> cp[j] == bits_at(self.corners, (5 * j + 2) as u64, 3) && co[j] == bits_at(
                        self.corners,
                        (5 * j) as u64,
                        2,
                    ),
                forall|j: int| 0 <= j < 8 ==> cp[j] < 8 && co[j] < 4,
            decreases 8 - i,
        {
            let p = Self::get_block(self.corners, 5 * i + 2, 3);
            let o = Self::get_block(self.corners, 5 * i, 2);
            proof {
                lemma_bits_at_bounds(self.corners, (5 * i + 2) as u64);
                lemma_bits_at_bounds(self.corners, (5 * i) as u64);
            }
            cp[i as usize] = p as u8;
            co[i as usize] = o as u8;
            i += 1;
        }
        let mut ep: [u8; 12] = [0; 12];
        let mut eo: [u8; 12] = [0; 12];
        let mut i: u8 = 0;
        while i < 12
            invariant
                i <= 12,
                forall|j: int|
                    0 <= j < i ==> ep[j] == bits_at(self.edges, (5 * j + 1) as u64, 4) && eo[j] == bits_at(
                        self.edges,
                        (5 * j) as u64,
                        1,
                    ),
                forall|j: int| 0 <= j < 12 ==> ep[j] < 16 && eo[j] < 2,
            decreases 12 - i,
        {
            let p = Self::get_block(self.edges, 5 * i + 1, 4);
            let o = Self::get_block(self.edges, 5 * i, 1);
            proof {
                lemma_bits_at_bounds(self.edges, (5 * i + 1) as u64);
                lemma_bits_at_bounds(self.edges, (5 * i) as u64);
            }
            ep[i as usize] = p as u8;
            eo[i as usize] = o as u8;
            i += 1;
        }
        let r = pieces_to_string(false, cp, co, ep, eo);
        assert(cp@ =~= Seq::new(8, |i: int| bits_at(self.corners, (5 * i + 2) as u64, 3) as u8));
        assert(co@ =~= Seq::new(8, |i: int| bits_at(self.corners, (5 * i) as u64, 2) as u8));
        assert(ep@ =~= Seq::new(12, |i: int| bits_at(self.edges, (5 * i + 1) as u64, 4) as u8));
        assert(eo@ =~= Seq::new(12, |i: int| bits_at(self.edges, (5 * i) as u64, 1) as u8));
        r
    }
}

proof fn lemma_spaced(v: Seq<u8>)
    ensures
        spaced(v).len() == 2 * v.len(),
        forall|k: int|
            #![trigger spaced(v)[2 * k]]
            #![trigger spaced(v)[2 * k + 1]]
            0 <= k < v.len() ==> spaced(v)[2 * k] == ' ' && spaced(v)[2 * k + 1] == digit(v[k] as int),
    decreases v.len(),
{
    if v.len() > 0 {
        let u = v.drop_last();
        lemma_spaced(u);
        let w = spaced(u);
        assert(spaced(v) == w + seq![' ', digit(v.last() as int)]);
        assert forall|k: int|
            #![trigger spaced(v)[2 * k]]
            #![trigger spaced(v)[2 * k + 1]]
            0 <= k < v.len() implies spaced(v)[2 * k] == ' ' && spaced(v)[2 * k + 1] == digit(v[k] as int) by {
            if k < v.len() - 1 {
                assert(u[k] == v[k]);
                assert(w[2 * k + 1] == digit(u[k] as int));
                assert(w[2 * k] == ' ');
            }
        }
    }
}

proof fn lemma_spaced_pairs(v: Seq<u8>)
    ensures
        spaced_pairs(v).len() == 3 * v.len(),
        forall|k: int|
            #![trigger spaced_pairs(v)[3 * k]]
            #![trigger spaced_pairs(v)[3 * k + 1]]
            #![trigger spaced_pairs(v)[3 * k + 2]]
            0 <= k < v.len() ==> spaced_pairs(v)[3 * k] == ' ' && spaced_pairs(v)[3 * k + 1] == digit(
                v[k] as int / 10,
            ) && spaced_pairs(v)[3 * k + 2] == digit(v[k] as int % 10),
    decreases v.len(),
{
    if v.len() > 0 {
        let u = v.drop_last();
        lemma_spaced_pairs(u);
        let w = spaced_pairs(u);
        assert(spaced_pairs(v) == w + seq![' ', digit(v.last() as int / 10), digit(v.last() as int % 10)]);
        assert forall|k: int|
            #![trigger spaced_pairs(v)[3 * k]]
            #![trigger spaced_pairs(v)[3 * k + 1]]
            #![trigger spaced_pairs(v)[3 * k + 2]]
            0 <= k < v.len() implies spaced_pairs(v)[3 * k] == ' ' && spaced_pairs(v)[3 * k + 1] == digit(
                v[k] as int / 10,
            ) && spaced_pairs(v)[3 * k + 2] == digit(v[k] as int % 10) by {
            if k < v.len() - 1 {
                assert(u[k] == v[k]);
                assert(w[3 * k + 1] == digit(u[k] as int / 10));
                assert(w[3 * k] == ' ' && w[3 * k + 2] == digit(u[k] as int % 10));
            }
        }
    }
}

proof fn lemma_double_spaced(v: Seq<u8>)
    ensures
        double_spaced(v).len() == 3 * v.len(),
        forall|k: int|
            #![trigger double_spaced(v)[3 * k]]
            #![trigger double_spaced(v)[3 * k + 1]]
            #![trigger double_spaced(v)[3 * k + 2]]
            0 <= k < v.len() ==> double_spaced(v)[3 * k] == ' ' && double_spaced(v)[3 * k + 1] == ' '
                && double_spaced(v)[3 * k + 2] == digit(v[k] as int),
    decreases v.len(),
{
    if v.len() > 0 {
        let u = v.drop_last();
        lemma_double_spaced(u);
        let w = double_spaced(u);
        assert(double_spaced(v) == w + seq![' ', ' ', digit(v.last() as int)]);
        assert forall|k: int|
            #![trigger double_spaced(v)[3 * k]]
            #![trigger double_spaced(v)[3 * k + 1]]
            #![trigger double_spaced(v)[3 * k + 2]]
            0 <= k < v.len() implies double_spaced(v)[3 * k] == ' ' && double_spaced(v)[3 * k + 1] == ' '
                && double_spaced(v)[3 * k + 2] == digit(v[k] as int) by {
            if k < v.len() - 1 {
                assert(u[k] == v[k]);
                assert(w[3 * k + 2] == digit(u[k] as int));
                assert(w[3 * k] == ' ' && w[3 * k + 1] == ' ');
            }
        }
    }
}

/// Where the text of a state shows each piece: the permutation of the
/// corners from character `24 + m` on and their orientations from character
/// `55 + m` on, a space and one digit each, corner 0 first; the permutation
/// of the edges from character `93 + m` on, a space and two digits each, and
/// their orientations from character `144 + m` on, two spaces and one digit
/// each, edge 0 first; `m` is 11 for a mirrored state (the words
/// " (mirrored)") and 0 otherwise.
pub proof fn lemma_state_text_pieces(s: State)
    ensures
        ({
            let t = state_text(s);
            let m: int = if s.spec_mirrored() { 11 } else { 0 };
            &&& t.len() == 181 + m
            &&& forall|k: int|
                0 <= k < 8 ==> t[24 + m + 2 * k] == ' ' && #[trigger] t[24 + m + 2 * k + 1] == digit(
                    s.spec_cp(k as u64) as int,
                )
            &&& forall|k: int|
                0 <= k < 8 ==> t[55 + m + 2 * k] == ' ' && #[trigger] t[55 + m + 2 * k + 1] == digit(
                    s.spec_co(k as u64) as int,
                )
            &&& forall|k: int|
                0 <= k < 12 ==> #[trigger] t[93 + m + 3 * k + 1] == digit(s.spec_ep(k as u64) as int / 10) && t[93
                    + m + 3 * k + 2] == digit(s.spec_ep(k as u64) as int % 10)
            &&& forall|k: int| 0 <= k < 12 ==> #[trigger] t[144 + m + 3 * k + 2] == digit(s.spec_eo(k as u64) as int)
        }),
{
    reveal_strlit("corners");
    reveal_strlit(" (mirrored)");
    reveal_strlit(":");
    reveal_strlit("- permutation:");
    reveal_strlit("- orientation:");
    reveal_strlit("edges:");
    let cp = Seq::new(8, |i: int| s.spec_cp(i as u64) as u8);
    let co = Seq::new(8, |i: int| s.spec_co(i as u64) as u8);
    let ep = Seq::new(12, |i: int| s.spec_ep(i as u64) as u8);
    let eo = Seq::new(12, |i: int| s.spec_eo(i as u64) as u8);
    lemma_spaced(cp);
    lemma_spaced(co);
    lemma_spaced_pairs(ep);
    lemma_double_spaced(eo);
    assert forall|k: int| 0 <= k < 8 implies cp[k] as int == s.spec_cp(k as u64) as int && co[k] as int
        == s.spec_co(k as u64) as int by {
        crate::cube_core::bits::lemma_field_parts(s.corners, k as u64);
    }
    assert forall|k: int| 0 <= k < 12 implies ep[k] as int == s.spec_ep(k as u64) as int && eo[k] as int
        == s.spec_eo(k as u64) as int by {
        crate::cube_core::bits::lemma_field_parts(s.edges, k as u64);
    }
    let m: int = if s.spec_mirrored() { 11 } else { 0 };
    let mir: Seq<char> = if s.spec_mirrored() { " (mirrored)"@ } else { Seq::empty() };
    let a = seq!['\n'] + "corners"@ + mir + ":"@ + seq!['\n'] + "- permutation:"@;
    let b = a + spaced(cp) + seq!['\n'] + "- orientation:"@;
    let c = b + spaced(co) + seq!['\n'] + "edges:"@ + seq!['\n'] + "- permutation:"@;
    let d = c + spaced_pairs(ep) + seq!['\n'] + "- orientation:"@;
    let t = d + double_spaced(eo) + seq!['\n'];
    assert(t == state_text(s));
    assert(a.len() == 24 + m);
    assert(b.len() == 55 + m);
    assert(c.len() == 93 + m);
    assert(d.len() == 144 + m);
    assert forall|k: int| 0 <= k < 8 implies t[24 + m + 2 * k] == ' ' && #[trigger] t[24 + m + 2 * k + 1]
        == digit(s.spec_cp(k as u64) as int) by {
        assert(t[24 + m + 2 * k] == spaced(cp)[2 * k]);
        assert(t[24 + m + 2 * k + 1] == spaced(cp)[2 * k + 1]);
    }
    assert forall|k: int| 0 <= k < 8 implies t[55 + m + 2 * k] == ' ' && #[trigger] t[55 + m + 2 * k + 1]
        == digit(s.spec_co(k as u64) as int) by {
        assert(t[55 + m + 2 * k] == spaced(co)[2 * k]);
        assert(t[55 + m + 2 * k + 1] == spaced(co)[2 * k + 1]);
    }
    assert forall|k: int| 0 <= k < 12 implies #[trigger] t[93 + m + 3 * k + 1] == digit(
        s.spec_ep(k as u64) as int / 10,
    ) && t[93 + m + 3 * k + 2] == digit(s.spec_ep(k as u64) as int % 10) by {
        assert(t[93 + m + 3 * k + 1] == spaced_pairs(ep)[3 * k + 1]);
        assert(t[93 + m + 3 * k + 2] == spaced_pairs(ep)[3 * k + 2]);
    }
    assert forall|k: int| 0 <= k < 12 implies #[trigger] t[144 + m + 3 * k + 2] == digit(
        s.spec_eo(k as u64) as int,
    ) by {
        assert(t[144 + m + 3 * k + 2] == double_spaced(eo)[3 * k + 2]);
    }
}

} // verus!
