//! Turns of a hypercube puzzle: the turns a user asks for, their inverses,
//! and the normalized form in which a puzzle of a given dimension applies
//! them to sticker positions.
//!
//! An axis is named by a signed number: `a >= 0` is the positive side of
//! axis `a`, and `!a` (that is `-1 - a`) its negative side.

use vstd::prelude::*;

verus! {

/// A turn of one side of the puzzle: the layers whose coordinate on the
/// axis of `side` lies in `layer_min - 1 ..= layer_max + 1` rotate a quarter
/// turn from axis `from` towards axis `to`.
#[derive(Clone, Copy, Debug, PartialEq, Eq, Hash, Structural)]
pub struct SideTurn {
    pub side: i16,
    pub layer_min: i16,
    pub layer_max: i16,
    pub from: i16,
    pub to: i16,
}

/// A rotation of the whole puzzle a quarter turn from axis `from` towards
/// axis `to`.
#[derive(Clone, Copy, Debug, PartialEq, Eq, Hash, Structural)]
pub struct PuzzleTurn {
    pub from: i16,
    pub to: i16,
}

/// A turn as the user enters it.
#[derive(Clone, Copy, Debug, PartialEq, Eq, Hash, Structural)]
pub enum Turn {
    Side(SideTurn),
    Puzzle(PuzzleTurn),
}

/// The complement `!s` of a signed axis name, as an integer.
pub open spec fn not_of(s: i16) -> int {
    -1 - s
}

/// The axis that the signed axis name `s` lies on: `max(s, !s)`.
pub open spec fn axis_of(s: i16) -> int {
    if s >= 0 {
        s as int
    } else {
        not_of(s)
    }
}

impl SideTurn {
    /// The same side turn in the opposite direction.
    pub open spec fn inverted(self) -> SideTurn {
        SideTurn {
            side: self.side,
            layer_min: self.layer_min,
            layer_max: self.layer_max,
            from: self.to,
            to: self.from,
        }
    }

    /// Returns the same side turn in the opposite direction.
    pub fn inverse(&self) -> (r: Self)
        ensures
            r == self.inverted(),
    {
        SideTurn {
            from: self.to,
            to: self.from,
            side: self.side,
            layer_min: self.layer_min,
            layer_max: self.layer_max,
        }
    }
}

impl PuzzleTurn {
    /// The same rotation in the opposite direction.
    pub open spec fn inverted(self) -> PuzzleTurn {
        PuzzleTurn { from: self.to, to: self.from }
    }

    /// Returns the same rotation in the opposite direction.
    pub fn inverse(&self) -> (r: Self)
        ensures
            r == self.inverted(),
    {
        PuzzleTurn { from: self.to, to: self.from }
    }
}

impl Turn {
    /// The same turn in the opposite direction.
    pub open spec fn inverted(self) -> Turn {
        match self {
            Turn::Side(t) => Turn::Side(t.inverted()),
            Turn::Puzzle(t) => Turn::Puzzle(t.inverted()),
        }
    }

    /// Returns the same turn in the opposite direction.
    pub fn inverse(&self) -> (r: Self)
        ensures
            r == self.inverted(),
    {
        match self {
            Turn::Side(t) => Turn::Side(t.inverse()),
            Turn::Puzzle(t) => Turn::Puzzle(t.inverse()),
        }
    }

    /// The layer bounds of a side turn can be widened by one on each side
    /// without leaving `i16`.
    pub open spec fn layers_widen(self) -> bool {
        match self {
            Turn::Side(t) => t.layer_min > i16::MIN && t.layer_max < i16::MAX,
            Turn::Puzzle(_) => true,
        }
    }
}

/// Returns the axis that the signed axis name `s` lies on, `max(s, !s)`.
pub fn ax(s: i16) -> (r: i16)
    ensures
        r == axis_of(s),
        r >= 0,
{
    if s >= 0 {
        s
    } else {
        -1 - s
    }
}

/// A turn resolved against the dimension of a puzzle: axes are indices
/// into a sticker position.
#[derive(Clone, Copy, Debug, PartialEq, Eq, Structural)]
pub enum NormalizedTurn {
    Side { side: usize, layer_min: i16, layer_max: i16, from: usize, to: usize },
    Puzzle { from: usize, to: usize },
}

impl NormalizedTurn {
    /// The axis the turn rotates from.
    pub open spec fn from_axis(self) -> int {
        match self {
            NormalizedTurn::Side { from, .. } => from as int,
            NormalizedTurn::Puzzle { from, .. } => from as int,
        }
    }

    /// The axis the turn rotates towards.
    pub open spec fn to_axis(self) -> int {
        match self {
            NormalizedTurn::Side { to, .. } => to as int,
            NormalizedTurn::Puzzle { to, .. } => to as int,
        }
    }

    /// The axes that the turn reads are below `d`, and pairwise distinct.
    pub open spec fn fits(self, d: int) -> bool {
        match self {
            NormalizedTurn::Side { side, from, to, .. } => side < d && from < d && to < d
                && side != from && side != to && from != to,
            NormalizedTurn::Puzzle { from, to } => from < d && to < d && from != to,
        }
    }

    /// The same turn in the opposite direction.
    pub open spec fn reversed(self) -> NormalizedTurn {
        match self {
            NormalizedTurn::Side { side, layer_min, layer_max, from, to } => NormalizedTurn::Side {
                side,
                layer_min,
                layer_max,
                from: to,
                to: from,
            },
            NormalizedTurn::Puzzle { from, to } => NormalizedTurn::Puzzle { from: to, to: from },
        }
    }

    /// Whether position `p` lies in the layers that the turn moves.
    pub open spec fn moves(self, p: Seq<i16>) -> bool {
        match self {
            NormalizedTurn::Side { side, layer_min, layer_max, .. } => layer_min - 1 <= p[side as int]
                <= layer_max + 1,
            NormalizedTurn::Puzzle { .. } => true,
        }
    }

    /// Where the sticker that comes to rest at `p` was before the turn.
    pub open spec fn source_of(self, p: Seq<i16>) -> Option<Seq<i16>> {
        if self.moves(p) {
            Some(quarter_source(p, self.from_axis(), self.to_axis()))
        } else {
            None
        }
    }

    /// Where the sticker at `p` is after the turn.
    pub open spec fn moved(self, p: Seq<i16>) -> Seq<i16> {
        if self.moves(p) {
            quarter_forward(p, self.from_axis(), self.to_axis())
        } else {
            p
        }
    }

    /// The turn reads only coordinates of `p` that exist, and negates none
    /// that is `i16::MIN`.
    pub open spec fn source_defined(self, p: Seq<i16>) -> bool {
        &&& self.from_axis() < p.len()
        &&& self.to_axis() < p.len()
        &&& self.from_axis() != self.to_axis()
        &&& self is Side ==> self->side < p.len()
        &&& self.moves(p) ==> p[self.from_axis()] != i16::MIN
    }

    /// The turn moves `p` reading only coordinates that exist, and negates
    /// none that is `i16::MIN`.
    pub open spec fn move_defined(self, p: Seq<i16>) -> bool {
        &&& self.from_axis() < p.len()
        &&& self.to_axis() < p.len()
        &&& self.from_axis() != self.to_axis()
        &&& self is Side ==> self->side < p.len()
        &&& self.moves(p) ==> p[self.to_axis()] != i16::MIN
    }
}

/// A quarter turn read backwards: the position whose sticker lands on `p`.
pub open spec fn quarter_source(p: Seq<i16>, from: int, to: int) -> Seq<i16> {
    p.update(from, p[to]).update(to, (-p[from]) as i16)
}

/// A quarter turn from axis `from` towards axis `to` applied to `p`.
pub open spec fn quarter_forward(p: Seq<i16>, from: int, to: int) -> Seq<i16> {
    p.update(from, (-p[to]) as i16).update(to, p[from])
}

/// `Some(ax(a))` when that axis exists in dimension `d`.
pub open spec fn axis_index_in(a: i16, d: u16) -> Option<usize> {
    if axis_of(a) < d {
        Some(axis_of(a) as usize)
    } else {
        None
    }
}

/// A side turn that names the same axis twice is refused.
pub open spec fn side_turn_degenerate(t: SideTurn) -> bool {
    ||| t.side == t.from
    ||| t.side == not_of(t.from)
    ||| t.side == t.to
    ||| t.side == not_of(t.to)
    ||| t.from == t.to
    ||| t.from == not_of(t.to)
}

/// The turn `t` resolved against dimension `d`, or `None` when it names an
/// axis twice or an axis that dimension `d` does not have.
///
/// A side turn keeps only the axis of `side`; a negative `from` or `to` is
/// replaced by its axis, and when exactly one of them was negative the two
/// are exchanged. A whole-puzzle rotation keeps only the axes of `from` and
/// `to`.
pub open spec fn normalize(t: Turn, d: u16) -> Option<NormalizedTurn> {
    match t {
        Turn::Side(s) => {
            if side_turn_degenerate(s) {
                None
            } else {
                let swap = (s.from < 0) != (s.to < 0);
                let f = axis_of(s.from);
                let g = axis_of(s.to);
                let (f2, g2) = if swap {
                    (g, f)
                } else {
                    (f, g)
                };
                if axis_of(s.side) < d && f2 < d && g2 < d {
                    Some(
                        NormalizedTurn::Side {
                            side: axis_of(s.side) as usize,
                            layer_min: s.layer_min,
                            layer_max: s.layer_max,
                            from: f2 as usize,
                            to: g2 as usize,
                        },
                    )
                } else {
                    None
                }
            }
        },
        Turn::Puzzle(p) => {
            if axis_of(p.from) < d && axis_of(p.to) < d && axis_of(p.from) != axis_of(p.to) {
                Some(
                    NormalizedTurn::Puzzle {
                        from: axis_of(p.from) as usize,
                        to: axis_of(p.to) as usize,
                    },
                )
            } else {
                None
            }
        },
    }
}

/// A normalized turn names existing, distinct axes.
pub proof fn lemma_normalize_fits(t: Turn, d: u16)
    ensures
        normalize(t, d) matches Some(nt) ==> nt.fits(d as int),
{
}

/// Turning the other way is normalized to the reversed normalized turn,
/// and is refused exactly when the turn itself is refused.
pub proof fn lemma_normalize_inverse(t: Turn, d: u16)
    ensures
        normalize(t.inverted(), d) == match normalize(t, d) {
            Some(nt) => Some(nt.reversed()),
            None => None,
        },
{
}

/// Inverting a turn twice gives the turn back.
pub proof fn lemma_inverse_involution(t: Turn)
    ensures
        t.inverted().inverted() == t,
{
}

/// Moving a sticker and then asking where the sticker at its new place came
/// from leads back to where it started; and the other way round.
pub proof fn lemma_moved_source(nt: NormalizedTurn, p: Seq<i16>)
    requires
        nt.fits(p.len() as int),
        forall|i: int| 0 <= i < p.len() ==> p[i] != i16::MIN,
    ensures
        nt.moves(nt.moved(p)) == nt.moves(p),
        nt.moves(p) ==> nt.source_of(nt.moved(p)) == Some(p),
        nt.moves(p) ==> nt.moved(quarter_source(p, nt.from_axis(), nt.to_axis())) == p,
{
    if nt.moves(p) {
        let f = nt.from_axis();
        let g = nt.to_axis();
        assert(quarter_source(quarter_forward(p, f, g), f, g) =~= p);
        assert(quarter_forward(quarter_source(p, f, g), f, g) =~= p);
    }
}

} // verus!

verus! {

/// A side turn moves exactly the positions whose coordinate on the side's
/// axis lies in `layer_min - 1 ..= layer_max + 1`, the turned layers and
/// the one on each side of them, so a turn of the outermost inner layer
/// turns the face beyond it too. A moved position rotates a quarter turn
/// from `from` towards `to`: the coordinate on `to` takes the one on
/// `from`, the coordinate on `from` takes the negated one on `to`, and the
/// others stay; every other position stays where it is. Read backwards,
/// the sticker that comes to rest at a moved position comes from the
/// position rotated the other way.
pub proof fn lemma_side_turn_moves(nt: NormalizedTurn, p: Seq<i16>)
    requires
        nt is Side,
        nt.move_defined(p),
        nt.source_defined(p),
    ensures
        nt.moves(p) <==> nt->layer_min - 1 <= p[nt->side as int] <= nt->layer_max + 1,
        ({
            let f = nt.from_axis();
            let g = nt.to_axis();
            let q = nt.moved(p);
            if nt->layer_min - 1 <= p[nt->side as int] <= nt->layer_max + 1 {
                &&& q.len() == p.len()
                &&& q[g] == p[f]
                &&& q[f] == -p[g]
                &&& forall|k: int| 0 <= k < p.len() && k != f && k != g ==> #[trigger] q[k] == p[k]
                &&& nt.source_of(p) matches Some(s) && s.len() == p.len() && s[f] == p[g] && s[g]
                    == -p[f] && forall|k: int| 0 <= k < p.len() && k != f && k != g ==> #[trigger] s[k]
                    == p[k]
            } else {
                q == p && nt.source_of(p) is None
            }
        }),
{
}

/// A whole-puzzle rotation moves every position a quarter turn from `from`
/// towards `to`.
pub proof fn lemma_puzzle_rotation_moves(nt: NormalizedTurn, p: Seq<i16>)
    requires
        nt is Puzzle,
        nt.move_defined(p),
    ensures
        nt.moves(p),
        ({
            let f = nt.from_axis();
            let g = nt.to_axis();
            let q = nt.moved(p);
            &&& q.len() == p.len()
            &&& q[g] == p[f]
            &&& q[f] == -p[g]
            &&& forall|k: int| 0 <= k < p.len() && k != f && k != g ==> #[trigger] q[k] == p[k]
        }),
{
}

/// The whole-puzzle rotation from `a` to `b`.
pub open spec fn puzzle_turn(a: i16, b: i16) -> Turn {
    Turn::Puzzle(PuzzleTurn { from: a, to: b })
}

/// The side turn of side `s`, layers `lo ..= hi`, from `f` to `g`.
pub open spec fn side_turn(s: i16, lo: i16, hi: i16, f: i16, g: i16) -> Turn {
    Turn::Side(SideTurn { side: s, layer_min: lo, layer_max: hi, from: f, to: g })
}

/// The reversed normalized turn, if any.
pub open spec fn reversed_opt(r: Option<NormalizedTurn>) -> Option<NormalizedTurn> {
    match r {
        Some(nt) => Some(nt.reversed()),
        None => None,
    }
}

/// A whole-puzzle rotation depends only on the axes of its two ends: the
/// signs of `from` and `to` are dropped, so negating either end, or both,
/// gives the same rotation, from the axis of `from` to the axis of `to`.
pub proof fn lemma_puzzle_rotation_axes(a: i16, b: i16, d: u16)
    ensures
        normalize(puzzle_turn(a, b), d) == normalize(
            puzzle_turn(axis_of(a) as i16, axis_of(b) as i16),
            d,
        ),
        normalize(puzzle_turn(a, b), d) is Some <==> (axis_of(a) < d && axis_of(b) < d && axis_of(a)
            != axis_of(b)),
        normalize(puzzle_turn(a, b), d) is Some ==> normalize(puzzle_turn(a, b), d)
            == Some(NormalizedTurn::Puzzle { from: axis_of(a) as usize, to: axis_of(b) as usize }),
{
}

/// The signs of a side turn: the side of the axis that names the turned
/// layers does not matter; negating both `from` and `to` gives the same
/// turn; and negating exactly one of them turns the other way. With all
/// three non-negative, the turn keeps its axes as they are.
pub proof fn lemma_side_turn_signs(s: i16, lo: i16, hi: i16, f: i16, g: i16, d: u16)
    requires
        f >= 0,
        g >= 0,
        s >= 0,
    ensures
        normalize(side_turn((-1 - s) as i16, lo, hi, f, g), d) == normalize(side_turn(s, lo, hi, f, g), d),
        normalize(side_turn(s, lo, hi, (-1 - f) as i16, (-1 - g) as i16), d) == normalize(
            side_turn(s, lo, hi, f, g),
            d,
        ),
        normalize(side_turn(s, lo, hi, (-1 - f) as i16, g), d) == reversed_opt(
            normalize(side_turn(s, lo, hi, f, g), d),
        ),
        normalize(side_turn(s, lo, hi, f, (-1 - g) as i16), d) == reversed_opt(
            normalize(side_turn(s, lo, hi, f, g), d),
        ),
        normalize(side_turn(s, lo, hi, f, g), d) is Some ==> normalize(side_turn(s, lo, hi, f, g), d)
            == Some(
            NormalizedTurn::Side { side: s as usize, layer_min: lo, layer_max: hi, from: f as usize, to: g as usize },
        ),
{
}

} // verus!
