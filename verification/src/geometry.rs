//! The sticker positions of an `n^d` puzzle and the maps on them.
//!
//! A sticker sits at a coordinate vector of length `d`: exactly one
//! coordinate is `n` or `-n` (the face it lies on) and every other one is on
//! the grid `-n+1, -n+3, ..., n-1` of piece centres.

use vstd::prelude::*;
use crate::turns::{normalize, quarter_forward, quarter_source, NormalizedTurn, Turn};

verus! {

/// `x` is one of `-n+1, -n+3, ..., n-1`.
pub open spec fn in_grid(n: i16, x: i16) -> bool {
    &&& -n < x < n
    &&& (x + n) % 2 == 1
}

/// Coordinate `i` of `p` is on a face (`n` or `-n`) and all others are on
/// the grid.
pub open spec fn face_at(n: i16, p: Seq<i16>, i: int) -> bool {
    &&& p[i] == n || p[i] == -n
    &&& forall|j: int| 0 <= j < p.len() && j != i ==> #[trigger] in_grid(n, p[j])
}

/// `p` is a sticker position of the `n^d` puzzle. A dimension above
/// `i16::MAX` has none, since sticker colours are `i16` face numbers.
pub open spec fn is_position(n: i16, d: u16, p: Seq<i16>) -> bool {
    &&& p.len() == d
    &&& d <= i16::MAX
    &&& exists|i: int| 0 <= i < d && #[trigger] face_at(n, p, i)
}

/// All sticker positions of the `n^d` puzzle.
pub open spec fn position_set(n: i16, d: u16) -> Set<Seq<i16>> {
    Set::new(|p: Seq<i16>| is_position(n, d, p))
}

/// The stickers after turn `nt`: the sticker at `p` is the one that was at
/// the source of `p`, for the positions that the turn moves.
pub open spec fn turned(m: Map<Seq<i16>, i16>, nt: NormalizedTurn) -> Map<Seq<i16>, i16> {
    Map::new(
        |p: Seq<i16>| m.dom().contains(p),
        |p: Seq<i16>|
            match nt.source_of(p) {
                Some(s) => m[s],
                None => m[p],
            },
    )
}

/// The turn can be applied to the stickers `m`: it reads only coordinates
/// that each stored position has, negates no `i16::MIN`, and the position
/// each moved sticker comes from is stored.
#[verifier::opaque]
pub open spec fn turn_applies(m: Map<Seq<i16>, i16>, nt: NormalizedTurn) -> bool {
    forall|p: Seq<i16>|
        #[trigger] m.dom().contains(p) ==> nt.source_defined(p) && (nt.source_of(p) matches Some(
            s,
        ) ==> m.dom().contains(s))
}

/// The stickers after the turns `nts`, first to last.
pub open spec fn turned_all(m: Map<Seq<i16>, i16>, nts: Seq<NormalizedTurn>) -> Map<
    Seq<i16>,
    i16,
>
    decreases nts.len(),
{
    if nts.len() == 0 {
        m
    } else {
        turned(turned_all(m, nts.drop_last()), nts.last())
    }
}

/// Position `p` after the turns `nts`, first to last.
pub open spec fn moved_all(p: Seq<i16>, nts: Seq<NormalizedTurn>) -> Seq<i16>
    decreases nts.len(),
{
    if nts.len() == 0 {
        p
    } else {
        nts.last().moved(moved_all(p, nts.drop_last()))
    }
}

/// Each of the turns `nts` can move `p`, as far as the earlier ones have
/// brought it, without reading a missing coordinate or negating `i16::MIN`.
pub open spec fn moves_defined(p: Seq<i16>, nts: Seq<NormalizedTurn>) -> bool
    decreases nts.len(),
{
    if nts.len() == 0 {
        true
    } else {
        moves_defined(p, nts.drop_last()) && nts.last().move_defined(
            moved_all(p, nts.drop_last()),
        )
    }
}

/// Turning keeps the set of positions.
pub proof fn lemma_turned_all_dom(m: Map<Seq<i16>, i16>, nts: Seq<NormalizedTurn>)
    ensures
        turned_all(m, nts).dom() == m.dom(),
    decreases nts.len(),
{
    if nts.len() > 0 {
        lemma_turned_all_dom(m, nts.drop_last());
        assert(turned_all(m, nts).dom() =~= m.dom());
    }
}

/// A move that is defined for all turns is defined for each prefix.
pub proof fn lemma_moves_prefix(p: Seq<i16>, nts: Seq<NormalizedTurn>, k: int)
    requires
        moves_defined(p, nts),
        0 <= k <= nts.len(),
    ensures
        moves_defined(p, nts.subrange(0, k)),
    decreases nts.len() - k,
{
    if k == nts.len() {
        assert(nts.subrange(0, k) =~= nts);
    } else {
        lemma_moves_prefix(p, nts, k + 1);
        assert(nts.subrange(0, k + 1).drop_last() =~= nts.subrange(0, k));
    }
}

/// Every turn of `ts` is accepted in dimension `d`.
pub open spec fn all_normalize(ts: Seq<Turn>, d: u16) -> bool {
    forall|i: int| 0 <= i < ts.len() ==> #[trigger] normalize(ts[i], d) is Some
}

/// The normalized forms of the turns `ts`.
pub open spec fn normalize_all(ts: Seq<Turn>, d: u16) -> Seq<NormalizedTurn> {
    ts.map_values(|t: Turn| normalize(t, d)->0)
}

/// Every turn of `ts` that is accepted has layer bounds that can be widened.
pub open spec fn all_layers_widen(ts: Seq<Turn>, d: u16) -> bool {
    forall|i: int|
        0 <= i < ts.len() && normalize(ts[i], d) is Some ==> #[trigger] ts[i].layers_widen()
}

/// A position of the puzzle has no coordinate `i16::MIN`.
pub proof fn lemma_position_coords(n: i16, d: u16, p: Seq<i16>)
    requires
        n > i16::MIN,
        is_position(n, d, p),
    ensures
        forall|k: int|
            0 <= k < p.len() ==> #[trigger] p[k] != i16::MIN && (n >= 0 ==> -n <= p[k] <= n),
{
    let i = choose|i: int| 0 <= i < d && #[trigger] face_at(n, p, i);
    assert forall|k: int| 0 <= k < p.len() implies #[trigger] p[k] != i16::MIN && (n >= 0
        ==> -n <= p[k] <= n) by {
        if k != i {
            assert(in_grid(n, p[k]));
        }
    }
}

/// A quarter turn between two distinct axes maps positions to positions,
/// read forwards or backwards.
pub proof fn lemma_quarter_closed(n: i16, d: u16, p: Seq<i16>, f: int, g: int)
    requires
        n > i16::MIN,
        is_position(n, d, p),
        0 <= f < d,
        0 <= g < d,
        f != g,
    ensures
        is_position(n, d, quarter_source(p, f, g)),
        is_position(n, d, quarter_forward(p, f, g)),
{
    lemma_position_coords(n, d, p);
    let i = choose|i: int| 0 <= i < d && #[trigger] face_at(n, p, i);
    let q = quarter_source(p, f, g);
    let r = quarter_forward(p, f, g);
    assert(q.len() == d);
    assert(r.len() == d);
    // The face coordinate moves along with the quarter turn.
    let (iq, ir) = if i == f {
        (g, g)
    } else if i == g {
        (f, f)
    } else {
        (i, i)
    };
    assert forall|j: int| 0 <= j < q.len() && j != iq implies #[trigger] in_grid(n, q[j]) by {
        if j == f {
            assert(in_grid(n, p[g]));
        } else if j == g {
            assert(in_grid(n, p[f]));
        } else {
            assert(in_grid(n, p[j]));
        }
    }
    assert(face_at(n, q, iq));
    assert forall|j: int| 0 <= j < r.len() && j != ir implies #[trigger] in_grid(n, r[j]) by {
        if j == f {
            assert(in_grid(n, p[g]));
        } else if j == g {
            assert(in_grid(n, p[f]));
        } else {
            assert(in_grid(n, p[j]));
        }
    }
    assert(face_at(n, r, ir));
}

/// Turning keeps the set of positions, and sends each position that it
/// moves to a position.
pub proof fn lemma_turn_closed(n: i16, d: u16, nt: NormalizedTurn, p: Seq<i16>)
    requires
        n > i16::MIN,
        nt.fits(d as int),
        is_position(n, d, p),
    ensures
        nt.source_defined(p),
        nt.move_defined(p),
        nt.source_of(p) matches Some(s) ==> is_position(n, d, s),
        is_position(n, d, nt.moved(p)),
{
    lemma_position_coords(n, d, p);
    lemma_quarter_closed(n, d, p, nt.from_axis(), nt.to_axis());
}

} // verus!

verus! {

/// Turning the stickers of a puzzle and then turning them back restores
/// them.
pub proof fn lemma_turn_then_reverse(n: i16, d: u16, m: Map<Seq<i16>, i16>, nt: NormalizedTurn)
    requires
        n > i16::MIN,
        m.dom() == position_set(n, d),
        nt.fits(d as int),
    ensures
        turned(turned(m, nt), nt.reversed()) == m,
{
    let t1 = turned(m, nt);
    let t2 = turned(t1, nt.reversed());
    assert forall|p: Seq<i16>| m.dom().contains(p) implies t2[p] == m[p] by {
        assert(is_position(n, d, p));
        lemma_position_coords(n, d, p);
        crate::turns::lemma_moved_source(nt, p);
        lemma_turn_closed(n, d, nt, p);
        if nt.moves(p) {
            let f = nt.from_axis();
            let g = nt.to_axis();
            assert(quarter_source(p, g, f) =~= quarter_forward(p, f, g));
        }
    }
    assert(t2 =~= m);
}

/// After a turn, the sticker that was at `p` is at the position that the
/// turn moves `p` to.
pub proof fn lemma_turn_carries_sticker(
    n: i16,
    d: u16,
    m: Map<Seq<i16>, i16>,
    nt: NormalizedTurn,
    p: Seq<i16>,
)
    requires
        n > i16::MIN,
        m.dom() == position_set(n, d),
        nt.fits(d as int),
        m.dom().contains(p),
    ensures
        turned(m, nt).dom().contains(nt.moved(p)),
        turned(m, nt)[nt.moved(p)] == m[p],
{
    lemma_position_coords(n, d, p);
    lemma_turn_closed(n, d, nt, p);
    crate::turns::lemma_moved_source(nt, p);
}

} // verus!

verus! {

/// The turns `nts` undone: each reversed, last first.
pub open spec fn undo_seq(nts: Seq<NormalizedTurn>) -> Seq<NormalizedTurn> {
    Seq::new(nts.len(), |i: int| nts[nts.len() - 1 - i].reversed())
}

/// Turning by a sequence of turns and then by one more is turning by the
/// longer sequence.
pub proof fn lemma_turned_all_push(m: Map<Seq<i16>, i16>, nts: Seq<NormalizedTurn>, nt: NormalizedTurn)
    ensures
        turned_all(m, nts.push(nt)) == turned(turned_all(m, nts), nt),
        moved_all_step(nts, nt),
{
    assert(nts.push(nt).drop_last() =~= nts);
}

/// Moving a position by a sequence of turns and then by one more is moving
/// it by the longer sequence.
pub open spec fn moved_all_step(nts: Seq<NormalizedTurn>, nt: NormalizedTurn) -> bool {
    forall|p: Seq<i16>| #[trigger] moved_all(p, nts.push(nt)) == nt.moved(moved_all(p, nts))
}

/// Turning by two sequences in a row is turning by their concatenation.
pub proof fn lemma_turned_all_concat(
    m: Map<Seq<i16>, i16>,
    a: Seq<NormalizedTurn>,
    b: Seq<NormalizedTurn>,
)
    ensures
        turned_all(turned_all(m, a), b) == turned_all(m, a + b),
    decreases b.len(),
{
    if b.len() == 0 {
        assert(a + b =~= a);
    } else {
        lemma_turned_all_concat(m, a, b.drop_last());
        assert((a + b).drop_last() =~= a + b.drop_last());
    }
}

/// Moving by two sequences in a row is moving by their concatenation.
pub proof fn lemma_moved_all_concat(p: Seq<i16>, a: Seq<NormalizedTurn>, b: Seq<NormalizedTurn>)
    ensures
        moved_all(moved_all(p, a), b) == moved_all(p, a + b),
    decreases b.len(),
{
    if b.len() == 0 {
        assert(a + b =~= a);
    } else {
        lemma_moved_all_concat(p, a, b.drop_last());
        assert((a + b).drop_last() =~= a + b.drop_last());
    }
}

/// Turning the stickers of a puzzle by a sequence of turns and then by
/// their undoing restores them.
pub proof fn lemma_undo_restores(n: i16, d: u16, m: Map<Seq<i16>, i16>, nts: Seq<NormalizedTurn>)
    requires
        n > i16::MIN,
        m.dom() == position_set(n, d),
        forall|i: int| 0 <= i < nts.len() ==> (#[trigger] nts[i]).fits(d as int),
    ensures
        turned_all(turned_all(m, nts), undo_seq(nts)) == m,
    decreases nts.len(),
{
    if nts.len() > 0 {
        let ns = nts.drop_last();
        let t = nts.last();
        let mid = turned_all(m, ns);
        lemma_turned_all_dom(m, ns);
        assert(undo_seq(nts) =~= seq![t.reversed()] + undo_seq(ns));
        lemma_turned_all_concat(turned_all(m, nts), seq![t.reversed()], undo_seq(ns));
        assert(seq![t.reversed()].drop_last() =~= Seq::<NormalizedTurn>::empty());
        lemma_turn_then_reverse(n, d, mid, t);
        lemma_undo_restores(n, d, m, ns);
        let x = turned_all(m, nts);
        assert(x == turned(mid, t));
        assert(turned_all(x, seq![t.reversed()]) == turned(turned_all(x, Seq::empty()), t.reversed()));
        assert(turned_all(x, seq![t.reversed()]) == mid);
        assert(turned_all(x, undo_seq(nts)) == turned_all(mid, undo_seq(ns)));
    }
}

/// Moving a position of the puzzle by a sequence of turns and then by
/// their undoing brings it back.
pub proof fn lemma_undo_moves_back(n: i16, d: u16, p: Seq<i16>, nts: Seq<NormalizedTurn>)
    requires
        n > i16::MIN,
        is_position(n, d, p),
        forall|i: int| 0 <= i < nts.len() ==> (#[trigger] nts[i]).fits(d as int),
    ensures
        moved_all(moved_all(p, nts), undo_seq(nts)) == p,
        is_position(n, d, moved_all(p, nts)),
    decreases nts.len(),
{
    if nts.len() > 0 {
        let ns = nts.drop_last();
        let t = nts.last();
        lemma_undo_moves_back(n, d, p, ns);
        let mid = moved_all(p, ns);
        lemma_turn_closed(n, d, t, mid);
        lemma_position_coords(n, d, mid);
        crate::turns::lemma_moved_source(t, mid);
        assert(undo_seq(nts) =~= seq![t.reversed()] + undo_seq(ns));
        lemma_moved_all_concat(moved_all(p, nts), seq![t.reversed()], undo_seq(ns));
        assert(seq![t.reversed()].drop_last() =~= Seq::<NormalizedTurn>::empty());
        let f = t.from_axis();
        let g = t.to_axis();
        if t.moves(mid) {
            assert(t.reversed().moves(t.moved(mid)));
            assert(quarter_forward(quarter_forward(mid, f, g), g, f) =~= mid);
        }
        let x = moved_all(p, nts);
        assert(x == t.moved(mid));
        assert(t.reversed().moved(x) == mid);
        assert(moved_all(x, seq![t.reversed()]) == t.reversed().moved(moved_all(x, Seq::empty())));
        assert(moved_all(x, seq![t.reversed()]) == mid);
        assert(moved_all(x, undo_seq(nts)) == moved_all(mid, undo_seq(ns)));
    }
}

} // verus!
