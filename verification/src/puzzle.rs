//! The state of an `n^d` puzzle: the colour of every sticker, and the
//! turns that permute them.

use vstd::prelude::*;
use std::collections::HashMap;
use itertools::Itertools;
use crate::enumeration::{
    grid_seq, lemma_face_unique, lemma_grid, lemma_pairs_elems, lemma_pairs_index,
    lemma_position_as_rotation, lemma_power_complete, lemma_power_elems, lemma_rotr_position,
    lemma_rotr_step, pairs_seq, power_seq, rotr,
};
use crate::cycles::{
    apply_cycles_to_permutation, copy_indices, cycles_cover, cycles_of, in_cycles, is_perm,
    lemma_add_cycle, lemma_cover_complete, marks_closed, nested, next_in, trace_cycle,
};
use crate::geometry::{
    face_at, in_grid, turn_applies, all_layers_widen, all_normalize, is_position, lemma_moves_prefix, lemma_position_coords,
    lemma_turn_closed, moved_all, moves_defined, normalize_all, position_set, turned, turned_all,
};
use crate::stickers::{copy_position, lemma_same_storage, StickerMap};
use crate::turns::{ax, axis_index_in, normalize, NormalizedTurn};
pub use crate::turns::{PuzzleTurn, SideTurn, Turn};
use rand::rngs::ThreadRng;
use rand::seq::SliceRandom;
use rand::Rng;

verus! {

broadcast use vstd::std_specs::hash::group_hash_axioms;

/// An `n^d` puzzle: `stickers` holds the colour of every sticker position.
#[derive(Clone, Debug)]
pub struct Puzzle {
    pub n: i16,
    pub d: u16,
    pub stickers: StickerMap,
}

/// `|x|` as an integer.
pub open spec fn abs_of(x: i16) -> int {
    if x < 0 {
        -x
    } else {
        x as int
    }
}

/// The first index at or after `k` whose coordinate has absolute value `n`.
pub open spec fn first_abs_from(n: i16, p: Seq<i16>, k: int) -> Option<int>
    decreases p.len() - k,
{
    if k < 0 || k >= p.len() {
        None
    } else if abs_of(p[k]) == n {
        Some(k)
    } else {
        first_abs_from(n, p, k + 1)
    }
}

/// The first index whose coordinate has absolute value `n`.
pub open spec fn first_abs(n: i16, p: Seq<i16>) -> Option<int> {
    first_abs_from(n, p, 0)
}

/// The coordinates that a scan for the first `|x| == n` reads are not
/// `i16::MIN`.
pub open spec fn abs_scan_defined(n: i16, p: Seq<i16>) -> bool {
    forall|i: int|
        0 <= i < p.len() && (forall|j: int| 0 <= j < i ==> abs_of(#[trigger] p[j]) != n) ==> p[i]
            != i16::MIN
}

/// The face a sticker at `p` shows: the axis of its first coordinate with
/// absolute value `n`, and whether that coordinate is negative.
pub open spec fn face_key(n: i16, p: Seq<i16>) -> (int, bool) {
    let i = first_abs(n, p)->0;
    (i, p[i] < 0)
}

/// All stickers on the same face have the same colour.
pub open spec fn is_solved_map(n: i16, m: Map<Seq<i16>, i16>) -> bool {
    forall|p: Seq<i16>, q: Seq<i16>|
        #![trigger m[p], m[q]]
        m.dom().contains(p) && m.dom().contains(q) && face_key(n, p) == face_key(n, q) ==> m[p]
            == m[q]
}

/// The piece that a sticker at `piece` belongs to: the first coordinate
/// with absolute value `n` is moved one step towards the centre.
pub open spec fn body_of(n: i16, piece: Seq<i16>) -> Seq<i16> {
    match first_abs(n, piece) {
        Some(i) => piece.update(
            i,
            if piece[i] == n {
                (n - 1) as i16
            } else {
                (piece[i] + 1) as i16
            },
        ),
        None => piece,
    }
}

/// The stickers that coordinate `i` of the piece at `piece` shows, as
/// `body_colors` lists them.
pub open spec fn coordinate_colors(m: Map<Seq<i16>, i16>, n: i16, piece: Seq<i16>, i: int) -> Seq<
    i16,
> {
    if piece[i] == n - 1 {
        let c = m[piece.update(i, n)];
        if n == 1 {
            seq![c, (-1 - c) as i16]
        } else {
            seq![c]
        }
    } else if piece[i] == -(n - 1) {
        let c = m[piece.update(i, (-n) as i16)];
        if n == 1 {
            seq![c, (-1 - c) as i16]
        } else {
            seq![c]
        }
    } else {
        Seq::empty()
    }
}

/// The colours of the stickers of the piece at `piece`, axis by axis over
/// the first `k` coordinates. On an axis where the piece touches the
/// positive (or else the negative) outer layer, the sticker beyond it is
/// listed; a piece of a `1^d` puzzle also lists the complement of that
/// colour, for the opposite sticker.
pub open spec fn body_colors(m: Map<Seq<i16>, i16>, n: i16, piece: Seq<i16>, k: int) -> Seq<i16>
    decreases k,
{
    if k <= 0 {
        Seq::empty()
    } else {
        body_colors(m, n, piece, k - 1) + coordinate_colors(m, n, piece, k - 1)
    }
}

/// Every sticker that `body_colors` looks up exists, and the arithmetic on
/// `n` stays within `i16`.
pub open spec fn body_lookups_defined(m: Map<Seq<i16>, i16>, n: i16, piece: Seq<i16>) -> bool {
    &&& piece.len() > 0 ==> n > i16::MIN
    &&& (exists|i: int| 0 <= i < piece.len() && piece[i] != n - 1) ==> n > i16::MIN + 1
    &&& forall|i: int|
        0 <= i < piece.len() ==> {
            &&& #[trigger] piece[i] == n - 1 ==> m.dom().contains(piece.update(i, n))
            &&& piece[i] != n - 1 && piece[i] == -(n - 1) ==> m.dom().contains(
                piece.update(i, (-n) as i16),
            )
        }
}

/// The colour of the sticker at `p` on a solved `n^d` puzzle: the number
/// of the axis it lies on, complemented (`!i`, that is `-1 - i`) on the
/// negative side. A one-dimensional puzzle colours `[n]` with `0` and
/// `[-n]` with `!0`.
pub open spec fn solved_color(n: i16, d: u16, p: Seq<i16>) -> i16 {
    if d == 1 {
        if p[0] == n {
            0i16
        } else {
            -1i16
        }
    } else {
        let i = choose|i: int| 0 <= i < d && #[trigger] face_at(n, p, i);
        if p[i] >= 0 {
            i as i16
        } else {
            (-1 - i) as i16
        }
    }
}

/// The stickers of the solved `n^d` puzzle.
pub open spec fn solved_map(n: i16, d: u16) -> Map<Seq<i16>, i16> {
    Map::new(|p: Seq<i16>| position_set(n, d).contains(p), |p: Seq<i16>| solved_color(n, d, p))
}

/// All sequences of length `k` over `values`, the first element varying
/// slowest: `itertools::repeat_n(values, k).multi_cartesian_product()`.
/// The contract claims the order and contents that the itertools
/// documentation gives for `multi_cartesian_product` (a single empty vector
/// when `k` is zero).
#[verifier::external_body]
fn cartesian_power(values: &Vec<i16>, k: usize) -> (r: Vec<Vec<i16>>)
    ensures
        r@.len() == power_seq(values@, k as nat).len(),
        forall|i: int| 0 <= i < r@.len() ==> #[trigger] r@[i]@ == power_seq(values@, k as nat)[i],
{
    itertools::repeat_n(values.clone(), k).multi_cartesian_product().collect()
}

/// All pairs of an element of `a` and an element of `b`, the first
/// component varying slowest: `a.into_iter().cartesian_product(b)` of
/// itertools. The contract claims the order and contents that the itertools
/// documentation gives.
#[verifier::external_body]
fn cartesian_pairs(a: Vec<i16>, b: Vec<Vec<i16>>) -> (r: Vec<(i16, Vec<i16>)>)
    ensures
        r@.len() == pairs_seq(a@, b@.map_values(|c: Vec<i16>| c@)).len(),
        forall|i: int|
            0 <= i < r@.len() ==> (#[trigger] r@[i]).0 == pairs_seq(
                a@,
                b@.map_values(|c: Vec<i16>| c@),
            )[i].0 && r@[i].1@ == pairs_seq(a@, b@.map_values(|c: Vec<i16>| c@))[i].1,
{
    a.into_iter().cartesian_product(b).collect()
}

/// The grid coordinates `-n+1, -n+3, ..., n-1`.
fn grid_values(n: i16) -> (r: Vec<i16>)
    requires
        n > i16::MIN,
    ensures
        r@ == grid_seq(n),
{
    let mut r: Vec<i16> = Vec::new();
    let mut x: i32 = -(n as i32) + 1;
    while x < n as i32
        invariant
            n > i16::MIN,
            x == -n + 1 + 2 * r@.len(),
            r@.len() <= (if n > 0 { n as int } else { 0 }),
            forall|k: int| 0 <= k < r@.len() ==> #[trigger] r@[k] == -n + 1 + 2 * k,
        decreases n as int + 2 - x,
    {
        r.push(x as i16);
        x = x + 2;
    }
    assert(r@ =~= grid_seq(n));
    r
}

/// The thread-local random number generator of `rand`.
#[verifier::external_type_specification]
#[verifier::external_body]
pub struct ExThreadRng(ThreadRng);

/// A number drawn from `0..n`: `rng.gen_range(0..n)` of `rand`, which
/// panics on an empty range (hence `n > 0`). Which number comes out is left
/// to chance; the contract claims only that it lies in the range.
#[verifier::external_body]
fn random_below(rng: &mut ThreadRng, n: i16) -> (r: i16)
    requires
        n > 0,
    ensures
        0 <= r < n,
{
    rng.gen_range(0..n)
}

/// Shuffles `axes` in place: `SliceRandom::shuffle` of `rand`, which swaps
/// elements (a Fisher-Yates shuffle). The order that comes out is left to
/// chance; the contract claims only that the same elements remain.
#[verifier::external_body]
fn shuffle_axes(axes: &mut Vec<i16>, rng: &mut ThreadRng)
    ensures
        final(axes)@.len() == old(axes)@.len(),
        final(axes)@.to_multiset() == old(axes)@.to_multiset(),
{
    axes.shuffle(rng);
}

/// The side turn that a scrambling move makes from shuffled axes and a
/// random layer pick: side `axes[0]`, the single layer `n - 1 - 2 * pick`,
/// from `axes[1]` to `axes[2]`.
pub open spec fn scramble_turn(axes: Seq<i16>, n: i16, pick: i16) -> Turn {
    let layer = (n - 1 - 2 * pick) as i16;
    Turn::Side(SideTurn { side: axes[0], layer_min: layer, layer_max: layer, from: axes[1], to: axes[2] })
}

/// The axes `0, 1, ..., d - 1`, in some order.
pub open spec fn is_axis_order(axes: Seq<i16>, d: u16) -> bool {
    axes.to_multiset() == Seq::new(d as nat, |i: int| i as i16).to_multiset()
}

/// A scrambling move of an `n^d` puzzle: the side turn made from some order
/// of the axes and some layer pick below `n`.
pub open spec fn is_scramble_move(t: Turn, n: i16, d: u16) -> bool {
    exists|axes: Seq<i16>, pick: i16|
        is_axis_order(axes, d) && 0 <= pick < n && t == #[trigger] scramble_turn(axes, n, pick)
}

/// The stickers after the turns `ts`, first to last; a turn that the
/// puzzle refuses leaves them as they are.
pub open spec fn applied_all(m: Map<Seq<i16>, i16>, ts: Seq<Turn>, d: u16) -> Map<Seq<i16>, i16>
    decreases ts.len(),
{
    if ts.len() == 0 {
        m
    } else {
        let before = applied_all(m, ts.drop_last(), d);
        match normalize(ts.last(), d) {
            Some(nt) => turned(before, nt),
            None => before,
        }
    }
}

/// A freshly made puzzle is solved.
pub proof fn lemma_solved_is_solved(n: i16, d: u16)
    requires
        n > i16::MIN,
        d >= 1,
        n >= 0 || d >= 2,
    ensures
        is_solved_map(n, solved_map(n, d)),
{
    let m = solved_map(n, d);
    assert forall|p: Seq<i16>, q: Seq<i16>|
        #![trigger m[p], m[q]]
        m.dom().contains(p) && m.dom().contains(q) && face_key(n, p) == face_key(n, q) implies m[p]
        == m[q] by {
        lemma_position_face(n, d, p);
        lemma_position_face(n, d, q);
        let j = first_abs(n, p)->0;
        if d >= 2 {
            let ip = choose|i: int| 0 <= i < d && #[trigger] face_at(n, p, i);
            let iq = choose|i: int| 0 <= i < d && #[trigger] face_at(n, q, i);
            lemma_face_unique(n, p, ip, j);
            lemma_face_unique(n, q, iq, j);
        }
    }
}

/// For each sticker index, the index the turn brings its sticker from
/// (the index itself when the turn does not move it).
pub open spec fn source_index_map(st: StickerMap, nt: NormalizedTurn) -> Seq<usize> {
    Seq::new(
        st.count(),
        |x: int|
            match nt.source_of(st.key(x)) {
                Some(q) => st.index_for(q) as usize,
                None => x as usize,
            },
    )
}

/// Each of the turns `ts` that dimension `d` accepts applies to the
/// stickers `m`.
pub open spec fn all_apply(m: Map<Seq<i16>, i16>, ts: Seq<Turn>, d: u16) -> bool {
    forall|i: int|
        0 <= i < ts.len() && normalize(#[trigger] ts[i], d) is Some ==> turn_applies(
            m,
            normalize(ts[i], d)->0,
        )
}

/// The sources of a turn form a permutation of the sticker indices, and
/// each index's source holds the source position.
pub proof fn lemma_source_perm(p: Puzzle, nt: NormalizedTurn)
    requires
        p.stickers.wf(),
        nt.fits(p.d as int),
        turn_applies(p.stickers@, nt),
    ensures
        is_perm(source_index_map(p.stickers, nt)),
        forall|x: int|
            0 <= x < p.stickers.count() ==> #[trigger] p.stickers.key(
                source_index_map(p.stickers, nt)[x] as int,
            ) == match nt.source_of(p.stickers.key(x)) {
                Some(q) => q,
                None => p.stickers.key(x),
            },
{
    let st = p.stickers;
    let sm = source_index_map(st, nt);
    assert forall|x: int| 0 <= x < st.count() implies #[trigger] sm[x] < st.count() && st.key(
        sm[x] as int,
    ) == match nt.source_of(st.key(x)) {
        Some(q) => q,
        None => st.key(x),
    } by {
        st.lemma_index(x);
        lemma_applies_at(st, nt, x);
        if let Some(q) = nt.source_of(st.key(x)) {
            st.lemma_key(q);
        }
    }
    assert forall|x: int, y: int|
        0 <= x < sm.len() && 0 <= y < sm.len() && #[trigger] sm[x] == #[trigger] sm[y] implies x
        == y by {
        lemma_source_injective(p, nt, x, y);
    }
}

/// What a turn that applies to the stickers reads of the `x`-th sticker.
proof fn lemma_applies_at(st: StickerMap, nt: NormalizedTurn, x: int)
    requires
        st.wf(),
        turn_applies(st@, nt),
        0 <= x < st.count(),
    ensures
        nt.source_defined(st.key(x)),
        nt.source_of(st.key(x)) matches Some(s) ==> st@.dom().contains(s),
        st.key(x).len() <= usize::MAX,
{
    reveal(turn_applies);
    st.lemma_index(x);
    assert(st@.dom().contains(st.key(x)));
}

/// A quarter turn read backwards is one to one.
proof fn lemma_quarter_source_injective(a: Seq<i16>, b: Seq<i16>, f: int, g: int)
    requires
        0 <= f < a.len(),
        0 <= g < a.len(),
        f != g,
        a.len() == b.len(),
        a[f] != i16::MIN,
        b[f] != i16::MIN,
        crate::turns::quarter_source(a, f, g) == crate::turns::quarter_source(b, f, g),
    ensures
        a == b,
{
    let qa = crate::turns::quarter_source(a, f, g);
    let qb = crate::turns::quarter_source(b, f, g);
    assert(qa[f] == a[g] && qb[f] == b[g]);
    assert(qa[g] == -a[f] && qb[g] == -b[f]);
    assert forall|k: int| 0 <= k < a.len() implies a[k] == b[k] by {
        if k != f && k != g {
            assert(qa[k] == a[k] && qb[k] == b[k]);
        }
    }
    assert(a =~= b);
}

/// Two sticker indices with the same source under a turn are the same.
proof fn lemma_source_injective(p: Puzzle, nt: NormalizedTurn, x: int, y: int)
    requires
        p.stickers.wf(),
        nt.fits(p.d as int),
        turn_applies(p.stickers@, nt),
        0 <= x < p.stickers.count(),
        0 <= y < p.stickers.count(),
        source_index_map(p.stickers, nt)[x] == source_index_map(p.stickers, nt)[y],
    ensures
        x == y,
{
    let st = p.stickers;
    let kx = st.key(x);
    let ky = st.key(y);
    lemma_applies_at(st, nt, x);
    lemma_applies_at(st, nt, y);
    st.lemma_index(x);
    st.lemma_index(y);
    let f = nt.from_axis();
    let g = nt.to_axis();
    let qx = crate::turns::quarter_source(kx, f, g);
    let qy = crate::turns::quarter_source(ky, f, g);
    if nt.moves(kx) {
        st.lemma_key(qx);
    }
    if nt.moves(ky) {
        st.lemma_key(qy);
    }
    if nt.moves(kx) && nt.moves(ky) {
        assert(st.key(st.index_for(qx)) == qx);
        assert(st.key(st.index_for(qy)) == qy);
        assert(qx == qy);
        assert(qx.len() == kx.len() && qy.len() == ky.len());
        lemma_quarter_source_injective(kx, ky, f, g);
    } else if nt.moves(kx) {
        assert(st.key(st.index_for(qx)) == qx);
        assert(qx == ky);
        if nt is Side {
            assert(qx[nt->side as int] == kx[nt->side as int]);
        }
    } else if nt.moves(ky) {
        assert(st.key(st.index_for(qy)) == qy);
        assert(qy == kx);
        if nt is Side {
            assert(qy[nt->side as int] == ky[nt->side as int]);
        }
    }
}

/// Turning a puzzle by `t` and then by the inverse of `t` gives back its
/// stickers.
pub proof fn lemma_turn_then_inverse(p: Puzzle, t: Turn)
    requires
        p.wf(),
        normalize(t, p.d) is Some,
    ensures
        normalize(t.inverted(), p.d) is Some,
        turned(
            turned(p.stickers@, normalize(t, p.d)->0),
            normalize(t.inverted(), p.d)->0,
        ) == p.stickers@,
{
    crate::turns::lemma_normalize_inverse(t, p.d);
    crate::turns::lemma_normalize_fits(t, p.d);
    crate::geometry::lemma_turn_then_reverse(p.n, p.d, p.stickers@, normalize(t, p.d)->0);
}

/// The turns `ts` undone: each inverted, last first.
pub open spec fn undo_turns(ts: Seq<Turn>) -> Seq<Turn> {
    Seq::new(ts.len(), |i: int| ts[ts.len() - 1 - i].inverted())
}

/// Applying turns to a puzzle and then their inverses in reverse order
/// gives back its stickers; the inverses are all accepted.
pub proof fn lemma_turns_then_undo(p: Puzzle, ts: Seq<Turn>)
    requires
        p.wf(),
        all_normalize(ts, p.d),
    ensures
        all_normalize(undo_turns(ts), p.d),
        normalize_all(undo_turns(ts), p.d) == crate::geometry::undo_seq(normalize_all(ts, p.d)),
        turned_all(
            turned_all(p.stickers@, normalize_all(ts, p.d)),
            normalize_all(undo_turns(ts), p.d),
        ) == p.stickers@,
{
    let d = p.d;
    let nts = normalize_all(ts, d);
    assert forall|i: int| 0 <= i < ts.len() implies (#[trigger] nts[i]).fits(d as int) by {
        crate::turns::lemma_normalize_fits(ts[i], d);
        assert(normalize(ts[i], d) is Some);
    }
    assert forall|i: int| 0 <= i < undo_turns(ts).len() implies #[trigger] normalize(
        undo_turns(ts)[i],
        d,
    ) is Some by {
        crate::turns::lemma_normalize_inverse(ts[ts.len() - 1 - i], d);
        assert(normalize(ts[ts.len() - 1 - i], d) is Some);
    }
    assert forall|i: int| 0 <= i < ts.len() implies normalize_all(undo_turns(ts), d)[i]
        == crate::geometry::undo_seq(nts)[i] by {
        crate::turns::lemma_normalize_inverse(ts[ts.len() - 1 - i], d);
        assert(normalize(ts[ts.len() - 1 - i], d) is Some);
    }
    assert(normalize_all(undo_turns(ts), d) =~= crate::geometry::undo_seq(nts));
    crate::geometry::lemma_undo_restores(p.n, d, p.stickers@, nts);
}

/// Positions move back under the undoing turns: a sticker position moved
/// by turns and then by their inverses in reverse order is where it
/// started.
pub proof fn lemma_positions_undo(p: Puzzle, ts: Seq<Turn>, pos: Seq<i16>)
    requires
        p.wf(),
        all_normalize(ts, p.d),
        p.stickers@.dom().contains(pos),
    ensures
        moved_all(moved_all(pos, normalize_all(ts, p.d)), normalize_all(undo_turns(ts), p.d))
            == pos,
{
    lemma_turns_then_undo(p, ts);
    let nts = normalize_all(ts, p.d);
    assert forall|i: int| 0 <= i < nts.len() implies (#[trigger] nts[i]).fits(p.d as int) by {
        crate::turns::lemma_normalize_fits(ts[i], p.d);
        assert(normalize(ts[i], p.d) is Some);
    }
    crate::geometry::lemma_undo_moves_back(p.n, p.d, pos, nts);
}

/// `turn_position` follows a sticker: after `turn`, the sticker that was at
/// `pos` is at the position that `turn_position` moves `pos` to.
pub proof fn lemma_turn_position_tracks(p: Puzzle, t: Turn, pos: Seq<i16>)
    requires
        p.wf(),
        normalize(t, p.d) is Some,
        p.stickers@.dom().contains(pos),
    ensures
        turned(p.stickers@, normalize(t, p.d)->0).dom().contains(
            (normalize(t, p.d)->0).moved(pos),
        ),
        turned(p.stickers@, normalize(t, p.d)->0)[(normalize(t, p.d)->0).moved(pos)]
            == p.stickers@[pos],
{
    crate::turns::lemma_normalize_fits(t, p.d);
    crate::geometry::lemma_turn_carries_sticker(p.n, p.d, p.stickers@, normalize(t, p.d)->0, pos);
}

/// Whether `|x| == n`.
fn has_abs(x: i16, n: i16) -> (r: bool)
    requires
        x != i16::MIN,
    ensures
        r == (abs_of(x) == n),
{
    let a = if x < 0 {
        -x
    } else {
        x
    };
    a == n
}

/// The face of a sticker as a single number: twice the axis, plus one on
/// the negative side.
pub open spec fn face_code(n: i16, p: Seq<i16>) -> u128 {
    let i = first_abs(n, p)->0;
    if p[i] < 0 {
        (2 * i + 1) as u128
    } else {
        (2 * i) as u128
    }
}

/// Every sticker lies on a face: its position has a coordinate of absolute
/// value `n`, and the scan for the first one reads no `i16::MIN`.
pub open spec fn stickers_on_faces(n: i16, m: Map<Seq<i16>, i16>) -> bool {
    forall|p: Seq<i16>|
        #[trigger] m.dom().contains(p) ==> first_abs(n, p) is Some && abs_scan_defined(n, p)
}

/// The stickers of a well-formed puzzle lie on faces (unless `n` is
/// negative on a one-dimensional puzzle).
pub proof fn lemma_wf_on_faces(p: Puzzle)
    requires
        p.wf(),
        p.n >= 0 || p.d >= 2,
    ensures
        stickers_on_faces(p.n, p.stickers@),
{
    assert forall|q: Seq<i16>| #[trigger] p.stickers@.dom().contains(q) implies first_abs(p.n, q) is Some
        && abs_scan_defined(p.n, q) by {
        lemma_position_face(p.n, p.d, q);
        lemma_position_coords(p.n, p.d, q);
    }
}

/// Every turn that fits the dimension applies to the stickers of a
/// well-formed puzzle.
pub proof fn lemma_wf_turn_applies(p: Puzzle, nt: NormalizedTurn)
    requires
        p.wf(),
        nt.fits(p.d as int),
    ensures
        turn_applies(p.stickers@, nt),
{
    reveal(turn_applies);
    assert forall|q: Seq<i16>| #[trigger] p.stickers@.dom().contains(q) implies nt.source_defined(q) && (
    nt.source_of(q) matches Some(s) ==> p.stickers@.dom().contains(s)) by {
        lemma_turn_closed(p.n, p.d, nt, q);
    }
}

/// Every turn that a well-formed puzzle accepts applies to its stickers.
pub proof fn lemma_wf_all_apply(p: Puzzle, ts: Seq<Turn>)
    requires
        p.wf(),
    ensures
        all_apply(p.stickers@, ts, p.d),
{
    assert forall|i: int| 0 <= i < ts.len() && normalize(#[trigger] ts[i], p.d) is Some implies turn_applies(
        p.stickers@,
        normalize(ts[i], p.d)->0,
    ) by {
        crate::turns::lemma_normalize_fits(ts[i], p.d);
        lemma_wf_turn_applies(p, normalize(ts[i], p.d)->0);
    }
}

/// Every scrambling move that an `n^d` puzzle accepts applies to the
/// stickers `m`.
pub open spec fn scramble_moves_apply(m: Map<Seq<i16>, i16>, n: i16, d: u16) -> bool {
    forall|axes: Seq<i16>, pick: i16|
        is_axis_order(axes, d) && 0 <= pick < n && (#[trigger] normalize(scramble_turn(axes, n, pick), d))
            is Some ==> turn_applies(m, normalize(scramble_turn(axes, n, pick), d)->0)
}

/// Whether a turn applies depends only on which positions are stored.
pub proof fn lemma_turn_applies_dom(m1: Map<Seq<i16>, i16>, m2: Map<Seq<i16>, i16>, nt: NormalizedTurn)
    requires
        m1.dom() == m2.dom(),
        turn_applies(m1, nt),
    ensures
        turn_applies(m2, nt),
{
    reveal(turn_applies);
}

/// Every scrambling move applies to the stickers of a well-formed puzzle.
pub proof fn lemma_wf_scramble_moves_apply(p: Puzzle)
    requires
        p.wf(),
    ensures
        scramble_moves_apply(p.stickers@, p.n, p.d),
{
    assert forall|axes: Seq<i16>, pick: i16|
        is_axis_order(axes, p.d) && 0 <= pick < p.n && (#[trigger] normalize(
            scramble_turn(axes, p.n, pick),
            p.d,
        )) is Some implies turn_applies(p.stickers@, normalize(scramble_turn(axes, p.n, pick), p.d)->0) by {
        crate::turns::lemma_normalize_fits(scramble_turn(axes, p.n, pick), p.d);
        lemma_wf_turn_applies(p, normalize(scramble_turn(axes, p.n, pick), p.d)->0);
    }
}

/// What a scan from `k` finds has absolute value `n` and lies at or after
/// `k`.
pub proof fn lemma_first_abs_bounds(n: i16, p: Seq<i16>, k: int)
    ensures
        first_abs_from(n, p, k) matches Some(j) ==> k <= j < p.len() && abs_of(p[j]) == n,
    decreases p.len() - k,
{
    if 0 <= k < p.len() && abs_of(p[k]) != n {
        lemma_first_abs_bounds(n, p, k + 1);
    }
}

/// A scan from `k` finds an index with `|p[i]| == n` when one exists at or
/// after `k`.
pub proof fn lemma_first_abs_found(n: i16, p: Seq<i16>, k: int, i: int)
    requires
        0 <= k <= i < p.len(),
        abs_of(p[i]) == n,
    ensures
        first_abs_from(n, p, k) matches Some(j) && k <= j <= i && abs_of(p[j]) == n && forall|l: int|
            k <= l < j ==> abs_of(#[trigger] p[l]) != n,
    decreases i - k,
{
    if abs_of(p[k]) != n {
        lemma_first_abs_found(n, p, k + 1, i);
    }
}

/// Every position of a puzzle with `n >= 0` has a coordinate with
/// absolute value `n`; a puzzle of dimension two or more with a position
/// has `n >= 1`.
pub proof fn lemma_position_face(n: i16, d: u16, p: Seq<i16>)
    requires
        n > i16::MIN,
        is_position(n, d, p),
        n >= 0 || d >= 2,
    ensures
        n >= 0,
        d >= 2 ==> n >= 1,
        first_abs(n, p) matches Some(j) && 0 <= j < p.len() && abs_of(p[j]) == n && face_at(n, p, j),
{
    let i = choose|i: int| 0 <= i < d && #[trigger] face_at(n, p, i);
    if d >= 2 {
        let other = if i == 0 { 1int } else { 0int };
        assert(in_grid(n, p[other]));
    }
    lemma_first_abs_found(n, p, 0, i);
    let j = first_abs(n, p)->0;
    if j != i {
        assert(in_grid(n, p[j]));
    }
}

/// What applying cycles to a permutation does, stated over the cycles read
/// as sequences.
proof fn lemma_nested_apply(cycles: Seq<Vec<usize>>, p0: Seq<usize>, p1: Seq<usize>)
    requires
        p1.len() == p0.len(),
        forall|a: int, i: int|
            0 <= a < cycles.len() && 0 <= i < cycles[a]@.len() ==> p1[cycles[a]@[i] as int]
                == p0[next_in(cycles[a]@, i) as int],
        forall|x: usize|
            x < p0.len() && !in_cycles(nested(cycles), x) ==> p1[x as int] == p0[x as int],
    ensures
        forall|a: int, i: int|
            0 <= a < nested(cycles).len() && 0 <= i < nested(cycles)[a].len() ==> #[trigger] p1[nested(
                cycles,
            )[a][i] as int] == p0[next_in(nested(cycles)[a], i) as int],
{
    assert forall|a: int, i: int|
        0 <= a < nested(cycles).len() && 0 <= i < nested(cycles)[a].len() implies #[trigger] p1[nested(
        cycles,
    )[a][i] as int] == p0[next_in(nested(cycles)[a], i) as int] by {
        assert(nested(cycles)[a] == cycles[a]@);
    }
}

/// One step of the batch: after applying the cycles of a turn's source
/// permutation, each index's entry of the permutation leads to the colour
/// that the turned stickers show there.
#[verifier::rlimit(60)]
proof fn lemma_batch_step(
    p: Puzzle,
    nt: NormalizedTurn,
    m: Map<Seq<i16>, i16>,
    old_colors: Seq<i16>,
    p0: Seq<usize>,
    p1: Seq<usize>,
    used: Seq<Seq<usize>>,
)
    requires
        p.stickers.wf(),
        nt.fits(p.d as int),
        turn_applies(p.stickers@, nt),
        m.dom() == p.stickers@.dom(),
        cycles_of(used, source_index_map(p.stickers, nt)),
        p0.len() == p.stickers.count(),
        p1.len() == p0.len(),
        forall|x: int|
            0 <= x < p0.len() ==> #[trigger] p0[x] < p0.len() && old_colors[p0[x] as int]
                == m[p.stickers.key(x)],
        forall|a: int, i: int|
            0 <= a < used.len() && 0 <= i < used[a].len() ==> #[trigger] p1[used[a][i] as int]
                == p0[next_in(used[a], i) as int],
        forall|x: usize| x < p0.len() && !in_cycles(used, x) ==> p1[x as int] == p0[x as int],
    ensures
        forall|x: int|
            0 <= x < p1.len() ==> #[trigger] p1[x] < p1.len() && old_colors[p1[x] as int]
                == turned(m, nt)[p.stickers.key(x)],
{
    let sm = source_index_map(p.stickers, nt);
    lemma_source_perm(p, nt);
    p.stickers.lemma_count_bound();
    crate::cycles::lemma_apply_is_compose(used, sm, p0, p1);
    assert forall|x: int| 0 <= x < p1.len() implies #[trigger] p1[x] < p1.len() && old_colors[p1[x] as int]
        == turned(m, nt)[p.stickers.key(x)] by {
        assert(p1[x] == p0[sm[x] as int]);
        assert(sm[x] < p0.len());
        p.stickers.lemma_index(x);
    }
}

impl Puzzle {
    /// The puzzle's stickers are exactly the positions of the `n^d` puzzle.
    pub open spec fn wf(self) -> bool {
        &&& self.n > i16::MIN
        &&& self.d >= 1
        &&& self.stickers.wf()
        &&& self.stickers@.dom() == position_set(self.n, self.d)
    }

    /// The solved `n^d` puzzle: every sticker shows the colour of its face.
    pub fn make_solved(n: i16, d: u16) -> (r: Puzzle)
        requires
            n > i16::MIN,
            d >= 1,
        ensures
            r.wf(),
            r.n == n,
            r.d == d,
            r.stickers@ == solved_map(n, d),
    {
        if d == 1 {
            let mut stickers = StickerMap::new();
            let neg_n = -n;
            let low = vec![neg_n];
            let high = vec![n];
            assert(low@ =~= seq![neg_n]);
            assert(high@ =~= seq![n]);
            stickers.insert(low, -1);
            stickers.insert(high, 0);
            proof {
                let s = position_set(n, d);
                assert forall|p: Seq<i16>| #[trigger] s.contains(p) == (p == seq![n] || p == seq![(-n) as i16]) by {
                    if s.contains(p) {
                        let i = choose|i: int| 0 <= i < d && #[trigger] face_at(n, p, i);
                        assert(i == 0);
                        if p[0] == n {
                            assert(p =~= seq![n]);
                        } else {
                            assert(p =~= seq![(-n) as i16]);
                        }
                    }
                    if p == seq![n] {
                        assert(face_at(n, p, 0));
                    }
                    if p == seq![(-n) as i16] {
                        assert(face_at(n, p, 0));
                    }
                }
                assert(stickers@.dom() =~= s);
                assert(stickers@ =~= solved_map(n, d));
            }
            return Puzzle { n, d, stickers };
        }
        let grid = grid_values(n);
        let coords = cartesian_power(&grid, (d - 1) as usize);
        let ghost power = power_seq(grid_seq(n), (d - 1) as nat);
        let ghost cs = coords@.map_values(|c: Vec<i16>| c@);
        assert(cs =~= power);
        let neg_n = -n;
        let sides_vec = vec![n, neg_n];
        let ghost sides = seq![n, (-n) as i16];
        assert(sides_vec@ =~= sides);
        let pairs = cartesian_pairs(sides_vec, coords);
        let mut stickers = StickerMap::new();
        let fmax: i16 = if d <= 32767 {
            d as i16
        } else {
            0
        };
        proof {
            lemma_grid(n);
        }
        let mut k: usize = 0;
        while k < pairs.len()
            invariant
                n > i16::MIN,
                d >= 2,
                fmax == (if d <= 32767 { d as int } else { 0 }),
                pairs@.len() == pairs_seq(sides, power).len(),
                forall|i: int|
                    0 <= i < pairs@.len() ==> (#[trigger] pairs@[i]).0 == pairs_seq(sides, power)[i].0
                        && pairs@[i].1@ == pairs_seq(sides, power)[i].1,
                power == power_seq(grid_seq(n), (d - 1) as nat),
                sides == seq![n, (-n) as i16],
                forall|k: int| 0 <= k < grid_seq(n).len() ==> #[trigger] in_grid(n, grid_seq(n)[k]),
                k <= pairs@.len(),
                stickers.wf(),
                forall|p: Seq<i16>|
                    #[trigger] stickers@.dom().contains(p) ==> position_set(n, d).contains(p)
                        && stickers@[p] == solved_color(n, d, p),
                forall|idx: int, f: int|
                    0 <= idx < k && 0 <= f < fmax ==> stickers@.dom().contains(
                        #[trigger] rotr(seq![pairs@[idx].0] + pairs@[idx].1@, f),
                    ),
            decreases pairs@.len() - k,
        {
            let side = pairs[k].0;
            let ghost c = pairs@[k as int].1@;
            proof {
                lemma_pairs_elems(sides, power, k as int);
                let ci = choose|ci: int| 0 <= ci < power.len() && power[ci] == c;
                lemma_power_elems(grid_seq(n), (d - 1) as nat, ci);
                assert forall|j: int| 0 <= j < c.len() implies #[trigger] in_grid(n, c[j]) by {
                    assert(grid_seq(n).contains(c[j]));
                }
                assert(side == n || side == -n);
            }
            let mut pos: Vec<i16> = vec![side];
            let mut t: usize = 0;
            while t < pairs[k].1.len()
                invariant
                    k < pairs@.len(),
                    c == pairs@[k as int].1@,
                    t <= c.len(),
                    pos@ == seq![side] + c.subrange(0, t as int),
                decreases c.len() - t,
            {
                pos.push(pairs[k].1[t]);
                t = t + 1;
                assert(pos@ =~= seq![side] + c.subrange(0, t as int));
            }
            let ghost x = seq![side] + c;
            assert(pos@ =~= rotr(x, 0));
            let mut f: i16 = 0;
            while f < fmax
                invariant
                    n > i16::MIN,
                    d >= 2,
                    fmax == (if d <= 32767 { d as int } else { 0 }),
                    side == n || side == -n,
                    c.len() + 1 == d,
                    forall|j: int| 0 <= j < c.len() ==> #[trigger] in_grid(n, c[j]),
                    x == seq![side] + c,
                    0 <= f <= fmax,
                    pos@ == rotr(x, f as int),
                    stickers.wf(),
                    forall|p: Seq<i16>|
                        #[trigger] stickers@.dom().contains(p) ==> position_set(n, d).contains(p)
                            && stickers@[p] == solved_color(n, d, p),
                    forall|idx: int, g: int|
                        0 <= idx < k && 0 <= g < fmax ==> stickers@.dom().contains(
                            #[trigger] rotr(seq![pairs@[idx].0] + pairs@[idx].1@, g),
                        ),
                    k < pairs@.len(),
                    pairs@[k as int].0 == side,
                    pairs@[k as int].1@ == c,
                    forall|g: int| 0 <= g < f ==> stickers@.dom().contains(#[trigger] rotr(x, g)),
                decreases fmax - f,
            {
                let color = if side >= 0 {
                    f
                } else {
                    -1 - f
                };
                proof {
                    lemma_rotr_position(n, d, side, c, f as int);
                    let p = rotr(x, f as int);
                    let i = choose|i: int| 0 <= i < d && #[trigger] face_at(n, p, i);
                    assert(n >= 1) by {
                        assert(in_grid(n, c[0]));
                    }
                    lemma_face_unique(n, p, i, f as int);
                }
                stickers.insert(copy_position(pos.as_slice()), color);
                proof {
                    lemma_rotr_step(x, f as int);
                }
                let last = pos.pop().unwrap();
                pos.insert(0, last);
                f = f + 1;
            }
            k = k + 1;
        }
        proof {
            assert forall|p: Seq<i16>| position_set(n, d).contains(p) implies #[trigger] stickers@.dom().contains(p) by {
                let i = choose|i: int| 0 <= i < d && #[trigger] face_at(n, p, i);
                lemma_position_as_rotation(n, d, p, i);
                let c = p.subrange(i + 1, d as int) + p.subrange(0, i);
                assert forall|j: int| 0 <= j < c.len() implies grid_seq(n).contains(#[trigger] c[j]) by {
                    assert(in_grid(n, c[j]));
                }
                lemma_power_complete(grid_seq(n), (d - 1) as nat, c);
                let ci = choose|ci: int| 0 <= ci < power.len() && power[ci] == c;
                let si: int = if p[i] == n { 0 } else { 1 };
                assert(sides[si] == p[i]);
                lemma_pairs_index(sides, power, si, ci);
                let idx = si * power.len() + ci;
                assert(pairs@[idx].0 == p[i] && pairs@[idx].1@ == c);
                assert(stickers@.dom().contains(rotr(seq![pairs@[idx].0] + pairs@[idx].1@, i)));
            }
            assert(stickers@.dom() =~= position_set(n, d));
            assert(stickers@ =~= solved_map(n, d));
        }
        Puzzle { n, d, stickers }
    }

    /// Whether every face shows a single colour: all stickers whose first
    /// coordinate of absolute value `n` is on the same axis and side have
    /// the same colour.
    pub fn is_solved(&self) -> (r: bool)
        requires
            self.stickers.wf(),
            stickers_on_faces(self.n, self.stickers@),
        ensures
            r == is_solved_map(self.n, self.stickers@),
    {
        let ghost n = self.n;
        let mut side_colors: HashMap<u128, i16> = HashMap::new();
        assert(vstd::std_specs::hash::obeys_key_model::<u128>());
        assert(vstd::std_specs::hash::builds_valid_hashers::<std::collections::hash_map::RandomState>());
        let len = self.stickers.len();
        let colors = self.stickers.colors_in_order();
        let mut i: usize = 0;
        while i < len
            invariant
                self.stickers.wf(),
                n == self.n,
                stickers_on_faces(n, self.stickers@),
                len == self.stickers.count(),
                colors@.len() == len,
                forall|x: int| 0 <= x < len ==> #[trigger] colors@[x] == self.stickers.color(x),
                i <= len,
                forall|j: int|
                    0 <= j < i ==> side_colors@.dom().contains(face_code(n, #[trigger] self.stickers.key(j)))
                        && side_colors@[face_code(n, self.stickers.key(j))] == self.stickers.color(j),
                forall|k: u128|
                    #[trigger] side_colors@.dom().contains(k) ==> exists|j: int|
                        0 <= j < i && face_code(n, self.stickers.key(j)) == k,
            decreases len - i,
        {
            let pos = self.stickers.position_at(i);
            let color = colors[i];
            proof {
                self.stickers.lemma_index(i as int);
                assert(self.stickers@.dom().contains(pos@));
                lemma_first_abs_bounds(n, pos@, 0);
            }
            let mut side: usize = 0;
            while !has_abs(pos[side], self.n)
                invariant
                    n == self.n,
                    first_abs(n, pos@) matches Some(f) && side <= f < pos@.len(),
                    pos@.len() <= usize::MAX,
                    abs_scan_defined(n, pos@),
                    forall|j: int| 0 <= j < side ==> abs_of(#[trigger] pos@[j]) != n,
                    first_abs(n, pos@) == first_abs_from(n, pos@, side as int),
                decreases pos@.len() - side,
            {
                proof {
                    lemma_first_abs_bounds(n, pos@, side as int);
                    lemma_first_abs_bounds(n, pos@, side + 1);
                }
                side = side + 1;
            }
            assert(first_abs(n, pos@) == Some(side as int));
            let key: u128 = if pos[side] < 0 {
                2 * (side as u128) + 1
            } else {
                2 * (side as u128)
            };
            assert(key == face_code(n, pos@));
            let old_color = side_colors.insert(key, color);
            match old_color {
                Some(c) => {
                    if c != color {
                        proof {
                            let j = choose|j: int| 0 <= j < i && face_code(n, self.stickers.key(j)) == key;
                            self.stickers.lemma_index(j);
                            let p = self.stickers.key(j);
                            let q = pos@;
                            assert(self.stickers@.dom().contains(p));
                            lemma_first_abs_bounds(n, p, 0);
                            assert(pos@.len() == pos.len());
                            assert(face_key(n, p) == face_key(n, q));
                            assert(self.stickers@[p] != self.stickers@[q]);
                        }
                        return false;
                    }
                },
                None => {},
            }
            i = i + 1;
        }
        proof {
            assert forall|p: Seq<i16>, q: Seq<i16>|
                #![trigger self.stickers@[p], self.stickers@[q]]
                self.stickers@.dom().contains(p) && self.stickers@.dom().contains(q) && face_key(n, p)
                    == face_key(n, q) implies self.stickers@[p] == self.stickers@[q] by {
                self.stickers.lemma_key(p);
                self.stickers.lemma_key(q);
                let jp = self.stickers.index_for(p);
                let jq = self.stickers.index_for(q);
                assert(face_code(n, self.stickers.key(jp)) == face_code(n, self.stickers.key(jq)));
            }
        }
        true
    }

    /// The piece that the sticker at `piece` belongs to: the first
    /// coordinate with absolute value `n` steps one layer inwards.
    pub fn piece_body(&self, piece: &[i16]) -> (r: Vec<i16>)
        requires
            abs_scan_defined(self.n, piece@),
        ensures
            r@ == body_of(self.n, piece@),
    {
        let ghost n = self.n;
        let mut ind: usize = 0;
        while ind < piece.len() && !has_abs(piece[ind], self.n)
            invariant
                n == self.n,
                abs_scan_defined(n, piece@),
                ind <= piece@.len(),
                forall|j: int| 0 <= j < ind ==> abs_of(#[trigger] piece@[j]) != n,
                first_abs(n, piece@) == first_abs_from(n, piece@, ind as int),
            decreases piece@.len() - ind,
        {
            ind = ind + 1;
        }
        if ind < piece.len() {
            let mut piece_body = copy_position(piece);
            if piece[ind] == self.n {
                piece_body.set(ind, piece[ind] - 1);
            } else {
                piece_body.set(ind, piece[ind] + 1);
            }
            piece_body
        } else {
            copy_position(piece)
        }
    }

    /// The colours of the stickers of the piece at `piece`, axis by axis:
    /// where the piece touches an outer layer, the colour of the sticker
    /// beyond it (and, for a `1^d` puzzle, its complement for the opposite
    /// sticker).
    pub fn piece_body_stickers(&self, piece: &[i16]) -> (r: Vec<i16>)
        requires
            self.stickers.wf(),
            body_lookups_defined(self.stickers@, self.n, piece@),
        ensures
            r@ == body_colors(self.stickers@, self.n, piece@, piece@.len() as int),
    {
        let ghost m = self.stickers@;
        let mut colors: Vec<i16> = Vec::new();
        let mut ind: usize = 0;
        while ind < piece.len()
            invariant
                self.stickers.wf(),
                m == self.stickers@,
                body_lookups_defined(m, self.n, piece@),
                ind <= piece@.len(),
                colors@ == body_colors(m, self.n, piece@, ind as int),
            decreases piece@.len() - ind,
        {
            let x = piece[ind];
            let ghost before = colors@;
            if x == self.n - 1 {
                let mut looked = copy_position(piece);
                looked.set(ind, x + 1);
                assert(looked@ =~= piece@.update(ind as int, self.n));
                let c = self.stickers.get(looked.as_slice()).unwrap();
                colors.push(c);
                if self.n == 1 {
                    colors.push(-1 - c);
                }
            } else {
                proof {
                    assert(exists|i: int| 0 <= i < piece@.len() && piece@[i] != self.n - 1);
                }
                if x == -(self.n - 1) {
                    let mut looked = copy_position(piece);
                    looked.set(ind, x - 1);
                    assert(looked@ =~= piece@.update(ind as int, (-self.n) as i16));
                    let c = self.stickers.get(looked.as_slice()).unwrap();
                    colors.push(c);
                    if self.n == 1 {
                        colors.push(-1 - c);
                    }
                }
            }
            assert(colors@ =~= before + coordinate_colors(m, self.n, piece@, ind as int));
            ind = ind + 1;
        }
        colors
    }

    /// The colours of the stickers of the piece that the sticker at
    /// `piece` belongs to.
    pub fn stickers(&self, piece: &[i16]) -> (r: Vec<i16>)
        requires
            self.stickers.wf(),
            abs_scan_defined(self.n, piece@),
            body_lookups_defined(self.stickers@, self.n, body_of(self.n, piece@)),
        ensures
            r@ == body_colors(
                self.stickers@,
                self.n,
                body_of(self.n, piece@),
                body_of(self.n, piece@).len() as int,
            ),
    {
        let body = self.piece_body(piece);
        self.piece_body_stickers(body.as_slice())
    }

    /// Scrambles the puzzle with 5000 random single-layer side turns, each
    /// between three shuffled axes.
    pub fn scramble(&mut self, rng: &mut ThreadRng)
        requires
            old(self).stickers.wf(),
            scramble_moves_apply(old(self).stickers@, old(self).n, old(self).d),
            3 <= old(self).d <= 32767,
            0 < old(self).n <= 16384,
        ensures
            final(self).stickers.wf(),
            old(self).wf() ==> final(self).wf(),
            final(self).n == old(self).n,
            final(self).d == old(self).d,
            exists|moves: Seq<Turn>|
                {
                    &&& moves.len() == 5000
                    &&& forall|i: int|
                        0 <= i < 5000 ==> is_scramble_move(#[trigger] moves[i], old(self).n, old(self).d)
                    &&& final(self).stickers@ == applied_all(old(self).stickers@, moves, old(self).d)
                },
    {
        let ghost moves: Seq<Turn> = Seq::empty();
        let mut round: usize = 0;
        while round < 5000
            invariant
                self.stickers.wf(),
                old(self).wf() ==> self.wf(),
                self.stickers@.dom() == old(self).stickers@.dom(),
                scramble_moves_apply(old(self).stickers@, self.n, self.d),
                self.n == old(self).n,
                self.d == old(self).d,
                3 <= self.d <= 32767,
                0 < self.n <= 16384,
                round <= 5000,
                moves.len() == round,
                forall|i: int| 0 <= i < round ==> is_scramble_move(#[trigger] moves[i], self.n, self.d),
                self.stickers@ == applied_all(old(self).stickers@, moves, self.d),
            decreases 5000 - round,
        {
            let dd: i16 = self.d as i16;
            let mut axes: Vec<i16> = Vec::new();
            let mut a: i16 = 0;
            while a < dd
                invariant
                    0 <= a <= dd,
                    dd == self.d,
                    axes@ == Seq::new(a as nat, |i: int| i as i16),
                decreases dd - a,
            {
                axes.push(a);
                a = a + 1;
                assert(axes@ =~= Seq::new(a as nat, |i: int| i as i16));
            }
            shuffle_axes(&mut axes, rng);
            let pick = random_below(rng, self.n);
            let ghost before = self.stickers@;
            let ghost t = scramble_turn(axes@, self.n, pick);
            proof {
                assert(is_axis_order(axes@, self.d));
                if let Some(nt) = normalize(t, self.d) {
                    assert(turn_applies(old(self).stickers@, nt));
                    lemma_turn_applies_dom(old(self).stickers@, self.stickers@, nt);
                }
            }
            self.scramble_move(&axes, pick);
            proof {
                assert(self.stickers@.dom() =~= before.dom());
                assert(is_axis_order(axes@, self.d));
                assert(is_scramble_move(t, self.n, self.d));
                let next = moves.push(t);
                assert(next.drop_last() =~= moves);
                moves = next;
            }
            round = round + 1;
        }
    }

    /// One scrambling move with the outcome of the random draws: the side
    /// turn `scramble_turn(axes, n, pick)`.
    pub fn scramble_move(&mut self, axes: &Vec<i16>, pick: i16) -> (r: Option<()>)
        requires
            old(self).stickers.wf(),
            normalize(scramble_turn(axes@, old(self).n, pick), old(self).d) matches Some(nt)
                ==> turn_applies(old(self).stickers@, nt),
            axes@.len() >= 3,
            0 <= pick < old(self).n,
            old(self).n <= 16384,
        ensures
            final(self).stickers.wf(),
            old(self).wf() ==> final(self).wf(),
            final(self).n == old(self).n,
            final(self).d == old(self).d,
            match normalize(scramble_turn(axes@, old(self).n, pick), old(self).d) {
                Some(nt) => r is Some && final(self).stickers@ == turned(old(self).stickers@, nt),
                None => r is None && final(self).stickers@ == old(self).stickers@,
            },
    {
        let layer = self.n - 1 - 2 * pick;
        self.turn(
            Turn::Side(
                SideTurn {
                    side: axes[0],
                    layer_min: layer,
                    layer_max: layer,
                    from: axes[1],
                    to: axes[2],
                },
            ),
        )
    }

    /// `Some(ax(axis))` when that axis exists in this puzzle.
    fn axis_index(&self, axis: i16) -> (r: Option<usize>)
        ensures
            r == axis_index_in(axis, self.d),
    {
        let axis = ax(axis);
        if axis < 0 || axis as u16 >= self.d {
            return None;
        }
        Some(axis as usize)
    }

    /// Resolves `turn` against the puzzle's dimension.
    pub fn normalize_turn(&self, turn: &Turn) -> (r: Option<NormalizedTurn>)
        ensures
            r == normalize(*turn, self.d),
    {
        match turn {
            Turn::Side(turn) => {
                let SideTurn { side, layer_min, layer_max, from, to } = *turn;
                let mut from = from;
                let mut to = to;
                if side == from || side == -1 - from || side == to || side == -1 - to || from == to
                    || from == -1 - to {
                    return None;
                }
                let to_swap = (from < 0) != (to < 0);
                if from < 0 {
                    from = -1 - from;
                }
                if to < 0 {
                    to = -1 - to;
                }
                if to_swap {
                    let t = from;
                    from = to;
                    to = t;
                }
                let side = match self.axis_index(side) {
                    Some(s) => s,
                    None => return None,
                };
                let from = match self.axis_index(from) {
                    Some(f) => f,
                    None => return None,
                };
                let to = match self.axis_index(to) {
                    Some(t) => t,
                    None => return None,
                };
                Some(NormalizedTurn::Side { side, layer_min, layer_max, from, to })
            },
            Turn::Puzzle(turn) => {
                let from = match self.axis_index(turn.from) {
                    Some(f) => f,
                    None => return None,
                };
                let to = match self.axis_index(turn.to) {
                    Some(t) => t,
                    None => return None,
                };
                if from == to {
                    return None;
                }
                Some(NormalizedTurn::Puzzle { from, to })
            },
        }
    }

    /// Where the sticker that comes to rest at `pos` under `turn` was
    /// before it, or `None` when the turn does not move `pos`.
    pub fn source_position(&self, turn: NormalizedTurn, pos: &[i16]) -> (r: Option<Vec<i16>>)
        requires
            turn.source_defined(pos@),
            turn is Side ==> turn->layer_min > i16::MIN && turn->layer_max < i16::MAX,
        ensures
            match r {
                Some(v) => turn.source_of(pos@) == Some(v@),
                None => turn.source_of(pos@) is None,
            },
    {
        match turn {
            NormalizedTurn::Side { side, layer_min, layer_max, from, to } => {
                let lo = layer_min - 1;
                let hi = layer_max + 1;
                if !(lo <= pos[side] && pos[side] <= hi) {
                    return None;
                }
                let mut source = copy_position(pos);
                source.set(from, pos[to]);
                source.set(to, -pos[from]);
                Some(source)
            },
            NormalizedTurn::Puzzle { from, to } => {
                let mut source = copy_position(pos);
                source.set(from, pos[to]);
                source.set(to, -pos[from]);
                Some(source)
            },
        }
    }

    /// Applies a normalized turn to the stickers.
    fn apply_normalized_turn(&mut self, turn: NormalizedTurn)
        requires
            old(self).stickers.wf(),
            turn_applies(old(self).stickers@, turn),
            turn is Side ==> turn->layer_min > i16::MIN && turn->layer_max < i16::MAX,
        ensures
            final(self).stickers.wf(),
            final(self).n == old(self).n,
            final(self).d == old(self).d,
            final(self).stickers@ == turned(old(self).stickers@, turn),
    {
        let ghost m = self.stickers@;
        let len = self.stickers.len();
        let mut new_colors: Vec<i16> = Vec::new();
        let mut i: usize = 0;
        while i < len
            invariant
                self.stickers.wf(),
                m == self.stickers@,
                turn_applies(m, turn),
                turn is Side ==> turn->layer_min > i16::MIN && turn->layer_max < i16::MAX,
                len == self.stickers.count(),
                i <= len,
                new_colors@.len() == i,
                forall|k: int|
                    0 <= k < i ==> #[trigger] new_colors@[k] == turned(m, turn)[self.stickers.key(
                        k,
                    )],
            decreases len - i,
        {
            let pos = self.stickers.position_at(i);
            proof {
                self.stickers.lemma_index(i as int);
                lemma_applies_at(self.stickers, turn, i as int);
            }
            match self.source_position(turn, pos.as_slice()) {
                Some(source) => {
                    let c = self.stickers.get(source.as_slice()).unwrap();
                    new_colors.push(c);
                },
                None => {
                    new_colors.push(self.stickers.colors_in_order()[i]);
                },
            }
            i = i + 1;
        }
        let ghost before = self.stickers;
        self.stickers.recolor(new_colors);
        proof {
            lemma_same_storage(before, self.stickers);
            assert forall|k: Seq<i16>| self.stickers@.dom().contains(k) implies self.stickers@[k]
                == turned(m, turn)[k] by {
                before.lemma_key(k);
            }
            assert(self.stickers@ =~= turned(m, turn));
        }
    }

    /// The cycles of length two or more of the permutation of sticker
    /// indices that `turn` performs. The three vectors are scratch space
    /// of the puzzle's size, reused across calls.
    fn normalized_turn_cycles(
        &self,
        turn: NormalizedTurn,
        source_indices: &mut Vec<usize>,
        visited: &mut Vec<bool>,
        cycle: &mut Vec<usize>,
    ) -> (cycles: Vec<Vec<usize>>)
        requires
            self.stickers.wf(),
            turn.fits(self.d as int),
            turn_applies(self.stickers@, turn),
            turn is Side ==> turn->layer_min > i16::MIN && turn->layer_max < i16::MAX,
            old(source_indices)@.len() == self.stickers.count(),
            old(visited)@.len() == self.stickers.count(),
        ensures
            final(source_indices)@.len() == self.stickers.count(),
            final(visited)@.len() == self.stickers.count(),
            final(source_indices)@ == source_index_map(self.stickers, turn),
            cycles_of(nested(cycles@), source_index_map(self.stickers, turn)),
            forall|a: int, i: int|
                0 <= a < cycles@.len() && 0 < i < cycles@[a]@.len() ==> cycles@[a]@[0]
                    < #[trigger] cycles@[a]@[i],
            forall|a: int, b: int|
                0 <= a < b < cycles@.len() ==> #[trigger] cycles@[a]@[0] < #[trigger] cycles@[b]@[0],
    {
        let ghost sm = source_index_map(self.stickers, turn);
        proof {
            lemma_source_perm(*self, turn);
        }
        let len = self.stickers.len();
        let mut idx: usize = 0;
        while idx < len
            invariant
                len == self.stickers.count(),
                idx <= len,
                source_indices@.len() == len,
                forall|k: int| 0 <= k < idx ==> #[trigger] source_indices@[k] == k,
            decreases len - idx,
        {
            source_indices.set(idx, idx);
            idx = idx + 1;
        }
        let mut idx: usize = 0;
        while idx < len
            invariant
                len == self.stickers.count(),
                idx <= len,
                visited@.len() == len,
                forall|k: int| 0 <= k < idx ==> !#[trigger] visited@[k],
            decreases len - idx,
        {
            visited.set(idx, false);
            idx = idx + 1;
        }
        let mut changed = false;
        let mut dest: usize = 0;
        while dest < len
            invariant
                self.stickers.wf(),
                turn.fits(self.d as int),
                turn_applies(self.stickers@, turn),
                turn is Side ==> turn->layer_min > i16::MIN && turn->layer_max < i16::MAX,
                sm == source_index_map(self.stickers, turn),
                len == self.stickers.count(),
                dest <= len,
                source_indices@.len() == len,
                forall|k: int| 0 <= k < dest ==> #[trigger] source_indices@[k] == sm[k],
                forall|k: int| dest <= k < len ==> #[trigger] source_indices@[k] == k,
                changed == exists|k: int| 0 <= k < dest && #[trigger] sm[k] != k,
            decreases len - dest,
        {
            let pos = self.stickers.position_at(dest);
            proof {
                lemma_applies_at(self.stickers, turn, dest as int);
            }
            let ghost before = changed;
            match self.source_position(turn, pos.as_slice()) {
                Some(source) => {
                    let source_idx = self.stickers.index_of(source.as_slice()).unwrap();
                    proof {
                        self.stickers.lemma_index(source_idx as int);
                    }
                    source_indices.set(dest, source_idx);
                    changed = changed || source_idx != dest;
                },
                None => {},
            }
            proof {
                if !before && changed {
                    assert(sm[dest as int] != dest);
                }
                if before {
                    let k = choose|k: int| 0 <= k < dest && #[trigger] sm[k] != k;
                    assert(0 <= k < dest + 1 && sm[k] != k);
                }
            }
            dest = dest + 1;
        }
        assert(source_indices@ =~= sm);
        if !changed {
            let cycles: Vec<Vec<usize>> = Vec::new();
            proof {
                assert forall|x: usize| x < sm.len() && !in_cycles(nested(cycles@), x) implies #[trigger] sm[x as int]
                    == x by {
                    if sm[x as int] != x {
                        assert(exists|k: int| 0 <= k < len && #[trigger] sm[k] != k);
                    }
                }
            }
            return cycles;
        }
        let mut cycles: Vec<Vec<usize>> = Vec::new();
        let mut start: usize = 0;
        while start < len
            invariant
                is_perm(sm),
                sm == source_indices@,
                len == sm.len(),
                start <= len,
                visited@.len() == len,
                forall|k: int| 0 <= k < start ==> #[trigger] visited@[k],
                marks_closed(visited@, sm),
                cycles_cover(nested(cycles@), sm, visited@),
                forall|a: int| 0 <= a < cycles@.len() ==> (#[trigger] cycles@[a])@.len() >= 1
                    && cycles@[a]@[0] < start,
                forall|a: int, i: int|
                    0 <= a < cycles@.len() && 0 < i < cycles@[a]@.len() ==> cycles@[a]@[0]
                        < #[trigger] cycles@[a]@[i],
                forall|a: int, b: int|
                    0 <= a < b < cycles@.len() ==> #[trigger] cycles@[a]@[0] < #[trigger] cycles@[b]@[0],
            decreases len - start,
        {
            if !visited[start] {
                cycle.clear();
                let ghost v0 = visited@;
                trace_cycle(source_indices, visited, cycle, start);
                proof {
                    lemma_add_cycle(nested(cycles@), sm, v0, visited@, cycle@);
                }
                proof {
                    assert forall|i: int| 0 < i < cycle@.len() implies start < #[trigger] cycle@[i] by {
                        assert(!v0[cycle@[i] as int]);
                        assert(cycle@[0] != cycle@[i]);
                    }
                }
                if cycle.len() > 1 {
                    let found = copy_indices(cycle);
                    let ghost before = cycles@;
                    cycles.push(found);
                    proof {
                        assert(nested(cycles@) =~= nested(before).push(cycle@));
                        assert(cycles@[cycles@.len() - 1]@ == cycle@);
                    }
                }
            }
            start = start + 1;
        }
        proof {
            lemma_cover_complete(nested(cycles@), sm, visited@);
        }
        cycles
    }

    /// Applies the turns in order, computing the permutation of stickers
    /// that each distinct turn performs only once; `None`, with nothing
    /// changed, when the puzzle refuses any of them.
    pub fn apply_turns_batch(&mut self, turns: &[Turn]) -> (r: Option<()>)
        requires
            old(self).stickers.wf(),
            all_normalize(turns@, old(self).d) ==> all_layers_widen(turns@, old(self).d)
                && all_apply(old(self).stickers@, turns@, old(self).d),
        ensures
            final(self).stickers.wf(),
            old(self).wf() ==> final(self).wf(),
            final(self).n == old(self).n,
            final(self).d == old(self).d,
            all_normalize(turns@, old(self).d) ==> r is Some && final(self).stickers@ == turned_all(
                old(self).stickers@,
                normalize_all(turns@, old(self).d),
            ),
            !all_normalize(turns@, old(self).d) ==> r is None && final(self).stickers@ == old(
                self,
            ).stickers@,
    {
        let ghost d = self.d;
        let ghost m0 = self.stickers@;
        let mut normalized: Vec<(Turn, NormalizedTurn)> = Vec::new();
        let mut i: usize = 0;
        while i < turns.len()
            invariant
                self.stickers.wf(),
                d == self.d,
                m0 == self.stickers@,
                i <= turns@.len(),
                normalized@.len() == i,
                forall|k: int|
                    0 <= k < i ==> #[trigger] normalized@[k] == (
                        turns@[k],
                        normalize(turns@[k], d)->0,
                    ) && normalize(turns@[k], d) is Some,
            decreases turns@.len() - i,
        {
            match self.normalize_turn(&turns[i]) {
                Some(nt) => normalized.push((turns[i], nt)),
                None => {
                    proof {
                        assert(!all_normalize(turns@, d)) by {
                            assert(normalize(turns@[i as int], d) is None);
                        }
                    }
                    return None;
                },
            }
            i = i + 1;
        }
        let ghost nts = normalize_all(turns@, d);
        assert forall|k: int| 0 <= k < turns@.len() implies #[trigger] normalize(turns@[k], d) is Some by {
            assert(normalized@[k] == (turns@[k], normalize(turns@[k], d)->0));
        }
        assert(all_normalize(turns@, d));
        if normalized.len() == 0 {
            assert(nts.len() == 0);
            return Some(());
        }
        let len = self.stickers.len();
        let colors = self.stickers.colors_in_order();
        let mut old_colors: Vec<i16> = Vec::new();
        let mut perm: Vec<usize> = Vec::new();
        let mut source_indices: Vec<usize> = Vec::new();
        let mut visited: Vec<bool> = Vec::new();
        let mut k: usize = 0;
        while k < len
            invariant
                self.stickers.wf(),
                len == self.stickers.count(),
                colors@.len() == len,
                forall|x: int| 0 <= x < len ==> #[trigger] colors@[x] == self.stickers.color(x),
                k <= len,
                old_colors@.len() == k,
                perm@.len() == k,
                source_indices@.len() == k,
                visited@.len() == k,
                forall|x: int| 0 <= x < k ==> #[trigger] old_colors@[x] == self.stickers.color(x),
                forall|x: int| 0 <= x < k ==> #[trigger] perm@[x] == x,
            decreases len - k,
        {
            old_colors.push(colors[k]);
            perm.push(k);
            source_indices.push(0);
            visited.push(false);
            k = k + 1;
        }
        proof {
            assert(nts.subrange(0, 0) =~= Seq::<NormalizedTurn>::empty());
            assert forall|x: int| 0 <= x < len implies #[trigger] perm@[x] < len && old_colors@[perm@[x] as int]
                == turned_all(m0, nts.subrange(0, 0))[self.stickers.key(x)] by {
                self.stickers.lemma_index(x);
            }
        }
        let mut cycle: Vec<usize> = Vec::new();
        let mut cycle_cache: Vec<(Turn, Vec<Vec<usize>>)> = Vec::new();
        let mut j: usize = 0;
        while j < normalized.len()
            invariant
                self.stickers.wf(),
                d == self.d,
                m0 == self.stickers@,
                len == self.stickers.count(),
                all_normalize(turns@, d),
                all_layers_widen(turns@, d),
                all_apply(m0, turns@, d),
                nts == normalize_all(turns@, d),
                normalized@.len() == turns@.len(),
                forall|k: int|
                    0 <= k < turns@.len() ==> #[trigger] normalized@[k] == (
                        turns@[k],
                        normalize(turns@[k], d)->0,
                    ),
                j <= normalized@.len(),
                old_colors@.len() == len,
                forall|x: int| 0 <= x < len ==> #[trigger] old_colors@[x] == self.stickers.color(x),
                perm@.len() == len,
                source_indices@.len() == len,
                visited@.len() == len,
                forall|x: int|
                    0 <= x < len ==> #[trigger] perm@[x] < len && old_colors@[perm@[x] as int]
                        == turned_all(m0, nts.subrange(0, j as int))[self.stickers.key(x)],
                forall|c: int|
                    0 <= c < cycle_cache@.len() ==> normalize(#[trigger] cycle_cache@[c].0, d) is Some
                        && cycles_of(
                        nested(cycle_cache@[c].1@),
                        source_index_map(self.stickers, normalize(cycle_cache@[c].0, d)->0),
                    ),
            decreases normalized@.len() - j,
        {
            let (turn, nt) = normalized[j];
            proof {
                assert(normalize(turns@[j as int], d) is Some);
                crate::turns::lemma_normalize_fits(turn, d);
                assert(turns@[j as int].layers_widen());
                assert(nts[j as int] == nt);
                assert(turn_applies(m0, normalize(turns@[j as int], d)->0));
            }
            let ghost sm = source_index_map(self.stickers, nt);
            let ghost p_before = perm@;
            let ghost mut used: Seq<Seq<usize>> = Seq::empty();
            let mut found: Option<usize> = None;
            let mut c: usize = 0;
            while c < cycle_cache.len()
                invariant
                    c <= cycle_cache@.len(),
                    found matches Some(f) ==> f < cycle_cache@.len() && cycle_cache@[f as int].0
                        == turn,
                decreases cycle_cache@.len() - c,
            {
                if found.is_none() && cycle_cache[c].0 == turn {
                    found = Some(c);
                }
                c = c + 1;
            }
            match found {
                Some(f) => {
                    proof {
                        used = nested(cycle_cache@[f as int].1@);
                        crate::cycles::lemma_nested(cycle_cache@[f as int].1@);
                    }
                    apply_cycles_to_permutation(&cycle_cache[f].1, &mut perm);
                    proof {
                        lemma_nested_apply(cycle_cache@[f as int].1@, p_before, perm@);
                    }
                },
                None => {
                    let cycles = self.normalized_turn_cycles(
                        nt,
                        &mut source_indices,
                        &mut visited,
                        &mut cycle,
                    );
                    proof {
                        used = nested(cycles@);
                        crate::cycles::lemma_nested(cycles@);
                    }
                    apply_cycles_to_permutation(&cycles, &mut perm);
                    proof {
                        lemma_nested_apply(cycles@, p_before, perm@);
                    }
                    let ghost cache_before = cycle_cache@;
                    cycle_cache.push((turn, cycles));
                    proof {
                        assert forall|c: int| 0 <= c < cycle_cache@.len() implies normalize(
                            #[trigger] cycle_cache@[c].0,
                            d,
                        ) is Some && cycles_of(
                            nested(cycle_cache@[c].1@),
                            source_index_map(self.stickers, normalize(cycle_cache@[c].0, d)->0),
                        ) by {
                            if c < cache_before.len() {
                                assert(cycle_cache@[c] == cache_before[c]);
                            }
                        }
                    }
                },
            }
            proof {
                crate::geometry::lemma_turned_all_dom(m0, nts.subrange(0, j as int));
                lemma_batch_step(
                    *self,
                    nt,
                    turned_all(m0, nts.subrange(0, j as int)),
                    old_colors@,
                    p_before,
                    perm@,
                    used,
                );
                assert(nts.subrange(0, j + 1).drop_last() =~= nts.subrange(0, j as int));
            }
            j = j + 1;
        }
        assert(nts.subrange(0, j as int) =~= nts);
        let mut new_colors: Vec<i16> = Vec::new();
        let mut dest: usize = 0;
        while dest < len
            invariant
                self.stickers.wf(),
                len == self.stickers.count(),
                old_colors@.len() == len,
                perm@.len() == len,
                forall|x: int|
                    0 <= x < len ==> #[trigger] perm@[x] < len && old_colors@[perm@[x] as int]
                        == turned_all(m0, nts)[self.stickers.key(x)],
                dest <= len,
                new_colors@.len() == dest,
                forall|x: int|
                    0 <= x < dest ==> #[trigger] new_colors@[x] == turned_all(m0, nts)[self.stickers.key(x)],
            decreases len - dest,
        {
            new_colors.push(old_colors[perm[dest]]);
            dest = dest + 1;
        }
        let ghost before = self.stickers;
        self.stickers.recolor(new_colors);
        proof {
            assert(nts.subrange(0, nts.len() as int) =~= nts);
            lemma_same_storage(before, self.stickers);
            crate::geometry::lemma_turned_all_dom(m0, nts);
            assert forall|q: Seq<i16>| self.stickers@.dom().contains(q) implies self.stickers@[q]
                == turned_all(m0, nts)[q] by {
                before.lemma_key(q);
            }
            assert(self.stickers@ =~= turned_all(m0, nts));
            assert(self.stickers@.dom() =~= m0.dom());
        }
        Some(())
    }

    /// Moves each coordinate vector of `positions` as the turns, applied in
    /// order, move the sticker there; `None`, with nothing changed, when the
    /// puzzle refuses any of the turns.
    pub fn apply_turns_to_positions_batch(&self, positions: &mut Vec<Vec<i16>>, turns: &[Turn]) -> (r:
        Option<()>)
        requires
            all_normalize(turns@, self.d) ==> all_layers_widen(turns@, self.d),
            all_normalize(turns@, self.d) ==> forall|i: int|
                0 <= i < old(positions)@.len() ==> moves_defined(
                    #[trigger] old(positions)@[i]@,
                    normalize_all(turns@, self.d),
                ),
        ensures
            final(positions)@.len() == old(positions)@.len(),
            all_normalize(turns@, self.d) ==> r is Some && forall|i: int|
                0 <= i < final(positions)@.len() ==> #[trigger] final(positions)@[i]@ == moved_all(
                    old(positions)@[i]@,
                    normalize_all(turns@, self.d),
                ),
            !all_normalize(turns@, self.d) ==> r is None && final(positions)@ == old(positions)@,
    {
        let ghost d = self.d;
        let ghost p0 = positions@;
        let mut normalized: Vec<NormalizedTurn> = Vec::new();
        let mut i: usize = 0;
        while i < turns.len()
            invariant
                d == self.d,
                p0 == positions@,
                i <= turns@.len(),
                normalized@.len() == i,
                forall|k: int|
                    0 <= k < i ==> #[trigger] normalized@[k] == normalize(turns@[k], d)->0 && normalize(
                        turns@[k],
                        d,
                    ) is Some,
            decreases turns@.len() - i,
        {
            match self.normalize_turn(&turns[i]) {
                Some(nt) => normalized.push(nt),
                None => {
                    proof {
                        assert(!all_normalize(turns@, d)) by {
                            assert(normalize(turns@[i as int], d) is None);
                        }
                    }
                    return None;
                },
            }
            i = i + 1;
        }
        let ghost nts = normalize_all(turns@, d);
        assert forall|k: int| 0 <= k < turns@.len() implies #[trigger] normalize(turns@[k], d) is Some by {
            assert(normalized@[k] == normalize(turns@[k], d)->0);
        }
        assert(all_normalize(turns@, d));
        assert(normalized@ =~= nts);
        assert forall|k: int| 0 <= k < nts.len() implies (#[trigger] nts[k]).fits(d as int) && (nts[k] is Side
            ==> nts[k]->layer_min > i16::MIN && nts[k]->layer_max < i16::MAX) by {
            crate::turns::lemma_normalize_fits(turns@[k], d);
            assert(turns@[k].layers_widen());
        }
        if normalized.len() == 0 || positions.len() == 0 {
            proof {
                assert forall|i: int| 0 <= i < positions@.len() implies #[trigger] positions@[i]@
                    == moved_all(p0[i]@, nts) by {
                    if nts.len() == 0 {
                    }
                }
            }
            return Some(());
        }
        let mut i: usize = 0;
        while i < positions.len()
            invariant
                nts == normalized@,
                forall|k: int|
                    0 <= k < nts.len() ==> (#[trigger] nts[k]).fits(d as int) && (nts[k] is Side
                        ==> nts[k]->layer_min > i16::MIN && nts[k]->layer_max < i16::MAX),
                forall|k: int| 0 <= k < p0.len() ==> moves_defined(#[trigger] p0[k]@, nts),
                positions@.len() == p0.len(),
                i <= p0.len(),
                forall|k: int| 0 <= k < i ==> #[trigger] positions@[k]@ == moved_all(p0[k]@, nts),
                forall|k: int| i <= k < p0.len() ==> #[trigger] positions@[k] == p0[k],
            decreases p0.len() - i,
        {
            let start = copy_position(positions[i].as_slice());
            let mut pos = copy_position(positions[i].as_slice());
            let mut t: usize = 0;
            while t < normalized.len()
                invariant
                    nts == normalized@,
                    forall|k: int|
                        0 <= k < nts.len() ==> (#[trigger] nts[k]).fits(d as int) && (nts[k] is Side
                            ==> nts[k]->layer_min > i16::MIN && nts[k]->layer_max < i16::MAX),
                    moves_defined(start@, nts),
                    t <= nts.len(),
                    pos@ == moved_all(start@, nts.subrange(0, t as int)),
                decreases nts.len() - t,
            {
                proof {
                    lemma_moves_prefix(start@, nts, t + 1);
                    assert(nts.subrange(0, t + 1).drop_last() =~= nts.subrange(0, t as int));
                }
                Self::apply_normalized_turn_to_position(&mut pos, normalized[t]);
                t = t + 1;
            }
            assert(nts.subrange(0, nts.len() as int) =~= nts);
            positions.set(i, pos);
            i = i + 1;
        }
        Some(())
    }

    /// Applies `turn` to the stickers; `None`, with nothing changed, when
    /// the puzzle refuses the turn.
    pub fn turn(&mut self, turn: Turn) -> (r: Option<()>)
        requires
            old(self).stickers.wf(),
            normalize(turn, old(self).d) matches Some(nt) ==> turn.layers_widen() && turn_applies(
                old(self).stickers@,
                nt,
            ),
        ensures
            final(self).stickers.wf(),
            old(self).wf() ==> final(self).wf(),
            final(self).n == old(self).n,
            final(self).d == old(self).d,
            match normalize(turn, old(self).d) {
                Some(nt) => r is Some && final(self).stickers@ == turned(old(self).stickers@, nt),
                None => r is None && final(self).stickers@ == old(self).stickers@,
            },
    {
        proof {
            crate::turns::lemma_normalize_fits(turn, self.d);
        }
        let turn = match self.normalize_turn(&turn) {
            Some(t) => t,
            None => return None,
        };
        let ghost m = self.stickers@;
        self.apply_normalized_turn(turn);
        assert(self.stickers@.dom() =~= m.dom());
        Some(())
    }

    /// Moves the coordinate vector `pos` as `turn` moves the sticker there;
    /// `None`, with `pos` unchanged, when the puzzle refuses the turn.
    pub fn turn_position(&self, pos: &mut Vec<i16>, turn: &Turn) -> (r: Option<()>)
        requires
            normalize(*turn, self.d) matches Some(nt) ==> nt.move_defined(old(pos)@)
                && turn.layers_widen(),
        ensures
            match normalize(*turn, self.d) {
                Some(nt) => r is Some && final(pos)@ == nt.moved(old(pos)@),
                None => r is None && final(pos)@ == old(pos)@,
            },
    {
        let turn = match self.normalize_turn(turn) {
            Some(t) => t,
            None => return None,
        };
        Self::apply_normalized_turn_to_position(pos, turn);
        Some(())
    }

    /// Moves `pos` as the normalized turn moves the sticker there.
    pub fn apply_normalized_turn_to_position(pos: &mut Vec<i16>, turn: NormalizedTurn)
        requires
            turn.move_defined(old(pos)@),
            turn is Side ==> turn->layer_min > i16::MIN && turn->layer_max < i16::MAX,
        ensures
            final(pos)@ == turn.moved(old(pos)@),
    {
        match turn {
            NormalizedTurn::Side { side, layer_min, layer_max, from, to } => {
                let lo = layer_min - 1;
                let hi = layer_max + 1;
                if lo <= pos[side] && pos[side] <= hi {
                    let a = pos[from];
                    let b = pos[to];
                    pos.set(from, b);
                    pos.set(to, a);
                    let negated = -pos[from];
                    pos.set(from, negated);
                }
            },
            NormalizedTurn::Puzzle { from, to } => {
                let a = pos[from];
                let b = pos[to];
                pos.set(from, b);
                pos.set(to, a);
                let negated = -pos[from];
                pos.set(from, negated);
            },
        }
        proof {
            if turn.moves(old(pos)@) {
                assert(pos@ =~= turn.moved(old(pos)@));
            }
        }
    }
}

} // verus!

verus! {

/// The body of a sticker is the piece it sits on: the sticker's first
/// coordinate of absolute value `n` steps one layer towards the centre,
/// keeping its sign (`n` becomes `n - 1`, `-n` becomes `-(n - 1)`), and
/// every other coordinate stays.
pub proof fn lemma_body_steps_inwards(n: i16, p: Seq<i16>, i: int)
    requires
        n >= 1,
        0 <= i < p.len(),
        abs_of(p[i]) == n,
        forall|j: int| 0 <= j < i ==> abs_of(#[trigger] p[j]) != n,
    ensures
        body_of(n, p).len() == p.len(),
        p[i] == n ==> body_of(n, p)[i] == n - 1,
        p[i] == -n ==> body_of(n, p)[i] == -(n - 1),
        forall|j: int| 0 <= j < p.len() && j != i ==> #[trigger] body_of(n, p)[j] == p[j],
{
    lemma_first_abs_found(n, p, 0, i);
}

/// A position with no coordinate of absolute value `n` is its own body.
pub proof fn lemma_body_of_inner(n: i16, p: Seq<i16>)
    requires
        forall|j: int| 0 <= j < p.len() ==> abs_of(#[trigger] p[j]) != n,
    ensures
        body_of(n, p) == p,
{
    lemma_first_abs_bounds(n, p, 0);
}

/// Each colour that coordinate `i < k` contributes is among the colours of
/// the first `k` coordinates.
proof fn lemma_body_colors_include(m: Map<Seq<i16>, i16>, n: i16, piece: Seq<i16>, k: int, i: int)
    requires
        0 <= i < k,
    ensures
        forall|x: i16| coordinate_colors(m, n, piece, i).contains(x) ==> #[trigger] body_colors(
            m,
            n,
            piece,
            k,
        ).contains(x),
    decreases k,
{
    let prev = body_colors(m, n, piece, k - 1);
    let last = coordinate_colors(m, n, piece, k - 1);
    assert(body_colors(m, n, piece, k) == prev + last);
    if i < k - 1 {
        lemma_body_colors_include(m, n, piece, k - 1, i);
    }
    assert forall|x: i16| coordinate_colors(m, n, piece, i).contains(x) implies #[trigger] body_colors(
        m,
        n,
        piece,
        k,
    ).contains(x) by {
        if i == k - 1 {
            let t = choose|t: int| 0 <= t < last.len() && last[t] == x;
            assert((prev + last)[prev.len() + t] == x);
        } else {
            assert(body_colors(m, n, piece, k - 1).contains(x));
            let t = choose|t: int| 0 <= t < prev.len() && prev[t] == x;
            assert((prev + last)[t] == x);
        }
    }
}

/// The colours of the piece that a sticker of a puzzle with `n >= 2`
/// belongs to include the colour of that sticker: the sticker is one of
/// the piece's own.
pub proof fn lemma_piece_shows_sticker(p: Puzzle, q: Seq<i16>)
    requires
        p.wf(),
        p.n >= 2,
        p.stickers@.dom().contains(q),
    ensures
        body_colors(p.stickers@, p.n, body_of(p.n, q), q.len() as int).contains(p.stickers@[q]),
{
    let n = p.n;
    let m = p.stickers@;
    lemma_position_face(n, p.d, q);
    let i = first_abs(n, q)->0;
    lemma_first_abs_found(n, q, 0, i);
    let b = body_of(n, q);
    lemma_body_steps_inwards(n, q, i);
    if q[i] == n {
        assert(b.update(i, n) =~= q);
        assert(coordinate_colors(m, n, b, i) == seq![m[q]]);
    } else {
        assert(b.update(i, (-n) as i16) =~= q);
        assert(coordinate_colors(m, n, b, i) == seq![m[q]]);
    }
    assert(coordinate_colors(m, n, b, i)[0] == m[q]);
    lemma_body_colors_include(m, n, b, q.len() as int, i);
}

/// On the solved puzzle, every sticker on the positive side of axis `i`
/// shows colour `i`, and every sticker on its negative side shows `!i`
/// (that is `-1 - i`).
pub proof fn lemma_solved_faces(n: i16, d: u16, p: Seq<i16>, i: int)
    requires
        n >= 1,
        solved_map(n, d).dom().contains(p),
        0 <= i < d,
    ensures
        p[i] == n ==> solved_map(n, d)[p] == i,
        p[i] == -n ==> solved_map(n, d)[p] == -1 - i,
{
    assert(is_position(n, d, p));
    let j = choose|j: int| 0 <= j < d && #[trigger] face_at(n, p, j);
    if p[i] == n || p[i] == -n {
        if i != j {
            assert(in_grid(n, p[i]));
        }
        if d >= 2 {
            let k = choose|k: int| 0 <= k < d && #[trigger] face_at(n, p, k);
            lemma_face_unique(n, p, i, k);
        }
    }
}

} // verus!
