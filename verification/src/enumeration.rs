//! Enumerations that build the sticker positions of a solved puzzle: the
//! grid of piece centres, its cartesian powers and products, and rotations
//! of a coordinate vector.

use vstd::prelude::*;
use crate::geometry::{face_at, in_grid, is_position};

verus! {

/// The grid `-n+1, -n+3, ..., n-1` in increasing order (empty for `n <= 0`).
pub open spec fn grid_seq(n: i16) -> Seq<i16> {
    Seq::new(if n > 0 { n as nat } else { 0 }, |k: int| (-n + 1 + 2 * k) as i16)
}

/// All sequences of length `k` over `v`, in lexicographic order of their
/// indices into `v`: the first element varies slowest.
pub open spec fn power_seq(v: Seq<i16>, k: nat) -> Seq<Seq<i16>>
    decreases k,
{
    if k == 0 {
        seq![Seq::<i16>::empty()]
    } else {
        let p = power_seq(v, (k - 1) as nat);
        Seq::new(v.len() * p.len(), |idx: int| seq![v[idx / (p.len() as int)]] + p[idx % (p.len() as int)])
    }
}

/// All pairs of an element of `a` and an element of `b`, the first
/// component varying slowest.
pub open spec fn pairs_seq(a: Seq<i16>, b: Seq<Seq<i16>>) -> Seq<(i16, Seq<i16>)> {
    Seq::new(a.len() * b.len(), |idx: int| (a[idx / (b.len() as int)], b[idx % (b.len() as int)]))
}

/// `x` rotated right `f` times: each rotation moves the last element to the
/// front.
pub open spec fn rotr(x: Seq<i16>, f: int) -> Seq<i16> {
    Seq::new(x.len(), |j: int| if j >= f { x[j - f] } else { x[j - f + x.len()] })
}

/// An index below `a * b` splits into a quotient below `a` and a remainder
/// below `b`.
pub proof fn lemma_index_split(idx: int, a: int, b: int)
    requires
        0 <= idx < a * b,
        b > 0,
    ensures
        0 <= idx / b < a,
        0 <= idx % b < b,
        idx == (idx / b) * b + idx % b,
{
    vstd::arithmetic::div_mod::lemma_fundamental_div_mod(idx, b);
    vstd::arithmetic::div_mod::lemma_mod_bound(idx, b);
    let q = idx / b;
    let r = idx % b;
    assert(idx == b * q + r);
    assert(q * b == b * q) by (nonlinear_arith);
    assert(0 <= q < a) by (nonlinear_arith)
        requires
            idx == b * q + r,
            0 <= r < b,
            0 <= idx < a * b,
            b > 0,
    ;
}

/// A quotient below `a` and a remainder below `b` join into an index below
/// `a * b`.
pub proof fn lemma_index_join(i: int, j: int, a: int, b: int)
    requires
        0 <= i < a,
        0 <= j < b,
    ensures
        0 <= i * b + j < a * b,
        (i * b + j) / b == i,
        (i * b + j) % b == j,
{
    assert(0 <= i * b + j < a * b) by (nonlinear_arith)
        requires
            0 <= i < a,
            0 <= j < b,
    ;
    vstd::arithmetic::div_mod::lemma_fundamental_div_mod_converse(i * b + j, b, i, j);
}

/// The grid holds exactly the grid values.
pub proof fn lemma_grid(n: i16)
    ensures
        forall|k: int| 0 <= k < grid_seq(n).len() ==> #[trigger] in_grid(n, grid_seq(n)[k]),
        forall|x: i16| #[trigger] in_grid(n, x) ==> grid_seq(n).contains(x),
{
    assert forall|x: i16| #[trigger] in_grid(n, x) implies grid_seq(n).contains(x) by {
        let k = (x + n - 1) / 2;
        assert(grid_seq(n)[k] == x);
    }
}

/// Each element of a cartesian power has length `k` and elements from `v`.
pub proof fn lemma_power_elems(v: Seq<i16>, k: nat, idx: int)
    requires
        0 <= idx < power_seq(v, k).len(),
    ensures
        power_seq(v, k)[idx].len() == k,
        forall|j: int| 0 <= j < k ==> v.contains(#[trigger] power_seq(v, k)[idx][j]),
    decreases k,
{
    if k > 0 {
        let p = power_seq(v, (k - 1) as nat);
        let b = p.len() as int;
        assert(b > 0) by {
            if b == 0 {
                assert(v.len() * p.len() == 0);
            }
        }
        lemma_index_split(idx, v.len() as int, b);
        lemma_power_elems(v, (k - 1) as nat, idx % b);
        let e = power_seq(v, k)[idx];
        assert(e == seq![v[idx / b]] + p[idx % b]);
        assert forall|j: int| 0 <= j < k implies v.contains(#[trigger] power_seq(v, k)[idx][j]) by {
            if j == 0 {
                assert(v.contains(v[idx / b]));
            } else {
                assert(e[j] == p[idx % b][j - 1]);
            }
        }
    }
}

/// Every sequence of length `k` over `v` occurs in the cartesian power.
pub proof fn lemma_power_complete(v: Seq<i16>, k: nat, c: Seq<i16>)
    requires
        c.len() == k,
        forall|j: int| 0 <= j < k ==> v.contains(#[trigger] c[j]),
    ensures
        power_seq(v, k).contains(c),
    decreases k,
{
    if k == 0 {
        assert(c =~= Seq::<i16>::empty());
        assert(power_seq(v, k)[0] == c);
    } else {
        let p = power_seq(v, (k - 1) as nat);
        let tail = c.drop_first();
        assert forall|j: int| 0 <= j < k - 1 implies v.contains(#[trigger] tail[j]) by {
            assert(tail[j] == c[j + 1]);
        }
        lemma_power_complete(v, (k - 1) as nat, tail);
        let t = choose|t: int| 0 <= t < p.len() && p[t] == tail;
        assert(v.contains(c[0]));
        let h = choose|h: int| 0 <= h < v.len() && v[h] == c[0];
        let b = p.len() as int;
        lemma_index_join(h, t, v.len() as int, b);
        let idx = h * b + t;
        assert(power_seq(v, k)[idx] =~= c);
    }
}

/// The pair at index `i * b.len() + j` is `(a[i], b[j])`.
pub proof fn lemma_pairs_index(a: Seq<i16>, b: Seq<Seq<i16>>, i: int, j: int)
    requires
        0 <= i < a.len(),
        0 <= j < b.len(),
    ensures
        0 <= i * b.len() + j < pairs_seq(a, b).len(),
        pairs_seq(a, b)[i * b.len() + j] == (a[i], b[j]),
{
    lemma_index_join(i, j, a.len() as int, b.len() as int);
}

/// Each pair is made of an element of `a` and an element of `b`.
pub proof fn lemma_pairs_elems(a: Seq<i16>, b: Seq<Seq<i16>>, idx: int)
    requires
        0 <= idx < pairs_seq(a, b).len(),
    ensures
        a.contains(pairs_seq(a, b)[idx].0),
        b.contains(pairs_seq(a, b)[idx].1),
{
    let bl = b.len() as int;
    assert(bl > 0) by {
        if bl == 0 {
            assert(a.len() * b.len() == 0);
        }
    }
    lemma_index_split(idx, a.len() as int, bl);
    assert(a[idx / bl] == pairs_seq(a, b)[idx].0);
    assert(b[idx % bl] == pairs_seq(a, b)[idx].1);
}

/// One more rotation of `rotr(x, f)` gives `rotr(x, f + 1)`.
pub proof fn lemma_rotr_step(x: Seq<i16>, f: int)
    requires
        0 <= f < x.len(),
    ensures
        seq![rotr(x, f).last()] + rotr(x, f).drop_last() == rotr(x, f + 1),
{
    assert(seq![rotr(x, f).last()] + rotr(x, f).drop_last() =~= rotr(x, f + 1));
}

/// The face coordinate of a position is unique once `n >= 1`.
pub proof fn lemma_face_unique(n: i16, p: Seq<i16>, i: int, j: int)
    requires
        n >= 1,
        0 <= i < p.len(),
        0 <= j < p.len(),
        face_at(n, p, i),
        face_at(n, p, j),
    ensures
        i == j,
{
    if i != j {
        assert(in_grid(n, p[j]));
    }
}

/// Rotating `side` followed by grid coordinates `c` right `f` times puts
/// the face at index `f`: a position of the puzzle.
pub proof fn lemma_rotr_position(n: i16, d: u16, side: i16, c: Seq<i16>, f: int)
    requires
        side == n || side == -n,
        c.len() + 1 == d,
        d <= i16::MAX,
        forall|j: int| 0 <= j < c.len() ==> #[trigger] in_grid(n, c[j]),
        0 <= f < d,
    ensures
        is_position(n, d, rotr(seq![side] + c, f)),
        face_at(n, rotr(seq![side] + c, f), f),
        rotr(seq![side] + c, f)[f] == side,
{
    let x = seq![side] + c;
    let r = rotr(x, f);
    assert(r[f] == side);
    assert forall|j: int| 0 <= j < r.len() && j != f implies #[trigger] in_grid(n, r[j]) by {
        if j > f {
            assert(r[j] == c[j - f - 1]);
        } else {
            assert(r[j] == c[j - f + d - 1]);
        }
    }
    assert(face_at(n, r, f));
}

/// Every position of the puzzle is a rotation of its face value followed
/// by the remaining coordinates, starting after the face.
pub proof fn lemma_position_as_rotation(n: i16, d: u16, p: Seq<i16>, i: int)
    requires
        0 <= i < d,
        p.len() == d,
        face_at(n, p, i),
    ensures
        ({
            let c = p.subrange(i + 1, d as int) + p.subrange(0, i);
            &&& c.len() + 1 == d
            &&& forall|j: int| 0 <= j < c.len() ==> #[trigger] in_grid(n, c[j])
            &&& rotr(seq![p[i]] + c, i) == p
        }),
{
    let c = p.subrange(i + 1, d as int) + p.subrange(0, i);
    assert forall|j: int| 0 <= j < c.len() implies #[trigger] in_grid(n, c[j]) by {
        if j < d - i - 1 {
            assert(c[j] == p[i + 1 + j]);
        } else {
            assert(c[j] == p[j - (d - i - 1)]);
        }
    }
    assert(rotr(seq![p[i]] + c, i) =~= p);
}

} // verus!
