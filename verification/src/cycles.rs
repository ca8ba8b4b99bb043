//! Permutations of sticker indices and their decomposition into cycles.
//!
//! A turn sends the sticker at index `s[x]` to index `x`; `s` is a
//! permutation of `0..s.len()`. Its cycles of length two or more are enough
//! to apply it to another permutation in place.

use vstd::prelude::*;

verus! {

/// `s` is a permutation of `0..s.len()`.
pub open spec fn is_perm(s: Seq<usize>) -> bool {
    &&& forall|x: int| 0 <= x < s.len() ==> #[trigger] s[x] < s.len()
    &&& forall|x: int, y: int|
        0 <= x < s.len() && 0 <= y < s.len() && #[trigger] s[x] == #[trigger] s[y] ==> x == y
}

/// No index occurs twice in the cycles `cs`.
pub open spec fn nodes_distinct(cs: Seq<Seq<usize>>) -> bool {
    forall|a: int, i: int, b: int, j: int|
        0 <= a < cs.len() && 0 <= i < cs[a].len() && 0 <= b < cs.len() && 0 <= j < cs[b].len()
            && #[trigger] cs[a][i] == #[trigger] cs[b][j] ==> a == b && i == j
}

/// `x` occurs in one of the first `k` cycles of `cs`.
pub open spec fn in_cycles_upto(cs: Seq<Seq<usize>>, k: int, x: usize) -> bool {
    exists|a: int, i: int| 0 <= a < k && 0 <= i < cs[a].len() && #[trigger] cs[a][i] == x
}

/// `x` occurs in one of the cycles `cs`.
pub open spec fn in_cycles(cs: Seq<Seq<usize>>, x: usize) -> bool {
    in_cycles_upto(cs, cs.len() as int, x)
}

/// The element after position `i` of cycle `c`, wrapping around.
pub open spec fn next_in(c: Seq<usize>, i: int) -> usize {
    c[(i + 1) % (c.len() as int)]
}

/// `cs` are the cycles of length two or more of the permutation `s`:
/// along each cycle `s` leads from one element to the next, and every
/// index in no cycle is a fixed point of `s`.
pub open spec fn cycles_of(cs: Seq<Seq<usize>>, s: Seq<usize>) -> bool {
    &&& nodes_distinct(cs)
    &&& forall|a: int| 0 <= a < cs.len() ==> #[trigger] cs[a].len() >= 2
    &&& forall|a: int, i: int|
        0 <= a < cs.len() && 0 <= i < cs[a].len() ==> #[trigger] cs[a][i] < s.len() && s[cs[a][i] as int]
            == next_in(cs[a], i)
    &&& forall|x: usize| x < s.len() && !in_cycles(cs, x) ==> #[trigger] s[x as int] == x
}

/// The nested vector `v` read as sequences.
pub open spec fn nested(v: Seq<Vec<usize>>) -> Seq<Seq<usize>> {
    v.map_values(|c: Vec<usize>| c@)
}

/// The nested vector read as sequences, index by index.
pub proof fn lemma_nested(v: Seq<Vec<usize>>)
    ensures
        nested(v).len() == v.len(),
        forall|a: int|
            #![trigger nested(v)[a]]
            #![trigger v[a]]
            0 <= a < v.len() ==> nested(v)[a] == v[a]@,
{
}

/// The set of marked indices is closed under `s` and under its inverse.
pub open spec fn marks_closed(v: Seq<bool>, s: Seq<usize>) -> bool {
    &&& forall|x: int| 0 <= x < s.len() && v[x] ==> #[trigger] v[s[x] as int]
    &&& forall|x: int| 0 <= x < s.len() && #[trigger] v[s[x] as int] ==> v[x]
}

/// The number of unmarked indices.
pub open spec fn unmarked(v: Seq<bool>) -> nat
    decreases v.len(),
{
    if v.len() == 0 {
        0
    } else {
        unmarked(v.drop_last()) + if v.last() {
            0nat
        } else {
            1nat
        }
    }
}

/// Marking an unmarked index lowers the count of unmarked ones by one.
pub proof fn lemma_mark(v: Seq<bool>, x: int)
    requires
        0 <= x < v.len(),
        !v[x],
    ensures
        unmarked(v.update(x, true)) + 1 == unmarked(v),
    decreases v.len(),
{
    let w = v.update(x, true);
    if x == v.len() - 1 {
        assert(w.drop_last() =~= v.drop_last());
    } else {
        assert(w.drop_last() =~= v.drop_last().update(x, true));
        lemma_mark(v.drop_last(), x);
    }
}

/// Follows `s` from the unmarked index `start`, marking every index on the
/// way, until it comes back to `start`; `cycle` receives the indices in the
/// order visited.
pub(crate) fn trace_cycle(s: &Vec<usize>, visited: &mut Vec<bool>, cycle: &mut Vec<usize>, start: usize)
    requires
        is_perm(s@),
        old(visited)@.len() == s@.len(),
        start < s@.len(),
        !old(visited)@[start as int],
        marks_closed(old(visited)@, s@),
        old(cycle)@.len() == 0,
    ensures
        final(visited)@.len() == s@.len(),
        final(cycle)@.len() >= 1,
        final(cycle)@[0] == start,
        forall|i: int, j: int|
            0 <= i < j < final(cycle)@.len() ==> #[trigger] final(cycle)@[i] != #[trigger] final(cycle)@[j],
        forall|i: int|
            0 <= i < final(cycle)@.len() ==> #[trigger] final(cycle)@[i] < s@.len()
                && s@[final(cycle)@[i] as int] == next_in(final(cycle)@, i),
        forall|i: int|
            0 <= i < final(cycle)@.len() ==> !old(visited)@[#[trigger] final(cycle)@[i] as int],
        forall|x: int|
            0 <= x < s@.len() ==> #[trigger] final(visited)@[x] == (old(visited)@[x]
                || final(cycle)@.contains(x as usize)),
        marks_closed(final(visited)@, s@),
{
    let ghost v0 = visited@;
    let slen = s.len();
    let ghost n = s@.len();
    let mut current = start;
    while !visited[current]
        invariant
            is_perm(s@),
            n == s@.len(),
            n == slen,
            visited@.len() == n,
            v0.len() == n,
            marks_closed(v0, s@),
            start < n,
            !v0[start as int],
            current < n,
            cycle@.len() == 0 ==> current == start,
            cycle@.len() > 0 ==> cycle@[0] == start && current == s@[cycle@.last() as int],
            forall|i: int, j: int|
                0 <= i < j < cycle@.len() ==> #[trigger] cycle@[i] != #[trigger] cycle@[j],
            forall|i: int|
                0 <= i < cycle@.len() ==> #[trigger] cycle@[i] < n && !v0[cycle@[i] as int],
            forall|i: int|
                0 <= i < cycle@.len() - 1 ==> #[trigger] s@[cycle@[i] as int] == cycle@[i + 1],
            forall|x: int|
                0 <= x < n ==> #[trigger] visited@[x] == (v0[x] || cycle@.contains(x as usize)),
        decreases unmarked(visited@),
    {
        proof {
            lemma_mark(visited@, current as int);
            assert(!cycle@.contains(current)) by {
                if cycle@.contains(current) {
                    let k = choose|k: int| 0 <= k < cycle@.len() && cycle@[k] == current;
                    assert(visited@[current as int]);
                }
            }
        }
        let ghost before = cycle@;
        let ghost vis_before = visited@;
        visited.set(current, true);
        cycle.push(current);
        proof {
            assert(cycle@ == before.push(current));
            assert forall|x: int| 0 <= x < n implies #[trigger] visited@[x] == (v0[x]
                || cycle@.contains(x as usize)) by {
                assert(vis_before[x] == (v0[x] || before.contains(x as usize)));
                if x == current as int {
                    assert(cycle@[before.len() as int] == current);
                } else {
                    assert(visited@[x] == vis_before[x]);
                    if cycle@.contains(x as usize) {
                        let k = choose|k: int| 0 <= k < cycle@.len() && cycle@[k] == x as usize;
                        if k == before.len() {
                            assert(cycle@[k] == current);
                            assert(false);
                        }
                        assert(before[k] == x as usize);
                    }
                    if before.contains(x as usize) {
                        let k = choose|k: int| 0 <= k < before.len() && before[k] == x as usize;
                        assert(cycle@[k] == x as usize);
                    }
                }
            }
        }
        current = s[current];
    }
    proof {
        lemma_walk_closes(s@, v0, visited@, cycle@, current, start);
    }
}

/// A walk along the permutation `s` from an unmarked `start`, stopped at
/// the first marked index, has come back to `start`; its indices form a
/// cycle of `s`, and adding them to the marks keeps the marks closed.
proof fn lemma_walk_closes(
    s: Seq<usize>,
    v0: Seq<bool>,
    v1: Seq<bool>,
    c: Seq<usize>,
    current: usize,
    start: usize,
)
    requires
        is_perm(s),
        s.len() <= usize::MAX,
        v0.len() == s.len(),
        v1.len() == s.len(),
        marks_closed(v0, s),
        start < s.len(),
        !v0[start as int],
        current < s.len(),
        v1[current as int],
        c.len() == 0 ==> current == start,
        c.len() > 0 ==> c[0] == start && current == s[c.last() as int],
        forall|i: int, j: int| 0 <= i < j < c.len() ==> #[trigger] c[i] != #[trigger] c[j],
        forall|i: int| 0 <= i < c.len() ==> #[trigger] c[i] < s.len() && !v0[c[i] as int],
        forall|i: int| 0 <= i < c.len() - 1 ==> #[trigger] s[c[i] as int] == c[i + 1],
        forall|x: int| 0 <= x < s.len() ==> #[trigger] v1[x] == (v0[x] || c.contains(x as usize)),
    ensures
        c.len() >= 1,
        current == start,
        forall|i: int| 0 <= i < c.len() ==> #[trigger] c[i] < s.len() && s[c[i] as int] == next_in(c, i),
        marks_closed(v1, s),
{
    lemma_walk_returns(s, v0, v1, c, current, start);
    let len = c.len() as int;
    assert forall|i: int| 0 <= i < len implies #[trigger] c[i] < s.len() && s[c[i] as int]
        == next_in(c, i) by {
        if i < len - 1 {
            vstd::arithmetic::div_mod::lemma_small_mod((i + 1) as nat, len as nat);
        } else {
            vstd::arithmetic::div_mod::lemma_mod_self_0(len);
        }
    }
    lemma_marks_forward(s, v0, v1, c);
    lemma_marks_backward(s, v0, v1, c);
}

/// A walk along `s` from an unmarked `start` that has reached a marked
/// index has come back to `start`: marks that were there before are closed
/// under `s`, and `s` is one to one.
proof fn lemma_walk_returns(
    s: Seq<usize>,
    v0: Seq<bool>,
    v1: Seq<bool>,
    c: Seq<usize>,
    current: usize,
    start: usize,
)
    requires
        is_perm(s),
        s.len() <= usize::MAX,
        v0.len() == s.len(),
        v1.len() == s.len(),
        marks_closed(v0, s),
        start < s.len(),
        !v0[start as int],
        current < s.len(),
        v1[current as int],
        c.len() == 0 ==> current == start,
        c.len() > 0 ==> c[0] == start && current == s[c.last() as int],
        forall|i: int, j: int| 0 <= i < j < c.len() ==> #[trigger] c[i] != #[trigger] c[j],
        forall|i: int| 0 <= i < c.len() ==> #[trigger] c[i] < s.len() && !v0[c[i] as int],
        forall|i: int| 0 <= i < c.len() - 1 ==> #[trigger] s[c[i] as int] == c[i + 1],
        forall|x: int| 0 <= x < s.len() ==> #[trigger] v1[x] == (v0[x] || c.contains(x as usize)),
    ensures
        c.len() >= 1,
        current == start,
{
    let len = c.len() as int;
    assert(len > 0) by {
        if len == 0 {
            assert(v1[start as int] == v0[start as int]);
        }
    }
    let last = c[len - 1];
    assert(last < s.len());
    if v0[current as int] {
        assert(v0[s[last as int] as int]);
        assert(v0[last as int]);
        assert(false);
    } else {
        assert(v1[current as int] == (v0[current as int] || c.contains(current)));
        let j = choose|j: int| 0 <= j < len && c[j] == current;
        if j > 0 {
            assert(s[c[j - 1] as int] == c[j]);
            assert(c[j - 1] < s.len());
            assert(s[c[j - 1] as int] == s[last as int]);
            assert(c[j - 1] == last);
            assert(false);
        }
    }
}

/// After marking a whole cycle, the marks are still closed under stepping
/// forward along `s`.
proof fn lemma_marks_forward(s: Seq<usize>, v0: Seq<bool>, v1: Seq<bool>, c: Seq<usize>)
    requires
        s.len() <= usize::MAX,
        v0.len() == s.len(),
        v1.len() == s.len(),
        forall|x: int| 0 <= x < s.len() && v0[x] ==> #[trigger] v0[s[x] as int],
        forall|x: int| 0 <= x < s.len() ==> #[trigger] s[x] < s.len(),
        forall|i: int| 0 <= i < c.len() ==> #[trigger] c[i] < s.len() && s[c[i] as int] == next_in(c, i),
        c.len() >= 1,
        forall|x: int| 0 <= x < s.len() ==> #[trigger] v1[x] == (v0[x] || c.contains(x as usize)),
    ensures
        forall|x: int| 0 <= x < s.len() && v1[x] ==> #[trigger] v1[s[x] as int],
{
    let len = c.len() as int;
    assert forall|x: int| 0 <= x < s.len() && v1[x] implies #[trigger] v1[s[x] as int] by {
        assert(s[x] < s.len());
        if v0[x] {
            assert(v0[s[x] as int]);
        } else {
            let k = choose|k: int| 0 <= k < len && c[k] == x as usize;
            let t = (k + 1) % len;
            vstd::arithmetic::div_mod::lemma_mod_bound(k + 1, len);
            assert(s[c[k] as int] == c[t]);
            assert(c.contains(c[t]));
            assert(v1[s[x] as int] == (v0[s[x] as int] || c.contains(s[x] as int as usize)));
        }
    }
}

/// After marking a whole cycle, the marks are still closed under stepping
/// backward along `s`.
proof fn lemma_marks_backward(s: Seq<usize>, v0: Seq<bool>, v1: Seq<bool>, c: Seq<usize>)
    requires
        is_perm(s),
        s.len() <= usize::MAX,
        v0.len() == s.len(),
        v1.len() == s.len(),
        forall|x: int| 0 <= x < s.len() && #[trigger] v0[s[x] as int] ==> v0[x],
        forall|i: int| 0 <= i < c.len() ==> #[trigger] c[i] < s.len() && s[c[i] as int] == next_in(c, i),
        c.len() >= 1,
        forall|x: int| 0 <= x < s.len() ==> #[trigger] v1[x] == (v0[x] || c.contains(x as usize)),
    ensures
        forall|x: int| 0 <= x < s.len() && #[trigger] v1[s[x] as int] ==> v1[x],
{
    let len = c.len() as int;
    assert forall|x: int| 0 <= x < s.len() && #[trigger] v1[s[x] as int] implies v1[x] by {
        let y = s[x];
        assert(y < s.len());
        assert(v1[y as int] == (v0[y as int] || c.contains(y)));
        if v0[y as int] {
            assert(v0[x]);
        } else {
            let k = choose|k: int| 0 <= k < len && c[k] == y;
            let p = if k > 0 { k - 1 } else { len - 1 };
            assert(next_in(c, p) == c[k]) by {
                if k > 0 {
                    vstd::arithmetic::div_mod::lemma_small_mod(k as nat, len as nat);
                } else {
                    vstd::arithmetic::div_mod::lemma_mod_self_0(len);
                }
            }
            assert(s[c[p] as int] == y);
            assert(c[p] as int == x);
            assert(c.contains(c[p]));
            assert(v1[x] == (v0[x] || c.contains(x as usize)));
        }
    }
}

/// Applies the cycles `cs` to `perm`: the entry at each index of a cycle
/// takes the entry at the next index of the cycle; other entries stay.
pub(crate) fn apply_cycles_to_permutation(cycles: &Vec<Vec<usize>>, perm: &mut Vec<usize>)
    requires
        nodes_distinct(nested(cycles@)),
        forall|a: int| 0 <= a < cycles@.len() ==> #[trigger] cycles@[a]@.len() >= 1,
        forall|a: int, i: int|
            0 <= a < cycles@.len() && 0 <= i < cycles@[a]@.len() ==> #[trigger] cycles@[a]@[i] < old(
                perm,
            )@.len(),
    ensures
        final(perm)@.len() == old(perm)@.len(),
        forall|a: int, i: int|
            0 <= a < cycles@.len() && 0 <= i < cycles@[a]@.len() ==> final(perm)@[cycles@[a]@[i] as int]
                == old(perm)@[next_in(cycles@[a]@, i) as int],
        forall|x: usize|
            x < old(perm)@.len() && !in_cycles(nested(cycles@), x) ==> final(perm)@[x as int]
                == old(perm)@[x as int],
{
    let ghost p0 = perm@;
    let ghost cs = nested(cycles@);
    let mut q: usize = 0;
    while q < cycles.len()
        invariant
            cs == nested(cycles@),
            nodes_distinct(cs),
            forall|a: int| 0 <= a < cycles@.len() ==> #[trigger] cycles@[a]@.len() >= 1,
            forall|a: int, i: int|
                0 <= a < cycles@.len() && 0 <= i < cycles@[a]@.len() ==> #[trigger] cycles@[a]@[i]
                    < p0.len(),
            q <= cycles@.len(),
            perm@.len() == p0.len(),
            forall|a: int, i: int|
                0 <= a < q && 0 <= i < cycles@[a]@.len() ==> #[trigger] perm@[cycles@[a]@[i] as int]
                    == p0[next_in(cycles@[a]@, i) as int],
            forall|x: usize|
                x < p0.len() && !in_cycles_upto(cs, q as int, x) ==> #[trigger] perm@[x as int]
                    == p0[x as int],
        decreases cycles@.len() - q,
    {
        let cycle = &cycles[q];
        let ghost c = cycle@;
        let ghost len = c.len() as int;
        assert(cs[q as int] == c);
        proof {
            assert forall|i: int| 0 <= i < len implies !in_cycles_upto(cs, q as int, #[trigger] c[i]) by {
                if in_cycles_upto(cs, q as int, c[i]) {
                    let (a, j) = choose|a: int, j: int|
                        0 <= a < q && 0 <= j < cs[a].len() && #[trigger] cs[a][j] == c[i];
                    assert(cs[q as int][i] == cs[a][j]);
                }
            }
        }
        let first = perm[cycle[0]];
        let mut i: usize = 0;
        while i < cycle.len() - 1
            invariant
                cs == nested(cycles@),
                nodes_distinct(cs),
                cs[q as int] == c,
                c == cycle@,
                len == c.len(),
                len >= 1,
                q < cycles@.len(),
                forall|a: int| 0 <= a < cycles@.len() ==> #[trigger] cycles@[a]@.len() >= 1,
                forall|a: int, j: int|
                    0 <= a < cycles@.len() && 0 <= j < cycles@[a]@.len() ==> #[trigger] cycles@[a]@[j]
                        < p0.len(),
                forall|t: int| 0 <= t < len ==> !in_cycles_upto(cs, q as int, #[trigger] c[t]),
                first == p0[c[0] as int],
                i < len,
                perm@.len() == p0.len(),
                forall|a: int, j: int|
                    0 <= a < q && 0 <= j < cycles@[a]@.len() ==> #[trigger] perm@[cycles@[a]@[j] as int]
                        == p0[next_in(cycles@[a]@, j) as int],
                forall|t: int| 0 <= t < i ==> #[trigger] perm@[c[t] as int] == p0[c[t + 1] as int],
                forall|x: usize|
                    x < p0.len() && !in_cycles_upto(cs, q as int, x) && !c.subrange(
                        0,
                        i as int,
                    ).contains(x) ==> #[trigger] perm@[x as int] == p0[x as int],
            decreases len - 1 - i,
        {
            proof {
                assert(!c.subrange(0, i as int).contains(c[i + 1])) by {
                    if c.subrange(0, i as int).contains(c[i + 1]) {
                        let t = choose|t: int| 0 <= t < i && c.subrange(0, i as int)[t] == c[i + 1];
                        assert(cs[q as int][t] == cs[q as int][i + 1]);
                    }
                }
            }
            let next = perm[cycle[i + 1]];
            let ghost before = perm@;
            perm.set(cycle[i], next);
            proof {
                assert forall|t: int| 0 <= t < i + 1 implies #[trigger] perm@[c[t] as int]
                    == p0[c[t + 1] as int] by {
                    if t < i {
                        assert(c[t] != c[i as int]) by {
                            assert(cs[q as int][t] != cs[q as int][i as int]);
                        }
                    }
                }
                assert forall|a: int, j: int|
                    0 <= a < q && 0 <= j < cycles@[a]@.len() implies #[trigger] perm@[cycles@[a]@[j] as int]
                    == p0[next_in(cycles@[a]@, j) as int] by {
                    assert(cs[a][j] != cs[q as int][i as int]);
                }
                assert forall|x: usize|
                    x < p0.len() && !in_cycles_upto(cs, q as int, x) && !c.subrange(
                        0,
                        i + 1,
                    ).contains(x) implies #[trigger] perm@[x as int] == p0[x as int] by {
                    assert(c.subrange(0, i + 1)[i as int] == c[i as int]);
                    if c.subrange(0, i as int).contains(x) {
                        let t = choose|t: int| 0 <= t < i && c.subrange(0, i as int)[t] == x;
                        assert(c.subrange(0, i + 1)[t] == x);
                    }
                }
            }
            i = i + 1;
        }
        let last = cycle[cycle.len() - 1];
        perm.set(last, first);
        proof {
            assert(i == len - 1);
            assert forall|t: int| 0 <= t < len implies #[trigger] perm@[c[t] as int]
                == p0[next_in(c, t) as int] by {
                if t < len - 1 {
                    assert(c[t] != c[len - 1]) by {
                        assert(cs[q as int][t] != cs[q as int][len - 1]);
                    }
                    vstd::arithmetic::div_mod::lemma_small_mod((t + 1) as nat, len as nat);
                } else {
                    vstd::arithmetic::div_mod::lemma_mod_self_0(len);
                }
            }
            assert forall|a: int, j: int|
                0 <= a < q + 1 && 0 <= j < cycles@[a]@.len() implies #[trigger] perm@[cycles@[a]@[j] as int]
                == p0[next_in(cycles@[a]@, j) as int] by {
                if a < q {
                    assert(cs[a][j] != cs[q as int][len - 1]);
                } else {
                    assert(cycles@[a]@ == c);
                }
            }
            assert forall|x: usize|
                x < p0.len() && !in_cycles_upto(cs, q + 1, x) implies #[trigger] perm@[x as int]
                == p0[x as int] by {
                assert(!in_cycles_upto(cs, q as int, x));
                assert forall|t: int| 0 <= t < len implies c[t] != x by {
                    if c[t] == x {
                        assert(cs[q as int][t] == x);
                    }
                }
                assert(!c.subrange(0, len - 1).contains(x));
            }
        }
        q = q + 1;
    }
}

} // verus!

verus! {

/// The cycles `cs` of `s` found so far: they are cycles of `s`, each of
/// length two or more, all their indices are marked, and every marked index
/// in none of them is a fixed point of `s`.
pub open spec fn cycles_cover(cs: Seq<Seq<usize>>, s: Seq<usize>, v: Seq<bool>) -> bool {
    &&& nodes_distinct(cs)
    &&& forall|a: int| 0 <= a < cs.len() ==> #[trigger] cs[a].len() >= 2
    &&& forall|a: int, i: int|
        0 <= a < cs.len() && 0 <= i < cs[a].len() ==> #[trigger] cs[a][i] < s.len() && s[cs[a][i] as int]
            == next_in(cs[a], i) && v[cs[a][i] as int]
    &&& forall|x: usize| x < s.len() && v[x as int] && !in_cycles(cs, x) ==> #[trigger] s[x as int] == x
}

/// With every index marked, the cycles found are all the cycles of `s`.
pub proof fn lemma_cover_complete(cs: Seq<Seq<usize>>, s: Seq<usize>, v: Seq<bool>)
    requires
        cycles_cover(cs, s, v),
        v.len() == s.len(),
        forall|x: int| 0 <= x < s.len() ==> #[trigger] v[x],
    ensures
        cycles_of(cs, s),
{
    assert forall|x: usize| x < s.len() && !in_cycles(cs, x) implies #[trigger] s[x as int] == x by {
        assert(v[x as int]);
    }
}

/// Adding a freshly traced cycle (when it has two or more indices) keeps
/// the cover of the marked indices.
pub proof fn lemma_add_cycle(
    cs: Seq<Seq<usize>>,
    s: Seq<usize>,
    v0: Seq<bool>,
    v1: Seq<bool>,
    c: Seq<usize>,
)
    requires
        cycles_cover(cs, s, v0),
        s.len() <= usize::MAX,
        v0.len() == s.len(),
        v1.len() == s.len(),
        c.len() >= 1,
        forall|i: int, j: int| 0 <= i < j < c.len() ==> #[trigger] c[i] != #[trigger] c[j],
        forall|i: int|
            0 <= i < c.len() ==> #[trigger] c[i] < s.len() && s[c[i] as int] == next_in(c, i),
        forall|i: int| 0 <= i < c.len() ==> !v0[#[trigger] c[i] as int],
        forall|x: int| 0 <= x < s.len() ==> #[trigger] v1[x] == (v0[x] || c.contains(x as usize)),
    ensures
        cycles_cover(if c.len() >= 2 { cs.push(c) } else { cs }, s, v1),
{
    let len = c.len() as int;
    if len >= 2 {
        let ns = cs.push(c);
        assert(ns[cs.len() as int] == c);
        assert forall|a: int, i: int, b: int, j: int|
            0 <= a < ns.len() && 0 <= i < ns[a].len() && 0 <= b < ns.len() && 0 <= j < ns[b].len()
                && #[trigger] ns[a][i] == #[trigger] ns[b][j] implies a == b && i == j by {
            if a < cs.len() && b < cs.len() {
                assert(cs[a][i] == cs[b][j]);
            } else if a < cs.len() {
                assert(v0[cs[a][i] as int]);
                assert(!v0[c[j] as int]);
            } else if b < cs.len() {
                assert(v0[cs[b][j] as int]);
                assert(!v0[c[i] as int]);
            } else {
                if i < j {
                    assert(c[i] != c[j]);
                } else if j < i {
                    assert(c[j] != c[i]);
                }
            }
        }
        assert forall|a: int, i: int|
            0 <= a < ns.len() && 0 <= i < ns[a].len() implies #[trigger] ns[a][i] < s.len() && s[ns[a][i] as int]
            == next_in(ns[a], i) && v1[ns[a][i] as int] by {
            if a < cs.len() {
                assert(v0[cs[a][i] as int]);
                assert(v1[cs[a][i] as int] == (v0[cs[a][i] as int] || c.contains(cs[a][i])));
            } else {
                assert(ns[a] == c);
                assert(c.contains(c[i]));
                assert(v1[c[i] as int] == (v0[c[i] as int] || c.contains(c[i])));
            }
        }
        assert forall|x: usize| x < s.len() && v1[x as int] && !in_cycles(ns, x) implies #[trigger] s[x as int]
            == x by {
            if v0[x as int] {
                if in_cycles(cs, x) {
                    let (a, i) = choose|a: int, i: int|
                        0 <= a < cs.len() && 0 <= i < cs[a].len() && #[trigger] cs[a][i] == x;
                    assert(ns[a][i] == x);
                }
            } else {
                assert(v1[x as int] == (v0[x as int] || c.contains(x)));
                let k = choose|k: int| 0 <= k < len && c[k] == x;
                assert(ns[cs.len() as int][k] == x);
            }
        }
    } else {
        assert(next_in(c, 0) == c[0]) by {
            vstd::arithmetic::div_mod::lemma_mod_self_0(1);
        }
        assert forall|a: int, i: int|
            0 <= a < cs.len() && 0 <= i < cs[a].len() implies #[trigger] cs[a][i] < s.len() && s[cs[a][i] as int]
            == next_in(cs[a], i) && v1[cs[a][i] as int] by {
            assert(v0[cs[a][i] as int]);
            assert(v1[cs[a][i] as int] == (v0[cs[a][i] as int] || c.contains(cs[a][i])));
        }
        assert forall|x: usize| x < s.len() && v1[x as int] && !in_cycles(cs, x) implies #[trigger] s[x as int]
            == x by {
            assert(v1[x as int] == (v0[x as int] || c.contains(x)));
            if !v0[x as int] {
                let k = choose|k: int| 0 <= k < len && c[k] == x;
                assert(k == 0);
            }
        }
    }
}

/// Applying the cycles of `s` to `p0` composes it with `s`.
pub proof fn lemma_apply_is_compose(cs: Seq<Seq<usize>>, s: Seq<usize>, p0: Seq<usize>, p1: Seq<usize>)
    requires
        s.len() <= usize::MAX,
        forall|a: int, i: int|
            0 <= a < cs.len() && 0 <= i < cs[a].len() ==> #[trigger] cs[a][i] < s.len() && s[cs[a][i] as int]
                == next_in(cs[a], i),
        forall|x: usize| x < s.len() && !in_cycles(cs, x) ==> #[trigger] s[x as int] == x,
        p0.len() == s.len(),
        p1.len() == s.len(),
        forall|a: int, i: int|
            0 <= a < cs.len() && 0 <= i < cs[a].len() ==> #[trigger] p1[cs[a][i] as int]
                == p0[next_in(cs[a], i) as int],
        forall|x: usize| x < p0.len() && !in_cycles(cs, x) ==> p1[x as int] == p0[x as int],
    ensures
        forall|x: int| 0 <= x < s.len() ==> #[trigger] p1[x] == p0[s[x] as int],
{
    assert forall|x: int| 0 <= x < s.len() implies #[trigger] p1[x] == p0[s[x] as int] by {
        let xu = x as usize;
        if in_cycles(cs, xu) {
            let (a, i) = choose|a: int, i: int|
                0 <= a < cs.len() && 0 <= i < cs[a].len() && #[trigger] cs[a][i] == xu;
            assert(s[cs[a][i] as int] == next_in(cs[a], i));
        } else {
            assert(s[xu as int] == xu);
        }
    }
}

/// Returns a copy of a vector of indices.
pub(crate) fn copy_indices(a: &Vec<usize>) -> (r: Vec<usize>)
    ensures
        r@ == a@,
{
    let mut r: Vec<usize> = Vec::new();
    let mut i: usize = 0;
    while i < a.len()
        invariant
            i <= a@.len(),
            r@ =~= a@.subrange(0, i as int),
        decreases a@.len() - i,
    {
        r.push(a[i]);
        i = i + 1;
    }
    assert(r@ =~= a@);
    r
}

} // verus!
