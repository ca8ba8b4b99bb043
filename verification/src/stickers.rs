//! A map from sticker positions to colours, kept as two parallel vectors in
//! which no position occurs twice, with an index from a hash code of each
//! position to the places where positions with that code are stored.

use vstd::prelude::*;
use std::collections::HashMap;

verus! {

broadcast use vstd::std_specs::hash::group_hash_axioms;

/// The hash code of the first `k` coordinates of `p`.
pub open spec fn code_prefix(p: Seq<i16>, k: int) -> u64
    decreases k,
{
    if k <= 0 {
        0
    } else {
        vstd::wrapping::u64_specs::wrapping_add(
            vstd::wrapping::u64_specs::wrapping_mul(code_prefix(p, k - 1), 31),
            (p[k - 1] as u16) as u64,
        )
    }
}

/// The hash code of position `p`, by which the map indexes it.
pub open spec fn position_code_of(p: Seq<i16>) -> u64 {
    code_prefix(p, p.len() as int)
}

/// The hash code of position `p`.
pub fn position_code(p: &[i16]) -> (r: u64)
    ensures
        r == position_code_of(p@),
{
    let mut h: u64 = 0;
    let mut i: usize = 0;
    while i < p.len()
        invariant
            i <= p@.len(),
            h == code_prefix(p@, i as int),
        decreases p@.len() - i,
    {
        h = h.wrapping_mul(31).wrapping_add(p[i] as u16 as u64);
        i = i + 1;
    }
    h
}

/// Whether `v` holds `x`.
fn holds_index(v: &Vec<usize>, x: usize) -> (r: bool)
    ensures
        r == v@.contains(x),
{
    let mut i: usize = 0;
    while i < v.len()
        invariant
            i <= v@.len(),
            forall|j: int| 0 <= j < i ==> v@[j] != x,
        decreases v@.len() - i,
    {
        if v[i] == x {
            return true;
        }
        i = i + 1;
    }
    false
}

/// Returns whether two coordinate vectors are equal.
pub fn same_position(a: &[i16], b: &[i16]) -> (r: bool)
    ensures
        r == (a@ == b@),
{
    if a.len() != b.len() {
        return false;
    }
    let mut i: usize = 0;
    while i < a.len()
        invariant
            a@.len() == b@.len(),
            i <= a@.len(),
            forall|k: int| 0 <= k < i ==> a@[k] == b@[k],
        decreases a@.len() - i,
    {
        if a[i] != b[i] {
            return false;
        }
        i = i + 1;
    }
    assert(a@ =~= b@);
    true
}

/// Returns a copy of a coordinate vector.
pub fn copy_position(a: &[i16]) -> (r: Vec<i16>)
    ensures
        r@ == a@,
{
    let mut r: Vec<i16> = Vec::new();
    let mut i: usize = 0;
    while i < a.len()
        invariant
            i <= a@.len(),
            r@ =~= a@.subrange(0, i as int),
        decreases a@.len() - i,
    {
        r.push(a[i]);
        i = i + 1;
    }
    assert(r@ =~= a@);
    r
}

/// The stickers of a puzzle: the colour at each position. Two maps are
/// `==` when they hold the same stickers, whatever their storage order.
#[derive(Clone, Debug, Eq)]
pub struct StickerMap {
    positions: Vec<Vec<i16>>,
    colors: Vec<i16>,
    buckets: HashMap<u64, Vec<usize>>,
}

impl View for StickerMap {
    type V = Map<Seq<i16>, i16>;

    /// The colour at each stored position.
    closed spec fn view(&self) -> Map<Seq<i16>, i16> {
        Map::new(
            |k: Seq<i16>| self.has_key(k),
            |k: Seq<i16>| self.colors@[self.index_for(k)],
        )
    }
}

impl PartialEq for StickerMap {
    /// Whether the two maps hold the same stickers; of a malformed map (one
    /// that stores a position twice), whether the storage is the same.
    fn eq(&self, other: &Self) -> (r: bool) {
        if self.is_well_formed() && other.is_well_formed() {
            self.same_stickers(other)
        } else {
            self.same_storage(other)
        }
    }
}

impl vstd::std_specs::cmp::PartialEqSpecImpl for StickerMap {
    open spec fn obeys_eq_spec() -> bool {
        true
    }

    open spec fn eq_spec(&self, other: &Self) -> bool {
        if self.wf() && other.wf() {
            self@ == other@
        } else {
            self.stored_equal(*other)
        }
    }
}

impl StickerMap {
    /// The number of stickers.
    pub closed spec fn count(self) -> nat {
        self.positions@.len()
    }

    /// The position of the `i`-th sticker, in storage order.
    pub closed spec fn key(self, i: int) -> Seq<i16> {
        self.positions@[i]@
    }

    /// The colour of the `i`-th sticker, in storage order.
    pub closed spec fn color(self, i: int) -> i16 {
        self.colors@[i]
    }

    /// Whether position `k` is stored.
    pub closed spec fn has_key(self, k: Seq<i16>) -> bool {
        exists|i: int| 0 <= i < self.positions@.len() && #[trigger] self.positions@[i]@ == k
    }

    /// The storage index of position `k`.
    pub closed spec fn index_for(self, k: Seq<i16>) -> int {
        choose|i: int| 0 <= i < self.positions@.len() && #[trigger] self.positions@[i]@ == k
    }

    /// The two vectors have the same length, no position occurs twice, and
    /// the index lists each stored place under the code of its position.
    pub closed spec fn wf(self) -> bool {
        &&& self.positions@.len() == self.colors@.len()
        &&& forall|i: int, j: int|
            0 <= i < j < self.positions@.len() ==> self.positions@[i]@ != self.positions@[j]@
        &&& self.indexed()
    }

    /// The index lists each stored place under the code of its position.
    pub closed spec fn indexed(self) -> bool {
        forall|i: int|
            0 <= i < self.positions@.len() ==> {
                let c = position_code_of(#[trigger] self.positions@[i]@);
                &&& self.buckets@.contains_key(c)
                &&& self.buckets@[c]@.contains(i as usize)
            }
    }

    /// The `i`-th stored sticker is in the map with its colour.
    pub proof fn lemma_index(self, i: int)
        requires
            self.wf(),
            0 <= i < self.count(),
        ensures
            self@.dom().contains(self.key(i)),
            self@[self.key(i)] == self.color(i),
            self.index_for(self.key(i)) == i,
            self.count() <= usize::MAX,
            self.key(i).len() <= usize::MAX,
    {
        assert(self.positions.len() == self.positions@.len());
        assert(self.positions@[i].len() == self.positions@[i]@.len());
        assert(self.has_key(self.key(i)));
        let j = self.index_for(self.key(i));
        assert(self.positions@[j]@ == self.key(i));
        if i < j {
            assert(self.positions@[i]@ != self.positions@[j]@);
        } else if j < i {
            assert(self.positions@[j]@ != self.positions@[i]@);
        }
    }

    /// The number of stickers fits in `usize`.
    pub proof fn lemma_count_bound(self)
        ensures
            self.count() <= usize::MAX,
    {
        assert(self.positions.len() == self.positions@.len());
    }

    /// Every position in the map is stored at some index.
    pub proof fn lemma_key(self, k: Seq<i16>)
        requires
            self.wf(),
            self@.dom().contains(k),
        ensures
            0 <= self.index_for(k) < self.count(),
            self.key(self.index_for(k)) == k,
            self@[k] == self.color(self.index_for(k)),
            self.count() <= usize::MAX,
    {
        assert(self.positions.len() == self.positions@.len());
        assert(self.has_key(k));
    }

    /// An empty map.
    pub fn new() -> (r: Self)
        ensures
            r.wf(),
            r@ == Map::<Seq<i16>, i16>::empty(),
            r.count() == 0,
    {
        let r = StickerMap { positions: Vec::new(), colors: Vec::new(), buckets: HashMap::new() };
        assert(r@ =~= Map::<Seq<i16>, i16>::empty());
        r
    }

    /// The number of stickers.
    pub fn len(&self) -> (r: usize)
        ensures
            r == self.count(),
            self.wf() ==> r == self@.dom().len(),
    {
        proof {
            if self.wf() {
                self.lemma_dom_len();
            }
        }
        self.positions.len()
    }

    /// The stored positions, as sequences.
    pub closed spec fn key_seq(self) -> Seq<Seq<i16>> {
        self.positions@.map_values(|v: Vec<i16>| v@)
    }

    /// A well-formed map has one position per stored sticker.
    pub proof fn lemma_dom_len(self)
        requires
            self.wf(),
        ensures
            self@.dom().len() == self.count(),
            self@.dom().finite(),
    {
        let ks = self.key_seq();
        assert forall|i: int, j: int| 0 <= i < ks.len() && 0 <= j < ks.len() && i != j implies ks[i]
            != ks[j] by {
            if i < j {
                assert(self.positions@[i]@ != self.positions@[j]@);
            } else {
                assert(self.positions@[j]@ != self.positions@[i]@);
            }
        }
        assert(ks.no_duplicates());
        ks.unique_seq_to_set();
        assert forall|k: Seq<i16>| #[trigger] self@.dom().contains(k) == ks.to_set().contains(k) by {
            if self@.dom().contains(k) {
                self.lemma_key(k);
                assert(ks[self.index_for(k)] == k);
            }
            if ks.to_set().contains(k) {
                let i = choose|i: int| 0 <= i < ks.len() && ks[i] == k;
                assert(self.positions@[i]@ == k);
                assert(self.has_key(k));
            }
        }
        assert(self@.dom() =~= ks.to_set());
        vstd::seq_lib::seq_to_set_is_finite(ks);
    }

    /// The storage index of `pos`, or `None` when it has no sticker.
    pub fn index_of(&self, pos: &[i16]) -> (r: Option<usize>)
        requires
            self.wf(),
        ensures
            match r {
                Some(i) => i < self.count() && self.key(i as int) == pos@,
                None => !self@.dom().contains(pos@),
            },
    {
        proof {
            assert(vstd::std_specs::hash::obeys_key_model::<u64>());
            assert(vstd::std_specs::hash::builds_valid_hashers::<std::collections::hash_map::RandomState>());
        }
        let c = position_code(pos);
        let bucket = match self.buckets.get(&c) {
            Some(b) => b,
            None => {
                proof {
                    if self@.dom().contains(pos@) {
                        self.lemma_key(pos@);
                        let i = self.index_for(pos@);
                        assert(position_code_of(self.positions@[i]@) == c);
                    }
                }
                return None;
            },
        };
        let mut t: usize = 0;
        while t < bucket.len()
            invariant
                self.wf(),
                bucket@ == self.buckets@[c]@,
                t <= bucket@.len(),
                forall|s: int|
                    0 <= s < t ==> bucket@[s] >= self.positions@.len() || self.positions@[bucket@[s] as int]@
                        != pos@,
            decreases bucket@.len() - t,
        {
            let j = bucket[t];
            if j < self.positions.len() && same_position(self.positions[j].as_slice(), pos) {
                return Some(j);
            }
            t = t + 1;
        }
        proof {
            if self@.dom().contains(pos@) {
                self.lemma_key(pos@);
                let i = self.index_for(pos@);
                assert(position_code_of(self.positions@[i]@) == c);
                assert(bucket@.contains(i as usize));
                let s = choose|s: int| 0 <= s < bucket@.len() && bucket@[s] == i as usize;
                assert(bucket@[s] < self.positions@.len());
            }
        }
        None
    }

    /// The colour at `pos`, or `None` when it has no sticker.
    pub fn get(&self, pos: &[i16]) -> (r: Option<i16>)
        requires
            self.wf(),
        ensures
            r == (if self@.dom().contains(pos@) {
                Some(self@[pos@])
            } else {
                None
            }),
    {
        match self.index_of(pos) {
            Some(i) => {
                proof {
                    self.lemma_index(i as int);
                }
                Some(self.colors[i])
            },
            None => None,
        }
    }

    /// Sets the colour at `pos`, adding the position if it is new, and
    /// returns the colour it had.
    pub fn insert(&mut self, pos: Vec<i16>, color: i16) -> (r: Option<i16>)
        requires
            old(self).wf(),
        ensures
            final(self).wf(),
            final(self)@ == old(self)@.insert(pos@, color),
            r == (if old(self)@.dom().contains(pos@) {
                Some(old(self)@[pos@])
            } else {
                None
            }),
            old(self)@.dom().contains(pos@) ==> final(self).count() == old(self).count(),
            !old(self)@.dom().contains(pos@) ==> final(self).count() == old(self).count() + 1,
    {
        match self.index_of(pos.as_slice()) {
            Some(i) => {
                proof {
                    self.lemma_index(i as int);
                }
                let before = self.colors[i];
                let ghost old_self = *self;
                self.colors.set(i, color);
                proof {
                    assert forall|k: Seq<i16>| #[trigger] self.has_key(k) == old_self.has_key(k) by {
                        if old_self.has_key(k) {
                            let j = old_self.index_for(k);
                            assert(self.positions@[j]@ == k);
                        }
                        if self.has_key(k) {
                            let j = self.index_for(k);
                            assert(old_self.positions@[j]@ == k);
                        }
                    }
                    assert forall|k: Seq<i16>| self.has_key(k) implies self.index_for(k)
                        == old_self.index_for(k) by {
                        self.lemma_key(k);
                        old_self.lemma_key(k);
                        self.lemma_index(old_self.index_for(k));
                    }
                    assert forall|k: Seq<i16>| self.has_key(k) && k != pos@ implies self.index_for(
                        k,
                    ) != i by {
                        self.lemma_key(k);
                    }
                    self.lemma_index(i as int);
                    assert(self@ =~= old_self@.insert(pos@, color));
                }
                Some(before)
            },
            None => {
                let ghost old_self = *self;
                let ghost p = pos@;
                let n = self.positions.len();
                let c = position_code(pos.as_slice());
                proof {
                    assert(vstd::std_specs::hash::obeys_key_model::<u64>());
                    assert(vstd::std_specs::hash::builds_valid_hashers::<std::collections::hash_map::RandomState>());
                }
                self.positions.push(pos);
                self.colors.push(color);
                let mut bucket = match self.buckets.remove(&c) {
                    Some(b) => b,
                    None => Vec::new(),
                };
                let ghost old_bucket = bucket@;
                bucket.push(n);
                self.buckets.insert(c, bucket);
                proof {
                    assert forall|i: int| 0 <= i < self.positions@.len() implies {
                        let ci = position_code_of(#[trigger] self.positions@[i]@);
                        &&& self.buckets@.contains_key(ci)
                        &&& self.buckets@[ci]@.contains(i as usize)
                    } by {
                        if i == n {
                            assert(self.buckets@[c]@[old_bucket.len() as int] == n);
                        } else {
                            assert(self.positions@[i] == old_self.positions@[i]);
                            let ci = position_code_of(self.positions@[i]@);
                            assert(old_self.buckets@.contains_key(ci));
                            assert(old_self.buckets@[ci]@.contains(i as usize));
                            if ci == c {
                                let s = choose|s: int|
                                    0 <= s < old_bucket.len() && old_bucket[s] == i as usize;
                                assert(self.buckets@[c]@[s] == i as usize);
                            }
                        }
                    }
                    assert(self.indexed());
                }
                proof {
                    let n = old_self.positions@.len() as int;
                    assert(self.positions@[n]@ == p);
                    assert forall|k: Seq<i16>| #[trigger] self.has_key(k) == (old_self.has_key(k)
                        || k == p) by {
                        if old_self.has_key(k) {
                            let j = old_self.index_for(k);
                            assert(self.positions@[j]@ == k);
                        }
                        if self.has_key(k) && k != p {
                            let j = self.index_for(k);
                            assert(j != n);
                            assert(old_self.positions@[j]@ == k);
                        }
                    }
                    assert forall|k: Seq<i16>| old_self.has_key(k) implies self.index_for(k)
                        == old_self.index_for(k) by {
                        old_self.lemma_key(k);
                        let j = old_self.index_for(k);
                        assert(self.positions@[j]@ == k);
                        self.lemma_index(j);
                    }
                    self.lemma_index(n);
                    assert(self@ =~= old_self@.insert(p, color));
                }
                None
            },
        }
    }

    /// Whether the two maps hold the same stickers: the same positions with
    /// the same colours, whatever their storage order.
    pub fn same_stickers(&self, other: &StickerMap) -> (r: bool)
        requires
            self.wf(),
            other.wf(),
        ensures
            r == (self@ == other@),
    {
        let mut i: usize = 0;
        while i < self.positions.len()
            invariant
                self.wf(),
                other.wf(),
                i <= self.count(),
                forall|k: int|
                    0 <= k < i ==> other@.dom().contains(#[trigger] self.key(k)) && other@[self.key(
                        k,
                    )] == self.color(k),
            decreases self.count() - i,
        {
            proof {
                self.lemma_index(i as int);
            }
            match other.get(self.positions[i].as_slice()) {
                Some(c) => {
                    if c != self.colors[i] {
                        return false;
                    }
                },
                None => {
                    return false;
                },
            }
            i = i + 1;
        }
        let mut j: usize = 0;
        while j < other.positions.len()
            invariant
                self.wf(),
                other.wf(),
                j <= other.count(),
                forall|k: int| 0 <= k < j ==> self@.dom().contains(#[trigger] other.key(k)),
            decreases other.count() - j,
        {
            proof {
                other.lemma_index(j as int);
            }
            if self.index_of(other.positions[j].as_slice()).is_none() {
                return false;
            }
            j = j + 1;
        }
        proof {
            assert forall|p: Seq<i16>| #[trigger] self@.dom().contains(p) implies other@.dom().contains(p)
                && other@[p] == self@[p] by {
                self.lemma_key(p);
                assert(other@.dom().contains(self.key(self.index_for(p))));
            }
            assert forall|p: Seq<i16>| #[trigger] other@.dom().contains(p) implies self@.dom().contains(p) by {
                other.lemma_key(p);
                assert(self@.dom().contains(other.key(other.index_for(p))));
            }
            assert(self@ =~= other@);
        }
        true
    }

    /// Whether the two maps store the same positions and colours in the same
    /// order.
    pub closed spec fn stored_equal(self, other: StickerMap) -> bool {
        &&& self.positions@.len() == other.positions@.len()
        &&& self.colors@ == other.colors@
        &&& forall|i: int| 0 <= i < self.positions@.len() ==> #[trigger] self.positions@[i]@
            == other.positions@[i]@
    }

    /// Whether the map is well formed: as many colours as positions, and no
    /// position stored twice.
    pub fn is_well_formed(&self) -> (r: bool)
        ensures
            r == self.wf(),
    {
        if self.positions.len() != self.colors.len() {
            return false;
        }
        let n = self.positions.len();
        let mut i: usize = 0;
        while i < n
            invariant
                n == self.positions@.len(),
                self.positions@.len() == self.colors@.len(),
                i <= n,
                forall|a: int, b: int| 0 <= a < b < n && a < i ==> self.positions@[a]@ != self.positions@[b]@,
            decreases n - i,
        {
            let mut j: usize = i + 1;
            while j < n
                invariant
                    n == self.positions@.len(),
                    i < n,
                    i + 1 <= j <= n,
                    forall|a: int, b: int| 0 <= a < b < n && a < i ==> self.positions@[a]@ != self.positions@[b]@,
                    forall|b: int| i < b < j ==> self.positions@[i as int]@ != self.positions@[b]@,
                decreases n - j,
            {
                if same_position(self.positions[i].as_slice(), self.positions[j].as_slice()) {
                    return false;
                }
                j = j + 1;
            }
            i = i + 1;
        }
        proof {
            assert(vstd::std_specs::hash::obeys_key_model::<u64>());
            assert(vstd::std_specs::hash::builds_valid_hashers::<std::collections::hash_map::RandomState>());
        }
        let mut i: usize = 0;
        while i < n
            invariant
                n == self.positions@.len(),
                i <= n,
                forall|k: int|
                    0 <= k < i ==> {
                        let c = position_code_of(#[trigger] self.positions@[k]@);
                        &&& self.buckets@.contains_key(c)
                        &&& self.buckets@[c]@.contains(k as usize)
                    },
            decreases n - i,
        {
            let c = position_code(self.positions[i].as_slice());
            match self.buckets.get(&c) {
                Some(b) => {
                    if !holds_index(b, i) {
                        return false;
                    }
                },
                None => {
                    return false;
                },
            }
            i = i + 1;
        }
        true
    }

    /// Whether the two maps store the same positions and colours in the same
    /// order.
    pub fn same_storage(&self, other: &StickerMap) -> (r: bool)
        ensures
            r == self.stored_equal(*other),
    {
        if self.positions.len() != other.positions.len() || self.colors.len() != other.colors.len() {
            return false;
        }
        let mut i: usize = 0;
        while i < self.positions.len()
            invariant
                self.positions@.len() == other.positions@.len(),
                self.colors@.len() == other.colors@.len(),
                i <= self.positions@.len(),
                forall|k: int| 0 <= k < i ==> #[trigger] self.positions@[k]@ == other.positions@[k]@,
            decreases self.positions@.len() - i,
        {
            if !same_position(self.positions[i].as_slice(), other.positions[i].as_slice()) {
                return false;
            }
            i = i + 1;
        }
        let mut j: usize = 0;
        while j < self.colors.len()
            invariant
                self.colors@.len() == other.colors@.len(),
                j <= self.colors@.len(),
                forall|k: int| 0 <= k < j ==> #[trigger] self.colors@[k] == other.colors@[k],
            decreases self.colors@.len() - j,
        {
            if self.colors[j] != other.colors[j] {
                return false;
            }
            j = j + 1;
        }
        assert(self.colors@ =~= other.colors@);
        true
    }

    /// The positions of all stickers, in storage order.
    pub fn keys(&self) -> (r: Vec<Vec<i16>>)
        requires
            self.wf(),
        ensures
            r@.len() == self.count(),
            forall|i: int| 0 <= i < r@.len() ==> #[trigger] r@[i]@ == self.key(i),
    {
        let mut r: Vec<Vec<i16>> = Vec::new();
        let mut i: usize = 0;
        while i < self.positions.len()
            invariant
                i <= self.positions@.len(),
                r@.len() == i,
                forall|k: int| 0 <= k < i ==> #[trigger] r@[k]@ == self.positions@[k]@,
            decreases self.positions@.len() - i,
        {
            r.push(copy_position(self.positions[i].as_slice()));
            i = i + 1;
        }
        r
    }

    /// The position of the `i`-th sticker, in storage order.
    pub(crate) fn position_at(&self, i: usize) -> (r: &Vec<i16>)
        requires
            i < self.count(),
        ensures
            r@ == self.key(i as int),
    {
        &self.positions[i]
    }

    /// The colours of all stickers, in storage order.
    pub(crate) fn colors_in_order(&self) -> (r: &Vec<i16>)
        requires
            self.wf(),
        ensures
            r@.len() == self.count(),
            forall|i: int| 0 <= i < r@.len() ==> #[trigger] r@[i] == self.color(i),
    {
        &self.colors
    }

    /// Replaces the colours of all stickers, in storage order.
    pub(crate) fn recolor(&mut self, colors: Vec<i16>)
        requires
            old(self).wf(),
            colors@.len() == old(self).count(),
        ensures
            final(self).wf(),
            final(self).count() == old(self).count(),
            forall|i: int| 0 <= i < final(self).count() ==> #[trigger] final(self).key(i) == old(
                self,
            ).key(i),
            forall|i: int| 0 <= i < final(self).count() ==> #[trigger] final(self).color(i)
                == colors@[i],
    {
        self.colors = colors;
    }
}

/// Two maps that store the same positions in the same order and whose
/// colours agree index by index are equal.
pub proof fn lemma_same_storage(a: StickerMap, b: StickerMap)
    requires
        a.wf(),
        b.wf(),
        a.count() == b.count(),
        forall|i: int| 0 <= i < a.count() ==> #[trigger] a.key(i) == b.key(i),
    ensures
        a@.dom() == b@.dom(),
        forall|i: int| 0 <= i < a.count() ==> b@[#[trigger] a.key(i)] == b.color(i),
{
    assert forall|k: Seq<i16>| a@.dom().contains(k) == b@.dom().contains(k) by {
        if a@.dom().contains(k) {
            a.lemma_key(k);
            b.lemma_index(a.index_for(k));
        }
        if b@.dom().contains(k) {
            b.lemma_key(k);
            a.lemma_index(b.index_for(k));
        }
    }
    assert(a@.dom() =~= b@.dom());
    assert forall|i: int| 0 <= i < a.count() implies b@[#[trigger] a.key(i)] == b.color(i) by {
        b.lemma_index(i);
    }
}

} // verus!
