//! Sparse vectors over n-gram dimensions, and Dice similarity scoring.
//!
//! A score is an exact rational `num / den` with `0 <= num <= den`, so the
//! Dice coefficient is always a defined value in the unit interval; a zero
//! denominator in the mathematical definition is mapped to the score zero.

use vstd::prelude::*;
use vstd::set_lib::lemma_len_intersect;

verus! {

/// Sum of the occurrence counts that `s` records under dimension `d`.
pub open spec fn count_in(s: Seq<(usize, usize)>, d: usize) -> nat
    decreases s.len(),
{
    if s.len() == 0 {
        0
    } else {
        count_in(s.drop_last(), d) + if s.last().0 == d {
            s.last().1 as nat
        } else {
            0nat
        }
    }
}

/// The dimensions of an entry list, in entry order.
pub open spec fn dim_seq_of(s: Seq<(usize, usize)>) -> Seq<usize> {
    s.map_values(|e: (usize, usize)| e.0)
}

/// One term or query as a sparse map from dimension id to occurrence count.
pub struct Vector {
    entries: Vec<(usize, usize)>,
}

impl View for Vector {
    type V = Seq<(usize, usize)>;

    /// The entry list as a sequence of (dimension, count) pairs.
    closed spec fn view(&self) -> Seq<(usize, usize)> {
        self.entries@
    }
}

impl Vector {
    /// The dimensions of the entry list, in entry order.
    pub open spec fn dim_seq(self) -> Seq<usize> {
        dim_seq_of(self@)
    }

    /// The set of nonzero dimensions.
    pub open spec fn dims(self) -> Set<usize> {
        self.dim_seq().to_set()
    }

    /// Occurrence count of dimension `d`; zero when `d` is absent.
    pub open spec fn count_of(self, d: usize) -> nat {
        count_in(self@, d)
    }

    /// Well-formed: dimensions are distinct and every count is positive.
    pub open spec fn wf(self) -> bool {
        &&& self.dim_seq().no_duplicates()
        &&& forall|i: int| 0 <= i < self@.len() ==> (#[trigger] self@[i]).1 >= 1
        &&& self@.len() <= usize::MAX
    }

    /// The number of distinct dimensions.
    pub open spec fn dim_count(self) -> nat {
        self.dims().len()
    }

    /// The empty vector.
    pub fn empty() -> (r: Vector)
        ensures
            r.wf(),
            r@.len() == 0,
            r.dims() == Set::<usize>::empty(),
            forall|d: usize| #[trigger] r.count_of(d) == 0,
    {
        let v = Vector { entries: Vec::new() };
        proof {
            assert(v.dims() =~= Set::<usize>::empty());
        }
        v
    }

    /// Whether dimension `d` occurs in this vector.
    pub fn contains_dim(&self, d: usize) -> (r: bool)
        ensures
            r == self.dims().contains(d),
    {
        let mut i: usize = 0;
        while i < self.entries.len()
            invariant
                i <= self.entries@.len(),
                forall|k: int| 0 <= k < i ==> (#[trigger] self.entries@[k]).0 != d,
            decreases self.entries@.len() - i,
        {
            if self.entries[i].0 == d {
                proof {
                    assert(self.dim_seq()[i as int] == d);
                    assert(self.dim_seq().contains(d));
                }
                return true;
            }
            i = i + 1;
        }
        proof {
            assert(forall|k: int|
                0 <= k < self.dim_seq().len() ==> #[trigger] self.dim_seq()[k] != d);
            assert(!self.dim_seq().contains(d));
        }
        false
    }

    /// The number of distinct dimensions, as an executable value.
    pub fn dimen_count(&self) -> (r: usize)
        requires
            self.wf(),
        ensures
            r == self.dim_count(),
    {
        proof {
            self.dim_seq().unique_seq_to_set();
        }
        self.entries.len()
    }

    /// Records one more occurrence of dimension `d`.
    pub(crate) fn bump(&mut self, d: usize)
        requires
            old(self).wf(),
            old(self).count_of(d) < usize::MAX,
            old(self)@.len() < usize::MAX,
        ensures
            final(self).wf(),
            final(self).dims() == old(self).dims().insert(d),
            final(self).count_of(d) == old(self).count_of(d) + 1,
            forall|d2: usize|
                d2 != d ==> #[trigger] final(self).count_of(d2) == old(self).count_of(d2),
            final(self)@.len() <= old(self)@.len() + 1,
    {
        let ghost s0 = self.entries@;
        let mut i: usize = 0;
        while i < self.entries.len()
            invariant
                self.entries@ == s0,
                s0 == old(self)@,
                old(self).wf(),
                old(self).count_of(d) < usize::MAX,
                i <= s0.len(),
                forall|k: int| 0 <= k < i ==> (#[trigger] s0[k]).0 != d,
            decreases s0.len() - i,
        {
            if self.entries[i].0 == d {
                let c = self.entries[i].1;
                proof {
                    lemma_count_in_at(s0, i as int, d);
                }
                self.entries[i] = (d, c + 1);
                proof {
                    lemma_count_in_update(s0, i as int, (d, (c + 1) as usize), d);
                    assert(self.dim_seq() =~= old(self).dim_seq());
                    assert(self.dims() =~= old(self).dims().insert(d)) by {
                        assert(old(self).dim_seq()[i as int] == d);
                        assert(old(self).dim_seq().contains(d));
                        assert(old(self).dims().contains(d));
                    }
                    assert forall|d2: usize| d2 != d implies
                        #[trigger] self.count_of(d2) == old(self).count_of(d2) by {
                        lemma_count_in_update(s0, i as int, (d, (c + 1) as usize), d2);
                    }
                }
                return;
            }
            i = i + 1;
        }
        proof {
            assert(forall|k: int| 0 <= k < s0.len() ==> (#[trigger] s0[k]).0 != d);
            assert(forall|k: int|
                0 <= k < s0.len() ==> #[trigger] old(self).dim_seq()[k] != d);
            assert(!old(self).dim_seq().contains(d));
        }
        self.entries.push((d, 1));
        proof {
            assert(self.entries@.drop_last() =~= s0);
            assert(self.dim_seq() =~= old(self).dim_seq().push(d));
            assert(self.dim_seq().drop_last() =~= old(self).dim_seq());
            assert(self.dim_seq().no_duplicates());
            assert(self.dims() =~= old(self).dims().insert(d)) by {
                let sq = self.dim_seq();
                let oq = old(self).dim_seq();
                assert(sq == oq.push(d));
                assert forall|x: usize| sq.to_set().contains(x)
                    implies oq.to_set().insert(d).contains(x) by {
                    let j = choose|j: int| 0 <= j < sq.len() && sq[j] == x;
                    if j < oq.len() {
                        assert(oq[j] == x);
                        assert(oq.contains(x));
                    } else {
                        assert(x == d);
                    }
                }
                assert forall|x: usize| oq.to_set().insert(d).contains(x)
                    implies sq.to_set().contains(x) by {
                    if x == d {
                        assert(sq[oq.len() as int] == d);
                        assert(sq.contains(d));
                    } else {
                        let j = choose|j: int| 0 <= j < oq.len() && oq[j] == x;
                        assert(sq[j] == x);
                        assert(sq.contains(x));
                    }
                }
            }
            assert forall|d2: usize| d2 != d implies
                #[trigger] self.count_of(d2) == old(self).count_of(d2) by {
                assert(count_in(self.entries@, d2) == count_in(s0, d2));
            }
            assert(self.entries.len() == self.entries@.len());
        }
    }
}

/// `count_in` at a dimension held by entry `i` of a duplicate-free list is
/// that entry's count.
proof fn lemma_count_in_at(s: Seq<(usize, usize)>, i: int, d: usize)
    requires
        dim_seq_of(s).no_duplicates(),
        0 <= i < s.len(),
        s[i].0 == d,
    ensures
        count_in(s, d) == s[i].1,
    decreases s.len(),
{
    let dseq = dim_seq_of(s);
    if i == s.len() - 1 {
        assert(dseq[i] == d);
        assert(forall|k: int| 0 <= k < s.len() - 1 ==> #[trigger] dseq[k] != d);
        assert forall|k: int|
            0 <= k < s.len() - 1 implies (#[trigger] s.drop_last()[k]).0 != d by {
            assert(s.drop_last()[k] == s[k]);
            assert(dseq[k] == s[k].0);
        }
        lemma_count_in_absent(s.drop_last(), d);
    } else {
        assert(dim_seq_of(s.drop_last()) =~= dseq.drop_last());
        assert(dseq.drop_last().no_duplicates());
        lemma_count_in_at(s.drop_last(), i, d);
        assert(dseq[i] == d);
        assert(s.last().0 == dseq[s.len() - 1]);
        assert(dseq[s.len() - 1] != d);
    }
}

/// `count_in` is zero at a dimension no entry holds.
proof fn lemma_count_in_absent(s: Seq<(usize, usize)>, d: usize)
    requires
        forall|k: int| 0 <= k < s.len() ==> (#[trigger] s[k]).0 != d,
    ensures
        count_in(s, d) == 0,
    decreases s.len(),
{
    if s.len() > 0 {
        lemma_count_in_absent(s.drop_last(), d);
    }
}

/// How updating entry `i` changes `count_in` at any dimension `d`.
proof fn lemma_count_in_update(s: Seq<(usize, usize)>, i: int, v: (usize, usize), d: usize)
    requires
        0 <= i < s.len(),
    ensures
        count_in(s.update(i, v), d) == count_in(s, d) - (if s[i].0 == d {
            s[i].1 as int
        } else {
            0
        }) + (if v.0 == d {
            v.1 as int
        } else {
            0
        }),
    decreases s.len(),
{
    let t = s.update(i, v);
    if i == s.len() - 1 {
        assert(t.drop_last() =~= s.drop_last());
        assert(t.last() == v);
    } else {
        assert(t.drop_last() =~= s.drop_last().update(i, v));
        assert(t.last() == s.last());
        lemma_count_in_update(s.drop_last(), i, v, d);
    }
}

/// The number of dimensions two vectors share.
pub open spec fn overlap(a: Vector, b: Vector) -> nat {
    a.dims().intersect(b.dims()).len()
}

/// An exact rational similarity score; well-formed scores satisfy
/// `0 <= num <= den` and `den >= 1`.
#[derive(Clone, Copy, PartialEq, Eq, Structural, Debug)]
pub struct Score {
    pub num: u128,
    pub den: u128,
}

/// A weighting of the two vector lengths in the weighted Dice coefficient:
/// the fraction `num / den` stands for the weight `w` in `[0, 1]`.
#[derive(Clone, Copy, PartialEq, Eq, Structural, Debug)]
pub struct Weight {
    pub num: u32,
    pub den: u32,
}

impl Weight {
    /// Well-formed: a fraction in `[0, 1]`.
    pub open spec fn wf(self) -> bool {
        1 <= self.den && self.num <= self.den
    }

    /// The weight 1/2, under which the weighted Dice coefficient is the
    /// plain Dice coefficient.
    pub fn half() -> (r: Weight)
        ensures
            r == (Weight { num: 1u32, den: 2u32 }),
            r.wf(),
    {
        Weight { num: 1, den: 2 }
    }
}

/// The Dice coefficient of `a` and `b`:
/// `2 * |dims(a) /\ dims(b)| / (|dims(a)| + |dims(b)|)`,
/// or zero when both vectors are empty.
pub open spec fn dice_score(a: Vector, b: Vector) -> Score {
    let ov = overlap(a, b);
    let da = a.dim_count();
    let db = b.dim_count();
    if da + db == 0 {
        Score { num: 0, den: 1 }
    } else {
        Score { num: (2 * ov) as u128, den: (da + db) as u128 }
    }
}

/// The weighted Dice coefficient of `a` and `b` under weight `w = p/q`:
/// `2 * |dims(a) /\ dims(b)| / (2w * |dims(a)| + 2(1-w) * |dims(b)|)`,
/// written with the common factor `2/q` cancelled, or zero when the
/// denominator vanishes.
pub open spec fn dice_weighted_score(a: Vector, b: Vector, w: Weight) -> Score {
    let ov = overlap(a, b);
    let da = a.dim_count();
    let db = b.dim_count();
    let den = w.num * da + (w.den - w.num) * db;
    if den == 0 {
        Score { num: 0, den: 1 }
    } else {
        Score { num: (ov * w.den) as u128, den: den as u128 }
    }
}


/// A dimension outside a vector's dimension set has occurrence count zero.
pub proof fn lemma_count_of_absent(v: Vector, d: usize)
    requires
        !v.dims().contains(d),
    ensures
        v.count_of(d) == 0,
{
    assert(!v.dim_seq().contains(d));
    assert forall|k: int| 0 <= k < v@.len() implies (#[trigger] v@[k]).0 != d by {
        assert(v.dim_seq()[k] == v@[k].0);
    }
    lemma_count_in_absent(v@, d);
}

/// Pushing an element onto a sequence inserts it into the element set.
proof fn lemma_to_set_push(s: Seq<usize>, d: usize)
    ensures
        s.push(d).to_set() =~= s.to_set().insert(d),
{
    let t = s.push(d);
    assert forall|x: usize| t.to_set().contains(x) implies s.to_set().insert(d).contains(x) by {
        let j = choose|j: int| 0 <= j < t.len() && t[j] == x;
        if j < s.len() {
            assert(s[j] == x);
            assert(s.contains(x));
        } else {
            assert(x == d);
        }
    }
    assert forall|x: usize| s.to_set().insert(d).contains(x) implies t.to_set().contains(x) by {
        if x == d {
            assert(t[s.len() as int] == d);
            assert(t.contains(d));
        } else {
            let j = choose|j: int| 0 <= j < s.len() && s[j] == x;
            assert(t[j] == x);
            assert(t.contains(x));
        }
    }
}

/// Counts the dimensions shared by `a` and `b`.
fn overlap_count(a: &Vector, b: &Vector) -> (r: usize)
    requires
        a.wf(),
        b.wf(),
    ensures
        r == overlap(*a, *b),
{
    let mut r: usize = 0;
    let mut i: usize = 0;
    let n = a.entries.len();
    proof {
        assert(a.dim_seq().take(0).to_set() =~= Set::<usize>::empty());
        assert(Set::<usize>::empty().intersect(b.dims()) =~= Set::<usize>::empty());
    }
    while i < n
        invariant
            a.wf(),
            b.wf(),
            n == a@.len(),
            i <= n,
            r <= i,
            r == a.dim_seq().take(i as int).to_set().intersect(b.dims()).len(),
        decreases n - i,
    {
        let d = a.entries[i].0;
        let hit = b.contains_dim(d);
        proof {
            let pre = a.dim_seq().take(i as int);
            let post = a.dim_seq().take(i as int + 1);
            assert(a.dim_seq()[i as int] == d);
            assert(post =~= pre.push(d));
            lemma_to_set_push(pre, d);
            assert(!pre.contains(d)) by {
                if pre.contains(d) {
                    let j = choose|j: int| 0 <= j < pre.len() && pre[j] == d;
                    assert(a.dim_seq()[j] == d);
                }
            }
            assert(!pre.to_set().contains(d));
            assert(pre.to_set().finite());
            assert(pre.to_set().intersect(b.dims()).finite());
            if hit {
                assert(post.to_set().intersect(b.dims())
                    =~= pre.to_set().intersect(b.dims()).insert(d));
                assert(!pre.to_set().intersect(b.dims()).contains(d));
            } else {
                assert(post.to_set().intersect(b.dims())
                    =~= pre.to_set().intersect(b.dims()));
            }
        }
        if hit {
            r = r + 1;
        }
        i = i + 1;
    }
    proof {
        assert(a.dim_seq().take(n as int) =~= a.dim_seq());
    }
    r
}


/// A sound weighted-mean bound: a count below both dimension counts keeps the
/// weighted score inside the unit interval.
proof fn lemma_weighted_num_le_den(ov: int, da: int, db: int, p: int, q: int)
    requires
        0 <= ov,
        ov <= da,
        ov <= db,
        0 <= p,
        p <= q,
    ensures
        ov * q <= p * da + (q - p) * db,
{
    assert(ov * q == ov * p + ov * (q - p)) by (nonlinear_arith);
    assert(ov * p <= p * da) by (nonlinear_arith)
        requires
            0 <= p,
            ov <= da,
    ;
    assert(ov * (q - p) <= (q - p) * db) by (nonlinear_arith)
        requires
            0 <= q - p,
            ov <= db,
    ;
}

/// The shared-dimension count never exceeds either vector's dimension count.
proof fn lemma_overlap_le(a: Vector, b: Vector)
    requires
        a.wf(),
        b.wf(),
    ensures
        overlap(a, b) <= a.dim_count(),
        overlap(a, b) <= b.dim_count(),
        a.dim_count() <= usize::MAX,
        b.dim_count() <= usize::MAX,
{
    assert(a.dims().finite());
    assert(b.dims().finite());
    lemma_len_intersect(a.dims(), b.dims());
    assert(a.dims().intersect(b.dims()) =~= b.dims().intersect(a.dims()));
    lemma_len_intersect(b.dims(), a.dims());
    a.dim_seq().lemma_cardinality_of_set();
    b.dim_seq().lemma_cardinality_of_set();
}

/// Computes the Dice coefficient of `a` and `b` as an exact rational.
///
/// The result is `dice_score(a, b)`: in particular it is a defined value in
/// the unit interval even when both vectors are empty.
pub fn dice(a: &Vector, b: &Vector) -> (r: Score)
    requires
        a.wf(),
        b.wf(),
    ensures
        r == dice_score(*a, *b),
        r.num <= r.den,
        1 <= r.den,
{
    let ov = overlap_count(a, b);
    let da = a.dimen_count();
    let db = b.dimen_count();
    proof {
        lemma_overlap_le(*a, *b);
    }
    let den: u128 = da as u128 + db as u128;
    if den == 0 {
        Score { num: 0, den: 1 }
    } else {
        Score { num: 2 * (ov as u128), den }
    }
}

/// Computes the weighted Dice coefficient of `a` and `b` under `w`.
///
/// The result is `dice_weighted_score(a, b, w)`, again a defined value in the
/// unit interval whatever the two vectors are.
pub fn dice_weighted(a: &Vector, b: &Vector, w: Weight) -> (r: Score)
    requires
        a.wf(),
        b.wf(),
        w.wf(),
    ensures
        r == dice_weighted_score(*a, *b, w),
        r.num <= r.den,
        1 <= r.den,
{
    let ov = overlap_count(a, b);
    let da = a.dimen_count();
    let db = b.dimen_count();
    let p = w.num as u128;
    let q = w.den as u128;
    proof {
        lemma_overlap_le(*a, *b);
        // every operand fits well below 2^96, so the u128 products cannot
        // overflow
        assert((da as u128) <= usize::MAX as u128);
        assert((db as u128) <= usize::MAX as u128);
        assert((ov as u128) <= usize::MAX as u128);
        assert(p * (da as u128) < 0x1_0000_0000_0000_0000_0000_0000u128)
            by (nonlinear_arith)
            requires
                p < 0x1_0000_0000u128,
                (da as u128) < 0x1_0000_0000_0000_0000_0000u128,
        ;
        assert((q - p) * (db as u128) < 0x1_0000_0000_0000_0000_0000_0000u128)
            by (nonlinear_arith)
            requires
                q - p < 0x1_0000_0000u128,
                (db as u128) < 0x1_0000_0000_0000_0000_0000u128,
        ;
        assert((ov as u128) * q < 0x1_0000_0000_0000_0000_0000_0000u128)
            by (nonlinear_arith)
            requires
                q < 0x1_0000_0000u128,
                (ov as u128) < 0x1_0000_0000_0000_0000_0000u128,
        ;
        lemma_weighted_num_le_den(ov as int, da as int, db as int, p as int, q as int);
    }
    let den: u128 = p * (da as u128) + (q - p) * (db as u128);
    if den == 0 {
        Score { num: 0, den: 1 }
    } else {
        Score { num: (ov as u128) * q, den }
    }
}


/// The Dice coefficient of a nonempty vector with itself is the maximal
/// score: its numerator and denominator coincide, so its value is one.
pub proof fn lemma_dice_reflexive(a: Vector)
    requires
        a.wf(),
        a.dims().len() > 0,
    ensures
        dice_score(a, a).num == dice_score(a, a).den,
        1 <= dice_score(a, a).den,
{
    assert(a.dims().intersect(a.dims()) =~= a.dims());
    a.dim_seq().lemma_cardinality_of_set();
}

/// The Dice coefficient is symmetric, and its value lies in the unit
/// interval: `0 <= num <= den` with a positive denominator.
pub proof fn lemma_dice_symmetric(a: Vector, b: Vector)
    requires
        a.wf(),
        b.wf(),
    ensures
        dice_score(a, b) == dice_score(b, a),
        dice_score(a, b).num <= dice_score(a, b).den,
        1 <= dice_score(a, b).den,
{
    assert(a.dims().intersect(b.dims()) =~= b.dims().intersect(a.dims()));
    lemma_overlap_le(a, b);
}

/// Weighting the Dice coefficient with one half gives exactly the plain
/// Dice coefficient.
pub proof fn lemma_dice_weighted_half(a: Vector, b: Vector)
    ensures
        dice_weighted_score(a, b, Weight { num: 1u32, den: 2u32 }) == dice_score(a, b),
{
    let w = Weight { num: 1u32, den: 2u32 };
    let ov = overlap(a, b);
    let da = a.dim_count();
    let db = b.dim_count();
    assert(w.num == 1u32 && w.den == 2u32);
    assert(w.num * da + (w.den - w.num) * db == da + db) by (nonlinear_arith)
        requires
            w.num == 1u32 && w.den == 2u32,
    ;
    assert(ov * w.den == 2 * ov) by (nonlinear_arith)
        requires
            w.den == 2u32,
    ;
}

/// Weighting the Dice coefficient fully toward `a` scores the overlap
/// against `a`'s dimension count alone.
pub proof fn lemma_dice_weighted_full(a: Vector, b: Vector)
    requires
        a.wf(),
        b.wf(),
        a.dims().len() > 0,
    ensures
        dice_weighted_score(a, b, Weight { num: 1u32, den: 1u32 }).num == overlap(a, b),
        dice_weighted_score(a, b, Weight { num: 1u32, den: 1u32 }).den == a.dims().len(),
{
    lemma_overlap_le(a, b);
    let w = Weight { num: 1u32, den: 1u32 };
    let ov = overlap(a, b);
    let da = a.dim_count();
    let db = b.dim_count();
    assert(w.num == 1u32 && w.den == 1u32);
    assert(w.num * da + (w.den - w.num) * db == da) by (nonlinear_arith)
        requires
            w.num == 1u32 && w.den == 1u32,
    ;
    assert(ov * w.den == ov) by (nonlinear_arith)
        requires
            w.den == 1u32,
    ;
}

/// Entry lists that form a well-formed vector: distinct dimensions and
/// positive counts.
pub open spec fn valid_entries(s: Seq<(usize, usize)>) -> bool {
    &&& dim_seq_of(s).no_duplicates()
    &&& forall|i: int| 0 <= i < s.len() ==> (#[trigger] s[i]).1 >= 1
}

impl Vector {
    /// The entry list, for a host that stores or transmits the vector.
    pub fn entry_list(&self) -> (r: &Vec<(usize, usize)>)
        ensures
            r@ == self@,
    {
        &self.entries
    }

    /// A copy of the entry list, for a host that stores or transmits the
    /// vector.
    pub fn entries_cloned(&self) -> (r: Vec<(usize, usize)>)
        ensures
            r@ == self@,
    {
        let mut r: Vec<(usize, usize)> = Vec::new();
        let mut i: usize = 0;
        while i < self.entries.len()
            invariant
                i <= self.entries@.len(),
                r@ == self.entries@.take(i as int),
            decreases self.entries@.len() - i,
        {
            r.push(self.entries[i]);
            proof {
                assert(r@ =~= self.entries@.take(i as int + 1));
            }
            i = i + 1;
        }
        proof {
            assert(self.entries@.take(self.entries@.len() as int) =~= self.entries@);
        }
        r
    }

    /// Rebuilds a vector from an entry list, accepting exactly the lists
    /// with distinct dimensions and positive counts.
    pub fn from_entries(list: Vec<(usize, usize)>) -> (r: Option<Vector>)
        ensures
            r is Some <==> valid_entries(list@),
            r is Some ==> r.unwrap()@ == list@ && r.unwrap().wf(),
    {
        let n = list.len();
        let mut i: usize = 0;
        while i < n
            invariant
                n == list@.len(),
                i <= n,
                forall|k: int| 0 <= k < i ==> (#[trigger] list@[k]).1 >= 1,
                forall|k1: int, k2: int|
                    0 <= k1 < k2 < i ==> (#[trigger] list@[k1]).0 != (#[trigger] list@[k2]).0,
            decreases n - i,
        {
            if list[i].1 < 1 {
                return None;
            }
            let mut j: usize = 0;
            while j < i
                invariant
                    n == list@.len(),
                    j <= i < n,
                    forall|k: int| 0 <= k < j ==> (#[trigger] list@[k]).0 != list@[i as int].0,
                decreases i - j,
            {
                if list[j].0 == list[i].0 {
                    proof {
                        let dseq = dim_seq_of(list@);
                        assert(dseq[j as int] == dseq[i as int]);
                        assert(!dseq.no_duplicates());
                    }
                    return None;
                }
                j = j + 1;
            }
            i = i + 1;
        }
        proof {
            let dseq = dim_seq_of(list@);
            assert forall|k1: int, k2: int| 0 <= k1 < k2 < dseq.len()
                implies dseq[k1] != dseq[k2] by {
                assert(list@[k1].0 != list@[k2].0);
            }
            assert(list.len() == list@.len());
        }
        Some(Vector { entries: list })
    }
}

} // verus!
