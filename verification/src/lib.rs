//! An embedded approximate string-matching engine.
//!
//! Terms are indexed by their constituent character n-grams: each distinct
//! n-gram is assigned a dense integer dimension, every indexed term becomes a
//! sparse vector over those dimensions, and fuzzy queries are answered by
//! ranking indexed terms with the Dice coefficient over shared dimensions.

pub mod builder;
pub mod grams;
pub mod store;
pub mod vector;

pub use grams::padded;
pub use vector::{dice, dice_weighted, Score, Vector, Weight};

use vstd::prelude::*;
use crate::grams::{gram_views, lemma_occurrences_positive, occurrences, split_into_grams};
use crate::store::{posting_wf, store_wf, term_grams, vector_matches};
use crate::vector::{dice_score, dice_weighted_score, lemma_count_of_absent, valid_entries};

verus! {

/// An immutable n-gram index: the dictionary, the posting store and the
/// gram length, finalized by a builder and read-only from then on.
pub struct NGIndex<I> {
    n: usize,
    grams: Vec<String>,
    postings: Vec<Vec<usize>>,
    items: Vec<(I, Vector)>,
}

impl<I> NGIndex<I> {
    /// The gram length.
    pub closed spec fn n_spec(self) -> usize {
        self.n
    }

    /// The dictionary: the gram at position `d` has dimension id `d`.
    pub closed spec fn gram_model(self) -> Seq<Seq<char>> {
        gram_views(self.grams@)
    }

    /// The stored items, in insertion order, each with its vector.
    pub closed spec fn items_model(self) -> Seq<(I, Vector)> {
        self.items@
    }

    /// The posting lists, one per dimension.
    pub closed spec fn postings_model(self) -> Seq<Seq<usize>> {
        self.postings@.map_values(|p: Vec<usize>| p@)
    }

    /// Well-formed index state.
    pub closed spec fn wf(self) -> bool {
        &&& 1 <= self.n
        &&& store_wf(self.grams@, self.items@, self.postings@)
    }

    /// Wraps finalized store state into an index.
    pub(crate) fn from_store(
        n: usize,
        grams: Vec<String>,
        postings: Vec<Vec<usize>>,
        items: Vec<(I, Vector)>,
    ) -> (r: NGIndex<I>)
        requires
            1 <= n,
            store_wf(grams@, items@, postings@),
        ensures
            r.wf(),
            r.n_spec() == n,
            r.gram_model() == gram_views(grams@),
            r.items_model() == items@,
            r.postings_model().len() == postings@.len(),
            forall|d: int|
                0 <= d < postings@.len() ==> #[trigger] r.postings_model()[d] == postings@[d]@,
    {
        NGIndex { n, grams, postings, items }
    }

    /// The gram length the index was built with.
    pub fn n(&self) -> (r: usize)
        ensures
            r == self.n_spec(),
    {
        self.n
    }

    /// The number of indexed items.
    pub fn len(&self) -> (r: usize)
        ensures
            r == self.items_model().len(),
    {
        self.items.len()
    }

    /// Whether the index holds no items.
    pub fn is_empty(&self) -> (r: bool)
        ensures
            r == (self.items_model().len() == 0),
    {
        self.items.is_empty()
    }
}


impl<I> NGIndex<I> {
    /// Finds the dimension of a gram in the dictionary, if the gram is
    /// indexed.
    fn find_gram(&self, g: &String) -> (r: Option<usize>)
        ensures
            match r {
                Some(d) => d < self.gram_model().len() && self.gram_model()[d as int] == g@,
                None => !self.gram_model().contains(g@),
            },
    {
        let n_g = self.grams.len();
        let mut i: usize = 0;
        while i < n_g
            invariant
                n_g == self.grams@.len(),
                i <= n_g,
                forall|k: int| 0 <= k < i ==> #[trigger] gram_views(self.grams@)[k] != g@,
            decreases n_g - i,
        {
            if self.grams[i] == *g {
                proof {
                    assert(gram_views(self.grams@)[i as int] == g@);
                }
                return Some(i);
            }
            proof {
                assert(gram_views(self.grams@)[i as int] == self.grams@[i as int]@);
            }
            i = i + 1;
        }
        proof {
            assert(forall|k: int|
                0 <= k < gram_views(self.grams@).len() ==> #[trigger] gram_views(self.grams@)[k]
                    != g@);
        }
        None
    }

    /// Builds the query vector for `query`, padding and splitting exactly as
    /// the insertion path does with this index's own gram length; grams
    /// absent from the dictionary are silently dropped.
    pub fn make_query_vec(&self, query: &str) -> (r: Option<Vector>)
        requires
            self.wf(),
        ensures
            r is Some,
            r.unwrap().wf(),
            vector_matches(
                r.unwrap(),
                self.gram_model(),
                term_grams(query@, self.n_spec() as nat),
            ),
            forall|d: usize| #[trigger] r.unwrap().dims().contains(d) ==> d
                < self.gram_model().len(),
    {
        let n = self.n;
        let p = padded(query, n - 1);
        let gs = split_into_grams(p.as_str(), n);
        let ghost gsv = gram_views(gs@);
        let ghost dict = gram_views(self.grams@);
        let count = gs.len();
        let mut v = Vector::empty();
        let mut i: usize = 0;
        proof {
            assert(gsv.take(0) =~= Seq::<Seq<char>>::empty());
            assert(gsv == term_grams(query@, n as nat));
            assert forall|d: usize| d < dict.len() implies #[trigger] v.count_of(d)
                == occurrences(gsv.take(0), dict[d as int]) by {
                lemma_occurrences_positive(gsv.take(0), dict[d as int]);
            }
        }
        while i < count
            invariant
                self.wf(),
                count == gs@.len(),
                i <= count,
                gram_views(gs@) == gsv,
                dict == gram_views(self.grams@),
                v.wf(),
                v@.len() <= i,
                forall|d: usize| #[trigger] v.dims().contains(d) ==> d < dict.len()
                    && gsv.take(i as int).contains(dict[d as int]),
                forall|d: usize|
                    d < dict.len() && gsv.take(i as int).contains(#[trigger] dict[d as int])
                        ==> v.dims().contains(d),
                forall|d: usize|
                    d < dict.len() ==> #[trigger] v.count_of(d) == occurrences(
                        gsv.take(i as int),
                        dict[d as int],
                    ),
            decreases count - i,
        {
            let found = self.find_gram(&gs[i]);
            proof {
                assert(gram_views(gs@)[i as int] == gs@[i as int]@);
                assert(gsv[i as int] == gs@[i as int]@);
                assert(gsv.take(i as int + 1).drop_last() =~= gsv.take(i as int));
                assert(gsv.take(i as int + 1).last() == gsv[i as int]);
            }
            let ghost g = gsv[i as int];
            let ghost v_a = v;
            match found {
                Some(d) => {
                    proof {
                        crate::grams::lemma_occurrences_le(gsv.take(i as int), dict[d as int]);
                        if !v.dims().contains(d) {
                            lemma_count_of_absent(v, d);
                        }
                    }
                    v.bump(d);
                    proof {
                        assert(dict[d as int] == g);
                        assert forall|d2: usize| #[trigger] v.dims().contains(d2) implies d2
                            < dict.len() && gsv.take(i as int + 1).contains(dict[d2 as int]) by {
                            if d2 == d {
                                assert(gsv.take(i as int + 1)[i as int] == g);
                                assert(gsv.take(i as int + 1).contains(g));
                            } else {
                                assert(v_a.dims().contains(d2));
                                let k = choose|k: int|
                                    #![trigger gsv.take(i as int)[k]]
                                    0 <= k < i && gsv.take(i as int)[k] == dict[d2 as int];
                                assert(gsv.take(i as int + 1)[k] == dict[d2 as int]);
                                assert(gsv.take(i as int + 1).contains(dict[d2 as int]));
                            }
                        }
                        assert forall|d2: usize|
                            d2 < dict.len() && gsv.take(i as int + 1).contains(
                                #[trigger] dict[d2 as int],
                            ) implies v.dims().contains(d2) by {
                            if d2 != d {
                                let k = choose|k: int|
                                    #![trigger gsv.take(i as int + 1)[k]]
                                    0 <= k < i + 1 && gsv.take(i as int + 1)[k]
                                        == dict[d2 as int];
                                if k == i {
                                    assert(dict[d2 as int] == g);
                                    assert(dict.no_duplicates());
                                    assert(false);
                                } else {
                                    assert(gsv.take(i as int)[k] == dict[d2 as int]);
                                    assert(gsv.take(i as int).contains(dict[d2 as int]));
                                    assert(v_a.dims().contains(d2));
                                }
                            }
                        }
                        assert forall|d2: usize| d2 < dict.len() implies #[trigger] v.count_of(d2)
                            == occurrences(gsv.take(i as int + 1), dict[d2 as int]) by {
                            let x = dict[d2 as int];
                            assert(occurrences(gsv.take(i as int + 1), x) == occurrences(
                                gsv.take(i as int),
                                x,
                            ) + if g == x {
                                1nat
                            } else {
                                0nat
                            });
                            if d2 == d {
                                assert(x == g);
                            } else {
                                assert(x != g) by {
                                    if x == g {
                                        assert(dict[d2 as int] == dict[d as int]);
                                        assert(dict.no_duplicates());
                                    }
                                }
                            }
                        }
                    }
                }
                None => {
                    proof {
                        assert(!dict.contains(g));
                        assert forall|d2: usize| d2 < dict.len() implies #[trigger] v.count_of(d2)
                            == occurrences(gsv.take(i as int + 1), dict[d2 as int]) by {
                            let x = dict[d2 as int];
                            assert(occurrences(gsv.take(i as int + 1), x) == occurrences(
                                gsv.take(i as int),
                                x,
                            ) + if g == x {
                                1nat
                            } else {
                                0nat
                            });
                            assert(x != g) by {
                                if x == g {
                                    assert(dict.contains(g));
                                }
                            }
                        }
                        assert forall|d2: usize| #[trigger] v.dims().contains(d2) implies d2
                            < dict.len() && gsv.take(i as int + 1).contains(dict[d2 as int]) by {
                            let k = choose|k: int|
                                #![trigger gsv.take(i as int)[k]]
                                0 <= k < i && gsv.take(i as int)[k] == dict[d2 as int];
                            assert(gsv.take(i as int + 1)[k] == dict[d2 as int]);
                            assert(gsv.take(i as int + 1).contains(dict[d2 as int]));
                        }
                        assert forall|d2: usize|
                            d2 < dict.len() && gsv.take(i as int + 1).contains(
                                #[trigger] dict[d2 as int],
                            ) implies v.dims().contains(d2) by {
                            let k = choose|k: int|
                                #![trigger gsv.take(i as int + 1)[k]]
                                0 <= k < i + 1 && gsv.take(i as int + 1)[k] == dict[d2 as int];
                            if k == i {
                                assert(dict.contains(dict[d2 as int]));
                                assert(false);
                            } else {
                                assert(gsv.take(i as int)[k] == dict[d2 as int]);
                                assert(gsv.take(i as int).contains(dict[d2 as int]));
                            }
                        }
                    }
                }
            }
            i = i + 1;
        }
        proof {
            assert(gsv.take(count as int) =~= gsv);
        }
        Some(v)
    }
}

/// The default document-frequency threshold that bounds posting-list
/// fan-out when no threshold is supplied.
pub const DEFAULT_TF_THRESHOLD: usize = 1000;

impl<I> NGIndex<I> {
    /// A dimension the query engine accepts: one the index knows, whose
    /// document frequency is below the threshold when one is given.
    pub open spec fn dim_ok(self, threshold: Option<usize>, d: usize) -> bool {
        &&& d < self.postings_model().len()
        &&& match threshold {
            Option::None => true,
            Option::Some(t) => self.postings_model()[d as int].len() < t,
        }
    }

    /// Stored item `j` is a candidate: it shares at least one accepted
    /// dimension with the query.
    pub open spec fn is_candidate(self, q: Vector, threshold: Option<usize>, j: int) -> bool {
        &&& 0 <= j < self.items_model().len()
        &&& exists|d: usize|
            #![trigger q.dims().contains(d), self.items_model()[j].1.dims().contains(d)]
            q.dims().contains(d) && self.items_model()[j].1.dims().contains(d) && self.dim_ok(
                threshold,
                d,
            )
    }

    /// The candidate positions below `upto`, in ascending order.
    pub open spec fn candidate_positions(self, q: Vector, threshold: Option<usize>, upto: int) -> Seq<int>
        decreases upto,
    {
        if upto <= 0 {
            Seq::empty()
        } else {
            self.candidate_positions(q, threshold, upto - 1) + if self.is_candidate(
                q,
                threshold,
                upto - 1,
            ) {
                seq![upto - 1]
            } else {
                Seq::empty()
            }
        }
    }

    /// The first `upto` items' contribution to a search result: one entry
    /// per candidate, scored with the plain or the weighted Dice
    /// coefficient.
    pub open spec fn results_upto(
        self,
        q: Vector,
        threshold: Option<usize>,
        w: Option<Weight>,
        upto: int,
    ) -> Seq<(I, Score)> {
        self.candidate_positions(q, threshold, upto).map_values(
            |j: int|
                (
                    self.items_model()[j].0,
                    match w {
                        Option::None => dice_score(q, self.items_model()[j].1),
                        Option::Some(wv) => dice_weighted_score(q, self.items_model()[j].1, wv),
                    },
                ),
        )
    }

    /// What `find` returns.
    pub open spec fn find_model(self, q: Vector) -> Seq<(I, Score)> {
        self.results_upto(q, Option::None, Option::None, self.items_model().len() as int)
    }

    /// What `find_fast` returns.
    pub open spec fn find_fast_model(self, q: Vector, t: usize) -> Seq<(I, Score)> {
        self.results_upto(q, Option::Some(t), Option::None, self.items_model().len() as int)
    }

    /// What `find_qweight` and `find_qweight_fast` return.
    pub open spec fn find_weighted_model(self, q: Vector, w: Weight, t: usize) -> Seq<(I, Score)> {
        self.results_upto(q, Option::Some(t), Option::Some(w), self.items_model().len() as int)
    }

    /// A query dimension hits item `j` through one of the first `i` query
    /// entries.
    spec fn hit_upto(self, q: Vector, threshold: Option<usize>, i: int, j: int) -> bool {
        exists|ki: int|
            #![trigger q.dim_seq()[ki]]
            0 <= ki < i && self.dim_ok(threshold, q.dim_seq()[ki])
                && self.items_model()[j].1.dims().contains(q.dim_seq()[ki])
    }

    /// Marks, through the posting lists, every stored item that shares an
    /// accepted dimension with the query.
    fn collect_hits(&self, q: &Vector, threshold: Option<usize>) -> (seen: Vec<bool>)
        requires
            self.wf(),
            q.wf(),
        ensures
            seen@.len() == self.items_model().len(),
            forall|j: int|
                0 <= j < seen@.len() ==> #[trigger] seen@[j] == self.is_candidate(
                    *q,
                    threshold,
                    j,
                ),
    {
        let nitems = self.items.len();
        let mut seen: Vec<bool> = Vec::new();
        let mut z: usize = 0;
        while z < nitems
            invariant
                z <= nitems,
                seen@.len() == z,
                forall|j: int| 0 <= j < z ==> !(#[trigger] seen@[j]),
            decreases nitems - z,
        {
            seen.push(false);
            z = z + 1;
        }
        let qents = q.entry_list();
        let qn = qents.len();
        let mut i: usize = 0;
        while i < qn
            invariant
                self.wf(),
                q.wf(),
                qents@ == q@,
                qn == q@.len(),
                i <= qn,
                nitems == self.items@.len(),
                seen@.len() == nitems,
                forall|j: int|
                    0 <= j < nitems ==> #[trigger] seen@[j] == self.hit_upto(
                        *q,
                        threshold,
                        i as int,
                        j,
                    ),
            decreases qn - i,
        {
            let d = qents[i].0;
            proof {
                assert(q.dim_seq()[i as int] == q@[i as int].0);
            }
            let in_range = d < self.postings.len();
            let ok = if in_range {
                match threshold {
                    Option::None => true,
                    Option::Some(t) => self.postings[d].len() < t,
                }
            } else {
                false
            };
            proof {
                assert(ok == self.dim_ok(threshold, d));
            }
            if ok {
                let ghost seen_a = seen@;
                let post_len = self.postings[d].len();
                let mut k: usize = 0;
                while k < post_len
                    invariant
                        self.wf(),
                        d < self.postings@.len(),
                        post_len == self.postings@[d as int]@.len(),
                        k <= post_len,
                        nitems == self.items@.len(),
                        seen@.len() == nitems,
                        seen_a.len() == nitems,
                        forall|j: int|
                            0 <= j < nitems ==> #[trigger] seen@[j] == (seen_a[j]
                                || self.postings@[d as int]@.take(k as int).contains(j as usize)),
                    decreases post_len - k,
                {
                    let jj = self.postings[d][k];
                    proof {
                        assert(posting_wf(self.postings@[d as int]@, self.items@, d));
                        assert(self.postings@[d as int]@[k as int] < self.items@.len());
                    }
                    let ghost seen_b = seen@;
                    seen[jj] = true;
                    proof {
                        let post = self.postings@[d as int]@;
                        assert(post.take(k as int + 1).drop_last() =~= post.take(k as int));
                        assert forall|j: int| 0 <= j < nitems implies #[trigger] seen@[j] == (
                        seen_a[j] || post.take(k as int + 1).contains(j as usize)) by {
                            if j == jj {
                                assert(post.take(k as int + 1)[k as int] == jj);
                                assert(post.take(k as int + 1).contains(jj));
                            } else {
                                assert(seen@[j] == seen_b[j]);
                                assert(post.take(k as int + 1).contains(j as usize)
                                    == post.take(k as int).contains(j as usize)) by {
                                    if post.take(k as int + 1).contains(j as usize) {
                                        let k2 = choose|k2: int|
                                            #![trigger post.take(k as int + 1)[k2]]
                                            0 <= k2 < k + 1 && post.take(k as int + 1)[k2] == j
                                                as usize;
                                        if k2 < k {
                                            assert(post.take(k as int)[k2] == j as usize);
                                            assert(post.take(k as int).contains(j as usize));
                                        } else {
                                            assert(false);
                                        }
                                    }
                                    if post.take(k as int).contains(j as usize) {
                                        let k2 = choose|k2: int|
                                            #![trigger post.take(k as int)[k2]]
                                            0 <= k2 < k && post.take(k as int)[k2] == j as usize;
                                        assert(post.take(k as int + 1)[k2] == j as usize);
                                        assert(post.take(k as int + 1).contains(j as usize));
                                    }
                                }
                            }
                        }
                    }
                    k = k + 1;
                }
                proof {
                    let post = self.postings@[d as int]@;
                    assert(post.take(post_len as int) =~= post);
                    assert forall|j: int| 0 <= j < nitems implies #[trigger] seen@[j]
                        == self.hit_upto(*q, threshold, i as int + 1, j) by {
                        assert(seen@[j] == (seen_a[j] || post.contains(j as usize)));
                        assert(posting_wf(post, self.items@, d));
                        assert(post.contains(j as usize) <==> self.items@[j].1.dims().contains(d));
                        if seen@[j] {
                            if seen_a[j] {
                                assert(self.hit_upto(*q, threshold, i as int, j));
                                let ki = choose|ki: int|
                                    #![trigger q.dim_seq()[ki]]
                                    0 <= ki < i && self.dim_ok(threshold, q.dim_seq()[ki])
                                        && self.items_model()[j].1.dims().contains(
                                        q.dim_seq()[ki],
                                    );
                                assert(0 <= ki < i + 1);
                            } else {
                                assert(q.dim_seq()[i as int] == d);
                                assert(self.items_model()[j].1.dims().contains(d));
                            }
                        }
                        if self.hit_upto(*q, threshold, i as int + 1, j) {
                            let ki = choose|ki: int|
                                #![trigger q.dim_seq()[ki]]
                                0 <= ki < i + 1 && self.dim_ok(threshold, q.dim_seq()[ki])
                                    && self.items_model()[j].1.dims().contains(q.dim_seq()[ki]);
                            if ki < i {
                                assert(self.hit_upto(*q, threshold, i as int, j));
                            } else {
                                assert(q.dim_seq()[ki] == d);
                                assert(post.contains(j as usize));
                            }
                        }
                    }
                }
            } else {
                proof {
                    assert forall|j: int| 0 <= j < nitems implies #[trigger] seen@[j]
                        == self.hit_upto(*q, threshold, i as int + 1, j) by {
                        if seen@[j] {
                            let ki = choose|ki: int|
                                #![trigger q.dim_seq()[ki]]
                                0 <= ki < i && self.dim_ok(threshold, q.dim_seq()[ki])
                                    && self.items_model()[j].1.dims().contains(q.dim_seq()[ki]);
                            assert(0 <= ki < i + 1);
                        }
                        if self.hit_upto(*q, threshold, i as int + 1, j) {
                            let ki = choose|ki: int|
                                #![trigger q.dim_seq()[ki]]
                                0 <= ki < i + 1 && self.dim_ok(threshold, q.dim_seq()[ki])
                                    && self.items_model()[j].1.dims().contains(q.dim_seq()[ki]);
                            if ki == i {
                                assert(q.dim_seq()[i as int] == d);
                                assert(false);
                            }
                            assert(self.hit_upto(*q, threshold, i as int, j));
                        }
                    }
                }
            }
            i = i + 1;
        }
        proof {
            assert forall|j: int| 0 <= j < nitems implies #[trigger] seen@[j] == self.is_candidate(
                *q,
                threshold,
                j,
            ) by {
                if seen@[j] {
                    let ki = choose|ki: int|
                        #![trigger q.dim_seq()[ki]]
                        0 <= ki < qn && self.dim_ok(threshold, q.dim_seq()[ki])
                            && self.items_model()[j].1.dims().contains(q.dim_seq()[ki]);
                    let d = q.dim_seq()[ki];
                    assert(q.dim_seq().contains(d));
                    assert(q.dims().contains(d));
                    assert(self.is_candidate(*q, threshold, j));
                }
                if self.is_candidate(*q, threshold, j) {
                    let d = choose|d: usize|
                        #![trigger q.dims().contains(d), self.items_model()[j].1.dims().contains(d)]
                        q.dims().contains(d) && self.items_model()[j].1.dims().contains(d)
                            && self.dim_ok(threshold, d);
                    assert(q.dim_seq().contains(d));
                    let ki = choose|ki: int|
                        #![trigger q.dim_seq()[ki]]
                        0 <= ki < q.dim_seq().len() && q.dim_seq()[ki] == d;
                    assert(self.hit_upto(*q, threshold, qn as int, j));
                }
            }
        }
        seen
    }
}


impl<I: Copy> NGIndex<I> {
    /// Scores every candidate item, in item-position order.
    fn gather(&self, q: &Vector, threshold: Option<usize>, w: Option<Weight>) -> (r: Vec<
        (I, Score),
    >)
        requires
            self.wf(),
            q.wf(),
            w is Some ==> w.unwrap().wf(),
        ensures
            r@ == self.results_upto(*q, threshold, w, self.items_model().len() as int),
    {
        let seen = self.collect_hits(q, threshold);
        let mut r: Vec<(I, Score)> = Vec::new();
        let nitems = self.items.len();
        let mut j: usize = 0;
        proof {
            assert(r@ =~= self.results_upto(*q, threshold, w, 0));
        }
        while j < nitems
            invariant
                self.wf(),
                q.wf(),
                w is Some ==> w.unwrap().wf(),
                nitems == self.items@.len(),
                seen@.len() == nitems,
                forall|j2: int|
                    0 <= j2 < nitems ==> #[trigger] seen@[j2] == self.is_candidate(
                        *q,
                        threshold,
                        j2,
                    ),
                j <= nitems,
                r@ == self.results_upto(*q, threshold, w, j as int),
            decreases nitems - j,
        {
            if seen[j] {
                proof {
                    assert(self.items@[j as int].1.wf());
                }
                let sc = match w {
                    Option::None => dice(q, &self.items[j].1),
                    Option::Some(wv) => dice_weighted(q, &self.items[j].1, wv),
                };
                r.push((self.items[j].0, sc));
            }
            proof {
                assert(r@ =~= self.results_upto(*q, threshold, w, j as int + 1));
            }
            j = j + 1;
        }
        r
    }

    /// Enumerates every stored item that shares at least one dimension with
    /// the query vector, each with its Dice score, in storage order; the
    /// caller sorts if a ranking is required.
    pub fn find(&self, query: &Vector) -> (r: Vec<(I, Score)>)
        requires
            self.wf(),
            query.wf(),
        ensures
            r@ == self.find_model(*query),
    {
        self.gather(query, Option::None, Option::None)
    }

    /// As [`Self::find`], but first drops every query dimension whose
    /// document frequency is `tf_threshold` or more: high-frequency
    /// dimensions are weakly discriminative and expensive to enumerate, so
    /// items reachable only through them are deliberately missed.
    pub fn find_fast(&self, query: &Vector, tf_threshold: usize) -> (r: Vec<(I, Score)>)
        requires
            self.wf(),
            query.wf(),
        ensures
            r@ == self.find_fast_model(*query, tf_threshold),
    {
        self.gather(query, Option::Some(tf_threshold), Option::None)
    }

    /// As [`Self::find_fast`], but scores with the weighted Dice
    /// coefficient under the weight `w`.
    pub fn find_qweight_fast(&self, query: &Vector, w: Weight, tf_threshold: usize) -> (r: Vec<
        (I, Score),
    >)
        requires
            self.wf(),
            query.wf(),
            w.wf(),
        ensures
            r@ == self.find_weighted_model(*query, w, tf_threshold),
    {
        self.gather(query, Option::Some(tf_threshold), Option::Some(w))
    }

    /// As [`Self::find_qweight_fast`], with the default document-frequency
    /// threshold.
    pub fn find_qweight(&self, query: &Vector, w: Weight) -> (r: Vec<(I, Score)>)
        requires
            self.wf(),
            query.wf(),
            w.wf(),
        ensures
            r@ == self.find_weighted_model(*query, w, DEFAULT_TF_THRESHOLD),
    {
        self.find_qweight_fast(query, w, DEFAULT_TF_THRESHOLD)
    }
}


impl<I> NGIndex<I> {
    /// Membership in the candidate position list.
    proof fn lemma_positions_contains(self, q: Vector, threshold: Option<usize>, upto: int, j: int)
        ensures
            self.candidate_positions(q, threshold, upto).contains(j) <==> (0 <= j < upto
                && self.is_candidate(q, threshold, j)),
        decreases upto,
    {
        if upto > 0 {
            self.lemma_positions_contains(q, threshold, upto - 1, j);
            let pre = self.candidate_positions(q, threshold, upto - 1);
            let cur = self.candidate_positions(q, threshold, upto);
            if self.is_candidate(q, threshold, upto - 1) {
                assert(cur == pre + seq![upto - 1]);
                assert(cur[pre.len() as int] == upto - 1);
                if cur.contains(j) {
                    let k = choose|k: int| 0 <= k < cur.len() && cur[k] == j;
                    if k < pre.len() {
                        assert(pre[k] == j);
                        assert(pre.contains(j));
                    }
                }
                if pre.contains(j) {
                    let k = choose|k: int| 0 <= k < pre.len() && pre[k] == j;
                    assert(cur[k] == j);
                    assert(cur.contains(j));
                }
                if j == upto - 1 {
                    assert(cur.contains(j));
                }
            } else {
                assert(cur =~= pre);
            }
        }
    }

    /// Two candidate predicates that agree pointwise give the same position
    /// lists.
    proof fn lemma_positions_agree(
        self,
        other: NGIndex<I>,
        q: Vector,
        q2: Vector,
        t1: Option<usize>,
        t2: Option<usize>,
        upto: int,
    )
        requires
            forall|j: int| #[trigger] self.is_candidate(q, t1, j) == other.is_candidate(q2, t2, j),
        ensures
            self.candidate_positions(q, t1, upto) == other.candidate_positions(q2, t2, upto),
        decreases upto,
    {
        if upto > 0 {
            self.lemma_positions_agree(other, q, q2, t1, t2, upto - 1);
        }
    }

    /// Pruning only removes candidates: every entry that `find_fast` yields
    /// is also yielded by `find`; and a threshold above the item count
    /// prunes nothing, so the two results coincide.
    pub proof fn lemma_find_fast_subset(self, q: Vector, t: usize)
        requires
            self.wf(),
        ensures
            forall|e: (I, Score)| #[trigger] self.find_fast_model(q, t).contains(e)
                ==> self.find_model(q).contains(e),
            t > self.items_model().len() ==> self.find_fast_model(q, t) == self.find_model(q),
    {
        let len = self.items_model().len() as int;
        assert forall|e: (I, Score)| #[trigger] self.find_fast_model(q, t).contains(e)
            implies self.find_model(q).contains(e) by {
            let fast = self.candidate_positions(q, Option::Some(t), len);
            let full = self.candidate_positions(q, Option::None, len);
            let k = choose|k: int|
                0 <= k < self.find_fast_model(q, t).len() && self.find_fast_model(q, t)[k] == e;
            let j = fast[k];
            self.lemma_positions_contains(q, Option::Some(t), len, j);
            assert(fast.contains(j)) by {
                assert(fast[k] == j);
            }
            assert(self.is_candidate(q, Option::Some(t), j));
            assert(self.is_candidate(q, Option::None, j)) by {
                let d = choose|d: usize|
                    #![trigger q.dims().contains(d), self.items_model()[j].1.dims().contains(d)]
                    q.dims().contains(d) && self.items_model()[j].1.dims().contains(d)
                        && self.dim_ok(Option::Some(t), d);
                assert(self.dim_ok(Option::None, d));
            }
            self.lemma_positions_contains(q, Option::None, len, j);
            let k2 = choose|k2: int| 0 <= k2 < full.len() && full[k2] == j;
            assert(self.find_model(q)[k2] == e);
            assert(self.find_model(q).contains(e));
        }
        if t > self.items_model().len() {
            assert forall|j: int| #[trigger] self.is_candidate(q, Option::Some(t), j)
                == self.is_candidate(q, Option::None, j) by {
                if self.is_candidate(q, Option::None, j) {
                    let d = choose|d: usize|
                        #![trigger q.dims().contains(d), self.items_model()[j].1.dims().contains(
                            d,
                        )]
                        q.dims().contains(d) && self.items_model()[j].1.dims().contains(d)
                            && self.dim_ok(Option::None, d);
                    assert(posting_wf(self.postings@[d as int]@, self.items@, d));
                    crate::store::lemma_posting_len_le(
                        self.postings@[d as int]@,
                        self.items@,
                        d,
                    );
                    assert(self.dim_ok(Option::Some(t), d));
                    assert(self.is_candidate(q, Option::Some(t), j));
                }
                if self.is_candidate(q, Option::Some(t), j) {
                    let d = choose|d: usize|
                        #![trigger q.dims().contains(d), self.items_model()[j].1.dims().contains(
                            d,
                        )]
                        q.dims().contains(d) && self.items_model()[j].1.dims().contains(d)
                            && self.dim_ok(Option::Some(t), d);
                    assert(self.dim_ok(Option::None, d));
                    assert(self.is_candidate(q, Option::None, j));
                }
            }
            self.lemma_positions_agree(self, q, q, Option::Some(t), Option::None, len);
            assert(self.find_fast_model(q, t) =~= self.find_model(q));
        }
    }

    /// An empty index yields an empty result for every query vector.
    pub proof fn lemma_find_empty(self, q: Vector)
        requires
            self.items_model().len() == 0,
        ensures
            self.find_model(q) == Seq::<(I, Score)>::empty(),
    {
        assert(self.find_model(q) =~= Seq::<(I, Score)>::empty());
    }
}


/// The version tag of the structured index image.
pub const FORMAT_VERSION: u32 = 1;

/// A plain structured image of an index: the format-version tag, the gram
/// length, the dictionary, and each stored item with its vector entry list.
/// A host serializes this image in whatever byte layout it chooses and
/// rebuilds the index from it with [`NGIndex::from_data`].
pub struct IndexData<I> {
    pub version: u32,
    pub n: usize,
    pub grams: Vec<String>,
    pub items: Vec<(I, Vec<(usize, usize)>)>,
}

impl<I> IndexData<I> {
    /// An image an index can be rebuilt from: the right version tag, a gram
    /// length of at least one, distinct grams, well-formed entry lists, and
    /// every dimension inside the dictionary.
    pub open spec fn valid(self) -> bool {
        &&& self.version == FORMAT_VERSION
        &&& 1 <= self.n
        &&& gram_views(self.grams@).no_duplicates()
        &&& forall|j: int|
            0 <= j < self.items@.len() ==> valid_entries((#[trigger] self.items@[j]).1@)
        &&& forall|j: int, k: int|
            #![trigger self.items@[j].1@[k]]
            0 <= j < self.items@.len() && 0 <= k < self.items@[j].1@.len()
                ==> self.items@[j].1@[k].0 < self.grams@.len()
    }
}

/// A copy of a plain entry list.
fn clone_entries(list: &Vec<(usize, usize)>) -> (r: Vec<(usize, usize)>)
    ensures
        r@ == list@,
{
    let mut r: Vec<(usize, usize)> = Vec::new();
    let mut i: usize = 0;
    while i < list.len()
        invariant
            i <= list@.len(),
            r@ == list@.take(i as int),
        decreases list@.len() - i,
    {
        r.push(list[i]);
        proof {
            assert(r@ =~= list@.take(i as int + 1));
        }
        i = i + 1;
    }
    proof {
        assert(list@.take(list@.len() as int) =~= list@);
    }
    r
}

impl<I: Copy> NGIndex<I> {
    /// Renders the index as its structured image, which [`Self::from_data`]
    /// accepts back.
    pub fn to_data(&self) -> (r: IndexData<I>)
        requires
            self.wf(),
        ensures
            r.valid(),
            r.n == self.n_spec(),
            gram_views(r.grams@) == self.gram_model(),
            r.items@.len() == self.items_model().len(),
            forall|j: int|
                0 <= j < r.items@.len() ==> (#[trigger] r.items@[j]).0
                    == self.items_model()[j].0 && r.items@[j].1@ == self.items_model()[j].1@,
    {
        let mut grams: Vec<String> = Vec::new();
        let mut i: usize = 0;
        while i < self.grams.len()
            invariant
                i <= self.grams@.len(),
                grams@.len() == i,
                forall|k: int| 0 <= k < i ==> #[trigger] grams@[k]@ == self.grams@[k]@,
            decreases self.grams@.len() - i,
        {
            let g = self.grams[i].clone();
            grams.push(g);
            i = i + 1;
        }
        let mut items: Vec<(I, Vec<(usize, usize)>)> = Vec::new();
        let mut j: usize = 0;
        while j < self.items.len()
            invariant
                self.wf(),
                j <= self.items@.len(),
                items@.len() == j,
                forall|k: int|
                    0 <= k < j ==> (#[trigger] items@[k]).0 == self.items@[k].0 && items@[k].1@
                        == self.items@[k].1@,
            decreases self.items@.len() - j,
        {
            proof {
                assert(self.items@[j as int].1.wf());
            }
            let ents = self.items[j].1.entries_cloned();
            items.push((self.items[j].0, ents));
            j = j + 1;
        }
        let r = IndexData { version: FORMAT_VERSION, n: self.n, grams, items };
        proof {
            assert(gram_views(r.grams@) =~= self.gram_model());
            assert forall|jj: int| 0 <= jj < r.items@.len() implies valid_entries(
                (#[trigger] r.items@[jj]).1@,
            ) by {
                let v = self.items@[jj].1;
                assert(v.wf());
                assert(r.items@[jj].1@ == v@);
                assert(crate::vector::dim_seq_of(r.items@[jj].1@) == v.dim_seq());
            }
            assert forall|jj: int, k: int|
                #![trigger r.items@[jj].1@[k]]
                0 <= jj < r.items@.len() && 0 <= k < r.items@[jj].1@.len()
                    implies r.items@[jj].1@[k].0 < r.grams@.len() by {
                let v = self.items@[jj].1;
                assert(v.dim_seq()[k] == v@[k].0);
                assert(v.dim_seq().contains(v@[k].0));
                assert(v.dims().contains(v@[k].0));
            }
        }
        r
    }

    /// Rebuilds an index from its structured image, accepting exactly the
    /// valid images; the posting lists are derived anew from the items.
    pub fn from_data(data: IndexData<I>) -> (r: Option<NGIndex<I>>)
        ensures
            r is Some <==> data.valid(),
            r is Some ==> {
                let idx = r.unwrap();
                &&& idx.wf()
                &&& idx.n_spec() == data.n
                &&& idx.gram_model() == gram_views(data.grams@)
                &&& idx.items_model().len() == data.items@.len()
                &&& forall|j: int|
                    0 <= j < data.items@.len() ==> (#[trigger] idx.items_model()[j]).0
                        == data.items@[j].0 && idx.items_model()[j].1@ == data.items@[j].1@
            },
    {
        if data.version != FORMAT_VERSION {
            return None;
        }
        if data.n < 1 {
            return None;
        }
        let m = data.grams.len();
        let mut i: usize = 0;
        while i < m
            invariant
                m == data.grams@.len(),
                i <= m,
                forall|k1: int, k2: int|
                    #![trigger gram_views(data.grams@)[k1], gram_views(data.grams@)[k2]]
                    0 <= k1 < k2 < i ==> gram_views(data.grams@)[k1] != gram_views(
                        data.grams@,
                    )[k2],
            decreases m - i,
        {
            let mut k: usize = 0;
            while k < i
                invariant
                    m == data.grams@.len(),
                    k <= i < m,
                    forall|k1: int|
                        0 <= k1 < k ==> #[trigger] gram_views(data.grams@)[k1] != gram_views(
                            data.grams@,
                        )[i as int],
                decreases i - k,
            {
                if data.grams[k] == data.grams[i] {
                    proof {
                        assert(gram_views(data.grams@)[k as int] == gram_views(
                            data.grams@,
                        )[i as int]);
                        assert(!gram_views(data.grams@).no_duplicates());
                    }
                    return None;
                }
                proof {
                    assert(gram_views(data.grams@)[k as int] == data.grams@[k as int]@);
                    assert(gram_views(data.grams@)[i as int] == data.grams@[i as int]@);
                }
                k = k + 1;
            }
            i = i + 1;
        }
        proof {
            assert(gram_views(data.grams@).no_duplicates());
        }
        let mut items: Vec<(I, Vector)> = Vec::new();
        let nitems = data.items.len();
        let mut j: usize = 0;
        while j < nitems
            invariant
                nitems == data.items@.len(),
                m == data.grams@.len(),
                j <= nitems,
                items@.len() == j,
                forall|k: int|
                    0 <= k < j ==> (#[trigger] items@[k]).0 == data.items@[k].0 && items@[k].1@
                        == data.items@[k].1@ && items@[k].1.wf(),
                forall|k: int, d: usize|
                    0 <= k < j && #[trigger] items@[k].1.dims().contains(d) ==> d < m,
            decreases nitems - j,
        {
            let ents = clone_entries(&data.items[j].1);
            let mut k: usize = 0;
            while k < ents.len()
                invariant
                    nitems == data.items@.len(),
                    m == data.grams@.len(),
                    j < nitems,
                    ents@ == data.items@[j as int].1@,
                    k <= ents@.len(),
                    forall|k1: int| 0 <= k1 < k ==> (#[trigger] ents@[k1]).0 < m,
                decreases ents@.len() - k,
            {
                if ents[k].0 >= m {
                    proof {
                        assert(data.items@[j as int].1@[k as int].0 >= m);
                        assert(!data.valid());
                    }
                    return None;
                }
                k = k + 1;
            }
            match Vector::from_entries(ents) {
                Some(v) => {
                    proof {
                        assert forall|d: usize| #[trigger] v.dims().contains(d) implies d < m by {
                            let k1 = choose|k1: int|
                                0 <= k1 < v.dim_seq().len() && v.dim_seq()[k1] == d;
                            assert(v@[k1].0 == d);
                        }
                    }
                    items.push((data.items[j].0, v));
                }
                None => {
                    proof {
                        assert(!valid_entries(data.items@[j as int].1@));
                        assert(!data.valid());
                    }
                    return None;
                }
            }
            j = j + 1;
        }
        let mut postings: Vec<Vec<usize>> = Vec::new();
        let mut d: usize = 0;
        while d < m
            invariant
                m == data.grams@.len(),
                nitems == items@.len(),
                d <= m,
                postings@.len() == d,
                forall|k: int|
                    0 <= k < nitems ==> (#[trigger] items@[k]).0 == data.items@[k].0
                        && items@[k].1@ == data.items@[k].1@ && items@[k].1.wf(),
                forall|k: int, d2: usize|
                    0 <= k < nitems && #[trigger] items@[k].1.dims().contains(d2) ==> d2 < m,
                forall|d2: usize|
                    d2 < d ==> #[trigger] posting_wf(postings@[d2 as int]@, items@, d2),
            decreases m - d,
        {
            let mut post: Vec<usize> = Vec::new();
            let mut jj: usize = 0;
            while jj < nitems
                invariant
                    nitems == items@.len(),
                    jj <= nitems,
                    forall|k1: int, k2: int|
                        #![trigger post@[k1], post@[k2]]
                        0 <= k1 < k2 < post@.len() ==> post@[k1] < post@[k2],
                    forall|k1: int| 0 <= k1 < post@.len() ==> #[trigger] post@[k1] < jj,
                    forall|j2: usize|
                        #![trigger post@.contains(j2)]
                        j2 < jj ==> (post@.contains(j2) <==> items@[j2 as int].1.dims().contains(
                            d,
                        )),
                decreases nitems - jj,
            {
                let ghost post_a = post@;
                if items[jj].1.contains_dim(d) {
                    post.push(jj);
                }
                proof {
                    assert forall|j2: usize|
                        #![trigger post@.contains(j2)]
                        j2 < jj + 1 implies (post@.contains(j2)
                        <==> items@[j2 as int].1.dims().contains(d)) by {
                        if items@[jj as int].1.dims().contains(d) {
                            assert(post@ == post_a.push(jj));
                            assert(post@[post@.len() - 1] == jj);
                            if j2 == jj {
                                assert(post@.contains(jj));
                            } else {
                                assert(post@.contains(j2) == post_a.contains(j2)) by {
                                    if post@.contains(j2) {
                                        let k1 = choose|k1: int|
                                            0 <= k1 < post@.len() && post@[k1] == j2;
                                        if k1 < post@.len() - 1 {
                                            assert(post_a[k1] == j2);
                                            assert(post_a.contains(j2));
                                        } else {
                                            assert(false);
                                        }
                                    }
                                    if post_a.contains(j2) {
                                        let k1 = choose|k1: int|
                                            0 <= k1 < post_a.len() && post_a[k1] == j2;
                                        assert(post@[k1] == j2);
                                        assert(post@.contains(j2));
                                    }
                                }
                            }
                        } else {
                            assert(post@ == post_a);
                            if j2 == jj {
                                assert(!post@.contains(jj)) by {
                                    if post@.contains(jj) {
                                        let k1 = choose|k1: int|
                                            0 <= k1 < post@.len() && post@[k1] == jj;
                                        assert(post@[k1] < jj);
                                    }
                                }
                            }
                        }
                    }
                }
                jj = jj + 1;
            }
            postings.push(post);
            d = d + 1;
        }
        proof {
            assert(store_wf(data.grams@, items@, postings@));
            assert(items.len() == items@.len());
            assert forall|k: int| 0 <= k < data.items@.len() implies valid_entries(
                (#[trigger] data.items@[k]).1@,
            ) by {
                let v = items@[k].1;
                assert(v.wf());
                assert(v@ == data.items@[k].1@);
                assert(crate::vector::dim_seq_of(data.items@[k].1@) == v.dim_seq());
            }
            assert forall|k: int, kk: int|
                #![trigger data.items@[k].1@[kk]]
                0 <= k < data.items@.len() && 0 <= kk < data.items@[k].1@.len()
                    implies data.items@[k].1@[kk].0 < data.grams@.len() by {
                let v = items@[k].1;
                assert(v@ == data.items@[k].1@);
                assert(v.dim_seq()[kk] == v@[kk].0);
                assert(v.dim_seq().contains(v@[kk].0));
                assert(v.dims().contains(v@[kk].0));
            }
            assert(data.valid());
        }
        Some(NGIndex::from_store(data.n, data.grams, postings, items))
    }
}

impl<I> NGIndex<I> {
    /// An index rebuilt from another index's image answers exactly as that
    /// index: same item count, same gram length, and identical search
    /// output for every query vector.
    pub proof fn lemma_round_trip(self, other: NGIndex<I>, q: Vector)
        requires
            self.wf(),
            other.wf(),
            other.n_spec() == self.n_spec(),
            other.gram_model() == self.gram_model(),
            other.items_model().len() == self.items_model().len(),
            forall|j: int|
                0 <= j < self.items_model().len() ==> (#[trigger] other.items_model()[j]).0
                    == self.items_model()[j].0 && other.items_model()[j].1@
                    == self.items_model()[j].1@,
        ensures
            other.find_model(q) == self.find_model(q),
    {
        let len = self.items_model().len() as int;
        assert forall|j: int| #[trigger] self.is_candidate(q, Option::None, j)
            == other.is_candidate(q, Option::None, j) by {
            if 0 <= j < len {
                assert(other.items_model()[j].1@ == self.items_model()[j].1@);
                assert(other.items_model()[j].1.dims() == self.items_model()[j].1.dims());
                assert(self.postings_model().len() == other.postings_model().len()) by {
                    assert(self.postings@.len() == self.grams@.len());
                    assert(other.postings@.len() == other.grams@.len());
                    assert(gram_views(self.grams@).len() == self.grams@.len());
                    assert(gram_views(other.grams@).len() == other.grams@.len());
                }
                if self.is_candidate(q, Option::None, j) {
                    let d = choose|d: usize|
                        #![trigger q.dims().contains(d), self.items_model()[j].1.dims().contains(
                            d,
                        )]
                        q.dims().contains(d) && self.items_model()[j].1.dims().contains(d)
                            && self.dim_ok(Option::None, d);
                    assert(other.items_model()[j].1.dims().contains(d));
                    assert(other.dim_ok(Option::None, d));
                    assert(other.is_candidate(q, Option::None, j));
                }
                if other.is_candidate(q, Option::None, j) {
                    let d = choose|d: usize|
                        #![trigger q.dims().contains(d), other.items_model()[j].1.dims().contains(
                            d,
                        )]
                        q.dims().contains(d) && other.items_model()[j].1.dims().contains(d)
                            && other.dim_ok(Option::None, d);
                    assert(self.items_model()[j].1.dims().contains(d));
                    assert(self.dim_ok(Option::None, d));
                    assert(self.is_candidate(q, Option::None, j));
                }
            }
        }
        self.lemma_positions_agree(other, q, q, Option::None, Option::None, len);
        let pos = self.candidate_positions(q, Option::None, len);
        assert forall|k: int| 0 <= k < pos.len() implies #[trigger] other.find_model(q)[k]
            == self.find_model(q)[k] by {
            let j = pos[k];
            self.lemma_positions_contains(q, Option::None, len, j);
            assert(pos.contains(j)) by {
                assert(pos[k] == j);
            }
            assert(0 <= j < len);
            let va = self.items_model()[j].1;
            let vb = other.items_model()[j].1;
            assert(va.dims() == vb.dims());
            assert(dice_score(q, vb) == dice_score(q, va));
        }
        assert(other.find_model(q) =~= self.find_model(q));
    }
}

} // verus!
