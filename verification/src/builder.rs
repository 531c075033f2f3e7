//! Building an index: repeated term insertion, then finalization.

use vstd::prelude::*;
use crate::grams::{gram_views, lemma_occurrences_le, lemma_occurrences_positive, occurrences, padded, split_into_grams, windows};
use crate::store::{
    extend_dict, lemma_extend_dict_seen, posting_wf, store_wf, term_grams, vector_matches,
};
use crate::vector::{lemma_count_of_absent, Vector};
use crate::NGIndex;

verus! {

/// Accumulates dictionary and posting-store state over repeated inserts and
/// finalizes it into an immutable [`NGIndex`].
pub struct NGIndexBuilder<I> {
    n: usize,
    grams: Vec<String>,
    postings: Vec<Vec<usize>>,
    items: Vec<(I, Vector)>,
}

impl<I> NGIndexBuilder<I> {
    /// The gram length.
    pub closed spec fn n_spec(self) -> usize {
        self.n
    }

    /// The dictionary: the gram at position `d` has dimension id `d`.
    pub closed spec fn gram_model(self) -> Seq<Seq<char>> {
        gram_views(self.grams@)
    }

    /// The stored items, in insertion order, each with its vector.
    pub closed spec fn items_model(self) -> Seq<(I, Vector)> {
        self.items@
    }

    /// The posting lists, one per dimension.
    pub closed spec fn postings_model(self) -> Seq<Seq<usize>> {
        self.postings@.map_values(|p: Vec<usize>| p@)
    }

    /// Well-formed builder state.
    pub closed spec fn wf(self) -> bool {
        &&& 1 <= self.n
        &&& store_wf(self.grams@, self.items@, self.postings@)
    }

    /// Creates a builder for `n`-grams; `n` must be at least one.
    pub fn new(n: usize) -> (r: NGIndexBuilder<I>)
        requires
            1 <= n,
        ensures
            r.wf(),
            r.n_spec() == n,
            r.gram_model() == Seq::<Seq<char>>::empty(),
            r.items_model() == Seq::<(I, Vector)>::empty(),
    {
        let r = NGIndexBuilder { n, grams: Vec::new(), postings: Vec::new(), items: Vec::new() };
        proof {
            assert(r.gram_model() =~= Seq::<Seq<char>>::empty());
        }
        r
    }

    /// Splits `term` into its consecutive `n`-character windows.
    pub fn split_term(&self, term: &str) -> (r: Vec<String>)
        requires
            self.wf(),
        ensures
            gram_views(r@) == windows(term@, self.n_spec() as nat),
    {
        split_into_grams(term, self.n)
    }

    /// Looks a gram up in the dictionary, assigning the next dimension id to
    /// a gram seen for the first time; a fresh dimension starts with an
    /// empty posting list.
    fn resolve_dim(&mut self, g: &String) -> (d: usize)
        requires
            old(self).wf(),
        ensures
            final(self).wf(),
            final(self).n == old(self).n,
            final(self).items@ == old(self).items@,
            final(self).gram_model() == (if old(self).gram_model().contains(g@) {
                old(self).gram_model()
            } else {
                old(self).gram_model().push(g@)
            }),
            d < final(self).gram_model().len(),
            final(self).gram_model()[d as int] == g@,
            final(self).postings@.len() == final(self).grams@.len(),
            forall|d2: int|
                0 <= d2 < old(self).postings@.len() ==> #[trigger] final(self).postings@[d2]
                    == old(self).postings@[d2],
            forall|d2: int|
                old(self).postings@.len() <= d2 < final(self).postings@.len()
                    ==> #[trigger] final(self).postings@[d2]@.len() == 0,
    {
        let n_g = self.grams.len();
        let mut i: usize = 0;
        while i < n_g
            invariant
                old(self).wf(),
                self == old(self),
                n_g == self.grams@.len(),
                i <= n_g,
                forall|k: int| 0 <= k < i ==> #[trigger] gram_views(self.grams@)[k] != g@,
            decreases n_g - i,
        {
            if self.grams[i] == *g {
                proof {
                    assert(gram_views(self.grams@)[i as int] == g@);
                    assert(self.gram_model().contains(g@));
                }
                return i;
            }
            proof {
                assert(gram_views(self.grams@)[i as int] == self.grams@[i as int]@);
            }
            i = i + 1;
        }
        proof {
            assert(forall|k: int|
                0 <= k < gram_views(self.grams@).len() ==> #[trigger] gram_views(self.grams@)[k]
                    != g@);
            assert(!old(self).gram_model().contains(g@));
        }
        let g2 = g.clone();
        self.grams.push(g2);
        self.postings.push(Vec::new());
        proof {
            let dict0 = gram_views(old(self).grams@);
            let dict1 = gram_views(self.grams@);
            assert(dict1 =~= dict0.push(g@));
            assert(dict1.drop_last() =~= dict0);
            assert(dict1.no_duplicates());
            let items = self.items@;
            assert forall|d2: usize| d2 < self.postings@.len() implies #[trigger] posting_wf(
                self.postings@[d2 as int]@,
                items,
                d2,
            ) by {
                if d2 < old(self).postings@.len() {
                    assert(self.postings@[d2 as int] == old(self).postings@[d2 as int]);
                    assert(posting_wf(old(self).postings@[d2 as int]@, items, d2));
                } else {
                    let post = self.postings@[d2 as int]@;
                    assert(post.len() == 0);
                    assert forall|j: usize| j < items.len() implies (#[trigger] post.contains(j)
                        <==> items[j as int].1.dims().contains(d2)) by {
                        assert(!post.contains(j));
                        if items[j as int].1.dims().contains(d2) {
                            assert(d2 < old(self).grams@.len());
                        }
                    }
                }
            }
        }
        n_g
    }

    /// Indexes `term` under `id`.
    ///
    /// A term of fewer than `n` characters is rejected: the call returns
    /// `false` and leaves the builder unchanged. Otherwise the term is
    /// padded with `n - 1` sentinels, split into n-grams, every gram is
    /// resolved to a dimension (a fresh gram extends the dictionary), and
    /// the term's vector is appended as one more item — one per call, so the
    /// item count grows by exactly one even under a repeated id.
    pub fn insert(&mut self, term: &str, id: I) -> (r: bool)
        requires
            old(self).wf(),
        ensures
            final(self).wf(),
            final(self).n_spec() == old(self).n_spec(),
            r <==> term@.len() >= old(self).n_spec(),
            !r ==> final(self).gram_model() == old(self).gram_model()
                && final(self).items_model() == old(self).items_model()
                && final(self).postings_model() == old(self).postings_model(),
            r ==> final(self).gram_model() == extend_dict(
                old(self).gram_model(),
                term_grams(term@, old(self).n_spec() as nat),
            ),
            r ==> final(self).items_model().len() == old(self).items_model().len() + 1,
            r ==> forall|j: int|
                0 <= j < old(self).items_model().len() ==> #[trigger] final(self).items_model()[j]
                    == old(self).items_model()[j],
            r ==> final(self).items_model().last().0 == id,
            r ==> final(self).items_model().last().1.wf(),
            r ==> vector_matches(
                final(self).items_model().last().1,
                final(self).gram_model(),
                term_grams(term@, old(self).n_spec() as nat),
            ),
            final(self).postings_model().len() == final(self).gram_model().len(),
            r ==> forall|d: usize|
                d < old(self).postings_model().len()
                    ==> #[trigger] final(self).postings_model()[d as int] == (
                if final(self).items_model().last().1.dims().contains(d) {
                    old(self).postings_model()[d as int].push(
                        old(self).items_model().len() as usize,
                    )
                } else {
                    old(self).postings_model()[d as int]
                }),
            r ==> forall|d: usize|
                old(self).postings_model().len() <= d < final(self).postings_model().len()
                    ==> #[trigger] final(self).postings_model()[d as int] == (
                if final(self).items_model().last().1.dims().contains(d) {
                    seq![old(self).items_model().len() as usize]
                } else {
                    Seq::<usize>::empty()
                }),
    {
        let n = self.n;
        let term_len = term.unicode_len();
        if term_len < n {
            return false;
        }
        let p = padded(term, n - 1);
        let gs = self.split_term(&p);
        let ghost gsv = gram_views(gs@);
        let ghost dict0 = gram_views(self.grams@);
        let ghost items0 = self.items@;
        let ghost postings0 = self.postings@;
        let count = gs.len();
        let mut v = Vector::empty();
        let mut i: usize = 0;
        proof {
            assert(gsv.take(0) =~= Seq::<Seq<char>>::empty());
            assert(gsv == term_grams(term@, n as nat));
            assert forall|d: usize| d < self.grams@.len() implies #[trigger] v.count_of(d)
                == occurrences(gsv.take(0), gram_views(self.grams@)[d as int]) by {
                lemma_occurrences_positive(gsv.take(0), gram_views(self.grams@)[d as int]);
                lemma_occurrences_le(gsv.take(0), gram_views(self.grams@)[d as int]);
            }
        }
        while i < count
            invariant
                self.wf(),
                self.n == old(self).n,
                self.items@ == items0,
                count == gs@.len(),
                i <= count,
                gram_views(gs@) == gsv,
                gram_views(self.grams@) == extend_dict(dict0, gsv.take(i as int)),
                forall|d2: int|
                    0 <= d2 < postings0.len() ==> #[trigger] self.postings@[d2]
                        == postings0[d2],
                forall|d2: int|
                    postings0.len() <= d2 < self.postings@.len()
                        ==> #[trigger] self.postings@[d2]@.len() == 0,
                postings0.len() <= self.postings@.len(),
                v.wf(),
                v@.len() <= i,
                forall|d: usize| #[trigger] v.dims().contains(d) ==> d < self.grams@.len()
                    && gsv.take(i as int).contains(gram_views(self.grams@)[d as int]),
                forall|d: usize|
                    d < self.grams@.len() && gsv.take(i as int).contains(
                        #[trigger] gram_views(self.grams@)[d as int],
                    ) ==> v.dims().contains(d),
                forall|d: usize|
                    d < self.grams@.len() ==> #[trigger] v.count_of(d) == occurrences(
                        gsv.take(i as int),
                        gram_views(self.grams@)[d as int],
                    ),
            decreases count - i,
        {
            let ghost dict_a = gram_views(self.grams@);
            let d = self.resolve_dim(&gs[i]);
            proof {
                let dict_b = gram_views(self.grams@);
                assert(gram_views(gs@)[i as int] == gs@[i as int]@);
                assert(gsv[i as int] == gs@[i as int]@);
                assert(gsv.take(i as int + 1).drop_last() =~= gsv.take(i as int));
                assert(gsv.take(i as int + 1).last() == gsv[i as int]);
                assert(gram_views(self.grams@) == extend_dict(dict0, gsv.take(i as int + 1)));
                // frame for the old dictionary prefix
                assert(forall|d2: int|
                    0 <= d2 < dict_a.len() ==> #[trigger] dict_b[d2] == dict_a[d2]);
                // counts stay bounded, so the bump below cannot overflow
                lemma_occurrences_le(gsv.take(i as int), dict_b[d as int]);
                if !v.dims().contains(d) {
                    lemma_count_of_absent(v, d);
                }
            }
            let ghost v_a = v;
            v.bump(d);
            proof {
                let dict_b = gram_views(self.grams@);
                let g = gsv[i as int];
                assert(dict_b[d as int] == g);
                assert forall|d2: usize| #[trigger] v.dims().contains(d2) implies d2
                    < self.grams@.len() && gsv.take(i as int + 1).contains(dict_b[d2 as int]) by {
                    if d2 == d {
                        assert(gsv.take(i as int + 1)[i as int] == g);
                        assert(gsv.take(i as int + 1).contains(g));
                    } else {
                        assert(v_a.dims().contains(d2));
                        assert(d2 < dict_a.len());
                        assert(dict_b[d2 as int] == dict_a[d2 as int]);
                        assert(gsv.take(i as int).contains(dict_a[d2 as int]));
                        let k = choose|k: int|
                            0 <= k < i && gsv.take(i as int)[k] == dict_a[d2 as int];
                        assert(gsv.take(i as int + 1)[k] == dict_a[d2 as int]);
                        assert(gsv.take(i as int + 1).contains(dict_b[d2 as int]));
                    }
                }
                assert forall|d2: usize|
                    d2 < self.grams@.len() && gsv.take(i as int + 1).contains(
                        #[trigger] dict_b[d2 as int],
                    ) implies v.dims().contains(d2) by {
                    if d2 != d {
                        let k = choose|k: int|
                            #![trigger gsv.take(i as int + 1)[k]]
                            0 <= k < i + 1 && gsv.take(i as int + 1)[k] == dict_b[d2 as int];
                        if k == i {
                            // two dictionary slots holding the same gram: impossible
                            assert(dict_b[d2 as int] == g);
                            assert(dict_b.no_duplicates());
                            assert(false);
                        } else {
                            assert(gsv.take(i as int)[k] == dict_b[d2 as int]);
                            assert(d2 < dict_a.len()) by {
                                if d2 >= dict_a.len() {
                                    // then d2 is the slot just pushed for g
                                    assert(dict_b.len() == dict_a.len() + 1);
                                    assert(dict_b[d2 as int] == g);
                                    assert(false);
                                }
                            }
                            assert(dict_a[d2 as int] == dict_b[d2 as int]);
                            assert(gsv.take(i as int).contains(dict_a[d2 as int]));
                            assert(v_a.dims().contains(d2));
                        }
                    }
                }
                assert forall|d2: usize| d2 < self.grams@.len() implies #[trigger] v.count_of(d2)
                    == occurrences(gsv.take(i as int + 1), dict_b[d2 as int]) by {
                    let x = dict_b[d2 as int];
                    assert(occurrences(gsv.take(i as int + 1), x) == occurrences(
                        gsv.take(i as int),
                        x,
                    ) + if g == x {
                        1nat
                    } else {
                        0nat
                    });
                    if d2 == d {
                        assert(x == g);
                        if d < dict_a.len() {
                            assert(v_a.count_of(d) == occurrences(gsv.take(i as int), x));
                        } else {
                            // a fresh dimension: its gram was not seen before
                            assert(!dict_a.contains(g));
                            assert(!gsv.take(i as int).contains(g)) by {
                                if gsv.take(i as int).contains(g) {
                                    let k = choose|k: int|
                                        0 <= k < i && gsv.take(i as int)[k] == g;
                                    assert(dict_a == extend_dict(dict0, gsv.take(i as int)));
                                    lemma_extend_dict_seen(dict0, gsv.take(i as int), k);
                                }
                            }
                            lemma_occurrences_positive(gsv.take(i as int), g);
                            assert(v_a.count_of(d) == 0);
                        }
                    } else {
                        assert(v.count_of(d2) == v_a.count_of(d2));
                        if d2 < dict_a.len() {
                            assert(dict_a[d2 as int] == x);
                            assert(v_a.count_of(d2) == occurrences(gsv.take(i as int), x));
                            assert(x != g) by {
                                if x == g {
                                    assert(dict_b[d2 as int] == dict_b[d as int]);
                                    assert(dict_b.no_duplicates());
                                }
                            }
                        } else {
                            // the only slot beyond the old dictionary is d itself
                            assert(false);
                        }
                    }
                }
                assert(self.wf());
            }
            i = i + 1;
        }
        proof {
            assert(gsv.take(count as int) =~= gsv);
        }
        let jpos = self.items.len();
        let ghost grams1 = self.grams@;
        let ghost postings_mid = self.postings@;
        let ents = v.entry_list();
        let m = ents.len();
        let mut k: usize = 0;
        while k < m
            invariant
                ents@ == v@,
                m == v@.len(),
                k <= m,
                v.wf(),
                jpos == items0.len(),
                self.n == old(self).n,
                self.items@ == items0,
                self.grams@ == grams1,
                self.postings@.len() == postings_mid.len(),
                postings_mid.len() == grams1.len(),
                forall|d: usize| #[trigger] v.dims().contains(d) ==> d < grams1.len(),
                forall|d2: usize|
                    d2 < postings_mid.len() ==> #[trigger] posting_wf(
                        postings_mid[d2 as int]@,
                        items0,
                        d2,
                    ),
                forall|d2: usize|
                    d2 < postings_mid.len() && v.dim_seq().take(k as int).contains(d2)
                        ==> #[trigger] self.postings@[d2 as int]@ == postings_mid[d2 as int]@.push(
                        jpos,
                    ),
                forall|d2: usize|
                    d2 < postings_mid.len() && !v.dim_seq().take(k as int).contains(d2)
                        ==> #[trigger] self.postings@[d2 as int] == postings_mid[d2 as int],
            decreases m - k,
        {
            let d = ents[k].0;
            proof {
                assert(v.dim_seq()[k as int] == v@[k as int].0);
                assert(v.dims().contains(d)) by {
                    assert(v.dim_seq().contains(d));
                }
                assert(!v.dim_seq().take(k as int).contains(d)) by {
                    if v.dim_seq().take(k as int).contains(d) {
                        let k2 = choose|k2: int|
                            0 <= k2 < k && v.dim_seq().take(k as int)[k2] == d;
                        assert(v.dim_seq()[k2] == v.dim_seq()[k as int]);
                        assert(v.dim_seq().no_duplicates());
                    }
                }
            }
            let ghost before = self.postings@;
            self.postings[d].push(jpos);
            proof {
                assert(self.postings@[d as int]@ =~= postings_mid[d as int]@.push(jpos));
                assert(v.dim_seq().take(k as int + 1).drop_last() =~= v.dim_seq().take(k as int));
                assert forall|d2: usize|
                    d2 < postings_mid.len() && v.dim_seq().take(k as int + 1).contains(d2)
                        implies #[trigger] self.postings@[d2 as int]@ == postings_mid[d2 as int]@
                        .push(jpos) by {
                    if d2 != d {
                        let k2 = choose|k2: int|
                            #![trigger v.dim_seq().take(k as int + 1)[k2]]
                            0 <= k2 < k + 1 && v.dim_seq().take(k as int + 1)[k2] == d2;
                        assert(k2 < k);
                        assert(v.dim_seq().take(k as int)[k2] == d2);
                        assert(v.dim_seq().take(k as int).contains(d2));
                        assert(before[d2 as int]@ == postings_mid[d2 as int]@.push(jpos));
                        assert(self.postings@[d2 as int] == before[d2 as int]);
                    }
                }
                assert forall|d2: usize|
                    d2 < postings_mid.len() && !v.dim_seq().take(k as int + 1).contains(d2)
                        implies #[trigger] self.postings@[d2 as int] == postings_mid[d2 as int]
                    by {
                    assert(!v.dim_seq().take(k as int).contains(d2));
                    assert(d2 != d) by {
                        if d2 == d {
                            assert(v.dim_seq().take(k as int + 1)[k as int] == d);
                        }
                    }
                    assert(self.postings@[d2 as int] == before[d2 as int]);
                }
            }
            k = k + 1;
        }
        self.items.push((id, v));
        proof {
            assert(v.dim_seq().take(m as int) =~= v.dim_seq());
            let items1 = self.items@;
            assert(items1.drop_last() =~= items0);
            assert(items1.last() == (id, v));
            assert forall|d2: usize| d2 < self.postings@.len() implies #[trigger] posting_wf(
                self.postings@[d2 as int]@,
                items1,
                d2,
            ) by {
                let mid = postings_mid[d2 as int]@;
                assert(posting_wf(mid, items0, d2));
                if v.dims().contains(d2) {
                    assert(v.dim_seq().contains(d2));
                    let post = self.postings@[d2 as int]@;
                    assert(post == mid.push(jpos));
                    assert forall|k1: int, k2: int|
                        #![trigger post[k1], post[k2]]
                        0 <= k1 < k2 < post.len() implies post[k1] < post[k2] by {
                        if k2 < post.len() - 1 {
                            assert(post[k1] == mid[k1] && post[k2] == mid[k2]);
                        } else {
                            assert(post[k2] == jpos);
                            assert(post[k1] == mid[k1]);
                            assert(mid[k1] < items0.len());
                        }
                    }
                    assert forall|j: usize| j < items1.len() implies (#[trigger] post.contains(j)
                        <==> items1[j as int].1.dims().contains(d2)) by {
                        if j < items0.len() {
                            assert(items1[j as int] == items0[j as int]);
                            assert(post.contains(j) <==> mid.contains(j)) by {
                                if post.contains(j) {
                                    let k1 = choose|k1: int|
                                        0 <= k1 < post.len() && post[k1] == j;
                                    if k1 == post.len() - 1 {
                                        assert(j == jpos);
                                        assert(false);
                                    } else {
                                        assert(mid[k1] == j);
                                        assert(mid.contains(j));
                                    }
                                }
                                if mid.contains(j) {
                                    let k1 = choose|k1: int|
                                        0 <= k1 < mid.len() && mid[k1] == j;
                                    assert(post[k1] == j);
                                    assert(post.contains(j));
                                }
                            }
                        } else {
                            assert(j == jpos);
                            assert(post[post.len() - 1] == jpos);
                            assert(post.contains(j));
                            assert(items1[j as int].1 == v);
                        }
                    }
                } else {
                    let post = self.postings@[d2 as int]@;
                    assert(self.postings@[d2 as int] == postings_mid[d2 as int]) by {
                        assert(!v.dim_seq().contains(d2));
                    }
                    assert(post == mid);
                    assert forall|j: usize| j < items1.len() implies (#[trigger] post.contains(j)
                        <==> items1[j as int].1.dims().contains(d2)) by {
                        if j < items0.len() {
                            assert(items1[j as int] == items0[j as int]);
                        } else {
                            assert(j == jpos);
                            assert(!post.contains(j)) by {
                                if post.contains(j) {
                                    let k1 = choose|k1: int|
                                        0 <= k1 < post.len() && post[k1] == j;
                                    assert(mid[k1] < items0.len());
                                }
                            }
                            assert(items1[j as int].1 == v);
                            assert(!v.dims().contains(d2));
                        }
                    }
                }
            }
            assert(store_wf(self.grams@, self.items@, self.postings@));
            assert(self.items@.len() == items0.len() + 1);
            assert(self.items.len() == self.items@.len());
            assert forall|d2: usize| d2 < postings0.len()
                implies #[trigger] self.postings_model()[d2 as int] == (
            if v.dims().contains(d2) {
                postings_mid[d2 as int]@.push(jpos)
            } else {
                postings_mid[d2 as int]@
            }) by {
                assert(self.postings_model()[d2 as int] == self.postings@[d2 as int]@);
                if v.dims().contains(d2) {
                    assert(v.dim_seq().contains(d2));
                } else {
                    assert(!v.dim_seq().contains(d2));
                }
            }
            assert forall|d2: usize|
                postings0.len() <= d2 < self.postings@.len()
                    implies #[trigger] self.postings_model()[d2 as int] == (
            if v.dims().contains(d2) {
                seq![jpos]
            } else {
                Seq::<usize>::empty()
            }) by {
                assert(self.postings_model()[d2 as int] == self.postings@[d2 as int]@);
                assert(postings_mid[d2 as int]@.len() == 0);
                if v.dims().contains(d2) {
                    assert(v.dim_seq().contains(d2));
                    assert(self.postings@[d2 as int]@ =~= seq![jpos]);
                } else {
                    assert(!v.dim_seq().contains(d2));
                    assert(self.postings@[d2 as int]@ =~= Seq::<usize>::empty());
                }
            }
            assert(forall|d2: int|
                0 <= d2 < postings0.len() ==> #[trigger] postings_mid[d2] == postings0[d2]);
            assert(old(self).postings_model().len() == postings0.len());
            assert(forall|d2: int|
                0 <= d2 < postings0.len() ==> #[trigger] old(self).postings_model()[d2]
                    == postings0[d2]@);
        }
        true
    }

    /// Finalizes the accumulated state into an immutable index, consuming
    /// the builder.
    pub fn build(self) -> (r: NGIndex<I>)
        requires
            self.wf(),
        ensures
            r.wf(),
            r.n_spec() == self.n_spec(),
            r.gram_model() == self.gram_model(),
            r.items_model() == self.items_model(),
            r.postings_model() == self.postings_model(),
    {
        let r = NGIndex::from_store(self.n, self.grams, self.postings, self.items);
        proof {
            assert(r.postings_model() =~= self.postings_model());
        }
        r
    }
}

} // verus!
