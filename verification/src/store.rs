//! The shared model of the index store: a dictionary of n-grams whose
//! position is the dimension id, the stored items with their vectors, and
//! one posting list of item positions per dimension.

use vstd::prelude::*;
use crate::grams::{gram_views, occurrences, pad_spec, windows};
use crate::vector::Vector;

verus! {

/// The n-grams of a term under gram length `n`: the term surrounded by
/// `n - 1` sentinels on each side, split into windows of `n` characters.
pub open spec fn term_grams(term: Seq<char>, n: nat) -> Seq<Seq<char>> {
    windows(pad_spec(term, (n - 1) as nat), n)
}

/// `v` is the vector of the gram occurrence list `gs` resolved against the
/// dictionary `dict`: its dimensions are exactly the dimensions of the grams
/// of `gs`, each counted as often as its gram occurs.
pub open spec fn vector_matches(v: Vector, dict: Seq<Seq<char>>, gs: Seq<Seq<char>>) -> bool {
    &&& forall|d: usize|
        #[trigger] v.dims().contains(d) ==> d < dict.len() && gs.contains(dict[d as int])
    &&& forall|d: usize|
        d < dict.len() && gs.contains(#[trigger] dict[d as int]) ==> v.dims().contains(d)
    &&& forall|d: usize|
        d < dict.len() ==> #[trigger] v.count_of(d) == occurrences(gs, dict[d as int])
}

/// A well-formed posting list for dimension `d`: the positions, in strictly
/// increasing order, of exactly the stored items whose vector touches `d`.
pub open spec fn posting_wf<I>(post: Seq<usize>, items: Seq<(I, Vector)>, d: usize) -> bool {
    &&& forall|k1: int, k2: int|
        #![trigger post[k1], post[k2]]
        0 <= k1 < k2 < post.len() ==> post[k1] < post[k2]
    &&& forall|k: int| 0 <= k < post.len() ==> #[trigger] post[k] < items.len()
    &&& forall|j: usize|
        #![trigger post.contains(j)]
        j < items.len() ==> (post.contains(j) <==> items[j as int].1.dims().contains(d))
}

/// A well-formed store: distinct grams, one posting list per gram, stored
/// vectors well-formed with dimensions inside the dictionary, and every
/// posting list canonical for its dimension.
pub open spec fn store_wf<I>(
    grams: Seq<String>,
    items: Seq<(I, Vector)>,
    postings: Seq<Vec<usize>>,
) -> bool {
    &&& gram_views(grams).no_duplicates()
    &&& postings.len() == grams.len()
    &&& forall|j: int| 0 <= j < items.len() ==> (#[trigger] items[j]).1.wf()
    &&& forall|j: int, d: usize|
        0 <= j < items.len() && #[trigger] items[j].1.dims().contains(d) ==> d < grams.len()
    &&& forall|d: usize|
        d < postings.len() ==> #[trigger] posting_wf(postings[d as int]@, items, d)
}

/// The dictionary after resolving the grams `gs` in order, assigning a fresh
/// dimension to each gram not seen before.
pub open spec fn extend_dict(dict: Seq<Seq<char>>, gs: Seq<Seq<char>>) -> Seq<Seq<char>>
    decreases gs.len(),
{
    if gs.len() == 0 {
        dict
    } else {
        let prev = extend_dict(dict, gs.drop_last());
        if prev.contains(gs.last()) {
            prev
        } else {
            prev.push(gs.last())
        }
    }
}

/// Every resolved gram is present in the extended dictionary.
pub proof fn lemma_extend_dict_seen(dict: Seq<Seq<char>>, gs: Seq<Seq<char>>, k: int)
    requires
        0 <= k < gs.len(),
    ensures
        extend_dict(dict, gs).contains(gs[k]),
    decreases gs.len(),
{
    let prev = extend_dict(dict, gs.drop_last());
    let result = extend_dict(dict, gs);
    if k == gs.len() - 1 {
        if prev.contains(gs.last()) {
            assert(result == prev);
        } else {
            assert(result[prev.len() as int] == gs.last());
            assert(result.contains(gs.last()));
        }
    } else {
        assert(gs.drop_last()[k] == gs[k]);
        lemma_extend_dict_seen(dict, gs.drop_last(), k);
        let j = choose|j: int| 0 <= j < prev.len() && prev[j] == gs[k];
        assert(result[j] == gs[k]) by {
            if !prev.contains(gs.last()) {
                assert(prev.push(gs.last())[j] == prev[j]);
            }
        }
        assert(result.contains(gs[k]));
    }
}

/// Entries of a strictly increasing position list are at least their index.
proof fn lemma_increasing_at_least(post: Seq<usize>, k: int)
    requires
        forall|k1: int, k2: int|
            #![trigger post[k1], post[k2]]
            0 <= k1 < k2 < post.len() ==> post[k1] < post[k2],
        0 <= k < post.len(),
    ensures
        post[k] >= k,
    decreases k,
{
    if k > 0 {
        lemma_increasing_at_least(post, k - 1);
        assert(post[k - 1] < post[k]);
    }
}

/// A well-formed posting list is no longer than the item list: its document
/// frequency never exceeds the number of stored items.
pub proof fn lemma_posting_len_le<I>(post: Seq<usize>, items: Seq<(I, Vector)>, d: usize)
    requires
        posting_wf(post, items, d),
    ensures
        post.len() <= items.len(),
{
    if post.len() > 0 {
        lemma_increasing_at_least(post, post.len() - 1);
    }
}

} // verus!
