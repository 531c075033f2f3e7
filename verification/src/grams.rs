//! Padding and n-gram window extraction over Unicode scalar values.

use vstd::prelude::*;

verus! {

/// The sentinel character surrounding a term before splitting, so that edge
/// n-grams encode the start and end of the term.
pub const SENTINEL: char = '\u{00A7}';

/// `k` sentinel characters.
pub open spec fn pads(k: nat) -> Seq<char> {
    Seq::new(k, |i: int| SENTINEL)
}

/// A word surrounded by `k` sentinel characters on each side.
pub open spec fn pad_spec(word: Seq<char>, k: nat) -> Seq<char> {
    pads(k) + word + pads(k)
}

/// Every consecutive window of `n` characters of `text`, in order; empty when
/// `text` is shorter than `n` (or `n` is zero).
pub open spec fn windows(text: Seq<char>, n: nat) -> Seq<Seq<char>> {
    if n == 0 || text.len() < n {
        Seq::empty()
    } else {
        Seq::new((text.len() - n + 1) as nat, |i: int| text.subrange(i, i + n))
    }
}

/// How many entries of `gs` equal `g`.
pub open spec fn occurrences(gs: Seq<Seq<char>>, g: Seq<char>) -> nat
    decreases gs.len(),
{
    if gs.len() == 0 {
        0
    } else {
        occurrences(gs.drop_last(), g) + if gs.last() == g {
            1nat
        } else {
            0nat
        }
    }
}

/// A gram occurs at most as often as there are windows.
pub proof fn lemma_occurrences_le(gs: Seq<Seq<char>>, g: Seq<char>)
    ensures
        occurrences(gs, g) <= gs.len(),
    decreases gs.len(),
{
    if gs.len() > 0 {
        lemma_occurrences_le(gs.drop_last(), g);
    }
}

/// A gram that occurs in `gs` has a positive occurrence count, and conversely.
pub proof fn lemma_occurrences_positive(gs: Seq<Seq<char>>, g: Seq<char>)
    ensures
        occurrences(gs, g) > 0 <==> gs.contains(g),
    decreases gs.len(),
{
    if gs.len() > 0 {
        lemma_occurrences_positive(gs.drop_last(), g);
        if gs.drop_last().contains(g) {
            let i = choose|i: int| 0 <= i < gs.drop_last().len() && gs.drop_last()[i] == g;
            assert(gs[i] == g);
        }
        if gs.contains(g) && gs.last() != g {
            let i = choose|i: int| 0 <= i < gs.len() && gs[i] == g;
            assert(gs.drop_last()[i] == g);
        }
    }
}

/// Surrounds `word` with `n` sentinel characters on each side.
///
/// The result has `n` more characters than `word` at either end, and those
/// leading and trailing characters are all the sentinel.
pub fn padded(word: &str, n: usize) -> (r: String)
    ensures
        r@ == pad_spec(word@, n as nat),
        r@.len() == word@.len() + 2 * n,
        forall|i: int| 0 <= i < n ==> #[trigger] r@[i] == SENTINEL,
        forall|i: int| r@.len() - n <= i < r@.len() ==> #[trigger] r@[i] == SENTINEL,
{
    let mut s = String::new();
    let mut i: usize = 0;
    while i < n
        invariant
            i <= n,
            s@ == pads(i as nat),
        decreases n - i,
    {
        s.append("\u{00A7}");
        proof {
            reveal_strlit("\u{00A7}");
            assert(s@ =~= pads((i + 1) as nat));
        }
        i = i + 1;
    }
    s.append(word);
    proof {
        assert(s@ =~= pads(n as nat) + word@ + pads(0));
    }
    let mut j: usize = 0;
    while j < n
        invariant
            j <= n,
            s@ == pads(n as nat) + word@ + pads(j as nat),
        decreases n - j,
    {
        s.append("\u{00A7}");
        proof {
            reveal_strlit("\u{00A7}");
            assert(s@ =~= pads(n as nat) + word@ + pads((j + 1) as nat));
        }
        j = j + 1;
    }
    s
}

/// The views of a gram list: each `String` as its character sequence. The
/// position of a gram in the dictionary is its dimension id.
pub open spec fn gram_views(grams: Seq<String>) -> Seq<Seq<char>> {
    grams.map_values(|g: String| g@)
}

/// Splits `text` into its consecutive `n`-character windows, indexing by
/// Unicode scalar values, never by byte offset.
pub fn split_into_grams(text: &str, n: usize) -> (r: Vec<String>)
    requires
        1 <= n,
    ensures
        gram_views(r@) == windows(text@, n as nat),
{
    let len = text.unicode_len();
    let mut r: Vec<String> = Vec::new();
    if len < n {
        proof {
            assert(gram_views(r@) =~= windows(text@, n as nat));
        }
        return r;
    }
    let count = len - n + 1;
    let mut i: usize = 0;
    proof {
        assert(gram_views(r@) =~= windows(text@, n as nat).take(0));
    }
    while i < count
        invariant
            1 <= n,
            len == text@.len(),
            n <= len,
            count == len - n + 1,
            i <= count,
            gram_views(r@) == windows(text@, n as nat).take(i as int),
            r@.len() == i,
        decreases count - i,
    {
        let g = text.substring_char(i, i + n);
        r.push(String::from_str(g));
        proof {
            assert(windows(text@, n as nat)[i as int] == text@.subrange(i as int, i as int + n));
            assert(gram_views(r@) =~= windows(text@, n as nat).take(i as int + 1));
        }
        i = i + 1;
    }
    proof {
        assert(windows(text@, n as nat).take(count as int) =~= windows(text@, n as nat));
    }
    r
}

/// Padding with `n - 1` sentinels and splitting into `n`-grams yields exactly
/// `charLen(word) + n - 1` windows, for any `n >= 1`.
pub proof fn lemma_pad_split_count(word: Seq<char>, n: nat)
    requires
        n >= 1,
    ensures
        windows(pad_spec(word, (n - 1) as nat), n).len() == word.len() + n - 1,
{
}

} // verus!
