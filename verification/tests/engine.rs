//! End-to-end tests of the n-gram index engine.

use ngindex::builder::NGIndexBuilder;
use ngindex::{dice, dice_weighted, padded, NGIndex, Score, Vector, Weight};

fn score_value(s: &Score) -> f32 {
    s.num as f32 / s.den as f32
}

fn query(idx: &NGIndex<u32>, text: &str) -> Vector {
    idx.make_query_vec(text).unwrap()
}

#[test]
fn short_term_is_rejected_and_len_unchanged() {
    let mut builder = NGIndexBuilder::<u32>::new(3);
    assert!(!builder.insert("ab", 7));
    assert!(!builder.insert("", 8));
    let idx = builder.build();
    assert_eq!(idx.len(), 0);
    assert!(idx.is_empty());
}

#[test]
fn long_enough_term_is_accepted_and_len_grows() {
    let mut builder = NGIndexBuilder::<u32>::new(3);
    assert!(builder.insert("abc", 1));
    assert!(builder.insert("abcd", 1));
    assert!(builder.insert("abc", 1));
    let idx = builder.build();
    assert_eq!(idx.len(), 3);
    assert!(!idx.is_empty());
}

#[test]
fn n_is_kept() {
    let builder = NGIndexBuilder::<u32>::new(4);
    let idx = builder.build();
    assert_eq!(idx.n(), 4);
}

#[test]
fn padded_surrounds_with_sentinels() {
    let p = padded("word", 2);
    let chars: Vec<char> = p.chars().collect();
    assert_eq!(chars.len(), 4 + 2 * 2);
    assert_eq!(chars[0], '\u{00A7}');
    assert_eq!(chars[1], '\u{00A7}');
    assert_eq!(chars[6], '\u{00A7}');
    assert_eq!(chars[7], '\u{00A7}');
    assert_eq!(&chars[2..6].iter().collect::<String>(), "word");
}

#[test]
fn padded_counts_characters_not_bytes() {
    let p = padded("m\u{00FC}sli", 1);
    assert_eq!(p.chars().count(), 5 + 2);
}

#[test]
fn split_of_padded_word_yields_len_plus_n_minus_one_windows() {
    let builder = NGIndexBuilder::<u32>::new(3);
    let p = padded("word", 2);
    let grams = builder.split_term(&p);
    assert_eq!(grams.len(), 4 + 3 - 1);
    assert_eq!(grams[0], "\u{00A7}\u{00A7}w");
    assert_eq!(grams[5], "d\u{00A7}\u{00A7}");
}

#[test]
fn split_respects_unicode_scalars() {
    let builder = NGIndexBuilder::<u32>::new(2);
    let grams = builder.split_term("m\u{00FC}s");
    assert_eq!(grams.len(), 2);
    assert_eq!(grams[0], "m\u{00FC}");
    assert_eq!(grams[1], "\u{00FC}s");
}

#[test]
fn split_of_short_text_is_empty() {
    let builder = NGIndexBuilder::<u32>::new(5);
    let grams = builder.split_term("abc");
    assert_eq!(grams.len(), 0);
}

#[test]
fn dice_of_vector_with_itself_is_one() {
    let mut builder = NGIndexBuilder::<u32>::new(3);
    assert!(builder.insert("music", 0));
    let idx = builder.build();
    let a = query(&idx, "music");
    let s = dice(&a, &a);
    assert!(s.num == s.den);
    assert!(s.den > 0);
    assert_eq!(score_value(&s), 1.0);
}

#[test]
fn dice_is_symmetric_and_in_unit_interval() {
    let mut builder = NGIndexBuilder::<u32>::new(3);
    assert!(builder.insert("music", 0));
    assert!(builder.insert("muskel", 1));
    let idx = builder.build();
    let a = query(&idx, "music");
    let b = query(&idx, "muskel");
    let ab = dice(&a, &b);
    let ba = dice(&b, &a);
    assert_eq!(ab, ba);
    // "music" has 7 distinct padded 3-grams, "muskel" has 8, and they share
    // the three leading ones: 2*3 / (7+8)
    assert_eq!(ab.num, 6);
    assert_eq!(ab.den, 15);
    assert!(ab.num <= ab.den);
    assert!(ab.den >= 1);
    assert!(score_value(&ab) > 0.0);
    assert!(score_value(&ab) < 1.0);
}

#[test]
fn dice_of_two_empty_vectors_is_zero() {
    let builder = NGIndexBuilder::<u32>::new(3);
    let idx = builder.build();
    let a = query(&idx, "zz");
    let b = query(&idx, "yy");
    let s = dice(&a, &b);
    assert_eq!(s.num, 0);
    assert!(s.den >= 1);
    assert_eq!(score_value(&s), 0.0);
}

#[test]
fn weighted_dice_at_half_equals_plain_dice() {
    let mut builder = NGIndexBuilder::<u32>::new(3);
    assert!(builder.insert("music", 0));
    assert!(builder.insert("muskel", 1));
    let idx = builder.build();
    let a = query(&idx, "music");
    let b = query(&idx, "muskel");
    let plain = dice(&a, &b);
    let weighted = dice_weighted(&a, &b, Weight { num: 1, den: 2 });
    assert_eq!(plain, weighted);
}

#[test]
fn weighted_dice_at_one_scores_against_first_vector_alone() {
    let mut builder = NGIndexBuilder::<u32>::new(3);
    assert!(builder.insert("music", 0));
    assert!(builder.insert("muskel", 1));
    let idx = builder.build();
    let a = query(&idx, "music");
    let b = query(&idx, "muskel");
    let w = dice_weighted(&a, &b, Weight { num: 1, den: 1 });
    // "music" padded with two sentinels has 7 windows of length 3, all
    // distinct; "muskel" shares exactly the three leading ones.
    assert_eq!(w.den, 7);
    assert_eq!(w.num, 3);
}

#[test]
fn find_fast_results_are_a_subset_of_find() {
    let mut builder = NGIndexBuilder::<u32>::new(3);
    assert!(builder.insert("music", 0));
    assert!(builder.insert("muskel", 1));
    assert!(builder.insert("mus", 2));
    assert!(builder.insert("kindergarten", 3));
    let idx = builder.build();
    let q = query(&idx, "mus");
    let full = idx.find(&q);
    for t in [0usize, 1, 2, 3, 100] {
        let fast = idx.find_fast(&q, t);
        for e in &fast {
            assert!(full.contains(e));
        }
    }
    let unpruned = idx.find_fast(&q, usize::MAX);
    assert_eq!(unpruned, full);
}

#[test]
fn find_fast_with_tiny_threshold_yields_nothing() {
    let mut builder = NGIndexBuilder::<u32>::new(3);
    assert!(builder.insert("music", 0));
    let idx = builder.build();
    let q = query(&idx, "music");
    assert_eq!(idx.find_fast(&q, 0).len(), 0);
    assert_eq!(idx.find_fast(&q, 1).len(), 0);
}

#[test]
fn end_to_end_query_ranks_school_first() {
    let items = ["music", "muskel", "kindergarten", "school"];
    let mut builder = NGIndexBuilder::<u32>::new(3);
    for (pos, term) in items.iter().enumerate() {
        assert!(builder.insert(term, pos as u32));
    }
    let idx = builder.build();
    let q = query(&idx, "shol");
    let res = idx.find(&q);
    let school = res.iter().find(|e| e.0 == 3).expect("id 3 must be a candidate");
    assert!(school.1.num > 0);
    for e in &res {
        if e.0 != 3 {
            // id 3 ranks at least as high: cross-multiplied comparison
            assert!(school.1.num * e.1.den >= e.1.num * school.1.den);
        }
    }
}

#[test]
fn empty_index_finds_nothing() {
    let builder = NGIndexBuilder::<u32>::new(3);
    let idx = builder.build();
    assert!(idx.is_empty());
    assert_eq!(idx.len(), 0);
    let q = query(&idx, "anything");
    assert_eq!(idx.find(&q).len(), 0);
    assert_eq!(idx.find_fast(&q, 1000).len(), 0);
    assert_eq!(idx.find_qweight(&q, Weight { num: 1, den: 2 }).len(), 0);
}

#[test]
fn weighted_find_agrees_with_weighted_dice() {
    let mut builder = NGIndexBuilder::<u32>::new(3);
    assert!(builder.insert("music", 0));
    assert!(builder.insert("muskel", 1));
    let idx = builder.build();
    let q = query(&idx, "music");
    let w = Weight { num: 3, den: 4 };
    let res = idx.find_qweight_fast(&q, w, 1000);
    assert_eq!(res.len(), 2);
    // the stored vector of "music" equals the query vector for "music",
    // so its entry must carry exactly that weighted score
    let music = res.iter().find(|e| e.0 == 0).unwrap();
    assert_eq!(music.1, dice_weighted(&q, &q, w));
    let plain = idx.find(&q);
    assert_eq!(plain.len(), 2);
    let deflt = idx.find_qweight(&q, w);
    assert_eq!(res, deflt);
}

#[test]
fn round_trip_preserves_len_n_and_find_output() {
    let items = ["music", "muskel", "kindergarten", "school"];
    let mut builder = NGIndexBuilder::<u32>::new(3);
    for (pos, term) in items.iter().enumerate() {
        assert!(builder.insert(term, pos as u32));
    }
    let idx = builder.build();
    let data = idx.to_data();
    let back = NGIndex::from_data(data).expect("a rendered image must be valid");
    assert_eq!(back.len(), idx.len());
    assert_eq!(back.n(), idx.n());
    let q1 = query(&idx, "shol");
    let q2 = query(&back, "shol");
    assert_eq!(idx.find(&q1), back.find(&q2));
    assert_eq!(idx.find(&q1), back.find(&q1));
}

#[test]
fn from_data_rejects_wrong_version() {
    let builder = NGIndexBuilder::<u32>::new(3);
    let idx = builder.build();
    let mut data = idx.to_data();
    data.version = 0;
    assert!(NGIndex::from_data(data).is_none());
}

#[test]
fn from_data_rejects_zero_gram_length() {
    let builder = NGIndexBuilder::<u32>::new(3);
    let idx = builder.build();
    let mut data = idx.to_data();
    data.n = 0;
    assert!(NGIndex::from_data(data).is_none());
}

#[test]
fn from_data_rejects_out_of_range_dimensions() {
    let mut builder = NGIndexBuilder::<u32>::new(3);
    assert!(builder.insert("abc", 1));
    let idx = builder.build();
    let mut data = idx.to_data();
    data.items[0].1[0].0 = data.grams.len();
    assert!(NGIndex::from_data(data).is_none());
}

#[test]
fn vector_from_entries_rejects_duplicates_and_zero_counts() {
    assert!(Vector::from_entries(vec![(0, 1), (0, 2)]).is_none());
    assert!(Vector::from_entries(vec![(0, 1), (1, 0)]).is_none());
    let v = Vector::from_entries(vec![(0, 1), (2, 3)]).unwrap();
    assert_eq!(v.entry_list(), &vec![(0, 1), (2, 3)]);
}

#[test]
fn query_vector_drops_unknown_grams() {
    let mut builder = NGIndexBuilder::<u32>::new(3);
    assert!(builder.insert("music", 0));
    let idx = builder.build();
    let known = query(&idx, "music");
    let unknown = query(&idx, "zzzzzz");
    assert!(known.dimen_count() > 0);
    assert_eq!(unknown.dimen_count(), 0);
    let partial = query(&idx, "mus");
    assert!(partial.dimen_count() > 0);
    assert!(partial.dimen_count() < known.dimen_count());
}

#[test]
fn repeated_id_accumulates_independent_postings() {
    let mut builder = NGIndexBuilder::<u32>::new(3);
    assert!(builder.insert("music", 9));
    assert!(builder.insert("music", 9));
    let idx = builder.build();
    assert_eq!(idx.len(), 2);
    let q = query(&idx, "music");
    let res = idx.find(&q);
    assert_eq!(res.len(), 2);
    assert!(res.iter().all(|e| e.0 == 9 && e.1.num == e.1.den));
}

#[test]
fn single_character_grams_work() {
    let mut builder = NGIndexBuilder::<u32>::new(1);
    assert!(builder.insert("a", 0));
    assert!(builder.insert("b", 1));
    let idx = builder.build();
    let q = query(&idx, "a");
    let res = idx.find(&q);
    assert_eq!(res.len(), 1);
    assert_eq!(res[0].0, 0);
}
