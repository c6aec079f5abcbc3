use srch::bitmap::WordBitMapRow;
use srch::cache::Cache;
use srch::cache::FileEntry;
use srch::searcher::majority_min_score;
use srch::searcher::rank_matches;
use srch::searcher::score_files;

#[test]
fn matches_counts_shared_bits() {
    // dictionary a, b, c, d: the file holds a, c, d; the query b, c
    let file_bm = WordBitMapRow { bytes: vec![0b1101] };
    let query = srch::words::get_unique_words_from_string(&"b c".to_string());
    let dict = vec!["a".to_string(), "b".to_string(), "c".to_string(), "d".to_string()];
    let query_bm = WordBitMapRow::from_words_and_dict(&query, &dict);
    assert_eq!(query_bm.bytes, vec![0b0110]);
    let (count, match_bm) = srch::searcher::matches(&file_bm, &query_bm);
    assert_eq!(match_bm.bytes, vec![0b0100]);
    assert_eq!(count, 1);
}

#[test]
fn matches_of_disjoint_bitmaps_is_zero() {
    let a = WordBitMapRow { bytes: vec![0b0101] };
    let b = WordBitMapRow { bytes: vec![0b1010] };
    let (count, match_bm) = srch::searcher::matches(&a, &b);
    assert_eq!(count, 0);
    assert_eq!(match_bm.bytes, vec![0]);
}

#[test]
fn score_files_scores_every_entry_in_order() {
    let query = WordBitMapRow { bytes: vec![0b0111] };
    let cache = vec![
        ("one.txt".to_string(), WordBitMapRow { bytes: vec![0b0001] }),
        ("two.txt".to_string(), WordBitMapRow { bytes: vec![0b1011] }),
        ("none.txt".to_string(), WordBitMapRow { bytes: vec![0b1000] }),
    ];
    let scored = score_files(&query, &cache);
    assert_eq!(scored.len(), 3);
    assert_eq!(scored[0].0, "one.txt".to_string());
    assert_eq!(scored[0].1, 1);
    assert_eq!(scored[1].0, "two.txt".to_string());
    assert_eq!(scored[1].1, 2);
    assert_eq!(scored[2].0, "none.txt".to_string());
    assert_eq!(scored[2].1, 0);
}

#[test]
fn cache_score_files_walks_its_entries() {
    let cache = Cache {
        dict_path: "d".to_string(),
        entries: vec![
            FileEntry { name: "a.txt".to_string(), bitmap: WordBitMapRow { bytes: vec![0b11] } },
            FileEntry { name: "b.txt".to_string(), bitmap: WordBitMapRow { bytes: vec![0b10] } },
        ],
    };
    let query = WordBitMapRow { bytes: vec![0b11] };
    let scored = cache.score_files(&query);
    assert_eq!(scored.len(), 2);
    assert_eq!(scored[0].0, "a.txt".to_string());
    assert_eq!(scored[0].1, 2);
    assert_eq!(scored[1].0, "b.txt".to_string());
    assert_eq!(scored[1].1, 1);
}

#[test]
fn ranking_puts_higher_scores_first_and_drops_zero() {
    let bm = || WordBitMapRow { bytes: vec![0] };
    let scores = vec![
        ("three.txt".to_string(), 3, bm()),
        ("zero.txt".to_string(), 0, bm()),
        ("five.txt".to_string(), 5, bm()),
    ];
    let ranked = rank_matches(scores, 1);
    assert_eq!(ranked.len(), 2);
    assert_eq!(ranked[0].0, "five.txt".to_string());
    assert_eq!(ranked[0].1, 5);
    assert_eq!(ranked[1].0, "three.txt".to_string());
    assert_eq!(ranked[1].1, 3);
}

#[test]
fn ranking_keeps_the_order_of_equal_scores() {
    let bm = || WordBitMapRow { bytes: vec![0] };
    let scores = vec![
        ("first.txt".to_string(), 2, bm()),
        ("second.txt".to_string(), 2, bm()),
        ("third.txt".to_string(), 7, bm()),
        ("fourth.txt".to_string(), 2, bm()),
    ];
    let ranked = rank_matches(scores, 0);
    let names: Vec<String> = ranked.iter().map(|e| e.0.clone()).collect();
    assert_eq!(
        names,
        vec![
            "third.txt".to_string(),
            "first.txt".to_string(),
            "second.txt".to_string(),
            "fourth.txt".to_string()
        ]
    );
}

#[test]
fn majority_threshold_rounds_up() {
    assert_eq!(majority_min_score(0), 0);
    assert_eq!(majority_min_score(1), 1);
    assert_eq!(majority_min_score(2), 1);
    assert_eq!(majority_min_score(3), 2);
    assert_eq!(majority_min_score(4), 2);
}

#[test]
fn end_to_end_query_against_built_cache() {
    let dict = vec!["cat".to_string(), "dog".to_string(), "fish".to_string()];
    let files = vec![
        ("pets.txt".to_string(), "cat dog".to_string()),
        ("sea.txt".to_string(), "fish".to_string()),
    ];
    let cache = srch::cache::build_cache("d".to_string(), &dict, &files);
    let query = srch::words::get_unique_words_from_string(&"cat dog".to_string());
    let query_bm = WordBitMapRow::from_words_and_dict(&query, &dict);
    let scored = cache.score_files(&query_bm);
    let ranked = rank_matches(scored, majority_min_score(query.len()));
    assert_eq!(ranked.len(), 1);
    assert_eq!(ranked[0].0, "pets.txt".to_string());
    assert_eq!(ranked[0].1, 2);
}
