use chooser::{find_closest, rank_scored};

fn corpus() -> Vec<String> {
    vec![
        String::from("aaa"),
        String::from("bbb"),
        String::from("abb"),
    ]
}

#[test]
fn find_closest_works() {
    let corpus = corpus();

    assert_eq!(find_closest("a", &corpus, 3), vec![0, 2, 1]);
    assert_eq!(find_closest("b", &corpus, 3), vec![1, 2, 0]);
    assert_eq!(find_closest("b", &corpus, 2), vec![1, 2]);
}

#[test]
fn length_is_min_of_limit_and_candidates() {
    let corpus = corpus();
    assert_eq!(find_closest("a", &corpus, 10).len(), 3);
    assert_eq!(find_closest("a", &corpus, 1).len(), 1);
    assert_eq!(find_closest("a", &corpus, 0).len(), 0);
}

#[test]
fn indices_are_in_range_and_distinct() {
    let corpus = corpus();
    let r = find_closest("ab", &corpus, 10);
    let mut seen = vec![false; corpus.len()];
    for &i in &r {
        assert!(i < corpus.len());
        assert!(!seen[i]);
        seen[i] = true;
    }
}

#[test]
fn exact_match_comes_first() {
    let corpus = vec![
        String::from("yankee"),
        String::from("xray"),
        String::from("zulu"),
    ];
    assert_eq!(find_closest("xray", &corpus, 3)[0], 1);
}

#[test]
fn ranking_twice_gives_the_same() {
    let corpus = corpus();
    assert_eq!(find_closest("ba", &corpus, 3), find_closest("ba", &corpus, 3));
}

#[test]
fn empty_candidates_give_nothing() {
    let corpus: Vec<String> = Vec::new();
    assert_eq!(find_closest("a", &corpus, 3), Vec::<usize>::new());
}

#[test]
fn empty_query_does_not_panic() {
    let corpus = vec![String::from(""), String::from("ab")];
    assert_eq!(find_closest("", &corpus, 2), vec![0, 1]);
}

#[test]
fn transposition_counts_as_one_edit() {
    // "ab" -> "ba" is one transposition (score 1/2); "ab" -> "cd" is two
    // substitutions (score 0).
    let corpus = vec![String::from("cd"), String::from("ba")];
    assert_eq!(find_closest("ab", &corpus, 2), vec![1, 0]);
}

#[test]
fn distance_counts_chars_not_bytes() {
    // "é" is two bytes but one char: "é" vs "éa" is one insertion over two
    // chars (score 1/2), and "é" vs "xy" is two edits over two chars.
    let corpus = vec![String::from("xy"), String::from("éa")];
    assert_eq!(find_closest("é", &corpus, 2), vec![1, 0]);
}

#[test]
fn rank_scored_orders_by_similarity_then_index() {
    // (distance, longer length): 2/3, 3/3, 2/3, 0/4
    let scores = vec![(2, 3), (3, 3), (2, 3), (0, 4)];
    assert_eq!(rank_scored(&scores, 4), vec![3, 0, 2, 1]);
    assert_eq!(rank_scored(&scores, 2), vec![3, 0]);
}

#[test]
fn rank_scored_compares_fractions() {
    // similarities 1 - d/m: 0.5, 0.75 and 1 (two empty strings)
    let scores = vec![(1, 2), (1, 4), (0, 0)];
    assert_eq!(rank_scored(&scores, 3), vec![2, 1, 0]);
}

#[test]
fn rank_scored_empty() {
    let scores: Vec<(usize, usize)> = Vec::new();
    assert_eq!(rank_scored(&scores, 5), Vec::<usize>::new());
}
