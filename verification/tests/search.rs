use thunderspear::state::State;
use thunderspear::strsim::damerau_levenshtein;
use thunderspear::reader::Reader;
use thunderspear::upload::Transfer;

#[test]
fn distance_of_equal_strings_is_zero() {
    assert_eq!(damerau_levenshtein("", ""), 0);
    assert_eq!(damerau_levenshtein("abc", "abc"), 0);
}

#[test]
fn distance_counts_insertions_and_deletions() {
    assert_eq!(damerau_levenshtein("", "abc"), 3);
    assert_eq!(damerau_levenshtein("abc", ""), 3);
    assert_eq!(damerau_levenshtein("ab", "abc"), 1);
}

#[test]
fn distance_counts_substitutions() {
    assert_eq!(damerau_levenshtein("abc", "axc"), 1);
    assert_eq!(damerau_levenshtein("kitten", "sitting"), 3);
}

#[test]
fn distance_counts_transpositions() {
    assert_eq!(damerau_levenshtein("ab", "ba"), 1);
    // The unrestricted distance may edit between the transposed pair.
    assert_eq!(damerau_levenshtein("ca", "abc"), 2);
    assert_eq!(damerau_levenshtein("a cat", "an act"), 2);
}

fn state_with_names(names: &[&str]) -> State {
    let mut s = State::default();
    let paths: Vec<String> = names.iter().map(|n| format!("/tmp/{}", n)).collect();
    s.upload(paths);
    for (expected_id, name) in names.iter().enumerate() {
        let file = s.upload_next();
        assert_eq!(file.id as usize, expected_id);
        let mut t = Transfer::new(file.id, file.path, 5, Reader::new(5).clusters);
        t.segment_done(0, "msg".to_string());
        let id = t.id;
        let path = t.path.clone();
        let ids = t.into_ids();
        s.commit(id, name.to_string(), path, 5, ids, 0);
    }
    s
}

#[test]
fn query_keeps_only_close_names() {
    // A name matches when its normalized distance to the query falls
    // below one half: "qa" scores exactly one half against "q" and is
    // excluded; an equal name, distance zero, is the closest match.
    let s = state_with_names(&["qa", "ab", "q"]);
    let r = s.query("q".to_string());
    assert_eq!(r, vec![2]);
}

#[test]
fn query_orders_closest_first() {
    // Against "abcd": the equal name (distance 0) first, then distance
    // ratios 1/5 and 1/4.
    let s = state_with_names(&["abcx", "abcd", "abcde"]);
    let r = s.query("abcd".to_string());
    assert_eq!(r, vec![1, 2, 0]);
}

#[test]
fn query_keeps_catalog_order_between_equal_distances() {
    // Both names sit at the same normalized distance from the query: the
    // earlier catalog record stays first.
    let s = state_with_names(&["abcx", "abcy"]);
    let r = s.query("abcd".to_string());
    assert_eq!(r, vec![0, 1]);
}

#[test]
fn query_lists_catalog_hits_before_queue_hits() {
    let mut s = state_with_names(&["abcd"]);
    // A queued upload whose path matches the query too.
    s.upload(vec!["abcd".to_string()]);
    let r = s.query("abcd".to_string());
    assert_eq!(r, vec![0, 1]);
}

#[test]
fn empty_query_matches_only_an_empty_name() {
    // Two empty strings are at distance zero; any other name is at full
    // normalized distance from the empty query.
    let s = state_with_names(&["", "x"]);
    let r = s.query("".to_string());
    assert_eq!(r, vec![0]);
}

#[test]
fn query_with_no_hits_is_empty() {
    let s = state_with_names(&["xyz", "hello"]);
    let r = s.query("abcd".to_string());
    assert_eq!(r, Vec::<u32>::new());
}
