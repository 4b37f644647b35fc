use rust_knn_node::engine::{find_nearest_neighbors, score, upload_data, Engine, KnnError, Similarity};
use rust_knn_node::similarity::Score;
use rust_knn_node::tokenizer::tokenize;

fn engine_with(items: &[&str]) -> Engine {
    let mut e = Engine::new();
    let strings: Vec<String> = items.iter().map(|s| s.to_string()).collect();
    assert_eq!(upload_data(&mut e, strings), Ok(()));
    e
}

fn query(e: &Engine, q: &str, k: i64, flag: Option<bool>) -> Vec<String> {
    find_nearest_neighbors(e, q.to_string(), k, flag).unwrap()
}

fn sim(a: &str, b: &str, mode: Similarity) -> Score {
    score(&tokenize(a), &tokenize(b), mode)
}

fn fruit() -> Engine {
    engine_with(&["apple pie", "apple tart", "banana split"])
}

#[test]
fn exact_match_then_partial_match() {
    let e = fruit();
    assert_eq!(query(&e, "apple pie", 2, None), vec!["apple pie", "apple tart"]);
    assert_eq!(query(&e, "apple pie", 2, Some(false)), vec!["apple pie", "apple tart"]);
}

#[test]
fn reordered_query_order_sensitive() {
    let e = fruit();
    assert_eq!(query(&e, "pie apple", 1, Some(true)), vec!["apple pie"]);
    let sensitive = sim("pie apple", "apple pie", Similarity::OrderSensitive);
    let insensitive = sim("pie apple", "apple pie", Similarity::OrderInsensitive);
    assert_eq!(sensitive, Score { num: 1, den: 2 });
    assert_eq!(insensitive, Score { num: 2, den: 2 });
    // With the order-sensitive metric "apple tart" ties with "apple pie".
    assert_eq!(query(&e, "pie apple", 3, Some(true)), vec!["apple pie", "apple tart", "banana split"]);
}

#[test]
fn order_sensitivity_distinguishes_regimes() {
    let same = sim("a b", "a b", Similarity::OrderInsensitive);
    let swapped = sim("a b", "b a", Similarity::OrderInsensitive);
    assert_eq!(swapped.num * same.den, same.num * swapped.den);
    assert_eq!(swapped.num, swapped.den);
    let ordered = sim("a b", "b a", Similarity::OrderSensitive);
    assert_eq!(ordered, Score { num: 1, den: 2 });
    assert!(ordered.num < ordered.den);
    assert_eq!(sim("a b", "a b", Similarity::OrderSensitive), Score { num: 2, den: 2 });
}

#[test]
fn overlap_is_symmetric() {
    let pairs = [("a b c", "b c d e"), ("x", ""), ("a a b", "a"), ("", "")];
    for (a, b) in pairs {
        assert_eq!(sim(a, b, Similarity::OrderInsensitive), sim(b, a, Similarity::OrderInsensitive));
    }
}

#[test]
fn overlap_exact_values() {
    assert_eq!(sim("a b c d", "a c d x", Similarity::OrderInsensitive), Score { num: 3, den: 5 });
    assert_eq!(sim("a a b", "a", Similarity::OrderInsensitive), Score { num: 1, den: 2 });
    assert_eq!(sim("a b", "c d", Similarity::OrderInsensitive), Score { num: 0, den: 1 });
    assert_eq!(sim("", "", Similarity::OrderInsensitive), Score { num: 1, den: 1 });
    assert_eq!(sim("", "a", Similarity::OrderInsensitive), Score { num: 0, den: 1 });
}

#[test]
fn alignment_exact_values() {
    assert_eq!(sim("a b c d", "a c d x", Similarity::OrderSensitive), Score { num: 3, den: 4 });
    assert_eq!(sim("a b c", "c b a", Similarity::OrderSensitive), Score { num: 1, den: 3 });
    assert_eq!(sim("a b", "c d e", Similarity::OrderSensitive), Score { num: 0, den: 3 });
    assert_eq!(sim("", "", Similarity::OrderSensitive), Score { num: 1, den: 1 });
    assert_eq!(sim("", "a b", Similarity::OrderSensitive), Score { num: 0, den: 2 });
}

#[test]
fn tokenizer_splits_on_whitespace() {
    let t = tokenize("  apple\tpie \n tart ");
    let words: Vec<String> = t.iter().map(|w| w.iter().collect()).collect();
    assert_eq!(words, vec!["apple", "pie", "tart"]);
    assert!(tokenize("").is_empty());
    assert!(tokenize(" \t\n").is_empty());
    let one: Vec<String> = tokenize("héllo,world").iter().map(|w| w.iter().collect()).collect();
    assert_eq!(one, vec!["héllo,world"]);
}

#[test]
fn result_length_is_min_of_k_and_corpus_size() {
    let e = fruit();
    for k in 0..6i64 {
        let r = query(&e, "banana", k, None);
        assert_eq!(r.len(), std::cmp::min(k as usize, 3));
    }
    assert!(query(&e, "apple", 0, Some(true)).is_empty());
    assert_eq!(query(&e, "apple", i64::MAX, None).len(), 3);
}

#[test]
fn empty_corpus_gives_empty_result() {
    let e = Engine::new();
    for k in [0i64, 1, 10] {
        assert!(query(&e, "apple", k, None).is_empty());
        assert!(query(&e, "", k, Some(true)).is_empty());
    }
}

#[test]
fn empty_query_keeps_upload_order() {
    let e = engine_with(&["c d", "a", "b b b", "x"]);
    assert_eq!(query(&e, "", 3, None), vec!["c d", "a", "b b b"]);
    assert_eq!(query(&e, "   ", 4, Some(true)), vec!["c d", "a", "b b b", "x"]);
}

#[test]
fn ties_keep_upload_order() {
    let e = engine_with(&["z a", "y a", "a", "x a"]);
    assert_eq!(query(&e, "a", 4, None), vec!["a", "z a", "y a", "x a"]);
}

#[test]
fn upload_replaces_corpus() {
    let mut e = fruit();
    assert_eq!(upload_data(&mut e, vec!["cherry pie".to_string()]), Ok(()));
    assert_eq!(query(&e, "apple pie", 5, None), vec!["cherry pie"]);
    assert_eq!(e.len(), 1);
    assert_eq!(e.upload_strings(vec![]), Ok(()));
    assert!(query(&e, "apple pie", 5, None).is_empty());
}

#[test]
fn repeated_queries_agree() {
    let e = engine_with(&["b a", "a b", "a", "b", "a b c"]);
    for flag in [None, Some(true), Some(false)] {
        let first = query(&e, "a b", 4, flag);
        let second = query(&e, "a b", 4, flag);
        assert_eq!(first, second);
    }
}

#[test]
fn negative_k_is_invalid_argument() {
    let e = fruit();
    assert_eq!(find_nearest_neighbors(&e, "apple".to_string(), -1, None), Err(KnnError::InvalidArgument));
    assert_eq!(KnnError::InvalidArgument.message(), "invalid argument");
    assert_eq!(KnnError::InvalidInput.message(), "invalid input");
}

#[test]
fn nearest_by_mode() {
    let e = engine_with(&["b a", "a b", "c"]);
    assert_eq!(e.nearest("a b", 1, Similarity::OrderSensitive), vec!["a b"]);
    assert_eq!(e.nearest("a b", 1, Similarity::OrderInsensitive), vec!["b a"]);
    assert_eq!(e.nearest("a b", 2, Similarity::OrderInsensitive), vec!["b a", "a b"]);
}

#[test]
fn query_and_entries_tokenized_alike() {
    let e = engine_with(&["  apple \t pie  ", "apple tart"]);
    assert_eq!(sim("apple pie", "  apple \t pie  ", Similarity::OrderSensitive), Score { num: 2, den: 2 });
    assert_eq!(query(&e, "apple\npie", 1, Some(true)), vec!["  apple \t pie  "]);
}
