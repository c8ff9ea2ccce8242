use linesearch::{
    Config, InvertedIndex, LineStore, QueryResult, get_query_match, index_file_lines,
    resolve_queries, split_spaces, tokenize_words,
};

fn store_of(lines: &[&str]) -> LineStore {
    index_file_lines(lines.iter().map(|l| Some(l.to_string())).collect())
}

fn sample() -> LineStore {
    store_of(&["hello world", "hello there", "goodbye world"])
}

fn run(store: &LineStore, terms: &[&str]) -> QueryResult {
    let idx = tokenize_words(store);
    let queries: Vec<String> = terms.iter().map(|t| t.to_string()).collect();
    resolve_queries(&queries, store, &idx)
}

fn pairs(r: &QueryResult) -> Vec<(usize, String)> {
    let mut v: Vec<(usize, String)> = r
        .line_numbers()
        .into_iter()
        .map(|n| (n, r.get(n).unwrap().clone()))
        .collect();
    v.sort();
    v
}

fn sorted(mut v: Vec<usize>) -> Vec<usize> {
    v.sort();
    v
}

#[test]
fn hello_matches_first_two_lines() {
    let r = run(&sample(), &["hello"]);
    assert_eq!(
        pairs(&r),
        vec![(1, "hello world".to_string()), (2, "hello there".to_string())]
    );
}

#[test]
fn two_terms_union_deduplicated() {
    let r = run(&sample(), &["world", "there"]);
    assert_eq!(
        pairs(&r),
        vec![
            (1, "hello world".to_string()),
            (2, "hello there".to_string()),
            (3, "goodbye world".to_string()),
        ]
    );
}

#[test]
fn missing_term_gives_empty_result() {
    let r = run(&sample(), &["missing"]);
    assert!(r.is_empty());
    assert!(r.line_numbers().is_empty());
}

#[test]
fn empty_file_gives_empty_everything() {
    let store = index_file_lines(Vec::new());
    assert_eq!(store.len(), 0);
    let idx = tokenize_words(&store);
    assert!(idx.is_empty());
    let r = run(&store, &["hello", "", "anything"]);
    assert!(r.is_empty());
}

#[test]
fn too_few_arguments_is_an_error() {
    let message = "Invalid command provided ie cargo run -- file_name query".to_string();
    let none: Vec<String> = vec!["prog".to_string()];
    assert_eq!(Config::new(&none).err(), Some(message.clone()));
    let no_query: Vec<String> = vec!["prog".to_string(), "file.txt".to_string()];
    assert_eq!(Config::new(&no_query).err(), Some(message));
}

#[test]
fn arguments_give_file_and_terms() {
    let args: Vec<String> = vec!["prog", "file.txt", "a", "b"].into_iter().map(String::from).collect();
    let c = Config::new(&args).ok().unwrap();
    assert_eq!(c.file_path, "file.txt");
    assert_eq!(c.search_query, vec!["a".to_string(), "b".to_string()]);
}

#[test]
fn store_numbers_every_line_read() {
    let store = store_of(&["one", "", "  three  "]);
    assert_eq!(store.len(), 3);
    assert_eq!(store.get(1).unwrap(), "one");
    assert_eq!(store.get(2).unwrap(), "");
    assert_eq!(store.get(3).unwrap(), "  three  ");
    assert!(store.get(0).is_none());
    assert!(store.get(4).is_none());
}

#[test]
fn store_stops_at_first_unreadable_line() {
    let store = index_file_lines(vec![
        Some("a".to_string()),
        Some("b".to_string()),
        None,
        Some("c".to_string()),
    ]);
    assert_eq!(store.len(), 2);
    assert_eq!(store.get(2).unwrap(), "b");
    assert!(store.get(3).is_none());
}

#[test]
fn split_keeps_empty_tokens() {
    assert_eq!(split_spaces("a  b"), vec!["a", "", "b"]);
    assert_eq!(split_spaces(""), vec![""]);
    assert_eq!(split_spaces(" x "), vec!["", "x", ""]);
    assert_eq!(split_spaces("hello world"), vec!["hello", "world"]);
}

#[test]
fn split_only_on_space() {
    assert_eq!(split_spaces("a\tb"), vec!["a\tb"]);
    assert_eq!(split_spaces("a\tb c"), vec!["a\tb", "c"]);
}

#[test]
fn index_is_sound_and_complete() {
    let store = store_of(&["a b a", "b  c", "C"]);
    let idx = tokenize_words(&store);
    assert_eq!(idx.lines_of("a"), vec![1]);
    assert_eq!(sorted(idx.lines_of("b")), vec![1, 2]);
    assert_eq!(sorted(idx.lines_of("c")), vec![2]);
    assert_eq!(sorted(idx.lines_of("C")), vec![3]);
    assert_eq!(sorted(idx.lines_of("")), vec![2]);
    assert!(idx.lines_of("d").is_empty());
    assert!(idx.lines_of("a b").is_empty());
}

#[test]
fn repeated_word_on_a_line_is_recorded_once() {
    let store = store_of(&["a a a"]);
    let idx = tokenize_words(&store);
    assert_eq!(idx.lines_of("a"), vec![1]);
}

#[test]
fn rebuilding_the_index_gives_the_same_map() {
    let store = store_of(&["x y", "y z", "", "z  x"]);
    let first = tokenize_words(&store);
    let second = tokenize_words(&store);
    for w in ["x", "y", "z", "", "w"] {
        assert_eq!(sorted(first.lines_of(w)), sorted(second.lines_of(w)));
    }
}

#[test]
fn query_of_two_terms_is_union_of_each() {
    let store = store_of(&["a b", "b c", "c d", "d a"]);
    let both = pairs(&run(&store, &["a", "c"]));
    let mut each = pairs(&run(&store, &["a"]));
    for p in pairs(&run(&store, &["c"])) {
        if !each.contains(&p) {
            each.push(p);
        }
    }
    each.sort();
    assert_eq!(both, each);
    assert_eq!(both.len(), 4);
}

#[test]
fn unknown_term_adds_nothing() {
    let store = sample();
    let idx = tokenize_words(&store);
    let mut r = QueryResult::new();
    get_query_match("goodbye", &store, &idx, &mut r);
    let before = pairs(&r);
    get_query_match("nowhere", &store, &idx, &mut r);
    assert_eq!(pairs(&r), before);
    assert_eq!(before, vec![(3, "goodbye world".to_string())]);
}

#[test]
fn matched_line_is_kept_once() {
    let store = sample();
    let idx = tokenize_words(&store);
    let mut r = QueryResult::new();
    get_query_match("world", &store, &idx, &mut r);
    get_query_match("goodbye", &store, &idx, &mut r);
    get_query_match("world", &store, &idx, &mut r);
    assert_eq!(r.line_numbers().len(), 2);
    assert_eq!(
        pairs(&r),
        vec![(1, "hello world".to_string()), (3, "goodbye world".to_string())]
    );
}

#[test]
fn matching_is_case_sensitive_and_exact() {
    let store = store_of(&["Hello, world!", "hello"]);
    assert_eq!(pairs(&run(&store, &["hello"])), vec![(2, "hello".to_string())]);
    assert_eq!(pairs(&run(&store, &["Hello,"])), vec![(1, "Hello, world!".to_string())]);
    assert!(run(&store, &["world"]).is_empty());
}

#[test]
fn empty_term_matches_lines_with_empty_tokens() {
    let store = store_of(&["a  b", "c", "", "d "]);
    let r = run(&store, &[""]);
    assert_eq!(sorted(r.line_numbers()), vec![1, 3, 4]);
}

#[test]
fn new_index_is_empty() {
    assert!(InvertedIndex::new().is_empty());
    assert!(!tokenize_words(&sample()).is_empty());
}
