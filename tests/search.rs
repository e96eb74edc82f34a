use word_index::index::build;
use word_index::query::{render, window_of, MAX_RESULTS};

fn answer(data: &[u8], term: &str) -> String {
    let index = build(data, 2);
    let windows = index.search(term.as_bytes(), data.len() as u64);
    let snippets: Vec<Vec<u8>> = windows
        .iter()
        .map(|&(s, e)| data[s as usize..e as usize].to_vec())
        .collect();
    render(!windows.is_empty(), &snippets)
}

#[test]
fn search_two_lines() {
    let data = b"hello world\nhello again\n";
    let index = build(data, 1);
    let windows = index.search(b"hello", data.len() as u64);
    assert_eq!(windows, vec![(0, 24), (0, 24)]);
    for &(s, e) in windows.iter() {
        let snippet = &data[s as usize..e as usize];
        assert!(snippet.windows(5).any(|w| w == b"hello"));
    }
    let text = answer(data, "hello");
    assert_eq!(text.matches("<br/>").count(), 2);
    assert_eq!(text.matches("hello").count(), 4);
}

#[test]
fn missing_term_finds_nothing() {
    let data = b"hello world\nhello again\n";
    let index = build(data, 1);
    assert!(index.search(b"missing", data.len() as u64).is_empty());
    assert_eq!(answer(data, "missing"), "Nothing");
}

#[test]
fn search_folds_the_query() {
    let data = b"Hello HELLO hello\n";
    let index = build(data, 1);
    assert_eq!(index.search(b"HeLLo", data.len() as u64).len(), 3);
}

#[test]
fn search_caps_results_and_windows() {
    let mut data = Vec::new();
    for _ in 0..40 {
        data.extend_from_slice(b"word filler filler filler filler filler\n");
    }
    let len = data.len() as u64;
    let index = build(&data, 4);
    let windows = index.search(b"word", len);
    assert_eq!(windows.len(), MAX_RESULTS);
    for (i, &(s, e)) in windows.iter().enumerate() {
        assert!(s <= e && e <= len);
        assert!(e - s <= 128);
        assert_eq!((s, e), window_of(40 * i as u64, len));
    }
}

#[test]
fn window_formula() {
    assert_eq!(window_of(100, 1000), (40, 168));
    assert_eq!(window_of(10, 1000), (0, 78));
    assert_eq!(window_of(60, 1000), (0, 128));
    assert_eq!(window_of(990, 1000), (930, 1000));
    assert_eq!(window_of(5, 3), (0, 3));
    assert_eq!(window_of(500, 300), (300, 300));
    assert_eq!(window_of(u64::MAX, u64::MAX), (u64::MAX - 60, u64::MAX));
}

#[test]
fn render_exact_text() {
    assert_eq!(render(true, &vec![b"ab".to_vec(), b"c".to_vec()]), "ab\n<br/>c\n<br/>");
    assert_eq!(render(true, &vec![vec![0xE9u8]]), "\u{e9}\n<br/>");
    assert_eq!(render(true, &vec![]), "");
    assert_eq!(render(false, &vec![b"ab".to_vec()]), "Nothing");
}
