use word_index::index::{build, index_partition, Index};
use word_index::order::compare_bytes;
use word_index::partition::split;
use word_index::tokenizer::{fold_byte, is_delimiter, normalize, scan};

fn offsets(index: &Index, term: &str) -> Vec<u64> {
    match index.find_list(term.as_bytes()) {
        Some(list) => list.clone(),
        None => Vec::new(),
    }
}

fn parallel_style(data: &[u8], workers: usize) -> Index {
    let parts = split(data, workers);
    let mut locals = Vec::new();
    for (s, e) in parts {
        locals.push(index_partition(data, s, e));
    }
    Index::merge(&locals)
}

fn same_index(a: &Index, b: &Index) -> bool {
    if a.len() != b.len() {
        return false;
    }
    for (term, list) in a.entries.iter() {
        match b.find_list(term) {
            Some(other) => {
                if other != list {
                    return false;
                }
            }
            None => return false,
        }
    }
    true
}

#[test]
fn two_lines_index_entries() {
    let data = b"hello world\nhello again\n";
    assert_eq!(data.len(), 24);
    let index = build(data, 1);
    assert_eq!(offsets(&index, "hello"), vec![0, 12]);
    assert_eq!(offsets(&index, "world"), vec![6]);
    assert_eq!(offsets(&index, "again"), vec![18]);
    assert_eq!(index.len(), 3);
}

#[test]
fn last_word_ends_at_end_of_file() {
    let data = b"hello world\nhello again";
    let index = build(data, 1);
    assert_eq!(offsets(&index, "hello"), vec![0, 12]);
    assert_eq!(offsets(&index, "world"), vec![6]);
    assert_eq!(offsets(&index, "again"), vec![18]);
}

#[test]
fn bracket_and_bar_delimiters() {
    let data = b"a|b[c]d";
    let index = build(data, 1);
    assert_eq!(offsets(&index, "a"), vec![0]);
    assert_eq!(offsets(&index, "b"), vec![2]);
    assert_eq!(offsets(&index, "c"), vec![4]);
    assert_eq!(offsets(&index, "d"), vec![6]);
    assert_eq!(index.len(), 4);
}

#[test]
fn word_on_equal_split_boundary() {
    // 24 bytes split four ways cuts at 6, 12 and 18; each cut falls inside a word.
    let data = b"abcd efghijkl mnopqr stu";
    let parts = split(data, 4);
    assert_eq!(parts.len(), 4);
    assert_eq!(parts, vec![(0, 14), (14, 14), (14, 21), (21, 24)]);
    let index = parallel_style(data, 4);
    assert_eq!(offsets(&index, "efghijkl"), vec![5]);
    assert_eq!(offsets(&index, "mnopqr"), vec![14]);
    assert_eq!(offsets(&index, "abcd"), vec![0]);
    assert_eq!(offsets(&index, "stu"), vec![21]);
    assert_eq!(index.len(), 4);
    assert!(index.find_list(b"efgh").is_none());
    assert!(index.find_list(b"ijkl").is_none());
}

#[test]
fn worker_counts_give_the_same_index() {
    let data = b"The cat sat on the mat\tthe [cat] |ran| away\\ the end's near the\nthe Cat";
    let reference = build(data, 1);
    for n in 1..12usize {
        let a = build(data, n);
        let b = parallel_style(data, n);
        assert!(same_index(&reference, &a), "build with {} workers", n);
        assert!(same_index(&reference, &b), "merge with {} workers", n);
    }
    assert_eq!(offsets(&reference, "the"), vec![0, 15, 23, 45, 60, 64]);
    assert_eq!(offsets(&reference, "cat"), vec![4, 28, 68]);
}

#[test]
fn occurrences_re_scan_to_their_term() {
    let data = b"one two Three one\nTWO three one's";
    let index = build(data, 3);
    for (term, list) in index.entries.iter() {
        for &o in list.iter() {
            let toks = scan(data, o as usize, data.len());
            assert!(!toks.is_empty());
            assert_eq!(&toks[0].0, term);
            assert_eq!(toks[0].1, o);
        }
    }
}

#[test]
fn occurrence_lists_ascend() {
    let data = b"x y x y x x y z x";
    for n in 1..6usize {
        let index = build(data, n);
        for (_, list) in index.entries.iter() {
            for w in list.windows(2) {
                assert!(w[0] < w[1]);
            }
        }
        assert_eq!(offsets(&index, "x"), vec![0, 4, 8, 10, 16]);
    }
}

#[test]
fn scan_drops_a_word_cut_by_the_range_end() {
    let data = b"abc def ghi";
    let toks = scan(data, 0, 5);
    assert_eq!(toks, vec![(b"abc".to_vec(), 0)]);
    let toks = scan(data, 4, 11);
    assert_eq!(toks, vec![(b"def".to_vec(), 4), (b"ghi".to_vec(), 8)]);
    let toks = scan(data, 5, 8);
    assert_eq!(toks, vec![(b"ef".to_vec(), 5)]);
}

#[test]
fn scan_folds_ascii_only() {
    let data = b"MiXeD \xC3\x89t\xC3\xA9 Z\n";
    let toks = scan(data, 0, data.len());
    assert_eq!(toks.len(), 3);
    assert_eq!(toks[0], (b"mixed".to_vec(), 0));
    assert_eq!(toks[1], (b"\xC3\x89t\xC3\xA9".to_vec(), 6));
    assert_eq!(toks[2], (b"z".to_vec(), 12));
}

#[test]
fn delimiters_and_folding() {
    for b in [b' ', b'\n', b'\t', b'\'', b'[', b']', b'|', b'\\'] {
        assert!(is_delimiter(b));
    }
    for b in [b'a', b'Z', b'-', b'.', b',', b'\r', 0u8, 200u8] {
        assert!(!is_delimiter(b));
    }
    assert_eq!(fold_byte(b'A'), b'a');
    assert_eq!(fold_byte(b'Z'), b'z');
    assert_eq!(fold_byte(b'a'), b'a');
    assert_eq!(fold_byte(b'@'), b'@');
    assert_eq!(fold_byte(b'['), b'[');
    assert_eq!(fold_byte(0xC9), 0xC9);
    assert_eq!(normalize(b"HeLLo-World"), b"hello-world".to_vec());
}

#[test]
fn split_covers_the_data() {
    let data = b"aa bb cc dd ee ff gg";
    for n in 1..25usize {
        let parts = split(data, n);
        assert_eq!(parts.len(), n);
        assert_eq!(parts[0].0, 0);
        assert_eq!(parts[n - 1].1, data.len());
        for i in 0..n {
            assert!(parts[i].0 <= parts[i].1);
            if i + 1 < n {
                assert_eq!(parts[i].1, parts[i + 1].0);
            }
            let b = parts[i].1;
            assert!(b == 0 || b == data.len() || is_delimiter(data[b - 1]));
        }
    }
}

#[test]
fn split_of_empty_data() {
    let parts = split(b"", 3);
    assert_eq!(parts, vec![(0, 0), (0, 0), (0, 0)]);
    let index = build(b"", 3);
    assert_eq!(index.len(), 0);
}

#[test]
fn merge_unions_and_sorts() {
    let mut a = Index::new();
    a.add(b"x", 1);
    a.add(b"y", 2);
    let mut b = Index::new();
    b.add(b"x", 7);
    b.append(b"z", &[8, 9]);
    let m = Index::merge(&vec![b, a]);
    assert_eq!(offsets(&m, "x"), vec![1, 7]);
    assert_eq!(offsets(&m, "y"), vec![2]);
    assert_eq!(offsets(&m, "z"), vec![8, 9]);
    assert_eq!(m.len(), 3);
}

#[test]
fn merge_sorts_locals_reported_out_of_order() {
    let data = b"x y x\nz x y\n";
    let parts = split(data, 3);
    let mut locals = Vec::new();
    for &(s, e) in parts.iter().rev() {
        locals.push(index_partition(data, s, e));
    }
    let merged = Index::merge(&locals);
    let reference = build(data, 1);
    assert!(same_index(&merged, &reference));
    assert_eq!(offsets(&merged, "x"), vec![0, 4, 8]);
    assert_eq!(offsets(&merged, "y"), vec![2, 10]);
}

#[test]
fn terms_kept_in_byte_order() {
    let index = build(b"zeta alpha Mid beta alpha\n", 2);
    let keys: Vec<Vec<u8>> = index.entries.iter().map(|(k, _)| k.clone()).collect();
    assert_eq!(
        keys,
        vec![b"alpha".to_vec(), b"beta".to_vec(), b"mid".to_vec(), b"zeta".to_vec()]
    );
    assert_eq!(offsets(&index, "alpha"), vec![5, 20]);
}

#[test]
fn byte_order_comparison() {
    assert!(compare_bytes(b"abc", b"abd") < 0);
    assert!(compare_bytes(b"abd", b"abc") > 0);
    assert!(compare_bytes(b"ab", b"abc") < 0);
    assert!(compare_bytes(b"abc", b"ab") > 0);
    assert_eq!(compare_bytes(b"abc", b"abc"), 0);
    assert_eq!(compare_bytes(b"", b""), 0);
    assert!(compare_bytes(b"", b"a") < 0);
    assert!(compare_bytes(b"z", b"\xC3") < 0);
}
