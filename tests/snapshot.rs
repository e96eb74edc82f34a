use word_index::index::{build, Index};

fn le(x: u64) -> Vec<u8> {
    x.to_le_bytes().to_vec()
}

#[test]
fn snapshot_of_one_term() {
    let index = build(b"a\n", 1);
    let bytes = index.snapshot().unwrap();
    let mut expected = Vec::new();
    expected.extend(le(1));
    expected.extend(le(1));
    expected.push(b'a');
    expected.extend(le(1));
    expected.extend(le(0));
    assert_eq!(bytes, expected);
}

#[test]
fn snapshot_of_two_terms() {
    let mut index = Index::new();
    index.add(b"bc", 3);
    index.add(b"bc", 300);
    index.add(b"d", 1);
    let bytes = index.snapshot().unwrap();
    let mut expected = Vec::new();
    expected.extend(le(2));
    expected.extend(le(2));
    expected.extend_from_slice(b"bc");
    expected.extend(le(2));
    expected.extend(le(3));
    expected.extend(le(300));
    expected.extend(le(1));
    expected.push(b'd');
    expected.extend(le(1));
    expected.extend(le(1));
    assert_eq!(bytes, expected);
}

#[test]
fn snapshot_of_empty_index() {
    assert_eq!(Index::new().snapshot().unwrap(), le(0));
}

#[test]
fn snapshot_lists_terms_in_byte_order() {
    let index = build(b"b a\n", 1);
    let bytes = index.snapshot().unwrap();
    let mut expected = Vec::new();
    expected.extend(le(2));
    expected.extend(le(1));
    expected.push(b'a');
    expected.extend(le(1));
    expected.extend(le(2));
    expected.extend(le(1));
    expected.push(b'b');
    expected.extend(le(1));
    expected.extend(le(0));
    assert_eq!(bytes, expected);
}
