use bob::{tokenize, Segment};

fn segs(parts: &[&str]) -> Vec<Vec<char>> {
    parts.iter().map(|p| p.chars().collect()).collect()
}

fn text(v: &[Vec<char>]) -> Vec<String> {
    v.iter().map(|p| p.iter().collect()).collect()
}

#[test]
fn trie_adds_and_finds() {
    let mut trie = Segment::new();
    assert_eq!(trie.len(), 0);
    assert_eq!(trie.add(tokenize("/a/{x}").unwrap()), Some(0));
    assert_eq!(trie.add(tokenize("/a/b").unwrap()), Some(1));
    assert_eq!(trie.add(tokenize("/a/{y}").unwrap()), None);
    assert_eq!(trie.len(), 2);
    assert_eq!(trie.get(1).path, "/a/b");
    let (w, values) = trie.find(&segs(&["a", "b"])).unwrap();
    assert_eq!(w, 1);
    assert!(values.is_empty());
    let (w, values) = trie.find(&segs(&["a", "c"])).unwrap();
    assert_eq!(w, 0);
    assert_eq!(text(&values), vec!["c".to_string()]);
    assert!(trie.find(&segs(&["b"])).is_none());
    assert!(trie.find(&segs(&[])).is_none());
}

#[test]
fn mixed_siblings_are_tried_in_the_order_of_their_text() {
    let mut first = Segment::new();
    first.add(tokenize("/{a}-{b}").unwrap());
    first.add(tokenize("/x-{b}").unwrap());
    let mut second = Segment::new();
    second.add(tokenize("/x-{b}").unwrap());
    second.add(tokenize("/{a}-{b}").unwrap());
    let path = segs(&["x-1"]);
    let (w1, v1) = first.find(&path).unwrap();
    let (w2, v2) = second.find(&path).unwrap();
    assert_eq!(first.get(w1).path, "/x-{b}");
    assert_eq!(second.get(w2).path, "/x-{b}");
    assert_eq!(text(&v1), vec!["1".to_string()]);
    assert_eq!(text(&v2), vec!["1".to_string()]);
}

#[test]
fn optional_template_matches_the_empty_path_below_the_root() {
    let mut trie = Segment::new();
    trie.add(tokenize("/{q?}").unwrap());
    let (w, values) = trie.find(&segs(&[])).unwrap();
    assert_eq!(w, 0);
    assert!(values.is_empty());
}
