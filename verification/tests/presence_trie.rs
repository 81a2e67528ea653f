use gtrie::trie::Trie;

fn chars(s: &str) -> Vec<char> {
    s.chars().collect()
}

#[test]
fn presence_fresh_engine() {
    let t = Trie::<char>::new();
    assert_eq!(t.is_empty(), true);
    assert_eq!(t.has_key(&chars("anything")), false);
    assert_eq!(t.has_key(&chars("a")), false);
    // the empty sequence resolves to the root, which has no children
    // yet, so the structural rule reports it present
    assert_eq!(t.has_key(&[]), true);
}

#[test]
fn presence_add_then_lookup() {
    let mut t = Trie::new();
    let data = chars("test");
    let another_data = chars("notintest");
    t.add(&data);
    assert_eq!(t.is_empty(), false);
    assert_eq!(t.has_key(&data), true);
    assert_eq!(t.has_key(&another_data), false);
}

#[test]
fn structural_leaf_rule() {
    // adding an extension hides the shorter sequence: membership is
    // "has no further children", not an explicit terminal marker
    let mut t = Trie::new();
    t.add(&chars("a"));
    t.add(&chars("ab"));
    assert_eq!(t.has_key(&chars("a")), false);
    assert_eq!(t.has_key(&chars("ab")), true);
}

#[test]
fn presence_prefix_is_not_member() {
    let mut t = Trie::new();
    t.add(&chars("abc"));
    assert_eq!(t.has_key(&chars("ab")), false);
    assert_eq!(t.has_key(&chars("a")), false);
    assert_eq!(t.has_key(&chars("abc")), true);
}

#[test]
fn presence_clear_resets_to_empty() {
    let mut t = Trie::new();
    t.add(&chars("test"));
    t.add(&chars("words"));
    t.clear();
    assert_eq!(t.is_empty(), true);
    assert_eq!(t.has_key(&chars("test")), false);
    assert_eq!(t.has_key(&chars("words")), false);
}

#[test]
fn presence_add_is_idempotent() {
    let mut t = Trie::new();
    t.add(&chars("key"));
    t.add(&chars("key"));
    assert_eq!(t.has_key(&chars("key")), true);
    assert_eq!(t.is_empty(), false);
}

#[test]
fn presence_integer_symbols() {
    let mut t = Trie::<u64>::new();
    t.add(&[1u64, 2, 3]);
    assert_eq!(t.has_key(&[1u64, 2, 3]), true);
    assert_eq!(t.has_key(&[1u64, 2]), false);
    assert_eq!(t.has_key(&[2u64]), false);
}
