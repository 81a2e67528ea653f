use gtrie::Trie;

fn chars(s: &str) -> Vec<char> {
    s.chars().collect()
}

#[test]
fn fresh_engine_has_nothing() {
    let t = Trie::<char, i32>::new();
    assert_eq!(t.is_empty(), true);
    assert_eq!(t.has_key(&chars("anything")), false);
    assert_eq!(t.has_key(&chars("a")), false);
    assert_eq!(t.get_value(&chars("anything")), None);
    assert_eq!(t.get_value(&chars("a")), None);
}

#[test]
fn add_then_lookup() {
    let mut t = Trie::new();
    t.add(&chars("this"), 1);
    t.add(&chars("trie"), 2);
    t.add(&chars("contains"), 3);
    t.add(&chars("a"), 4);
    t.add(&chars("number"), 5);
    t.add(&chars("of"), 6);
    t.add(&chars("words"), 7);

    assert_eq!(t.is_empty(), false);
    assert_eq!(t.has_key(&chars("number")), true);
    assert_eq!(t.has_key(&chars("not_existing_key")), false);
    assert_eq!(t.get_value(&chars("words")), Some(7));
    assert_eq!(t.get_value(&chars("none")), None);
}

#[test]
fn idempotent_insertion() {
    let mut t = Trie::new();
    t.add(&chars("key"), 42);
    t.add(&chars("key"), 42);
    t.add(&chars("key"), 42);
    assert_eq!(t.has_key(&chars("key")), true);
    assert_eq!(t.get_value(&chars("key")), Some(42));
}

#[test]
fn add_overwrites_value() {
    let mut t = Trie::new();
    t.add(&chars("key"), 1);
    t.add(&chars("key"), 2);
    assert_eq!(t.get_value(&chars("key")), Some(2));
}

#[test]
fn prefix_and_extension_are_independent() {
    let mut t = Trie::new();
    t.add(&chars("a"), 1);
    t.add(&chars("ab"), 2);
    assert_eq!(t.has_key(&chars("a")), true);
    assert_eq!(t.get_value(&chars("a")), Some(1));
    assert_eq!(t.has_key(&chars("ab")), true);
    assert_eq!(t.get_value(&chars("ab")), Some(2));
}

#[test]
fn resolvable_path_without_value_is_absent() {
    let mut t = Trie::new();
    t.add(&chars("ab"), 2);
    // the node for "a" exists as a prefix, but holds no value
    assert_eq!(t.has_key(&chars("a")), false);
    assert_eq!(t.get_value(&chars("a")), None);
}

#[test]
fn clear_resets_to_empty() {
    let mut t = Trie::new();
    t.add(&chars("this"), 1);
    t.add(&chars("trie"), 2);
    t.add(&chars("a"), 4);
    t.clear();
    assert_eq!(t.is_empty(), true);
    assert_eq!(t.has_key(&chars("this")), false);
    assert_eq!(t.has_key(&chars("trie")), false);
    assert_eq!(t.has_key(&chars("a")), false);
    assert_eq!(t.get_value(&chars("trie")), None);
}

#[test]
fn set_value_overwrites_existing() {
    let mut t = Trie::new();
    t.add(&chars("test"), 42);
    assert_eq!(t.get_value(&chars("test")), Some(42));
    assert_eq!(t.set_value(&chars("test"), 43), Ok(()));
    assert_eq!(t.get_value(&chars("test")), Some(43));
}

#[test]
fn set_value_on_missing_key_fails() {
    let mut t = Trie::new();
    t.add(&chars("test"), 42);
    assert_eq!(t.set_value(&chars("zzz"), 39), Err(()));
    assert_eq!(t.get_value(&chars("zzz")), None);
    assert_eq!(t.get_value(&chars("test")), Some(42));
}

#[test]
fn set_value_on_valueless_prefix_succeeds() {
    // set_value only needs the path to resolve; the prefix node of a
    // longer key qualifies even though it was never added itself
    let mut t = Trie::new();
    t.add(&chars("ab"), 2);
    assert_eq!(t.set_value(&chars("a"), 1), Ok(()));
    assert_eq!(t.get_value(&chars("a")), Some(1));
    assert_eq!(t.get_value(&chars("ab")), Some(2));
}

#[test]
fn apply_on_value_mutates_exactly_the_target() {
    let mut t = Trie::new();
    t.add(&chars("x"), 10);
    t.add(&chars("y"), 7);
    assert_eq!(t.apply_on_value(&chars("x"), |v| v + 1), Ok(()));
    assert_eq!(t.get_value(&chars("x")), Some(11));
    assert_eq!(t.get_value(&chars("y")), Some(7));
}

#[test]
fn apply_on_value_missing_key_fails() {
    let mut t = Trie::<char, i32>::new();
    t.add(&chars("x"), 10);
    assert_eq!(t.apply_on_value(&chars("zzz"), |v| v + 1), Err(()));
    assert_eq!(t.get_value(&chars("x")), Some(10));
}

#[test]
fn apply_on_value_absent_value_fails() {
    // the path for "a" resolves, but its node holds no value
    let mut t = Trie::<char, i32>::new();
    t.add(&chars("ab"), 2);
    assert_eq!(t.apply_on_value(&chars("a"), |v| v + 1), Err(()));
    assert_eq!(t.get_value(&chars("a")), None);
    assert_eq!(t.get_value(&chars("ab")), Some(2));
}

#[test]
fn end_to_end_scenario() {
    let mut t = Trie::new();
    t.add(&chars("this"), 1);
    t.add(&chars("trie"), 2);
    t.add(&chars("a"), 4);
    assert_eq!(t.has_key(&chars("trie")), true);
    assert_eq!(t.has_key(&chars("tri")), false);
    assert_eq!(t.get_value(&chars("a")), Some(4));
    assert_eq!(t.get_value(&chars("missing")), None);
}

#[test]
fn integer_symbols_and_string_values() {
    let mut t = Trie::<u32, String>::new();
    t.add(&[3u32, 1, 4], String::from("pi"));
    t.add(&[3u32, 1], String::from("three-one"));
    assert_eq!(t.get_value(&[3u32, 1, 4]), Some(String::from("pi")));
    assert_eq!(t.get_value(&[3u32, 1]), Some(String::from("three-one")));
    assert_eq!(t.get_value(&[3u32]), None);
    assert_eq!(t.has_key(&[3u32, 1, 4, 1]), false);
}
