use pnc::dict::Dictionary;
use pnc::value::{BuiltinWord, Operation, Value};

#[test]
fn test() {
    let mut dict: Dictionary = Default::default();
    assert_eq!(dict.lookup("add"), Some(Operation::Builtin(BuiltinWord::Add)));
    assert_eq!(dict.lookup("plus"), None);
    dict.insert_alias("plus", "add");
    assert_eq!(dict.lookup("plus"), Some(Operation::Builtin(BuiltinWord::Add)));
    dict.insert(
        "incr",
        Operation::Value(Value::Block(vec!["1", "+"].into_iter().map(|s| s.to_owned()).collect())),
    );
    assert_eq!(
        dict.lookup("incr"),
        Some(Operation::Value(Value::Block(
            vec!["1", "+"].into_iter().map(|s| s.to_string()).collect()
        )))
    );
}

#[test]
fn test_parent() {
    let mut dict: Dictionary = Default::default();
    dict.insert_alias("plus", "add");
    assert_eq!(dict.lookup("plus"), Some(Operation::Builtin(BuiltinWord::Add)));

    let mut sub = Dictionary::with_parent(&dict);
    assert_eq!(sub.lookup("plus"), Some(Operation::Builtin(BuiltinWord::Add)));

    sub.insert_alias("+", "plus");
    assert_eq!(sub.lookup("+"), Some(Operation::Builtin(BuiltinWord::Add)));
}

#[test]
fn alias_resolves_through_grandparent() {
    let mut grand = Dictionary::new();
    grand.insert("seven", Operation::Value(Value::QuotedWord("x".to_string())));
    let parent = Dictionary::with_parent(&grand);
    let mut child = Dictionary::with_parent(&parent);
    child.insert_alias("s", "seven");
    assert_eq!(child.lookup("s"), Some(Operation::Value(Value::QuotedWord("x".to_string()))));
    assert_eq!(parent.lookup("s"), None);
}

#[test]
fn local_binding_shadows_parent() {
    let dict: Dictionary = Default::default();
    let mut sub = Dictionary::with_parent(&dict);
    sub.insert("add", Operation::Builtin(BuiltinWord::Sub));
    assert_eq!(sub.lookup("add"), Some(Operation::Builtin(BuiltinWord::Sub)));
    assert_eq!(dict.lookup("add"), Some(Operation::Builtin(BuiltinWord::Add)));
}

#[test]
fn insert_overwrites() {
    let mut dict = Dictionary::new();
    dict.insert("w", Operation::Builtin(BuiltinWord::Pop));
    dict.insert("w", Operation::Builtin(BuiltinWord::Swap));
    assert_eq!(dict.lookup("w"), Some(Operation::Builtin(BuiltinWord::Swap)));
}

#[test]
fn alias_to_missing_word_in_scope_falls_to_parent() {
    let mut parent = Dictionary::new();
    parent.insert("b", Operation::Builtin(BuiltinWord::Dump));
    let mut child = Dictionary::with_parent(&parent);
    child.insert_alias("a", "b");
    assert_eq!(child.lookup("a"), Some(Operation::Builtin(BuiltinWord::Dump)));
}

#[test]
fn alias_cycle_resolves_to_nothing() {
    let mut dict = Dictionary::new();
    dict.insert_alias("a", "b");
    dict.insert_alias("b", "a");
    assert_eq!(dict.lookup("a"), None);
}

#[test]
fn available_words_groups_aliases() {
    let mut dict: Dictionary = Default::default();
    dict.insert_alias("plus", "add");
    let mut sub = Dictionary::with_parent(&dict);
    sub.insert_alias("+", "add");
    let words = sub.available_words();
    let add: Vec<&(String, Vec<String>)> = words.iter().filter(|(n, _)| n == "add").collect();
    assert_eq!(add.len(), 1);
    assert_eq!(add[0].1, vec!["+".to_string(), "plus".to_string()]);
    assert!(words.iter().any(|(n, a)| n == "swap" && a.is_empty()));
    assert!(!words.iter().any(|(n, _)| n == "plus"));
}

#[test]
fn available_words_lists_alias_chains_under_their_end() {
    let mut dict: Dictionary = Default::default();
    dict.insert_alias("plus", "add");
    let mut sub = Dictionary::with_parent(&dict);
    sub.insert_alias("++", "plus");
    let words = sub.available_words();
    let add: Vec<&(String, Vec<String>)> = words.iter().filter(|(n, _)| n == "add").collect();
    assert_eq!(add.len(), 1);
    assert_eq!(add[0].1, vec!["++".to_string(), "plus".to_string()]);
    assert_eq!(sub.end_name("++"), "add");
}
