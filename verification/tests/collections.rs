use abstract_gui::collections::{StrMap, StrSet};
use abstract_gui::strings::{str_eq, str_lt};

#[test]
fn text_order_is_code_point_order() {
    assert!(str_lt("a", "b"));
    assert!(str_lt("a", "ab"));
    assert!(!str_lt("ab", "a"));
    assert!(!str_lt("a", "a"));
    assert!(str_lt("Z", "a"));
    assert!(str_lt("z", "é"));
    assert!(str_eq("é", "é"));
    assert!(!str_eq("e", "é"));
}

#[test]
fn map_keeps_keys_in_order_and_replaces() {
    let mut m: StrMap<u32> = StrMap::new();
    m.insert("b".to_string(), 1);
    m.insert("a".to_string(), 2);
    m.insert("c".to_string(), 3);
    m.insert("b".to_string(), 4);
    assert_eq!(m.len(), 3);
    assert_eq!(m.key_at(0), "a");
    assert_eq!(m.key_at(1), "b");
    assert_eq!(m.key_at(2), "c");
    assert_eq!(m.get("b"), Some(&4));
    assert_eq!(m.get("d"), None);
    assert!(m.contains_key("c"));
    assert!(!m.is_empty());
}

#[test]
fn set_reports_fresh_insertions() {
    let mut s = StrSet::new();
    assert!(s.is_empty());
    assert!(s.insert("x".to_string()));
    assert!(!s.insert("x".to_string()));
    assert!(s.insert("a".to_string()));
    assert_eq!(s.len(), 2);
    assert_eq!(s.get(0), "a");
    assert!(s.contains("x"));
    assert!(!s.contains("y"));
    let c = s.clone();
    assert_eq!(c.len(), 2);
}

#[test]
fn map_clone_keeps_keys_and_values() {
    let mut m: StrMap<Vec<String>> = StrMap::new();
    m.insert("n".to_string(), vec!["b".to_string(), "a".to_string()]);
    m.insert("m".to_string(), Vec::new());
    let c = m.clone();
    assert_eq!(c.len(), 2);
    assert_eq!(c.key_at(0), "m");
    assert_eq!(c.get("n"), Some(&vec!["b".to_string(), "a".to_string()]));
    assert_eq!(c.get("m"), Some(&Vec::new()));
}
