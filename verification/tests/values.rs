use pimgext::value::{Dict, Val};

#[test]
fn dict_read_after_write() {
    let mut d = Dict::new();
    assert!(d.is_empty());
    d.insert("k".to_string(), Val::Int(1));
    d.insert("j".to_string(), Val::Int(2));
    assert!(matches!(d.get("k"), Some(Val::Int(1))));
    assert!(matches!(d.get("j"), Some(Val::Int(2))));
    assert!(d.get("z").is_none());
    assert_eq!(d.len(), 2);
}

#[test]
fn dict_repeated_key_keeps_position() {
    let mut d = Dict::new();
    d.insert("a".to_string(), Val::Int(1));
    d.insert("b".to_string(), Val::Int(2));
    d.insert("a".to_string(), Val::Int(3));
    assert_eq!(d.len(), 2);
    let e = d.iter();
    assert_eq!(e[0].0, "a");
    assert!(matches!(e[0].1, Val::Int(3)));
    assert_eq!(e[1].0, "b");
}
