use pimgext::json::Piece;
use pimgext::pyfmt::{py_repr, py_str};
use pimgext::value::{Binary, Dict};
use pimgext::pyfmt::{bytes_repr, is_printable, is_py_space, py_type_name, str_repr};
use pimgext::value::Val;

#[test]
fn reprs() {
    assert_eq!(str_repr("a'b"), "\"a'b\"");
    assert_eq!(str_repr("a'\"b"), "'a\\'\"b'");
    assert_eq!(str_repr("x\x01\u{3000}あ"), "'x\\x01\\u3000あ'");
    assert_eq!(bytes_repr(b"TLG6.0"), "b'TLG6.0'");
    assert_eq!(bytes_repr(b"\x00'\xff"), "b\"\\x00'\\xff\"");
}

#[test]
fn str_repr_escapes() {
    assert_eq!(str_repr(""), "''");
    assert_eq!(str_repr("a\\b\tc\nd\re"), "'a\\\\b\\tc\\nd\\re'");
    assert_eq!(str_repr("\u{7f}\u{ad}"), "'\\x7f\\xad'");
    assert_eq!(str_repr("\u{feff}"), "'\\ufeff'");
    assert_eq!(str_repr("\u{f0000}"), "'\\U000f0000'");
    assert_eq!(str_repr("'\""), "'\\'\"'");
}

#[test]
fn bytes_repr_escapes() {
    assert_eq!(bytes_repr(b""), "b''");
    assert_eq!(bytes_repr(b"\\\t\n\r"), "b'\\\\\\t\\n\\r'");
    assert_eq!(bytes_repr(b"'\""), "b'\\'\"'");
    assert_eq!(bytes_repr(b"\x7f~"), "b'\\x7f~'");
}

#[test]
fn printable_and_space() {
    assert!(is_printable('a'));
    assert!(is_printable('あ'));
    assert!(!is_printable('\u{1f}'));
    assert!(!is_printable('\u{3000}'));
    assert!(is_py_space(' '));
    assert!(is_py_space('\u{3000}'));
    assert!(is_py_space('\x1c'));
    assert!(!is_py_space('x'));
    assert!(!is_py_space('\u{200b}'));
}

#[test]
fn type_names() {
    assert_eq!(py_type_name(&Val::Null), "NoneType");
    assert_eq!(py_type_name(&Val::Bool(true)), "bool");
    assert_eq!(py_type_name(&Val::Int(3)), "int");
    assert_eq!(py_type_name(&Val::F64(0)), "float");
    assert_eq!(py_type_name(&Val::Str(String::from("x"))), "str");
    assert_eq!(py_type_name(&Val::List(Vec::new())), "list");
}

#[test]
fn repr_of_values() {
    fn text(p: &[Piece]) -> String {
        p.iter()
            .map(|x| match x {
                Piece::Text(t) => t.clone(),
                Piece::Float32(_) => "<f32>".to_string(),
                Piece::Float64(_) => "<f64>".to_string(),
            })
            .collect()
    }
    let mut d = Dict::new();
    d.insert("k".to_string(), Val::List(vec![Val::Int(-3), Val::Null, Val::Bool(false), Val::F64(0)]));
    d.insert("s".to_string(), Val::Str("it's".to_string()));
    assert_eq!(text(&py_repr(&Val::Dict(d))), "{'k': [-3, None, False, <f64>], 's': \"it's\"}");
    assert_eq!(text(&py_str(&Val::Str("plain".to_string()))), "plain");
    assert_eq!(text(&py_str(&Val::Bool(true))), "True");
    let b = Val::Bin(Binary { index: 2, offset: 0, size: 0 });
    assert_eq!(text(&py_repr(&b)), "<__main__.Binary object at 0x7f0000000060>");
    assert_eq!(text(&py_repr(&Val::List(Vec::new()))), "[]");
}

#[test]
fn bytes_repr_is_printable_ascii() {
    let all: Vec<u8> = (0..=255u8).collect();
    let r = bytes_repr(&all);
    assert!(r.chars().all(|c| (' '..='~').contains(&c)));
    assert!(r.starts_with("b'") && r.ends_with('\''));
}
