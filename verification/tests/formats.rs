use pimgext::error::PyErr;
use pimgext::json::{dump, encode_str, indent, Piece};
use pimgext::png::{chunk, crc32, scanlines, write_png};
use pimgext::psb::PsbFile;
use pimgext::tlg5::decode;
use pimgext::value::{Dict, Val};

fn text_of(pieces: &[Piece]) -> String {
    let mut s = String::new();
    for p in pieces {
        match p {
            Piece::Text(t) => s.push_str(t),
            Piece::Float32(b) => s.push_str(&format!("<f32:{:x}>", b)),
            Piece::Float64(b) => s.push_str(&format!("<f64:{:x}>", b)),
        }
    }
    s
}

#[test]
fn crc32_check_value() {
    assert_eq!(crc32(b"123456789"), 0xCBF4_3926);
    assert_eq!(crc32(b""), 0);
    assert_eq!(crc32(b"IEND"), 0xAE42_6082);
}

#[test]
fn png_chunk_layout() {
    let mut out = Vec::new();
    chunk(&mut out, b"IEND", b"");
    assert_eq!(out, vec![0, 0, 0, 0, b'I', b'E', b'N', b'D', 0xAE, 0x42, 0x60, 0x82]);
}

#[test]
fn png_scanlines() {
    let raw = scanlines(2, 1, &[1, 2, 3, 4, 5, 6, 7, 8]);
    assert_eq!(raw, vec![0, 1, 2, 3, 4, 5, 6, 7, 8]);
    let short = scanlines(1, 2, &[9, 9, 9, 9]);
    assert_eq!(short, vec![0, 9, 9, 9, 9, 0]);
    assert_eq!(scanlines(3, 0, &[]), Vec::<u8>::new());
}

#[test]
fn png_file_bytes() {
    let (bytes, err) = write_png(1, 2, &[0xAA]);
    assert!(err.is_none());
    assert_eq!(&bytes[..8], b"\x89PNG\r\n\x1a\n");
    assert_eq!(&bytes[8..16], &[0, 0, 0, 13, b'I', b'H', b'D', b'R']);
    assert_eq!(&bytes[16..29], &[0, 0, 0, 1, 0, 0, 0, 2, 8, 6, 0, 0, 0]);
    assert_eq!(&bytes[33..41], &[0, 0, 0, 1, b'I', b'D', b'A', b'T']);
    assert_eq!(bytes[41], 0xAA);
    assert_eq!(&bytes[bytes.len() - 12..], &[0, 0, 0, 0, b'I', b'E', b'N', b'D', 0xAE, 0x42, 0x60, 0x82]);
    assert_eq!(bytes.len(), 8 + 25 + 13 + 12);
}

#[test]
fn png_size_out_of_range() {
    let (bytes, err) = write_png(1 << 32, 1, &[]);
    assert_eq!(bytes, b"\x89PNG\r\n\x1a\n".to_vec());
    match err {
        Some(PyErr::Fatal { kind, msg }) => {
            assert_eq!(kind, "struct.error");
            assert_eq!(msg, "'I' format requires 0 <= number <= 4294967295");
        }
        _ => panic!("expected struct.error"),
    }
    assert!(write_png(-1, 1, &[]).1.is_some());
}

fn tlg5(colors: u8, w: u32, h: u32, bh: u32, chans: &[(u8, &[u8])]) -> Vec<u8> {
    let mut b = b"TLG5.0\0raw\x1a".to_vec();
    b.push(colors);
    b.extend_from_slice(&w.to_le_bytes());
    b.extend_from_slice(&h.to_le_bytes());
    b.extend_from_slice(&bh.to_le_bytes());
    let nblk = (h + bh - 1) / bh;
    for _ in 0..nblk {
        b.extend_from_slice(&[0, 0, 0, 0]);
    }
    for (mark, data) in chans {
        b.push(*mark);
        b.extend_from_slice(&(data.len() as u32).to_le_bytes());
        b.extend_from_slice(data);
    }
    b
}

#[test]
fn tlg5_raw_channels() {
    let img = decode(&tlg5(3, 1, 1, 1, &[(1, &[10]), (1, &[20]), (1, &[30])])).ok().unwrap();
    assert_eq!((img.w, img.h), (1, 1));
    assert_eq!(img.px, vec![50, 20, 30, 255]);
}

#[test]
fn tlg5_four_channels() {
    let img = decode(&tlg5(4, 2, 1, 1, &[(1, &[1, 2]), (1, &[3, 4]), (1, &[5, 6]), (1, &[7, 8])])).ok().unwrap();
    assert_eq!(img.px, vec![8, 3, 4, 7, 18, 7, 10, 15]);
}

#[test]
fn tlg5_compressed_channels() {
    let img = decode(&tlg5(3, 1, 1, 1, &[(0, &[0, 7]), (0, &[0, 1]), (0, &[0, 2])])).ok().unwrap();
    assert_eq!(img.px, vec![3, 1, 8, 255]);
}

#[test]
fn tlg5_second_row_adds_previous() {
    let img = decode(&tlg5(3, 1, 2, 2, &[(1, &[0, 1]), (1, &[0, 0]), (1, &[5, 1])])).ok().unwrap();
    assert_eq!(img.px, vec![5, 0, 0, 255, 6, 0, 1, 255]);
}

#[test]
fn tlg5_errors() {
    match decode(b"nope") {
        Err(PyErr::Pimg(m)) => assert_eq!(m, "not a TLG5 image"),
        _ => panic!(),
    }
    match decode(b"TLG5.0\0raw\x1a") {
        Err(PyErr::Struct(m)) => assert_eq!(
            m,
            "unpack_from requires a buffer of at least 24 bytes for unpacking 13 bytes at offset 11 (actual buffer size is 11)"
        ),
        _ => panic!(),
    }
    match decode(&tlg5(5, 1, 1, 1, &[])) {
        Err(PyErr::Pimg(m)) => assert_eq!(m, "unsupported TLG5 (colors=5)"),
        _ => panic!(),
    }
    match decode(&tlg5(3, 2, 1, 1, &[(1, &[1]), (1, &[1]), (1, &[1])])) {
        Err(PyErr::Pimg(m)) => assert_eq!(m, "TLG5: truncated block"),
        _ => panic!(),
    }
    match decode(&tlg5(3, 1, 1, 1, &[(1, &[1]), (1, &[]), (1, &[1])])) {
        Err(PyErr::Index(m)) => assert_eq!(m, "bytearray index out of range"),
        _ => panic!(),
    }
    match decode(&tlg5(3, 1, 1, 1, &[(0, &[0])])) {
        Err(PyErr::Index(m)) => assert_eq!(m, "index out of range"),
        _ => panic!(),
    }
}

#[test]
fn json_escapes() {
    let mut s = String::new();
    encode_str(&mut s, "a\"b\\c\n\u{1}\u{8}\u{c}é");
    assert_eq!(s, "\"a\\\"b\\\\c\\n\\u0001\\b\\fé\"");
    assert_eq!(indent(2), "\n    ");
    assert_eq!(indent(0), "\n");
}

#[test]
fn json_dump_tree() {
    let mut d = Dict::new();
    d.insert("a".to_string(), Val::Int(1));
    d.insert(
        "b".to_string(),
        Val::List(vec![Val::Bool(true), Val::Null, Val::Str("x\"y".to_string()), Val::F64(0x3ff0_0000_0000_0000)]),
    );
    d.insert("c".to_string(), Val::Dict(Dict::new()));
    d.insert("e".to_string(), Val::List(Vec::new()));
    let (pieces, err) = dump(&d);
    assert!(err.is_none());
    assert_eq!(
        text_of(&pieces),
        "{\n  \"a\": 1,\n  \"b\": [\n    true,\n    null,\n    \"x\\\"y\",\n    <f64:3ff0000000000000>\n  ],\n  \"c\": {},\n  \"e\": []\n}"
    );
}

#[test]
fn json_dump_recursion_limit() {
    let mut v = Val::Int(0);
    for _ in 0..1000 {
        v = Val::List(vec![v]);
    }
    let mut d = Dict::new();
    d.insert("deep".to_string(), v);
    let (pieces, err) = dump(&d);
    match err {
        Some(PyErr::Fatal { kind, msg }) => {
            assert_eq!(kind, "RecursionError");
            assert_eq!(msg, "maximum recursion depth exceeded");
        }
        _ => panic!("expected RecursionError"),
    }
    assert!(text_of(&pieces).starts_with("{\n  \"deep\": [\n"));
    let mut w = Val::Int(0);
    for _ in 0..5 {
        w = Val::List(vec![w]);
    }
    let mut e = Dict::new();
    e.insert("x".to_string(), w);
    assert!(dump(&e).1.is_none());
}

/// A PSB file whose root is {"a": 42, "s": "hi"}.
fn small_psb() -> Vec<u8> {
    psb_with_pool(b"hi\0")
}

/// A PSB file whose root is {"a": 42, "s": <the string in `pool`>}.
fn psb_with_pool(pool: &[u8]) -> Vec<u8> {
    let mut arrays: Vec<u8> = Vec::new();
    let base: u32 = 64;
    // name tables a1, a2, a3
    let a1 = [13u8, 1, 13, 0xA0];
    let mut a2 = vec![13u8, 20, 13];
    let mut a2v = vec![0u8; 20];
    a2v[0] = 1;
    a2v[2] = 19;
    a2.extend_from_slice(&a2v);
    let a3 = [13u8, 2, 13, 0, 2];
    let p_str_index = base;
    arrays.extend_from_slice(&a1);
    arrays.extend_from_slice(&a2);
    arrays.extend_from_slice(&a3);
    let p_str_offset = base + arrays.len() as u32;
    arrays.extend_from_slice(&[13, 1, 13, 0]);
    let p_bin_offset = base + arrays.len() as u32;
    arrays.extend_from_slice(&[13, 0, 13]);
    let p_bin_size = base + arrays.len() as u32;
    arrays.extend_from_slice(&[13, 0, 13]);
    let p_str_pool = base + arrays.len() as u32;
    arrays.extend_from_slice(pool);
    let p_root = base + arrays.len() as u32;
    // {names: [0, 1], offsets: [0, 2]} then Int(42) and Str(0)
    arrays.extend_from_slice(&[0x21, 13, 2, 13, 0, 1, 13, 2, 13, 0, 2, 5, 42, 21, 0]);
    let mut d = b"PSB\0".to_vec();
    d.extend_from_slice(&2u16.to_le_bytes());
    d.extend_from_slice(&0u16.to_le_bytes());
    d.extend_from_slice(&[0, 0, 0, 0]);
    for v in [p_str_index, p_str_offset, p_str_pool, p_bin_offset, p_bin_size, 0, p_root] {
        d.extend_from_slice(&v.to_le_bytes());
    }
    d.resize(64, 0);
    d.extend_from_slice(&arrays);
    d
}

#[test]
fn psb_small_tree() {
    let psb = PsbFile::new(small_psb(), Err(String::new())).ok().unwrap();
    match psb.root() {
        Ok(Val::Dict(d)) => {
            assert_eq!(d.len(), 2);
            assert!(matches!(d.get("a"), Some(Val::Int(42))));
            match d.get("s") {
                Some(Val::Str(s)) => assert_eq!(s, "hi"),
                _ => panic!("no string"),
            }
            assert!(d.get("b").is_none());
        }
        _ => panic!("root is not a dict"),
    }
}

#[test]
fn psb_errors() {
    match PsbFile::new(b"PSB\0".to_vec(), Err(String::new())) {
        Err(PyErr::Pimg(m)) => assert_eq!(m, "not a PSB/PIMG file"),
        _ => panic!(),
    }
    let mut v3 = small_psb();
    v3[4] = 4;
    match PsbFile::new(v3, Err(String::new())) {
        Err(PyErr::Pimg(m)) => assert_eq!(m, "unsupported PSB version 4"),
        _ => panic!(),
    }
    let mut enc = small_psb();
    enc[6] = 1;
    match PsbFile::new(enc, Err(String::new())) {
        Err(PyErr::Pimg(m)) => assert_eq!(m, "encrypted PSB is not supported"),
        _ => panic!(),
    }
    match PsbFile::new(b"mdf\0\x01\0\0\0ab".to_vec(), Err(String::new())) {
        Err(PyErr::Pimg(m)) => assert_eq!(m, "mdf: file too small"),
        _ => panic!(),
    }
}

#[test]
fn psb_mdf_container() {
    let inner = small_psb();
    let mut mdf = b"mdf\0".to_vec();
    mdf.extend_from_slice(&(inner.len() as u32).to_le_bytes());
    mdf.extend_from_slice(&[0x78, 0x9c, 1, 2, 3]);
    let psb = PsbFile::new(mdf.clone(), Ok(inner.clone())).ok().unwrap();
    assert!(matches!(psb.root(), Ok(Val::Dict(_))));
    match PsbFile::new(mdf.clone(), Ok(vec![1, 2, 3])) {
        Err(PyErr::Pimg(m)) => assert_eq!(m, format!("mdf: size mismatch (header {}, actual 3)", inner.len())),
        _ => panic!(),
    }
    match PsbFile::new(mdf, Err("invalid stored block lengths".to_string())) {
        Err(PyErr::Pimg(m)) => assert_eq!(m, "mdf: zlib decompression failed (invalid stored block lengths)"),
        _ => panic!(),
    }
}

#[test]
fn psb_string_invalid_utf8() {
    let psb = PsbFile::new(psb_with_pool(b"h\xffi\0"), Err(String::new())).ok().unwrap();
    match psb.root() {
        Ok(Val::Dict(d)) => match d.get("s") {
            Some(Val::Str(s)) => assert_eq!(s, "h\u{fffd}i"),
            _ => panic!("no string"),
        },
        _ => panic!("root is not a dict"),
    }
}

/// A PSB file whose root dictionary maps one-letter names to the encoded
/// values given, and whose binary 0 is `blob`.
fn psb_with_members(members: &[(char, Vec<u8>)], blob: &[u8]) -> Vec<u8> {
    let n = members.len() as u8;
    let mut arrays: Vec<u8> = Vec::new();
    let base: u32 = 64;
    let a1 = [13u8, 1, 13, 0xA0];
    let mut a2v = vec![0u8; 27 + members.len()];
    for (i, (c, _)) in members.iter().enumerate() {
        a2v[27 + i] = (*c as u8) - 0x60;
    }
    let mut a2 = vec![13u8, a2v.len() as u8, 13];
    a2.extend_from_slice(&a2v);
    let mut a3 = vec![13u8, n, 13];
    for i in 0..members.len() {
        a3.push(27 + i as u8);
    }
    let p_str_index = base;
    arrays.extend_from_slice(&a1);
    arrays.extend_from_slice(&a2);
    arrays.extend_from_slice(&a3);
    let p_str_offset = base + arrays.len() as u32;
    arrays.extend_from_slice(&[13, 0, 13]);
    let p_bin_offset = base + arrays.len() as u32;
    arrays.extend_from_slice(&[13, 1, 13, 0]);
    let p_bin_size = base + arrays.len() as u32;
    arrays.extend_from_slice(&[13, 1, 13, blob.len() as u8]);
    let p_bin_pool = base + arrays.len() as u32;
    arrays.extend_from_slice(blob);
    let p_root = base + arrays.len() as u32;
    let mut root = vec![0x21u8, 13, n, 13];
    for i in 0..n {
        root.push(i);
    }
    root.extend_from_slice(&[13, n, 13]);
    let mut off = 0u8;
    let mut values = Vec::new();
    for (_, v) in members {
        root.push(off);
        off += v.len() as u8;
        values.extend_from_slice(v);
    }
    root.extend_from_slice(&values);
    arrays.extend_from_slice(&root);
    let mut d = b"PSB\0".to_vec();
    d.extend_from_slice(&3u16.to_le_bytes());
    d.extend_from_slice(&0u16.to_le_bytes());
    d.extend_from_slice(&[0, 0, 0, 0]);
    for v in [p_str_index, p_str_offset, 0, p_bin_offset, p_bin_size, p_bin_pool, p_root] {
        d.extend_from_slice(&v.to_le_bytes());
    }
    d.resize(64, 0);
    d.extend_from_slice(&arrays);
    d
}

#[test]
fn psb_value_kinds() {
    let members = vec![
        ('a', vec![0]),
        ('b', vec![2]),
        ('c', vec![3]),
        ('d', vec![4]),
        ('e', vec![6, 0xfe, 0xff]),
        ('f', vec![30, 0, 0, 0x80, 0x3f]),
        ('g', vec![31, 0, 0, 0, 0, 0, 0, 0xf0, 0x3f]),
        ('h', vec![25, 0]),
        ('i', vec![0x20, 13, 1, 13, 0, 5, 7]),
    ];
    let data = psb_with_members(&members, b"BLOB");
    let psb = PsbFile::new(data, Err(String::new())).ok().unwrap();
    let d = match psb.root() {
        Ok(Val::Dict(d)) => d,
        _ => panic!("root is not a dict"),
    };
    assert_eq!(d.len(), 9);
    assert!(matches!(d.get("a"), Some(Val::Null)));
    assert!(matches!(d.get("b"), Some(Val::Bool(true))));
    assert!(matches!(d.get("c"), Some(Val::Bool(false))));
    assert!(matches!(d.get("d"), Some(Val::Int(0))));
    assert!(matches!(d.get("e"), Some(Val::Int(-2))));
    assert!(matches!(d.get("f"), Some(Val::F32(0x3f80_0000))));
    assert!(matches!(d.get("g"), Some(Val::F64(0x3ff0_0000_0000_0000))));
    match d.get("h") {
        Some(Val::Bin(b)) => {
            assert_eq!(b.index, 0);
            assert_eq!(psb.binary(b), b"BLOB");
        }
        _ => panic!("no binary"),
    }
    match d.get("i") {
        Some(Val::List(l)) => {
            assert_eq!(l.len(), 1);
            assert!(matches!(l[0], Val::Int(7)));
        }
        _ => panic!("no list"),
    }
}

#[test]
fn psb_unknown_type() {
    let data = psb_with_members(&[('a', vec![0x40])], b"");
    let psb = PsbFile::new(data, Err(String::new())).ok().unwrap();
    match psb.root() {
        Err(PyErr::Pimg(m)) => assert!(m.starts_with("psb: unknown value type 0x40 at 0x")),
        _ => panic!("expected an error"),
    }
}

#[test]
fn tlg5_zero_width_decodes() {
    let img = decode(&tlg5(3, 0, 2, 2, &[(1, &[]), (1, &[]), (1, &[])])).ok().unwrap();
    assert_eq!((img.w, img.h), (0, 2));
    assert!(img.px.is_empty());
}
