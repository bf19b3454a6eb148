use pimgext::compose::blend;
use pimgext::error::{alloc_zeroed, struct_short, PyErr};
use pimgext::extract::{
    all_opaque, canvas_bytes, choose_base, decode_image, fatal_text, layer_dicts, layer_names, layer_opacity,
    at_origin, blend_is_normal, is_pimg_name, layer_type_ok, png_target, positive_int, raw_plan, safe_name, size_matches,
    pimg_suffix, png_choice, sort_names, to_json, PngTarget,
};
use pimgext::tlg5::Image;
use pimgext::value::{Binary, Dict, Val};

fn strs(v: &[&str]) -> Vec<String> {
    v.iter().map(|s| s.to_string()).collect()
}

fn bin(index: u64) -> Binary {
    Binary { index, offset: 0, size: 0 }
}

#[test]
fn safe_names() {
    assert_eq!(safe_name(" a:b "), "a_b");
    assert_eq!(safe_name(".."), "");
    assert_eq!(safe_name(" . "), "");
    assert_eq!(safe_name("x/y\u{1}z"), "x_y_z");
    assert_eq!(safe_name("\u{3000}name\t"), "name_");
    assert_eq!(safe_name("\u{3000}name "), "name");
    assert_eq!(safe_name("..."), "...");
}

#[test]
fn decode_image_messages() {
    match decode_image(b"TLG6.0\0raw") {
        Err(PyErr::Pimg(m)) => assert_eq!(m, "not a TLG5 image (b'TLG6.0')"),
        _ => panic!(),
    }
    match decode_image(b"ab") {
        Err(PyErr::Pimg(m)) => assert_eq!(m, "not a TLG5 image (b'ab')"),
        _ => panic!(),
    }
    match decode_image(b"TLG5.0\0raw\x1a\x03") {
        Err(PyErr::Pimg(m)) => assert_eq!(
            m,
            "TLG5 decode failed (unpack_from requires a buffer of at least 24 bytes for unpacking 13 bytes at offset 11 (actual buffer size is 12))"
        ),
        _ => panic!(),
    }
}

#[test]
fn fatal_lines() {
    let e = PyErr::Os { errno: Some(2), text: "[Errno 2] gone".to_string() };
    assert_eq!(fatal_text(Some("a.pimg"), &e), "pimgext: fatal: a.pimg: FileNotFoundError: [Errno 2] gone");
    let p = PyErr::Os { errno: Some(13), text: "x".to_string() };
    assert_eq!(fatal_text(None, &p), "pimgext: fatal: PermissionError: x");
    let m = PyErr::Fatal { kind: "MemoryError", msg: String::new() };
    assert_eq!(fatal_text(None, &m), "pimgext: fatal: MemoryError");
    let v = PyErr::Value("subsection not found".to_string());
    assert_eq!(fatal_text(Some("f"), &v), "pimgext: fatal: f: Error: subsection not found");
    let o = PyErr::Os { errno: None, text: "odd".to_string() };
    assert_eq!(fatal_text(None, &o), "pimgext: fatal: OSError: odd");
}

#[test]
fn canvas_sizes() {
    assert_eq!(canvas_bytes(3, 2), 24);
    assert_eq!(canvas_bytes(-1, 2), -8);
    assert_eq!(canvas_bytes(i128::MAX, 2), i128::MAX);
    assert_eq!(canvas_bytes(1 << 125, 1), i128::MAX);
}

#[test]
fn opaque_check() {
    assert!(all_opaque(&[1, 2, 3, 255, 4, 5, 6, 255]));
    assert!(!all_opaque(&[1, 2, 3, 255, 4, 5, 6, 254]));
    assert!(all_opaque(&[]));
    assert!(all_opaque(&[0, 0, 0]));
}

#[test]
fn base_choice() {
    assert_eq!(choose_base(&vec![true, false, true, false]), Some(2));
    assert_eq!(choose_base(&vec![false, false]), None);
    assert_eq!(choose_base(&Vec::new()), None);
}

#[test]
fn positive_ints_and_opacity() {
    assert_eq!(positive_int(Some(&Val::Int(5))), Some(5));
    assert_eq!(positive_int(Some(&Val::Int(0))), None);
    assert_eq!(positive_int(Some(&Val::Bool(true))), Some(1));
    assert_eq!(positive_int(Some(&Val::Bool(false))), None);
    assert_eq!(positive_int(Some(&Val::F64(0x4000_0000_0000_0000))), None);
    assert_eq!(positive_int(None), None);
    assert_eq!(layer_opacity(&Val::Int(300)), 255);
    assert_eq!(layer_opacity(&Val::Int(-3)), 0);
    assert_eq!(layer_opacity(&Val::Int(128)), 128);
    assert_eq!(layer_opacity(&Val::Bool(true)), 1);
    assert_eq!(layer_opacity(&Val::Str("x".to_string())), 255);
}

#[test]
fn layer_file_names() {
    let names = layer_names(&strs(&["bg", "", "eye", "eye"]), &strs(&["1", "2", "3", "4"]));
    assert_eq!(names, strs(&["bg", "layer_2", "eye_3", "eye_4"]));
}

#[test]
fn layers_of_root() {
    let mut root = Dict::new();
    assert!(layer_dicts(&root).is_none());
    root.insert("layers".to_string(), Val::List(Vec::new()));
    assert!(layer_dicts(&root).is_none());
    let mut l = Dict::new();
    l.insert("layer_id".to_string(), Val::Int(7));
    root.insert("layers".to_string(), Val::List(vec![Val::Int(1), Val::Dict(l), Val::Null]));
    let ls = layer_dicts(&root).unwrap();
    assert_eq!(ls.len(), 1);
    assert!(matches!(ls[0].get("layer_id"), Some(Val::Int(7))));
}

#[test]
fn json_tree_of_binaries() {
    let mut extra = Vec::new();
    let v = Val::List(vec![Val::Bin(bin(3)), Val::Int(1), Val::Bin(bin(3))]);
    match to_json(&v, &mut extra) {
        Val::List(l) => {
            assert_eq!(l.len(), 3);
            assert!(matches!(&l[0], Val::Str(s) if s == "<binary:3>"));
            assert!(matches!(&l[1], Val::Int(1)));
        }
        _ => panic!(),
    }
    assert_eq!(extra.len(), 1);
    assert_eq!(extra[0].0, "_bin3.bin");
}

#[test]
fn raw_plan_names() {
    let mut root = Dict::new();
    root.insert("img/a.tlg".to_string(), Val::Bin(bin(0)));
    root.insert("..".to_string(), Val::Bin(bin(1)));
    let mut inner = Dict::new();
    inner.insert("p".to_string(), Val::Bin(bin(2)));
    root.insert("meta".to_string(), Val::Dict(inner));
    let plan = raw_plan(&root);
    assert_eq!(plan.root_bins.len(), 2);
    assert_eq!(plan.root_bins[0].0, "img/a.tlg");
    assert_eq!(plan.root_bins[0].1, "img_a.tlg");
    assert_eq!(plan.root_bins[1].1, "_bin1.bin");
    assert_eq!(plan.extra.len(), 1);
    assert_eq!(plan.extra[0].0, "_bin2.bin");
    assert!(matches!(plan.tree.get("img/a.tlg"), Some(Val::Str(s)) if s == "img_a.tlg"));
    match plan.tree.get("meta") {
        Some(Val::Dict(d)) => assert!(matches!(d.get("p"), Some(Val::Str(s)) if s == "<binary:2>")),
        _ => panic!(),
    }
    assert!(matches!(png_target(&plan, 0), PngTarget::Write(s) if s == "img_a.png"));
    assert!(matches!(png_target(&plan, 1), PngTarget::NotTlg));
}

#[test]
fn png_target_upper_case_and_taken() {
    let mut root = Dict::new();
    root.insert("X.TLG".to_string(), Val::Bin(bin(0)));
    root.insert("x.png".to_string(), Val::Bin(bin(1)));
    let plan = raw_plan(&root);
    assert!(matches!(png_target(&plan, 0), PngTarget::Taken(s) if s == "X.png"));
}

#[test]
fn allocation_errors() {
    match alloc_zeroed(-1) {
        Err(PyErr::Fatal { kind, msg }) => {
            assert_eq!(kind, "ValueError");
            assert_eq!(msg, "negative count");
        }
        _ => panic!(),
    }
    match alloc_zeroed(i128::MAX) {
        Err(PyErr::Fatal { kind, .. }) => assert_eq!(kind, "OverflowError"),
        _ => panic!(),
    }
    assert_eq!(alloc_zeroed(3).ok().unwrap(), vec![0, 0, 0]);
    assert_eq!(alloc_zeroed(0).ok().unwrap(), Vec::<u8>::new());
    match struct_short(1, 4, 3) {
        PyErr::Struct(m) => assert_eq!(
            m,
            "unpack_from requires a buffer of at least 5 bytes for unpacking 4 bytes at offset 1 (actual buffer size is 3)"
        ),
        _ => panic!(),
    }
}

#[test]
fn blend_opaque_and_half() {
    let img = Image { w: 1, h: 1, px: vec![10, 20, 30, 255] };
    let mut canvas = vec![0u8; 4];
    blend(&mut canvas, 1, 1, &img, 0, 0, 255);
    assert_eq!(canvas, vec![10, 20, 30, 255]);
    let mut c2 = vec![100u8, 100, 100, 255];
    blend(&mut c2, 1, 1, &img, 0, 0, 128);
    // a = 255*128/255 = 128; da = 255*127/255 = 127; oa = 255
    assert_eq!(c2, vec![((10 * 128 + 100 * 127 + 127) / 255) as u8, ((20 * 128 + 100 * 127 + 127) / 255) as u8, ((30 * 128 + 100 * 127 + 127) / 255) as u8, 255]);
}

#[test]
fn blend_clips_and_offsets() {
    let img = Image { w: 2, h: 1, px: vec![1, 1, 1, 255, 2, 2, 2, 255] };
    let mut canvas = vec![0u8; 8];
    blend(&mut canvas, 2, 1, &img, 1, 0, 255);
    assert_eq!(canvas, vec![0, 0, 0, 0, 1, 1, 1, 255]);
    let mut c2 = vec![0u8; 8];
    blend(&mut c2, 2, 1, &img, -1, 0, 255);
    assert_eq!(c2, vec![2, 2, 2, 255, 0, 0, 0, 0]);
    let mut c3 = vec![0u8; 8];
    blend(&mut c3, 2, 1, &img, 0, 5, 255);
    assert_eq!(c3, vec![0u8; 8]);
    let mut c4 = vec![9u8; 8];
    blend(&mut c4, 2, 1, &img, 0, 0, 0);
    assert_eq!(c4, vec![9u8; 8]);
}

#[test]
fn sorting_and_pimg_names() {
    use_sort();
}

fn use_sort() {
    let v = strs(&["b", "a.pimg", "B", "", "ab", "a", "é", "b"]);
    let r = sort_names(v.clone());
    let mut expect = v.clone();
    expect.sort();
    assert_eq!(r, expect);
    assert!(is_pimg_name("X.PIMG"));
    assert!(is_pimg_name("a.pimg"));
    assert!(!is_pimg_name("pimg"));
    assert!(!is_pimg_name("a.pimg.bak"));
}

#[test]
fn layer_member_checks() {
    let mut l = Dict::new();
    assert!(layer_type_ok(&l));
    assert!(blend_is_normal(&l));
    assert!(at_origin(&l));
    assert!(!size_matches(&l, 1, 1));
    l.insert("width".to_string(), Val::Int(4));
    l.insert("height".to_string(), Val::F64(3.0f64.to_bits()));
    assert!(size_matches(&l, 4, 3));
    assert!(!size_matches(&l, 4, 2));
    l.insert("layer_type".to_string(), Val::Int(2));
    assert!(!layer_type_ok(&l));
    l.insert("type".to_string(), Val::Int(13));
    assert!(blend_is_normal(&l));
    l.insert("type".to_string(), Val::Int(3));
    assert!(!blend_is_normal(&l));
    l.insert("left".to_string(), Val::Bool(false));
    l.insert("top".to_string(), Val::F32(0.5f32.to_bits()));
    assert!(!at_origin(&l));
}

#[test]
fn png_choice_from_lower_case_forms() {
    let written = strs(&["a.tlg", "a.png"]);
    assert!(matches!(png_choice("A.TLG", "a.tlg", "a.png", &written), PngTarget::Taken(s) if s == "A.png"));
    assert!(matches!(png_choice("b.tlg", "b.tlg", "b.png", &written), PngTarget::Write(s) if s == "b.png"));
    assert!(matches!(png_choice("c.bin", "c.bin", "", &written), PngTarget::NotTlg));
    assert!(pimg_suffix("x.pimg"));
    assert!(!pimg_suffix("x.PIMG"));
}
