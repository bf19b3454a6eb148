use pimgext::ntpath::{
    crt_errno, crt_strerror, join as njoin, join_roots, nt_os_error, split as nsplit, splitext as nsplitext, splitroot,
    splitroot_upper,
};
use pimgext::pypath::{abspath, basename, dirname, is_abs, join, normpath, os_error, split, splitext, Api};
use pimgext::error::PyErr;

fn pair(a: &str, b: &str) -> (String, String) {
    (a.to_string(), b.to_string())
}

#[test]
fn split_cases() {
    assert_eq!(split("a/b/c"), pair("a/b", "c"));
    assert_eq!(split("/a"), pair("/", "a"));
    assert_eq!(split("a//b"), pair("a", "b"));
    assert_eq!(split("//x"), pair("//", "x"));
    assert_eq!(split("abc"), pair("", "abc"));
    assert_eq!(split("a/"), pair("a", ""));
}

#[test]
fn basename_dirname() {
    assert_eq!(basename("/x/y.pimg"), "y.pimg");
    assert_eq!(dirname("/x/y.pimg"), "/x");
    assert_eq!(basename("y"), "y");
    assert_eq!(dirname("y"), "");
}

#[test]
fn join_cases() {
    assert_eq!(join("a", "b"), "a/b");
    assert_eq!(join("a/", "b"), "a/b");
    assert_eq!(join("a", "/b"), "/b");
    assert_eq!(join("", "b"), "b");
}

#[test]
fn splitext_cases() {
    assert_eq!(splitext("a/b.c.d"), pair("a/b.c", ".d"));
    assert_eq!(splitext(".bashrc"), pair(".bashrc", ""));
    assert_eq!(splitext("a/..b"), pair("a/..b", ""));
    assert_eq!(splitext("x.pimg"), pair("x", ".pimg"));
    assert_eq!(splitext("a.b/c"), pair("a.b/c", ""));
    assert_eq!(splitext("..x.y"), pair("..x", ".y"));
}

#[test]
fn splitext_parts_rejoin() {
    for p in ["a/b.c.d", ".x", "dir.d/file", "f.", "...", ""] {
        let (r, e) = splitext(p);
        assert_eq!(format!("{}{}", r, e), p);
    }
}

#[test]
fn normpath_cases() {
    assert_eq!(normpath("/a/./b/../c"), "/a/c");
    assert_eq!(normpath(""), ".");
    assert_eq!(normpath("//a"), "//a");
    assert_eq!(normpath("///a"), "/a");
    assert_eq!(normpath("../x"), "../x");
    assert_eq!(normpath("a/.."), ".");
    assert_eq!(normpath("/.."), "/");
    assert_eq!(normpath("a//b/"), "a/b");
    assert_eq!(normpath("../../a/../b"), "../../b");
}

#[test]
fn abspath_cases() {
    assert!(is_abs("/x"));
    assert!(!is_abs("x"));
    assert_eq!(abspath("x", "/home/u"), "/home/u/x");
    assert_eq!(abspath("/a/../b", "/home/u"), "/b");
    assert_eq!(abspath("../y", "/home/u/"), "/home/y");
}

#[test]
fn os_error_texts() {
    match os_error(Some(2), "No such file or directory (os error 2)", Some("f.pimg"), Api::Crt) {
        PyErr::Os { errno, text } => {
            assert_eq!(errno, Some(2));
            assert_eq!(text, "[Errno 2] No such file or directory: 'f.pimg'");
        }
        _ => panic!("not an OSError"),
    }
    match os_error(Some(13), "Permission denied (os error 13)", None, Api::Crt) {
        PyErr::Os { text, .. } => assert_eq!(text, "[Errno 13] Permission denied"),
        _ => panic!("not an OSError"),
    }
    match os_error(None, "weird", None, Api::Crt) {
        PyErr::Os { errno, text } => {
            assert_eq!(errno, None);
            assert_eq!(text, "weird");
        }
        _ => panic!("not an OSError"),
    }
}

#[test]
fn nt_splitroot_cases() {
    let t = |a: &str, b: &str, c: &str| (a.to_string(), b.to_string(), c.to_string());
    assert_eq!(splitroot("C:\\x\\y"), t("C:", "\\", "x\\y"));
    assert_eq!(splitroot("C:x"), t("C:", "", "x"));
    assert_eq!(splitroot("/a/b"), t("", "/", "a/b"));
    assert_eq!(splitroot("\\\\srv\\share\\dir"), t("\\\\srv\\share", "\\", "dir"));
    assert_eq!(splitroot("//srv/share"), t("//srv/share", "", ""));
    assert_eq!(splitroot("\\\\?\\unc\\srv\\share\\f"), t("\\\\?\\unc\\srv\\share", "\\", "f"));
    assert_eq!(splitroot("rel\\p"), t("", "", "rel\\p"));
}

#[test]
fn nt_split_and_join() {
    assert_eq!(nsplit("C:\\a\\b.pimg"), pair("C:\\a", "b.pimg"));
    assert_eq!(nsplit("C:\\b"), pair("C:\\", "b"));
    assert_eq!(nsplit("a/b\\\\c"), pair("a/b", "c"));
    assert_eq!(njoin("C:\\a", "b"), "C:\\a\\b");
    assert_eq!(njoin("C:\\a\\", "b"), "C:\\a\\b");
    assert_eq!(njoin("C:\\a", "D:b"), "D:b");
    assert_eq!(njoin("C:\\a", "c:b"), "c:\\a\\b");
    assert_eq!(njoin("C:", "b"), "C:b");
    assert_eq!(njoin("a", "\\b"), "\\b");
    assert_eq!(njoin("C:\\a", "\\b"), "C:\\b");
}

#[test]
fn nt_os_errors() {
    assert_eq!(crt_errno(3), 2);
    assert_eq!(crt_errno(30), 13);
    assert_eq!(crt_errno(183), 17);
    assert_eq!(crt_errno(999), 22);
    assert_eq!(crt_strerror(12), "Not enough space");
    assert_eq!(crt_strerror(7), "Invalid argument");
    match nt_os_error(Some(5), "Access is denied. (os error 5)", Some("x"), Api::Win) {
        PyErr::Os { errno, text } => {
            assert_eq!(errno, Some(13));
            assert_eq!(text, "[WinError 5] Access is denied: 'x'");
        }
        _ => panic!(),
    }
    match nt_os_error(Some(2), "whatever", Some("f"), Api::Crt) {
        PyErr::Os { errno, text } => {
            assert_eq!(errno, Some(2));
            assert_eq!(text, "[Errno 2] No such file or directory: 'f'");
        }
        _ => panic!(),
    }
}

#[test]
fn nt_roots_given_case_forms() {
    use_nt_roots();
}

fn use_nt_roots() {
    let t = |a: &str, b: &str, c: &str| (a.to_string(), b.to_string(), c.to_string());
    assert_eq!(splitroot_upper("\\\\?\\unc\\s\\h\\f", "\\\\?\\UNC\\"), t("\\\\?\\unc\\s\\h", "\\", "f"));
    assert_eq!(splitroot_upper("\\\\?\\unc\\s\\h\\f", "\\\\?\\unc\\"), t("\\\\?\\unc", "\\", "s\\h\\f"));
    assert_eq!(join_roots(t("C:", "\\", "a"), t("c:", "", "b"), true), "c:\\a\\b");
    assert_eq!(join_roots(t("C:", "\\", "a"), t("D:", "", "b"), false), "D:b");
}

#[test]
fn nt_splitext_cases() {
    assert_eq!(nsplitext("C:\\a.b\\c"), pair("C:\\a.b\\c", ""));
    assert_eq!(nsplitext("a/b.c\\d.e"), pair("a/b.c\\d", ".e"));
    assert_eq!(nsplitext("x\\.hidden"), pair("x\\.hidden", ""));
    assert_eq!(nsplitext("f.tar.gz"), pair("f.tar", ".gz"));
}

#[test]
fn normpath_more_cases() {
    assert_eq!(normpath("/a/./b/../c//"), "/a/c");
    assert_eq!(normpath("//x/.."), "//");
    assert_eq!(normpath("a/../.."), "..");
    for p in ["", "/a/./b/../c//", "//x/..", "///a", "a/../..", "../../a/../b", "a//b/"] {
        let once = normpath(p);
        assert_eq!(normpath(&once), once);
    }
}

#[test]
fn split_more_cases() {
    assert_eq!(split("/a//b"), pair("/a", "b"));
    assert_eq!(split("//"), pair("//", ""));
    for p in ["/a//b", "//", "a/", "abc", "x/y/z", "/"] {
        let (h, t) = split(p);
        assert!(!t.contains('/'));
        assert!(p.ends_with(t.as_str()));
        assert!(p.starts_with(h.as_str()));
        assert_eq!(normpath(&join(&h, &t)), normpath(p));
    }
}

#[test]
fn splitext_more_cases() {
    assert_eq!(splitext("a/b.tar.gz"), pair("a/b.tar", ".gz"));
    assert_eq!(splitext("a.d/b"), pair("a.d/b", ""));
}

#[test]
fn nt_ascii_forms() {
    assert_eq!(splitroot("//?/unc/server/share/x"), (
        "//?/unc/server/share".to_string(),
        "/".to_string(),
        "x".to_string()
    ));
    assert_eq!(njoin("c:a", "C:b"), "C:a\\b");
    assert_eq!(njoin("c:a", "d:b"), "d:b");
}
