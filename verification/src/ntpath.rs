//! os.path with CPython's ntpath semantics (Windows paths: drives, UNC
//! shares, both slash kinds), and the text of an OSError on Windows.

use vstd::prelude::*;
use crate::error::{ErrV, PyErr};
use crate::extract::{ascii_lower, lowercase, to_lowercase};
use crate::pypath::{ends_with, trim_suffix, Api};
use crate::pyfmt::{str_repr, str_repr_spec};
use crate::text::{ascii_only, chars_of, dec_i128, dec_int, push_char, push_chars, string_of};

verus! {

/// Whether `c` separates path components on Windows.
pub open spec fn nt_sep(c: char) -> bool {
    c == '\\' || c == '/'
}

/// The path with every '/' turned into '\'.
pub open spec fn backslashed(p: Seq<char>) -> Seq<char> {
    p.map_values(|c: char| if c == '/' { '\\' } else { c })
}

/// The first position from `i` on that holds `c`, or -1.
pub open spec fn find_from(s: Seq<char>, c: char, i: int) -> int
    decreases s.len() - i,
{
    if i < 0 || i >= s.len() {
        -1
    } else if s[i] == c {
        i
    } else {
        find_from(s, c, i + 1)
    }
}

/// ASCII uppercase of one character.
pub open spec fn ascii_upper(c: char) -> char {
    if 'a' <= c && c <= 'z' {
        ((c as u32) - 32) as char
    } else {
        c
    }
}

/// What `str::to_uppercase` gives for `s`: the Unicode uppercase
/// mapping of each character.
pub uninterp spec fn uppercase(s: Seq<char>) -> Seq<char>;

/// `str::to_uppercase`. Claimed: the result is `uppercase(s)`, and for an
/// all-ASCII string it is the string with 'a'..'z' turned into 'A'..'Z'
/// (the Unicode uppercase mapping of ASCII characters).
#[verifier::external_body]
fn to_uppercase(s: &str) -> (r: String)
    ensures
        r@ == uppercase(s@),
        ascii_only(s@) ==> r@ == s@.map_values(|c: char| ascii_upper(c)),
{
    s.to_uppercase()
}

/// The prefix of a long UNC path, "\\?\UNC\".
pub open spec fn unc_prefix() -> Seq<char> {
    seq!['\\', '\\', '?', '\\', 'U', 'N', 'C', '\\']
}

/// The first eight characters (or fewer) of `p` with '\' for '/', which
/// are compared in upper case with the long UNC prefix.
pub open spec fn unc_head(p: Seq<char>) -> Seq<char> {
    backslashed(p).take(if p.len() < 8 { p.len() as int } else { 8 })
}

/// ntpath.splitroot (drive, root, rest), given `head_upper`, the upper-cased
/// `unc_head(p)`.
pub open spec fn splitroot_from(p: Seq<char>, head_upper: Seq<char>) -> (Seq<char>, Seq<char>, Seq<char>) {
    let np = backslashed(p);
    let n = p.len() as int;
    if n > 0 && np[0] == '\\' {
        if n > 1 && np[1] == '\\' {
            let start = if head_upper == unc_prefix() {
                8
            } else {
                2
            };
            let index = find_from(np, '\\', start);
            if index < 0 {
                (p, seq![], seq![])
            } else {
                let index2 = find_from(np, '\\', index + 1);
                if index2 < 0 {
                    (p, seq![], seq![])
                } else {
                    (p.take(index2), p.subrange(index2, index2 + 1), p.skip(index2 + 1))
                }
            }
        } else {
            (seq![], p.take(1), p.skip(1))
        }
    } else if n > 1 && np[1] == ':' {
        if n > 2 && np[2] == '\\' {
            (p.take(2), p.subrange(2, 3), p.skip(3))
        } else {
            (p.take(2), seq![], p.skip(2))
        }
    } else {
        (seq![], seq![], p)
    }
}

/// ntpath.splitroot: (drive, root, rest).
pub open spec fn splitroot_spec(p: Seq<char>) -> (Seq<char>, Seq<char>, Seq<char>) {
    splitroot_from(p, uppercase(unc_head(p)))
}

/// ntpath.splitroot of an all-ASCII path, where upper-casing is that of
/// 'a'..'z'.
pub open spec fn splitroot_ascii(p: Seq<char>) -> (Seq<char>, Seq<char>, Seq<char>) {
    splitroot_from(p, unc_head(p).map_values(|c: char| ascii_upper(c)))
}

proof fn lemma_take_ascii(p: Seq<char>, k: int)
    requires
        ascii_only(p),
        0 <= k <= p.len(),
    ensures
        ascii_only(p.take(k)),
{
    assert forall|i: int| 0 <= i < p.take(k).len() implies (p.take(k)[i] as u32) < 128 by {
        assert(p.take(k)[i] == p[i]);
    }
}

/// The drive that `splitroot_from` gives is a prefix of `p`.
proof fn lemma_drive_ascii(p: Seq<char>, h: Seq<char>)
    requires
        ascii_only(p),
    ensures
        ascii_only(splitroot_from(p, h).0),
{
    let np = backslashed(p);
    let n = p.len() as int;
    assert(p.take(n) =~= p);
    lemma_take_ascii(p, 0);
    if n > 1 {
        lemma_take_ascii(p, 2);
    }
    if n > 1 && np[0] == '\\' && np[1] == '\\' {
        let start = if h == unc_prefix() { 8int } else { 2int };
        let index = find_from(np, '\\', start);
        if index >= 0 {
            lemma_find_from(np, '\\', start);
            lemma_find_from(np, '\\', index + 1);
            let index2 = find_from(np, '\\', index + 1);
            if index2 >= 0 {
                lemma_take_ascii(p, index2);
            }
        }
    }
}

proof fn lemma_find_from(s: Seq<char>, c: char, i: int)
    requires
        0 <= i,
    ensures
        find_from(s, c, i) == -1 || (i <= find_from(s, c, i) < s.len() && s[find_from(s, c, i)] == c),
    decreases s.len() - i,
{
    if i < s.len() && s[i] != c {
        lemma_find_from(s, c, i + 1);
    }
}

fn find_char(s: &[char], c: char, from: usize) -> (r: i64)
    requires
        s@.len() < 0x1_0000_0000_0000,
    ensures
        r == find_from(s@, c, from as int),
{
    if from >= s.len() {
        return -1;
    }
    let mut i = from;
    while i < s.len()
        invariant
            from <= i <= s@.len(),
            s@.len() < 0x1_0000_0000_0000,
            find_from(s@, c, from as int) == find_from(s@, c, i as int),
        decreases s@.len() - i,
    {
        if s[i] == c {
            return i as i64;
        }
        i += 1;
    }
    -1
}

fn chars_range(v: &[char], a: usize, b: usize) -> (r: String)
    requires
        a <= b <= v@.len(),
    ensures
        r@ == v@.subrange(a as int, b as int),
{
    string_of(&v[a..b])
}

/// ntpath.splitroot(p), given `head_upper`, the upper-cased `unc_head(p)`.
pub fn splitroot_upper(p: &str, head_upper: &str) -> (r: (String, String, String))
    requires
        p@.len() < 0x1_0000_0000_0000,
    ensures
        (r.0@, r.1@, r.2@) == splitroot_from(p@, head_upper@),
{
    let chars = chars_of(p);
    let nchars = backslash(chars.as_slice());
    let n = chars.len();
    assert(p@.take(n as int) =~= p@);
    if n > 0 && nchars[0] == '\\' {
        if n > 1 && nchars[1] == '\\' {
            let uc = chars_of(head_upper);
            let mut unc = Vec::new();
            unc.push('\\');
            unc.push('\\');
            unc.push('?');
            unc.push('\\');
            unc.push('U');
            unc.push('N');
            unc.push('C');
            unc.push('\\');
            assert(unc@ =~= unc_prefix());
            let same = to_chars_eq(uc.as_slice(), unc.as_slice());
            let start: usize = if same {
                8
            } else {
                2
            };
            let index = find_char(nchars.as_slice(), '\\', start);
            if index < 0 {
                return (String::from_str(p), String::new(), String::new());
            }
            proof {
                lemma_find_from(nchars@, '\\', start as int);
            }
            let index2 = find_char(nchars.as_slice(), '\\', (index + 1) as usize);
            if index2 < 0 {
                return (String::from_str(p), String::new(), String::new());
            }
            proof {
                lemma_find_from(nchars@, '\\', index + 1);
            }
            let i2 = index2 as usize;
            (chars_range(chars.as_slice(), 0, i2), chars_range(chars.as_slice(), i2, i2 + 1), chars_range(chars.as_slice(), i2 + 1, n))
        } else {
            (String::new(), chars_range(chars.as_slice(), 0, 1), chars_range(chars.as_slice(), 1, n))
        }
    } else if n > 1 && nchars[1] == ':' {
        if n > 2 && nchars[2] == '\\' {
            (chars_range(chars.as_slice(), 0, 2), chars_range(chars.as_slice(), 2, 3), chars_range(chars.as_slice(), 3, n))
        } else {
            (chars_range(chars.as_slice(), 0, 2), String::new(), chars_range(chars.as_slice(), 2, n))
        }
    } else {
        (String::new(), String::new(), String::from_str(p))
    }
}

/// The characters with '\' for '/'.
fn backslash(chars: &[char]) -> (r: Vec<char>)
    ensures
        r@ == backslashed(chars@),
{
    let mut nchars: Vec<char> = Vec::new();
    let mut i: usize = 0;
    while i < chars.len()
        invariant
            i <= chars@.len(),
            nchars@ == backslashed(chars@).take(i as int),
        decreases chars@.len() - i,
    {
        nchars.push(if chars[i] == '/' { '\\' } else { chars[i] });
        assert(backslashed(chars@).take(i + 1) =~= backslashed(chars@).take(i as int).push(backslashed(chars@)[i as int]));
        i += 1;
    }
    assert(backslashed(chars@).take(chars@.len() as int) =~= backslashed(chars@));
    nchars
}

/// ntpath.splitroot(p): the drive or UNC share, the root separator, and
/// the rest.
pub fn splitroot(p: &str) -> (r: (String, String, String))
    requires
        p@.len() < 0x1_0000_0000_0000,
    ensures
        (r.0@, r.1@, r.2@) == splitroot_spec(p@),
        ascii_only(p@) ==> (r.0@, r.1@, r.2@) == splitroot_ascii(p@),
{
    let chars = chars_of(p);
    let nchars = backslash(chars.as_slice());
    let k = if chars.len() < 8 {
        chars.len()
    } else {
        8
    };
    let head = string_of(&nchars[0..k]);
    assert(head@ == unc_head(p@));
    proof {
        if ascii_only(p@) {
            assert forall|i: int| 0 <= i < head@.len() implies (head@[i] as u32) < 128 by {
                assert(head@[i] == backslashed(p@)[i]);
            }
        }
    }
    let upper = to_uppercase(head.as_str());
    splitroot_upper(p, upper.as_str())
}

fn to_chars_eq(a: &[char], b: &[char]) -> (r: bool)
    ensures
        r == (a@ == b@),
{
    if a.len() != b.len() {
        return false;
    }
    let mut i: usize = 0;
    while i < a.len()
        invariant
            i <= a@.len(),
            a@.len() == b@.len(),
            forall|j: int| 0 <= j < i ==> a@[j] == b@[j],
        decreases a@.len() - i,
    {
        if a[i] != b[i] {
            return false;
        }
        i += 1;
    }
    assert(a@ =~= b@);
    true
}

/// The position just after the last separator of `s`, or 0.
pub open spec fn after_last_sep(s: Seq<char>) -> int
    decreases s.len(),
{
    if s.len() == 0 {
        0
    } else if nt_sep(s.last()) {
        s.len() as int
    } else {
        after_last_sep(s.drop_last())
    }
}

/// `s` without the separators at its end.
pub open spec fn rstrip_seps(s: Seq<char>) -> Seq<char>
    decreases s.len(),
{
    if s.len() > 0 && nt_sep(s.last()) {
        rstrip_seps(s.drop_last())
    } else {
        s
    }
}

/// ntpath.split(p)
pub open spec fn nt_split_spec(p: Seq<char>) -> (Seq<char>, Seq<char>) {
    let (d, r, q) = splitroot_spec(p);
    let i = after_last_sep(q);
    (d + r + rstrip_seps(q.take(i)), q.skip(i))
}

proof fn lemma_after_last_sep(s: Seq<char>, i: int)
    requires
        0 <= i <= s.len(),
        i == 0 || nt_sep(s[i - 1]),
        forall|j: int| i <= j < s.len() ==> !nt_sep(s[j]),
    ensures
        after_last_sep(s) == i,
    decreases s.len(),
{
    if s.len() > i {
        lemma_after_last_sep(s.drop_last(), i);
    }
}

proof fn lemma_rstrip_seps(s: Seq<char>, k: int)
    requires
        0 <= k <= s.len(),
        forall|j: int| k <= j < s.len() ==> nt_sep(s[j]),
        k == 0 || !nt_sep(s[k - 1]),
    ensures
        rstrip_seps(s) == s.take(k),
    decreases s.len(),
{
    if k < s.len() {
        lemma_rstrip_seps(s.drop_last(), k);
        assert(s.drop_last().take(k) =~= s.take(k));
    } else {
        assert(s.take(k) =~= s);
    }
}

/// os.path.split (ntpath)
pub fn split(p: &str) -> (r: (String, String))
    requires
        p@.len() < 0x1_0000_0000_0000,
    ensures
        (r.0@, r.1@) == nt_split_spec(p@),
{
    let (d, rt, rest) = splitroot(p);
    let q = chars_of(rest.as_str());
    let mut i = q.len();
    while i > 0 && !(q[i - 1] == '\\' || q[i - 1] == '/')
        invariant
            i <= q@.len(),
            forall|j: int| i <= j < q@.len() ==> !nt_sep(q@[j]),
        decreases i,
    {
        i -= 1;
    }
    proof {
        lemma_after_last_sep(q@, i as int);
    }
    let mut e = i;
    while e > 0 && (q[e - 1] == '\\' || q[e - 1] == '/')
        invariant
            e <= i <= q@.len(),
            forall|j: int| e <= j < i ==> nt_sep(q@[j]),
        decreases e,
    {
        e -= 1;
    }
    proof {
        lemma_rstrip_seps(q@.take(i as int), e as int);
        assert(q@.take(i as int).take(e as int) =~= q@.subrange(0, e as int));
    }
    let mut head = d;
    head.append(rt.as_str());
    push_chars(&mut head, &q[0..e]);
    let tail = string_of(&q[i..q.len()]);
    assert(q@.subrange(i as int, q@.len() as int) =~= q@.skip(i as int));
    (head, tail)
}

/// ntpath.join of two paths split by splitroot, given whether their drives
/// are the same when lower-cased.
pub open spec fn nt_join_from(
    a: (Seq<char>, Seq<char>, Seq<char>),
    b: (Seq<char>, Seq<char>, Seq<char>),
    same_drive: bool,
) -> Seq<char> {
    let (rd0, rr0, rp0) = a;
    let (pd, pr, pp) = b;
    let (rd, rr, rp, done) = if pr.len() > 0 {
        (if pd.len() > 0 || rd0.len() == 0 { pd } else { rd0 }, pr, pp, true)
    } else if pd.len() > 0 && pd != rd0 {
        if !same_drive {
            (pd, pr, pp, true)
        } else {
            (pd, rr0, rp0, false)
        }
    } else {
        (rd0, rr0, rp0, false)
    };
    let rp2 = if done {
        rp
    } else {
        (if rp.len() > 0 && !nt_sep(rp.last()) {
            rp.push('\\')
        } else {
            rp
        }) + pp
    };
    if rp2.len() > 0 && rr.len() == 0 && rd.len() > 0 && !(rd.last() == ':' || rd.last() == '\\'
        || rd.last() == '/') {
        rd + seq!['\\'] + rp2
    } else {
        rd + rr + rp2
    }
}

/// ntpath.join(a, b)
pub open spec fn nt_join_spec(a: Seq<char>, b: Seq<char>) -> Seq<char> {
    let ra = splitroot_spec(a);
    let rb = splitroot_spec(b);
    nt_join_from(ra, rb, lowercase(rb.0) == lowercase(ra.0))
}

fn last_char(s: &String) -> (r: Option<char>)
    ensures
        match r {
            Some(c) => s@.len() > 0 && c == s@.last(),
            None => s@.len() == 0,
        },
{
    let v = chars_of(s.as_str());
    if v.len() == 0 {
        None
    } else {
        Some(v[v.len() - 1])
    }
}

fn strings_eq(a: &String, b: &String) -> (r: bool)
    ensures
        r == (a@ == b@),
{
    *a == *b
}

/// ntpath.join of two paths split by splitroot, given whether their drives
/// are the same when lower-cased.
pub fn join_roots(a: (String, String, String), b: (String, String, String), same_drive: bool) -> (r: String)
    ensures
        r@ == nt_join_from((a.0@, a.1@, a.2@), (b.0@, b.1@, b.2@), same_drive),
{
    let (mut rd, mut rr, mut rp) = a;
    let (pd, pr, pp) = b;
    let mut done = false;
    if pr.as_str().unicode_len() > 0 {
        if pd.as_str().unicode_len() > 0 || rd.as_str().unicode_len() == 0 {
            rd = pd;
        }
        rr = pr;
        rp = pp.clone();
        done = true;
    } else if pd.as_str().unicode_len() > 0 && !strings_eq(&pd, &rd) {
        if !same_drive {
            rd = pd;
            rr = pr;
            rp = pp.clone();
            done = true;
        } else {
            rd = pd;
        }
    }
    if !done {
        match last_char(&rp) {
            Some(c) => {
                if !(c == '\\' || c == '/') {
                    push_char(&mut rp, '\\');
                }
            },
            None => {},
        }
        rp.append(pp.as_str());
    }
    let rd_last = last_char(&rd);
    let rd_plain = match rd_last {
        Some(c) => !(c == ':' || c == '\\' || c == '/'),
        None => false,
    };
    if rp.as_str().unicode_len() > 0 && rr.as_str().unicode_len() == 0 && rd_plain {
        let mut out = rd;
        push_char(&mut out, '\\');
        out.append(rp.as_str());
        return out;
    }
    let mut out = rd;
    out.append(rr.as_str());
    out.append(rp.as_str());
    out
}

/// ntpath.join of two all-ASCII paths, where case-folding is that of
/// 'A'..'Z' and 'a'..'z'.
pub open spec fn nt_join_ascii(a: Seq<char>, b: Seq<char>) -> Seq<char> {
    let ra = splitroot_ascii(a);
    let rb = splitroot_ascii(b);
    nt_join_from(
        ra,
        rb,
        rb.0.map_values(|c: char| ascii_lower(c)) == ra.0.map_values(|c: char| ascii_lower(c)),
    )
}

/// os.path.join(a, b) (ntpath)
pub fn join(a: &str, b: &str) -> (r: String)
    requires
        a@.len() < 0x1_0000_0000_0000,
        b@.len() < 0x1_0000_0000_0000,
    ensures
        r@ == nt_join_spec(a@, b@),
        ascii_only(a@) && ascii_only(b@) ==> r@ == nt_join_ascii(a@, b@),
{
    let ra = splitroot(a);
    let rb = splitroot(b);
    proof {
        if ascii_only(a@) && ascii_only(b@) {
            lemma_drive_ascii(a@, unc_head(a@).map_values(|c: char| ascii_upper(c)));
            lemma_drive_ascii(b@, unc_head(b@).map_values(|c: char| ascii_upper(c)));
        }
    }
    let pl = to_lowercase(rb.0.as_str());
    let rl = to_lowercase(ra.0.as_str());
    let same = strings_eq(&pl, &rl);
    join_roots(ra, rb, same)
}

/// _dosmaperr(): a Win32 error code as an errno.
pub open spec fn crt_errno_spec(code: i32) -> i32 {
    if code == 2 || code == 3 || code == 15 || code == 18 || code == 53 || code == 67 || code == 161 || code == 206 {
        2
    } else if code == 4 {
        24
    } else if code == 5 || (19 <= code <= 36) || code == 65 || code == 82 || code == 108 || code == 1816 {
        13
    } else if code == 6 {
        9
    } else if code == 8 || code == 14 {
        12
    } else if code == 80 || code == 183 {
        17
    } else if code == 112 {
        28
    } else if code == 145 {
        41
    } else {
        22
    }
}

/// _dosmaperr(): Win32 error code -> errno
pub fn crt_errno(code: i32) -> (e: i32)
    ensures
        e == crt_errno_spec(code),
{
    match code {
        2 | 3 | 15 | 18 | 53 | 67 | 161 | 206 => 2,
        4 => 24,
        5 | 19..=36 | 65 | 82 | 108 | 1816 => 13,
        6 => 9,
        8 | 14 => 12,
        80 | 183 => 17,
        112 => 28,
        145 => 41,
        _ => 22,
    }
}

/// The C runtime's message for an errno.
pub open spec fn crt_strerror_spec(errno: i32) -> Seq<char> {
    if errno == 2 {
        "No such file or directory"@
    } else if errno == 9 {
        "Bad file descriptor"@
    } else if errno == 12 {
        "Not enough space"@
    } else if errno == 13 {
        "Permission denied"@
    } else if errno == 17 {
        "File exists"@
    } else if errno == 24 {
        "Too many open files"@
    } else if errno == 28 {
        "No space left on device"@
    } else if errno == 41 {
        "Directory not empty"@
    } else {
        "Invalid argument"@
    }
}

pub fn crt_strerror(errno: i32) -> (s: &'static str)
    ensures
        s@ == crt_strerror_spec(errno),
{
    match errno {
        2 => "No such file or directory",
        9 => "Bad file descriptor",
        12 => "Not enough space",
        13 => "Permission denied",
        17 => "File exists",
        24 => "Too many open files",
        28 => "No space left on device",
        41 => "Directory not empty",
        _ => "Invalid argument",
    }
}

/// `s` without the characters at its end that are at most ' ' or are '.'.
pub open spec fn rstrip_dots(s: Seq<char>) -> Seq<char>
    decreases s.len(),
{
    if s.len() > 0 && (s.last() <= ' ' || s.last() == '.') {
        rstrip_dots(s.drop_last())
    } else {
        s
    }
}

/// The text of str(OSError) on Windows for an error with code `code`
/// whose message is `msg`: the C runtime layer reports the mapped errno and
/// its message, the Win32 layer the code and the system's message.
pub open spec fn nt_os_error_text(code: i32, msg: Seq<char>, filename: Option<Seq<char>>, win: bool) -> Seq<char> {
    let head = if win {
        "[WinError "@ + dec_int(code as int) + "] "@ + rstrip_dots(
            trim_suffix(msg, " (os error "@ + dec_int(code as int) + ")"@),
        )
    } else {
        "[Errno "@ + dec_int(crt_errno_spec(code) as int) + "] "@ + crt_strerror_spec(crt_errno_spec(code))
    };
    match filename {
        Some(f) => head + ": "@ + str_repr_spec(f),
        None => head,
    }
}

/// str(OSError(...)) on Windows for an I/O error: `code` is its OS error
/// number where it has one, `msg` how Rust's io::Error displays it, `api`
/// the layer that reported it.
pub fn nt_os_error(code: Option<i32>, msg: &str, filename: Option<&str>, api: Api) -> (e: PyErr)
    ensures
        match code {
            None => e@ == (ErrV::Os { errno: None, text: msg@ }),
            Some(c) => e@ == (ErrV::Os {
                errno: Some(crt_errno_spec(c)),
                text: nt_os_error_text(c, msg@, match filename {
                    Some(f) => Some(f@),
                    None => None,
                }, api == Api::Win),
            }),
        },
{
    match code {
        None => PyErr::Os { errno: None, text: String::from_str(msg) },
        Some(c) => {
            let errno = crt_errno(c);
            let mut text = String::new();
            match api {
                Api::Crt => {
                    text.append("[Errno ");
                    push_chars(&mut text, dec_i128(errno as i128).as_slice());
                    text.append("] ");
                    text.append(crt_strerror(errno));
                },
                Api::Win => {
                    let mut suf: Vec<char> = Vec::new();
                    let sp = chars_of(" (os error ");
                    let ds = dec_i128(c as i128);
                    let cl = chars_of(")");
                    suf.extend_from_slice(sp.as_slice());
                    suf.extend_from_slice(ds.as_slice());
                    suf.extend_from_slice(cl.as_slice());
                    assert(suf@ =~= " (os error "@ + dec_int(c as int) + ")"@);
                    let mut m = chars_of(msg);
                    let ghost total = trim_suffix(msg@, suf@);
                    while suf.len() > 0 && ends_with(m.as_slice(), suf.as_slice())
                        invariant
                            total == trim_suffix(m@, suf@),
                        decreases m@.len(),
                    {
                        let n = m.len() - suf.len();
                        m.truncate(n);
                    }
                    let ghost trimmed = m@;
                    while m.len() > 0 && (m[m.len() - 1] <= ' ' || m[m.len() - 1] == '.')
                        invariant
                            rstrip_dots(trimmed) == rstrip_dots(m@),
                        decreases m@.len(),
                    {
                        let n = m.len() - 1;
                        m.truncate(n);
                    }
                    text.append("[WinError ");
                    push_chars(&mut text, ds.as_slice());
                    text.append("] ");
                    push_chars(&mut text, m.as_slice());
                },
            }
            match filename {
                Some(f) => {
                    text.append(": ");
                    let r = str_repr(f);
                    text.append(r.as_str());
                },
                None => {},
            }
            PyErr::Os { errno: Some(errno), text }
        },
    }
}

/// ntpath.splitext: the extension is the last '.' of the last component and
/// what follows it, unless only dots come before that '.' in the component.
pub open spec fn nt_splitext_spec(p: Seq<char>) -> (Seq<char>, Seq<char>) {
    let s = after_last_sep(p) - 1;
    let d = crate::pypath::last_index(p, '.');
    if d > s && exists|i: int| s + 1 <= i < d && p[i] != '.' {
        (p.take(d), p.skip(d))
    } else {
        (p, seq![])
    }
}

/// os.path.splitext (ntpath)
pub fn splitext(p: &str) -> (r: (String, String))
    requires
        p@.len() < 0x1_0000_0000_0000,
    ensures
        (r.0@, r.1@) == nt_splitext_spec(p@),
        r.0@ + r.1@ == p@,
{
    let v = chars_of(p);
    let mut a = v.len();
    while a > 0 && !(v[a - 1] == '\\' || v[a - 1] == '/')
        invariant
            a <= v@.len(),
            v@ == p@,
            forall|j: int| a <= j < v@.len() ==> !nt_sep(v@[j]),
        decreases a,
    {
        a -= 1;
    }
    proof {
        lemma_after_last_sep(v@, a as int);
    }
    let mut d = v.len();
    while d > 0 && v[d - 1] != '.'
        invariant
            d <= v@.len(),
            forall|j: int| d <= j < v@.len() ==> v@[j] != '.',
        decreases d,
    {
        d -= 1;
    }
    proof {
        crate::pypath::lemma_last_index(v@, '.', d - 1);
    }
    if d > 0 && d - 1 >= a {
        let du = d - 1;
        let mut i = a;
        while i < du
            invariant
                a <= i <= du,
                du < v@.len(),
                v@ == p@,
                a as int == after_last_sep(p@),
                du as int == crate::pypath::last_index(p@, '.'),
                forall|k: int| a <= k < i ==> #[trigger] v@[k] == '.',
            decreases du - i,
        {
            if v[i] != '.' {
                proof {
                    assert(v@.take(du as int) + v@.skip(du as int) =~= v@);
                    assert(p@[i as int] != '.');
                }
                return (string_of(&v[0..du]), string_of(&v[du..v.len()]));
            }
            i += 1;
        }
    }
    assert(v@ + Seq::<char>::empty() =~= v@);
    (string_of(v.as_slice()), String::new())
}

} // verus!
