//! os.path helpers with CPython's posixpath semantics, and the text of an
//! OSError.

use vstd::prelude::*;
use crate::error::{ErrV, PyErr};
use crate::pyfmt::{str_repr, str_repr_spec};
use crate::text::{chars_of, dec_i128, dec_int, push_char, push_chars, string_of};
use crate::args::to_chars;

verus! {

/// The line terminator that Python's text-mode files and streams produce on
/// POSIX systems.
pub const NL: &'static str = "\n";

/// Whether `c` separates path components.
pub open spec fn sep(c: char) -> bool {
    c == '/'
}

pub fn is_sep(c: char) -> (b: bool)
    ensures
        b == sep(c),
{
    c == '/'
}

/// The position of the last `c` in `s`, or -1.
pub open spec fn last_index(s: Seq<char>, c: char) -> int
    decreases s.len(),
{
    if s.len() == 0 {
        -1
    } else if s.last() == c {
        s.len() - 1
    } else {
        last_index(s.drop_last(), c)
    }
}

pub proof fn lemma_last_index(s: Seq<char>, c: char, k: int)
    requires
        -1 <= k < s.len(),
        k >= 0 ==> s[k] == c,
        forall|j: int| k < j < s.len() ==> s[j] != c,
    ensures
        last_index(s, c) == k,
    decreases s.len(),
{
    if s.len() > 0 && k < s.len() - 1 {
        lemma_last_index(s.drop_last(), c, k);
    }
}

fn rfind(v: &[char], c: char) -> (r: i64)
    requires
        v@.len() < 0x1_0000_0000_0000,
    ensures
        r == last_index(v@, c),
        -1 <= r < v@.len(),
{
    let mut i = v.len();
    while i > 0 && v[i - 1] != c
        invariant
            i <= v@.len(),
            forall|j: int| i <= j < v@.len() ==> v@[j] != c,
        decreases i,
    {
        i -= 1;
    }
    proof {
        lemma_last_index(v@, c, i - 1);
    }
    i as i64 - 1
}

/// s.rstrip('/')
pub open spec fn rstrip_slash(s: Seq<char>) -> Seq<char>
    decreases s.len(),
{
    if s.len() > 0 && s.last() == '/' {
        rstrip_slash(s.drop_last())
    } else {
        s
    }
}

/// posixpath.split: the tail is what follows the last '/', the head what
/// comes before it, without trailing slashes unless it is all slashes.
pub open spec fn split_spec(p: Seq<char>) -> (Seq<char>, Seq<char>) {
    let i = last_index(p, '/') + 1;
    let head = p.take(i);
    let tail = p.skip(i);
    if head.len() > 0 && exists|j: int| 0 <= j < head.len() && head[j] != '/' {
        (rstrip_slash(head), tail)
    } else {
        (head, tail)
    }
}

proof fn lemma_rstrip_slash(s: Seq<char>, k: int)
    requires
        0 <= k <= s.len(),
        forall|j: int| k <= j < s.len() ==> s[j] == '/',
        k == 0 || s[k - 1] != '/',
    ensures
        rstrip_slash(s) == s.subrange(0, k),
    decreases s.len(),
{
    if k < s.len() {
        lemma_rstrip_slash(s.drop_last(), k);
        assert(s.drop_last().subrange(0, k) =~= s.subrange(0, k));
    } else {
        assert(s.subrange(0, k) =~= s);
    }
}

/// os.path.split (posixpath)
pub fn split(p: &str) -> (r: (String, String))
    requires
        p@.len() < 0x1_0000_0000_0000,
    ensures
        (r.0@, r.1@) == split_spec(p@),
        !r.1@.contains('/'),
        r.0@ == p@.take(r.0@.len() as int),
        r.1@ == p@.skip(p@.len() - r.1@.len()),
        !p@.contains('/') ==> r.0@.len() == 0,
        (exists|j: int| 0 <= j < r.0@.len() && r.0@[j] != '/') ==> r.0@.last() != '/',
{
    let v = chars_of(p);
    let i = (rfind(v.as_slice(), '/') + 1) as usize;
    assert(i <= v@.len());
    let head = &v[0..i];
    let tail = &v[i..v.len()];
    assert(head@ == p@.take(i as int));
    assert(tail@ == p@.skip(i as int));
    let mut all = true;
    let mut j: usize = 0;
    while j < i
        invariant
            j <= i,
            head@.len() == i,
            all == forall|k: int| 0 <= k < j ==> head@[k] == '/',
        decreases i - j,
    {
        if head[j] != '/' {
            all = false;
        }
        j += 1;
    }
    proof {
        lemma_last_index_props(p@, '/');
        if !p@.contains('/') && i > 0 {
            assert(p@[i - 1] == '/');
        }
        if tail@.contains('/') {
            let k = choose|k: int| 0 <= k < tail@.len() && tail@[k] == '/';
            assert(p@[i + k] == '/');
        }
    }
    if i > 0 && !all {
        let mut e = i;
        while e > 0 && head[e - 1] == '/'
            invariant
                e <= i,
                head@.len() == i,
                forall|k: int| e <= k < i ==> head@[k] == '/',
            decreases e,
        {
            e -= 1;
        }
        proof {
            lemma_rstrip_slash(head@, e as int);
            assert(exists|k: int| 0 <= k < i && head@[k] != '/');
            assert(e > 0);
            assert(head@.subrange(0, e as int) =~= p@.take(e as int));
        }
        (string_of(&head[0..e]), string_of(tail))
    } else {
        (string_of(head), string_of(tail))
    }
}

/// posixpath.join(a, b)
pub open spec fn join_spec(a: Seq<char>, b: Seq<char>) -> Seq<char> {
    if b.len() > 0 && b[0] == '/' {
        b
    } else if a.len() == 0 || a.last() == '/' {
        a + b
    } else {
        a + seq!['/'] + b
    }
}

/// os.path.join(a, b) (posixpath)
pub fn join(a: &str, b: &str) -> (r: String)
    ensures
        r@ == join_spec(a@, b@),
{
    let av = chars_of(a);
    let bv = chars_of(b);
    if bv.len() > 0 && bv[0] == '/' {
        string_of(bv.as_slice())
    } else if av.len() == 0 || av[av.len() - 1] == '/' {
        let mut s = string_of(av.as_slice());
        push_chars(&mut s, bv.as_slice());
        s
    } else {
        let mut s = string_of(av.as_slice());
        crate::text::push_char(&mut s, '/');
        push_chars(&mut s, bv.as_slice());
        s
    }
}

/// os.path.basename
pub fn basename(p: &str) -> (r: String)
    requires
        p@.len() < 0x1_0000_0000_0000,
    ensures
        r@ == split_spec(p@).1,
{
    split(p).1
}

/// os.path.dirname
pub fn dirname(p: &str) -> (r: String)
    requires
        p@.len() < 0x1_0000_0000_0000,
    ensures
        r@ == split_spec(p@).0,
{
    split(p).0
}

/// os.path.splitext: the extension is the last '.' of the last component and
/// what follows it, unless only dots come before that '.' in the component.
pub open spec fn splitext_spec(p: Seq<char>) -> (Seq<char>, Seq<char>) {
    let s = last_index(p, '/');
    let d = last_index(p, '.');
    if d > s && exists|i: int| s + 1 <= i < d && p[i] != '.' {
        (p.take(d), p.skip(d))
    } else {
        (p, seq![])
    }
}

/// os.path.splitext
pub fn splitext(p: &str) -> (r: (String, String))
    requires
        p@.len() < 0x1_0000_0000_0000,
    ensures
        (r.0@, r.1@) == splitext_spec(p@),
        r.0@ + r.1@ == p@,
        r.1@.len() == 0 || (r.1@[0] == '.' && forall|i: int| 1 <= i < r.1@.len() ==> r.1@[i] != '.' && r.1@[i]
            != '/'),
        r.1@.len() > 0 ==> exists|i: int|
            last_index(r.0@, '/') < i < r.0@.len() && #[trigger] r.0@[i] != '.',
{
    let v = chars_of(p);
    let s = rfind(v.as_slice(), '/');
    let d = rfind(v.as_slice(), '.');
    proof {
        lemma_last_index_props(v@, '/');
        lemma_last_index_props(v@, '.');
    }
    if d > s {
        assert(0 <= d < v@.len());
        let mut i = (s + 1) as usize;
        let du = d as usize;
        while i < du
            invariant
                s + 1 <= i <= du,
                du == d,
                du < v@.len(),
                v@ == p@,
                s == last_index(p@, '/'),
                d == last_index(p@, '.'),
                d > s,
                forall|k: int| s + 1 <= k < i ==> #[trigger] v@[k] == '.',
            decreases du - i,
        {
            if v[i] != '.' {
                proof {
                    lemma_last_index_props(p@, '/');
                    lemma_last_index_props(p@, '.');
                    assert(v@.take(d as int) + v@.skip(d as int) =~= v@);
                    assert(p@[i as int] != '.');
                    assert forall|k: int| 1 <= k < v@.skip(d as int).len() implies v@.skip(d as int)[k]
                        != '.' && v@.skip(d as int)[k] != '/' by {
                        assert(v@.skip(d as int)[k] == v@[d + k]);
                    }
                    let root = v@.take(d as int);
                    assert forall|j: int| s < j < root.len() implies root[j] != '/' by {
                        assert(root[j] == p@[j]);
                    }
                    if s >= 0 {
                        assert(root[s as int] == '/');
                    }
                    lemma_last_index(root, '/', s as int);
                    assert(root[i as int] != '.');
                }
                return (string_of(&v[0..du]), string_of(&v[du..v.len()]));
            }
            i += 1;
        }
    }
    assert(v@ + Seq::<char>::empty() =~= v@);
    (string_of(v.as_slice()), String::new())
}

pub proof fn lemma_last_index_props(s: Seq<char>, c: char)
    ensures
        -1 <= last_index(s, c) < s.len(),
        last_index(s, c) >= 0 ==> s[last_index(s, c)] == c,
        forall|j: int| last_index(s, c) < j < s.len() ==> s[j] != c,
    decreases s.len(),
{
    if s.len() > 0 && s.last() != c {
        lemma_last_index_props(s.drop_last(), c);
        assert forall|j: int| last_index(s, c) < j < s.len() implies s[j] != c by {
            if j < s.len() - 1 {
                assert(s.drop_last()[j] == s[j]);
            }
        }
    }
}

/// Which layer reported an error: the C runtime (errno, used by open()) or
/// the Win32 API (used by os.mkdir / os.listdir on Windows).
#[derive(Clone, Copy)]
pub enum Api {
    Crt,
    Win,
}

/// `s` without all repetitions of `suf` at its end (str::trim_end_matches).
pub open spec fn trim_suffix(s: Seq<char>, suf: Seq<char>) -> Seq<char>
    decreases s.len(),
{
    if suf.len() > 0 && s.len() >= suf.len() && s.skip(s.len() - suf.len()) == suf {
        trim_suffix(s.take(s.len() - suf.len()), suf)
    } else {
        s
    }
}

/// The text of str(OSError) for an I/O error with code `code` whose
/// message is `msg` (as Rust's io::Error displays it), optionally with a
/// file name.
pub open spec fn os_error_text(code: int, msg: Seq<char>, filename: Option<Seq<char>>) -> Seq<char> {
    let m = trim_suffix(msg, " (os error "@ + dec_int(code) + ")"@);
    let head = "[Errno "@ + dec_int(code) + "] "@ + m;
    match filename {
        Some(f) => head + ": "@ + str_repr_spec(f),
        None => head,
    }
}

pub(crate) fn ends_with(s: &[char], suf: &[char]) -> (b: bool)
    ensures
        b == (s@.len() >= suf@.len() && s@.skip(s@.len() - suf@.len()) == suf@),
{
    if s.len() < suf.len() {
        return false;
    }
    let off = s.len() - suf.len();
    let mut i: usize = 0;
    while i < suf.len()
        invariant
            i <= suf@.len(),
            off + suf.len() == s.len(),
            off == s@.len() - suf@.len(),
            off + suf@.len() == s@.len(),
            forall|j: int| 0 <= j < i ==> s@[off + j] == suf@[j],
        decreases suf@.len() - i,
    {
        if s[off + i] != suf[i] {
            proof {
                if s@.skip(off as int) == suf@ {
                    assert(s@.skip(off as int)[i as int] == s@[off + i]);
                }
            }
            return false;
        }
        i += 1;
    }
    assert(s@.skip(off as int) =~= suf@);
    true
}

/// str(OSError(...)) for an I/O error: `code` is its OS error number where
/// it has one, `msg` how Rust's io::Error displays it.
pub fn os_error(code: Option<i32>, msg: &str, filename: Option<&str>, api: Api) -> (e: PyErr)
    ensures
        match code {
            None => e@ == (ErrV::Os { errno: None, text: msg@ }),
            Some(c) => e@ == (ErrV::Os {
                errno: Some(c),
                text: os_error_text(c as int, msg@, match filename {
                    Some(f) => Some(f@),
                    None => None,
                }),
            }),
        },
{
    let _ = api;
    match code {
        None => PyErr::Os { errno: None, text: String::from_str(msg) },
        Some(c) => {
            let mut suf: Vec<char> = Vec::new();
            let sp = chars_of(" (os error ");
            let ds = dec_i128(c as i128);
            let cl = chars_of(")");
            suf.extend_from_slice(sp.as_slice());
            suf.extend_from_slice(ds.as_slice());
            suf.extend_from_slice(cl.as_slice());
            assert(suf@ =~= " (os error "@ + dec_int(c as int) + ")"@);
            let mut m = chars_of(msg);
            let ghost total = trim_suffix(msg@, suf@);
            while suf.len() > 0 && ends_with(m.as_slice(), suf.as_slice())
                invariant
                    total == trim_suffix(m@, suf@),
                decreases m@.len(),
            {
                let n = m.len() - suf.len();
                m.truncate(n);
            }
            let mut text = String::from_str("[Errno ");
            push_chars(&mut text, ds.as_slice());
            text.append("] ");
            push_chars(&mut text, m.as_slice());
            match filename {
                Some(f) => {
                    text.append(": ");
                    let r = str_repr(f);
                    text.append(r.as_str());
                },
                None => {},
            }
            PyErr::Os { errno: Some(c), text }
        },
    }
}

/// The position of the first `c` in `s`, or -1.
pub open spec fn first_index(s: Seq<char>, c: char) -> int
    decreases s.len(),
{
    if s.len() == 0 {
        -1
    } else if s[0] == c {
        0
    } else if first_index(s.drop_first(), c) < 0 {
        -1
    } else {
        first_index(s.drop_first(), c) + 1
    }
}

pub proof fn lemma_first_index(s: Seq<char>, c: char, k: int)
    requires
        -1 <= k < s.len(),
        k >= 0 ==> s[k] == c,
        forall|j: int| 0 <= j < s.len() && (k < 0 || j < k) ==> s[j] != c,
    ensures
        first_index(s, c) == k,
    decreases s.len(),
{
    if s.len() > 0 && k != 0 {
        let t = s.drop_first();
        assert forall|j: int| 0 <= j < t.len() && (k - 1 < 0 || j < k - 1) implies t[j] != c by {
            assert(t[j] == s[j + 1]);
        }
        if k > 0 {
            assert(t[k - 1] == s[k]);
            lemma_first_index(t, c, k - 1);
        } else {
            lemma_first_index(t, c, -1);
        }
    }
}

/// str.split('/'): the parts between the slashes.
pub open spec fn split_parts(p: Seq<char>) -> Seq<Seq<char>>
    decreases p.len(),
{
    let i = first_index(p, '/');
    if i < 0 {
        seq![p]
    } else {
        proof {
            lemma_first_index_range(p, '/');
        }
        seq![p.take(i)] + split_parts(p.skip(i + 1))
    }
}

pub proof fn lemma_first_index_range(s: Seq<char>, c: char)
    ensures
        -1 <= first_index(s, c) < s.len(),
    decreases s.len(),
{
    if s.len() > 0 && s[0] != c {
        lemma_first_index_range(s.drop_first(), c);
    }
}

/// The components that posixpath.normpath keeps of the first `k` parts:
/// "" and "." go, ".." takes back the last kept one where it can.
pub open spec fn norm_comps(parts: Seq<Seq<char>>, k: int, initial: nat) -> Seq<Seq<char>>
    decreases k,
{
    if k <= 0 || k > parts.len() {
        seq![]
    } else {
        let comps = norm_comps(parts, k - 1, initial);
        let comp = parts[k - 1];
        if comp.len() == 0 || comp == seq!['.'] {
            comps
        } else if comp != seq!['.', '.'] || (initial == 0 && comps.len() == 0) || (comps.len() > 0
            && comps.last() == seq!['.', '.']) {
            comps.push(comp)
        } else if comps.len() > 0 {
            comps.drop_last()
        } else {
            comps
        }
    }
}

/// The parts joined with '/'.
pub open spec fn join_slash(parts: Seq<Seq<char>>) -> Seq<char>
    decreases parts.len(),
{
    if parts.len() == 0 {
        seq![]
    } else if parts.len() == 1 {
        parts[0]
    } else {
        join_slash(parts.drop_last()) + seq!['/'] + parts.last()
    }
}

/// The number of leading slashes that normpath keeps: two for exactly two,
/// else one for any.
pub open spec fn initial_slashes(p: Seq<char>) -> nat {
    if p.len() > 0 && p[0] == '/' {
        if p.len() > 1 && p[1] == '/' && !(p.len() > 2 && p[2] == '/') {
            2
        } else {
            1
        }
    } else {
        0
    }
}

/// posixpath.normpath
pub open spec fn normpath_spec(p: Seq<char>) -> Seq<char> {
    if p.len() == 0 {
        seq!['.']
    } else {
        let initial = initial_slashes(p);
        let parts = split_parts(p);
        let s = Seq::new(initial, |i: int| '/') + join_slash(norm_comps(parts, parts.len() as int, initial));
        if s.len() == 0 {
            seq!['.']
        } else {
            s
        }
    }
}

proof fn lemma_split_step(p: Seq<char>, start: int, j: int)
    requires
        0 <= start <= j < p.len(),
        p[j] == '/',
        forall|k: int| start <= k < j ==> p[k] != '/',
    ensures
        split_parts(p.skip(start)) == seq![p.subrange(start, j)] + split_parts(p.skip(j + 1)),
{
    let t = p.skip(start);
    assert forall|k: int| 0 <= k < t.len() && k < j - start implies t[k] != '/' by {
        assert(t[k] == p[start + k]);
    }
    lemma_first_index(t, '/', j - start);
    assert(t.take(j - start) =~= p.subrange(start, j));
    assert(t.skip(j - start + 1) =~= p.skip(j + 1));
}

proof fn lemma_split_last(p: Seq<char>, start: int)
    requires
        0 <= start <= p.len(),
        forall|k: int| start <= k < p.len() ==> p[k] != '/',
    ensures
        split_parts(p.skip(start)) == seq![p.skip(start)],
{
    let t = p.skip(start);
    assert forall|k: int| 0 <= k < t.len() implies t[k] != '/' by {
        assert(t[k] == p[start + k]);
    }
    lemma_first_index(t, '/', -1);
}

/// The parts of `p` between its slashes.
fn split_slash(p: &[char]) -> (r: Vec<Vec<char>>)
    ensures
        r@.map_values(|v: Vec<char>| v@) == split_parts(p@),
{
    let mut r: Vec<Vec<char>> = Vec::new();
    let mut cur: Vec<char> = Vec::new();
    let mut start: usize = 0;
    let mut j: usize = 0;
    assert(r@.map_values(|v: Vec<char>| v@) =~= Seq::<Seq<char>>::empty());
    assert(p@.skip(0) =~= p@);
    assert(cur@ =~= p@.subrange(0, 0));
    while j < p.len()
        invariant
            start <= j <= p@.len(),
            cur@ == p@.subrange(start as int, j as int),
            forall|k: int| start <= k < j ==> p@[k] != '/',
            split_parts(p@) == r@.map_values(|v: Vec<char>| v@) + split_parts(p@.skip(start as int)),
        decreases p@.len() - j,
    {
        if p[j] == '/' {
            proof {
                lemma_split_step(p@, start as int, j as int);
            }
            let ghost before = r@.map_values(|v: Vec<char>| v@);
            let ghost cv = cur@;
            r.push(cur);
            assert(r@.map_values(|v: Vec<char>| v@) =~= before.push(cv));
            cur = Vec::new();
            start = j + 1;
            assert(cur@ =~= p@.subrange(start as int, start as int));
        } else {
            cur.push(p[j]);
            assert(cur@ =~= p@.subrange(start as int, j + 1));
        }
        j += 1;
    }
    proof {
        lemma_split_last(p@, start as int);
        assert(p@.subrange(start as int, p@.len() as int) =~= p@.skip(start as int));
    }
    let ghost before = r@.map_values(|v: Vec<char>| v@);
    let ghost cv = cur@;
    r.push(cur);
    assert(r@.map_values(|v: Vec<char>| v@) =~= before.push(cv));
    r
}

fn is_dot(v: &Vec<char>) -> (b: bool)
    ensures
        b == (v@ == seq!['.']),
{
    let b = v.len() == 1 && v[0] == '.';
    proof {
        if b {
            assert(v@ =~= seq!['.']);
        }
    }
    b
}

fn is_dotdot(v: &Vec<char>) -> (b: bool)
    ensures
        b == (v@ == seq!['.', '.']),
{
    let b = v.len() == 2 && v[0] == '.' && v[1] == '.';
    proof {
        if b {
            assert(v@ =~= seq!['.', '.']);
        }
    }
    b
}

/// os.path.normpath (posixpath): collapses redundant slashes and "."
/// components and resolves ".." against the components before it.
pub fn normpath(p: &str) -> (r: String)
    ensures
        r@ == normpath_spec(p@),
{
    let v = chars_of(p);
    if v.len() == 0 {
        let mut d = String::new();
        push_char(&mut d, '.');
        assert(d@ =~= seq!['.']);
        return d;
    }
    let initial: usize = if v[0] == '/' {
        if v.len() > 1 && v[1] == '/' && !(v.len() > 2 && v[2] == '/') {
            2
        } else {
            1
        }
    } else {
        0
    };
    let parts = split_slash(v.as_slice());
    let ghost pv = parts@.map_values(|x: Vec<char>| x@);
    let mut comps: Vec<Vec<char>> = Vec::new();
    let mut i: usize = 0;
    while i < parts.len()
        invariant
            i <= parts@.len(),
            pv == parts@.map_values(|x: Vec<char>| x@),
            pv.len() == parts@.len(),
            comps@.map_values(|x: Vec<char>| x@) == norm_comps(pv, i as int, initial as nat),
        decreases parts@.len() - i,
    {
        let comp = &parts[i];
        assert(pv[i as int] == comp@);
        let ghost cv = comps@.map_values(|x: Vec<char>| x@);
        if comp.len() == 0 || is_dot(comp) {
        } else if !is_dotdot(comp) || (initial == 0 && comps.len() == 0) || (comps.len() > 0 && is_dotdot(
            &comps[comps.len() - 1],
        )) {
            comps.push(to_chars(comp.as_slice()));
            assert(comps@.map_values(|x: Vec<char>| x@) =~= cv.push(comp@));
        } else if comps.len() > 0 {
            comps.pop();
            assert(comps@.map_values(|x: Vec<char>| x@) =~= cv.drop_last());
        }
        i += 1;
    }
    let ghost cs = comps@.map_values(|x: Vec<char>| x@);
    let mut s = String::new();
    let mut k: usize = 0;
    while k < initial
        invariant
            k <= initial <= 2,
            s@ == Seq::new(k as nat, |j: int| '/'),
        decreases initial - k,
    {
        push_char(&mut s, '/');
        assert(s@ =~= Seq::new((k + 1) as nat, |j: int| '/'));
        k += 1;
    }
    let ghost head = s@;
    let mut m: usize = 0;
    while m < comps.len()
        invariant
            m <= comps@.len(),
            cs == comps@.map_values(|x: Vec<char>| x@),
            s@ == head + join_slash(cs.take(m as int)),
        decreases comps@.len() - m,
    {
        if m > 0 {
            push_char(&mut s, '/');
        }
        push_chars(&mut s, comps[m].as_slice());
        proof {
            assert(cs.take(m + 1).drop_last() =~= cs.take(m as int));
            if m == 0 {
                assert(cs.take(0) =~= seq![]);
            }
        }
        m += 1;
    }
    assert(cs.take(comps@.len() as int) =~= cs);
    if s.as_str().unicode_len() == 0 {
        let mut d = String::new();
        push_char(&mut d, '.');
        assert(d@ =~= seq!['.']);
        d
    } else {
        s
    }
}

/// Whether `p` is absolute (starts with '/').
pub fn is_abs(p: &str) -> (b: bool)
    ensures
        b == (p@.len() > 0 && p@[0] == '/'),
{
    let v = chars_of(p);
    v.len() > 0 && v[0] == '/'
}

/// os.path.abspath (posixpath) against the working directory `cwd`: an
/// absolute path is normalized as it is, a relative one after joining it
/// to `cwd`.
pub fn abspath(p: &str, cwd: &str) -> (r: String)
    ensures
        r@ == if p@.len() > 0 && p@[0] == '/' {
            normpath_spec(p@)
        } else {
            normpath_spec(join_spec(cwd@, p@))
        },
{
    if is_abs(p) {
        normpath(p)
    } else {
        let j = join(cwd, p);
        normpath(j.as_str())
    }
}

} // verus!
