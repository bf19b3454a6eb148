//! What the extractor decides: file names, the raw/ tree, layer names and
//! the messages it reports.

use vstd::prelude::*;
use crate::error::{ErrV, PyErr, R};
use crate::psb::{py_slice, PsbFile};
use crate::pyfmt::{bytes_repr, bytes_repr_spec, is_py_space, py_space};
use crate::text::{ascii_only, chars_of, dec, dec_u128, push_chars, string_of};
use crate::tlg5::{decode, decode_outcome, has_magic, has_magic_exec, image_result_view, Image};
use crate::num::{eq_num, eq_num_spec};
use crate::value::{dict_get, dict_insert, key_pos, lemma_key_pos, items_view, lemma_items_view, lemma_vals_view, val_view, vals_view, Binary, Dict, Val, ValV};

verus! {

/// A character that cannot stand in a file name: one of `\/:*?"<>|` or a
/// control character below 0x20.
pub open spec fn unsafe_char(c: char) -> bool {
    c == '\\' || c == '/' || c == ':' || c == '*' || c == '?' || c == '"' || c == '<' || c == '>' || c == '|'
        || (c as u32) < 0x20
}

pub open spec fn safe_char(c: char) -> char {
    if unsafe_char(c) {
        '_'
    } else {
        c
    }
}

/// s.lstrip() (str.isspace characters)
pub open spec fn lstrip(s: Seq<char>) -> Seq<char>
    decreases s.len(),
{
    if s.len() > 0 && py_space(s[0]) {
        lstrip(s.drop_first())
    } else {
        s
    }
}

/// s.rstrip() (str.isspace characters)
pub open spec fn rstrip(s: Seq<char>) -> Seq<char>
    decreases s.len(),
{
    if s.len() > 0 && py_space(s.last()) {
        rstrip(s.drop_last())
    } else {
        s
    }
}

/// The file name made of `name`: unsafe characters become '_', white space
/// is stripped at both ends, and an empty, "." or ".." result becomes "".
pub open spec fn safe_name_spec(name: Seq<char>) -> Seq<char> {
    let s = rstrip(lstrip(name.map_values(|c: char| safe_char(c))));
    if s.len() == 0 || s == seq!['.'] || s == seq!['.', '.'] {
        seq![]
    } else {
        s
    }
}

proof fn lemma_lstrip(s: Seq<char>, i: int)
    requires
        0 <= i <= s.len(),
        forall|j: int| 0 <= j < i ==> py_space(s[j]),
        i == s.len() || !py_space(s[i]),
    ensures
        lstrip(s) == s.subrange(i, s.len() as int),
    decreases s.len(),
{
    if i > 0 {
        assert forall|j: int| 0 <= j < i - 1 implies py_space(s.drop_first()[j]) by {
            assert(s.drop_first()[j] == s[j + 1]);
        }
        lemma_lstrip(s.drop_first(), i - 1);
        assert(s.drop_first().subrange(i - 1, s.len() - 1) =~= s.subrange(i, s.len() as int));
    } else {
        assert(s.subrange(0, s.len() as int) =~= s);
    }
}

proof fn lemma_rstrip(s: Seq<char>, k: int)
    requires
        0 <= k <= s.len(),
        forall|j: int| k <= j < s.len() ==> py_space(s[j]),
        k == 0 || !py_space(s[k - 1]),
    ensures
        rstrip(s) == s.subrange(0, k),
    decreases s.len(),
{
    if k < s.len() {
        lemma_rstrip(s.drop_last(), k);
        assert(s.drop_last().subrange(0, k) =~= s.subrange(0, k));
    } else {
        assert(s.subrange(0, k) =~= s);
    }
}

/// A file name made of `name` (see `safe_name_spec`).
pub fn safe_name(name: &str) -> (r: String)
    ensures
        r@ == safe_name_spec(name@),
        forall|i: int| 0 <= i < r@.len() ==> !unsafe_char(#[trigger] r@[i]),
        r@.len() > 0 ==> !py_space(r@[0]) && !py_space(r@.last()),
        r@ != seq!['.'] && r@ != seq!['.', '.'],
{
    let v = chars_of(name);
    let mut m: Vec<char> = Vec::new();
    for i in 0..v.len()
        invariant
            v@ == name@,
            m@ == v@.take(i as int).map_values(|c: char| safe_char(c)),
    {
        let c = v[i];
        let u = c as u32;
        let bad = c == '\\' || c == '/' || c == ':' || c == '*' || c == '?' || c == '"' || c == '<' || c == '>'
            || c == '|' || u < 0x20;
        m.push(if bad { '_' } else { c });
        assert(v@.take(i + 1).map_values(|c: char| safe_char(c)) =~= v@.take(i as int).map_values(
            |c: char| safe_char(c),
        ).push(safe_char(c)));
    }
    assert(v@.take(v@.len() as int) =~= v@);
    let ghost mapped = m@;
    let n = m.len();
    let mut lo: usize = 0;
    while lo < n && is_py_space(m[lo])
        invariant
            lo <= n,
            n == m@.len(),
            forall|j: int| 0 <= j < lo ==> py_space(m@[j]),
        decreases n - lo,
    {
        lo += 1;
    }
    let mut hi: usize = n;
    while hi > lo && is_py_space(m[hi - 1])
        invariant
            lo <= hi <= n,
            n == m@.len(),
            forall|j: int| hi <= j < n ==> py_space(m@[j]),
        decreases hi,
    {
        hi -= 1;
    }
    proof {
        lemma_lstrip(mapped, lo as int);
        let l = mapped.subrange(lo as int, n as int);
        lemma_rstrip(l, hi - lo);
        assert(l.subrange(0, hi - lo) =~= mapped.subrange(lo as int, hi as int));
        assert forall|i: int| lo <= i < hi implies !unsafe_char(#[trigger] mapped[i]) by {
            assert(mapped[i] == safe_char(name@[i]));
        }
    }
    let s = &m[lo..hi];
    let len = hi - lo;
    assert(s@ == rstrip(lstrip(name@.map_values(|c: char| safe_char(c)))));
    if len == 0 || (len == 1 && s[0] == '.') || (len == 2 && s[0] == '.' && s[1] == '.') {
        proof {
            if len == 1 && s@[0] == '.' {
                assert(s@ =~= seq!['.']);
            }
            if len == 2 && s@[0] == '.' && s@[1] == '.' {
                assert(s@ =~= seq!['.', '.']);
            }
            assert(seq!['.'].len() == 1 && seq!['.', '.'].len() == 2);
        }
        String::new()
    } else {
        proof {
            if s@ == seq!['.'] {
                assert(s@[0] == '.');
            }
            if s@ == seq!['.', '.'] {
                assert(s@[0] == '.' && s@[1] == '.');
            }
        }
        string_of(s)
    }
}

/// "not a TLG5 image (b'...')" with the repr of the first six bytes.
pub open spec fn not_tlg5_msg(data: Seq<u8>) -> Seq<char> {
    "not a TLG5 image ("@ + bytes_repr_spec(data.take(if data.len() < 6 { data.len() as int } else { 6 })) + ")"@
}

pub open spec fn decode_failed_msg(m: Seq<char>) -> Seq<char> {
    "TLG5 decode failed ("@ + m + ")"@
}

/// The decoder's IndexError and struct.error become a PimgError.
pub open spec fn map_decode_err(d: Result<(nat, nat, Seq<u8>), ErrV>) -> Result<(nat, nat, Seq<u8>), ErrV> {
    match d {
        Err(ErrV::Index(m)) => Err(ErrV::Pimg(decode_failed_msg(m))),
        Err(ErrV::Struct(m)) => Err(ErrV::Pimg(decode_failed_msg(m))),
        _ => d,
    }
}

/// What decoding a TLG binary may give.
pub open spec fn decode_image_outcome(data: Seq<u8>, d: Result<(nat, nat, Seq<u8>), ErrV>) -> bool {
    &&& !has_magic(data) ==> d == Err::<(nat, nat, Seq<u8>), ErrV>(ErrV::Pimg(not_tlg5_msg(data)))
    &&& has_magic(data) ==> exists|d0: Result<(nat, nat, Seq<u8>), ErrV>|
        #[trigger] decode_outcome(data, d0) && d == map_decode_err(d0)
}

/// Decodes a TLG binary; a binary that is not TLG5, or whose data does not
/// decode, gives a PimgError.
pub fn decode_image(data: &[u8]) -> (r: R<Image>)
    ensures
        decode_image_outcome(data@, image_result_view(r)),
{
    if !has_magic_exec(data) {
        let n = if data.len() < 6 {
            data.len()
        } else {
            6
        };
        let mut m = String::from_str("not a TLG5 image (");
        let rep = bytes_repr(&data[0..n]);
        m.append(rep.as_str());
        m.append(")");
        assert(data@.subrange(0, n as int) == data@.take(n as int));
        return Err(PyErr::Pimg(m));
    }
    let r = decode(data);
    let ghost d0 = image_result_view(r);
    match r {
        Err(PyErr::Index(m)) => {
            let mut t = String::from_str("TLG5 decode failed (");
            t.append(m.as_str());
            t.append(")");
            Err(PyErr::Pimg(t))
        },
        Err(PyErr::Struct(m)) => {
            let mut t = String::from_str("TLG5 decode failed (");
            t.append(m.as_str());
            t.append(")");
            Err(PyErr::Pimg(t))
        },
        r => r,
    }
}

/// A decode result kept for reuse: the image, or the PimgError's text.
pub open spec fn cache_of(d: Result<(nat, nat, Seq<u8>), ErrV>) -> Result<Result<(nat, nat, Seq<u8>), Seq<char>>, ErrV> {
    match d {
        Ok(x) => Ok(Ok(x)),
        Err(ErrV::Pimg(m)) => Ok(Err(m)),
        Err(e) => Err(e),
    }
}

pub open spec fn cached_view(r: R<Result<Image, String>>) -> Result<Result<(nat, nat, Seq<u8>), Seq<char>>, ErrV> {
    match r {
        Ok(Ok(img)) => Ok(Ok((img.w as nat, img.h as nat, img.px@))),
        Ok(Err(m)) => Ok(Err(m@)),
        Err(e) => Err(e@),
    }
}

/// Decodes binary `b` of `psb`: a PimgError becomes a kept message, any
/// other error is passed on.
pub fn decode_cached(psb: &PsbFile, b: &Binary) -> (r: R<Result<Image, String>>)
    ensures
        exists|d: Result<(nat, nat, Seq<u8>), ErrV>|
            #[trigger] decode_image_outcome(py_slice(psb.data_view(), b.offset as int, b.offset + b.size), d)
                && cached_view(r) == cache_of(d),
{
    let r = decode_image(psb.binary(b));
    let ghost d = image_result_view(r);
    match r {
        Ok(img) => Ok(Ok(img)),
        Err(PyErr::Pimg(m)) => Ok(Err(m)),
        Err(e) => Err(e),
    }
}

/// The exception class that an uncaught OSError with this errno shows.
pub open spec fn os_kind(errno: Option<i32>) -> Seq<char> {
    match errno {
        Some(1) => "PermissionError"@,
        Some(13) => "PermissionError"@,
        Some(2) => "FileNotFoundError"@,
        Some(17) => "FileExistsError"@,
        Some(20) => "NotADirectoryError"@,
        Some(21) => "IsADirectoryError"@,
        _ => "OSError"@,
    }
}

/// The exception class and message that a traceback's last line shows.
pub open spec fn fatal_parts(e: ErrV) -> (Seq<char>, Seq<char>) {
    match e {
        ErrV::Fatal { kind, msg } => (kind, msg),
        ErrV::Os { errno, text } => (os_kind(errno), text),
        _ => ("Error"@, e.text()),
    }
}

/// The line reporting an error that stops the run.
pub open spec fn fatal_line(label: Option<Seq<char>>, e: ErrV) -> Seq<char> {
    let (kind, msg) = fatal_parts(e);
    let what = if msg.len() == 0 {
        kind
    } else {
        kind + ": "@ + msg
    };
    match label {
        Some(l) => "pimgext: fatal: "@ + l + ": "@ + what,
        None => "pimgext: fatal: "@ + what,
    }
}

/// The line that reports an uncaught error, for the input `label` if any.
pub fn fatal_text(label: Option<&str>, e: &PyErr) -> (s: String)
    ensures
        s@ == fatal_line(
            match label {
                Some(l) => Some(l@),
                None => None,
            },
            e@,
        ),
{
    let (kind, msg): (&str, String) = match e {
        PyErr::Fatal { kind, msg } => (*kind, msg.clone()),
        PyErr::Os { errno, .. } => {
            let k = match errno {
                Some(1) => "PermissionError",
                Some(13) => "PermissionError",
                Some(2) => "FileNotFoundError",
                Some(17) => "FileExistsError",
                Some(20) => "NotADirectoryError",
                Some(21) => "IsADirectoryError",
                _ => "OSError",
            };
            (k, e.text())
        },
        _ => ("Error", e.text()),
    };
    let mut s = String::from_str("pimgext: fatal: ");
    match label {
        Some(l) => {
            s.append(l);
            s.append(": ");
        },
        None => {},
    }
    s.append(kind);
    if msg.as_str().unicode_len() > 0 {
        s.append(": ");
        s.append(msg.as_str());
    }
    s
}

/// The byte count of a `cw` x `ch` RGBA canvas; a product beyond the
/// 128-bit range counts as the largest 128-bit number.
pub open spec fn canvas_bytes_spec(cw: int, ch: int) -> int {
    if i128::MIN <= cw * ch <= i128::MAX && i128::MIN <= cw * ch * 4 <= i128::MAX {
        cw * ch * 4
    } else {
        i128::MAX as int
    }
}

pub fn canvas_bytes(cw: i128, ch: i128) -> (n: i128)
    ensures
        n == canvas_bytes_spec(cw as int, ch as int),
{
    match cw.checked_mul(ch) {
        Some(p) => match p.checked_mul(4) {
            Some(q) => q,
            None => i128::MAX,
        },
        None => i128::MAX,
    }
}

/// Whether every pixel of an RGBA buffer is fully opaque.
pub open spec fn all_opaque_spec(px: Seq<u8>) -> bool {
    forall|k: int| 0 <= k && 4 * k + 3 < px.len() ==> #[trigger] px[4 * k + 3] == 255
}

pub fn all_opaque(px: &[u8]) -> (b: bool)
    ensures
        b == all_opaque_spec(px@),
{
    let mut m: usize = 0;
    while m < px.len() / 4 + 1 && 4 * m + 3 < px.len()
        invariant
            m <= px@.len() / 4 + 1,
            forall|k: int| 0 <= k < m ==> #[trigger] px@[4 * k + 3] == 255,
        decreases px@.len() / 4 + 1 - m,
    {
        if px[4 * m + 3] != 255 {
            return false;
        }
        m += 1;
    }
    assert forall|k: int| 0 <= k && 4 * k + 3 < px@.len() implies #[trigger] px@[4 * k + 3] == 255 by {
        assert(k < m);
    }
    true
}

/// `isinstance(v, int) and v > 0` for a member that may be missing (a bool
/// is an int).
pub open spec fn positive_int_spec(v: Option<ValV>) -> Option<int> {
    match v {
        Some(ValV::Int(i)) => if i > 0 { Some(i as int) } else { None },
        Some(ValV::Bool(true)) => Some(1),
        _ => None,
    }
}

pub fn positive_int(v: Option<&Val>) -> (r: Option<i128>)
    ensures
        r matches Some(x) ==> positive_int_spec(opt_val_view(v)) == Some(x as int),
        r is None ==> positive_int_spec(opt_val_view(v)) is None,
{
    match v {
        Some(Val::Int(i)) => if *i > 0 {
            Some(*i as i128)
        } else {
            None
        },
        Some(Val::Bool(true)) => Some(1),
        _ => None,
    }
}

pub open spec fn opt_val_view(v: Option<&Val>) -> Option<ValV> {
    match v {
        Some(x) => Some(val_view(*x)),
        None => None,
    }
}

/// The opacity of a layer: an int (or bool) member clamped to 0..255; 255
/// for anything else.
pub open spec fn opacity_spec(v: ValV) -> int {
    let o = match v {
        ValV::Int(o) => o as int,
        ValV::Bool(b) => if b { 1 } else { 0 },
        _ => 255,
    };
    if o < 0 {
        0
    } else if o > 255 {
        255
    } else {
        o
    }
}

pub fn layer_opacity(v: &Val) -> (o: i128)
    ensures
        o == opacity_spec(val_view(*v)),
        0 <= o <= 255,
{
    let o: i128 = match v {
        Val::Int(o) => *o as i128,
        Val::Bool(b) => if *b {
            1
        } else {
            0
        },
        _ => 255,
    };
    if o < 0 {
        0
    } else if o > 255 {
        255
    } else {
        o
    }
}

/// The index of the last layer that can be the base, if any.
pub open spec fn last_true(fits: Seq<bool>, n: int) -> Option<int>
    decreases n,
{
    if n <= 0 {
        None
    } else if fits[n - 1] {
        Some(n - 1)
    } else {
        last_true(fits, n - 1)
    }
}

/// The base layer: the last one that fits (full canvas at (0,0), fully
/// opaque), if any.
pub fn choose_base(fits: &Vec<bool>) -> (r: Option<usize>)
    ensures
        match last_true(fits@, fits@.len() as int) {
            Some(k) => r == Some(k as usize),
            None => r is None,
        },
{
    let mut n = fits.len();
    while n > 0 && !fits[n - 1]
        invariant
            n <= fits@.len(),
            last_true(fits@, fits@.len() as int) == last_true(fits@, n as int),
        decreases n,
    {
        n -= 1;
    }
    if n == 0 {
        None
    } else {
        Some(n - 1)
    }
}

/// How many of the first `n` names equal `x`.
pub open spec fn count_eq(s: Seq<Seq<char>>, x: Seq<char>, n: int) -> nat
    decreases n,
{
    if n <= 0 || n > s.len() {
        0
    } else {
        count_eq(s, x, n - 1) + if s[n - 1] == x {
            1nat
        } else {
            0nat
        }
    }
}

/// The file name of layer `i`: its safe name; "layer_<id>" where that is
/// empty; "<name>_<id>" where another layer has the same name.
pub open spec fn layer_name_spec(raw: Seq<Seq<char>>, lids: Seq<Seq<char>>, i: int) -> Seq<char> {
    let n = raw[i];
    if n.len() == 0 {
        "layer_"@ + lids[i]
    } else if count_eq(raw, n, raw.len() as int) > 1 {
        n + "_"@ + lids[i]
    } else {
        n
    }
}

pub open spec fn strings_view(v: Seq<String>) -> Seq<Seq<char>> {
    v.map_values(|s: String| s@)
}

fn count_names(raw: &Vec<String>, x: &String) -> (c: usize)
    ensures
        c == count_eq(strings_view(raw@), x@, raw@.len() as int),
{
    let ghost sv = strings_view(raw@);
    let mut c: usize = 0;
    let mut i: usize = 0;
    while i < raw.len()
        invariant
            i <= raw@.len(),
            sv == strings_view(raw@),
            c == count_eq(sv, x@, i as int),
            c <= i,
        decreases raw@.len() - i,
    {
        if raw[i] == *x {
            c += 1;
        }
        i += 1;
    }
    c
}

/// The file names of the usable layers, from their safe names `raw` and
/// their layer ids `lids`.
pub fn layer_names(raw: &Vec<String>, lids: &Vec<String>) -> (r: Vec<String>)
    requires
        raw@.len() == lids@.len(),
    ensures
        r@.len() == raw@.len(),
        forall|i: int|
            0 <= i < r@.len() ==> (#[trigger] r@[i])@ == layer_name_spec(strings_view(raw@), strings_view(lids@), i),
{
    let mut r: Vec<String> = Vec::new();
    let mut i: usize = 0;
    while i < raw.len()
        invariant
            i <= raw@.len(),
            raw@.len() == lids@.len(),
            r@.len() == i,
            forall|j: int|
                0 <= j < i ==> (#[trigger] r@[j])@ == layer_name_spec(strings_view(raw@), strings_view(lids@), j),
        decreases raw@.len() - i,
    {
        let n = &raw[i];
        let name = if n.as_str().unicode_len() == 0 {
            let mut s = String::from_str("layer_");
            s.append(lids[i].as_str());
            s
        } else if count_names(raw, n) > 1 {
            let mut s = n.clone();
            s.append("_");
            s.append(lids[i].as_str());
            s
        } else {
            n.clone()
        };
        r.push(name);
        i += 1;
    }
    r
}

/// The file name of binary `b` where no other is known: "_bin<index>.bin".
pub open spec fn bin_file_name(b: Binary) -> Seq<char> {
    "_bin"@ + dec(b.index as nat) + ".bin"@
}

/// The string that stands for binary `b` in the JSON tree.
pub open spec fn bin_text(b: Binary) -> Seq<char> {
    "<binary:"@ + dec(b.index as nat) + ">"@
}

pub open spec fn extras_view(e: Seq<(String, Binary)>) -> Seq<(Seq<char>, Binary)> {
    e.map_values(|p: (String, Binary)| (p.0@, p.1))
}

/// The position of the first entry named `name` from `i` on, or -1.
pub open spec fn name_pos(extra: Seq<(Seq<char>, Binary)>, name: Seq<char>, i: int) -> int
    decreases extra.len() - i,
{
    if i < 0 || i >= extra.len() {
        -1
    } else if extra[i].0 == name {
        i
    } else {
        name_pos(extra, name, i + 1)
    }
}

/// Records binary `b` under `name`: a name already there takes the new
/// binary, a new name goes at the end.
pub open spec fn extra_add(extra: Seq<(Seq<char>, Binary)>, name: Seq<char>, b: Binary) -> Seq<(Seq<char>, Binary)> {
    let k = name_pos(extra, name, 0);
    if k >= 0 {
        extra.update(k, (name, b))
    } else {
        extra.push((name, b))
    }
}

fn add_extra(extra: &mut Vec<(String, Binary)>, name: String, b: Binary)
    ensures
        extras_view(final(extra)@) == extra_add(extras_view(old(extra)@), name@, b),
{
    let ghost ev = extras_view(extra@);
    let mut i: usize = 0;
    while i < extra.len()
        invariant
            i <= extra@.len(),
            ev == extras_view(extra@),
            extra@ == old(extra)@,
            name_pos(ev, name@, 0) == name_pos(ev, name@, i as int),
        decreases extra@.len() - i,
    {
        if extra[i].0 == name {
            let ghost nv = name@;
            extra.set(i, (name, b));
            assert(extras_view(extra@) =~= ev.update(i as int, (nv, b)));
            return;
        }
        i += 1;
    }
    let ghost nv = name@;
    extra.push((name, b));
    assert(extras_view(extra@) =~= ev.push((nv, b)));
}

/// The JSON tree of a value: each binary becomes "<binary:N>" and is
/// recorded as "_binN.bin".
pub open spec fn to_json_spec(v: ValV, extra: Seq<(Seq<char>, Binary)>) -> (ValV, Seq<(Seq<char>, Binary)>)
    decreases v, 0nat,
{
    match v {
        ValV::Bin(b) => (ValV::Str(bin_text(b)), extra_add(extra, bin_file_name(b), b)),
        ValV::Dict(items) => {
            let (d, e) = dict_to_json(items, items.len() as int, extra);
            (ValV::Dict(d), e)
        },
        ValV::List(l) => {
            let (l2, e) = list_to_json(l, l.len() as int, extra);
            (ValV::List(l2), e)
        },
        _ => (v, extra),
    }
}

pub open spec fn list_to_json(l: Seq<ValV>, n: int, extra: Seq<(Seq<char>, Binary)>) -> (
    Seq<ValV>,
    Seq<(Seq<char>, Binary)>,
)
    decreases l, n,
{
    if n <= 0 || n > l.len() {
        (seq![], extra)
    } else {
        let (p, e) = list_to_json(l, n - 1, extra);
        let (x, e2) = to_json_spec(l[n - 1], e);
        (p.push(x), e2)
    }
}

pub open spec fn dict_to_json(items: Seq<(Seq<char>, ValV)>, n: int, extra: Seq<(Seq<char>, Binary)>) -> (
    Seq<(Seq<char>, ValV)>,
    Seq<(Seq<char>, Binary)>,
)
    decreases items, n,
{
    if n <= 0 || n > items.len() {
        (seq![], extra)
    } else {
        let (p, e) = dict_to_json(items, n - 1, extra);
        let (key, value) = items[n - 1];
        let (x, e2) = to_json_spec(value, e);
        (dict_insert(p, key, x), e2)
    }
}

fn bin_name(b: &Binary) -> (s: String)
    ensures
        s@ == bin_file_name(*b),
{
    let mut s = String::from_str("_bin");
    push_chars(&mut s, dec_u128(b.index as u128).as_slice());
    s.append(".bin");
    s
}

/// Replaces each binary of `v` by "<binary:N>" and records it in `extra`
/// as "_binN.bin".
pub fn to_json(v: &Val, extra: &mut Vec<(String, Binary)>) -> (r: Val)
    ensures
        (val_view(r), extras_view(final(extra)@)) == to_json_spec(val_view(*v), extras_view(old(extra)@)),
    decreases val_view(*v), 0nat,
{
    match v {
        Val::Bin(b) => {
            add_extra(extra, bin_name(b), *b);
            let mut t = String::from_str("<binary:");
            push_chars(&mut t, dec_u128(b.index as u128).as_slice());
            t.append(">");
            Val::Str(t)
        },
        Val::Dict(d) => {
            let items = d.iter();
            proof {
                lemma_items_view(items@);
                let w = val_view(*v);
                assert(w == ValV::Dict(items_view(d.items@)));
                assert(decreases_to!(w => w->Dict_0));
            }
            let ghost iv = items_view(items@);
            let ghost e0 = extras_view(extra@);
            let mut out = Dict::new();
            let mut i: usize = 0;
            while i < items.len()
                invariant
                    i <= items@.len(),
                    iv == items_view(items@),
                    iv == d.view(),
                    val_view(*v) == ValV::Dict(iv),
                    e0 == extras_view(old(extra)@),
                    iv.len() == items@.len(),
                    forall|k: int| 0 <= k < items@.len() ==> #[trigger] iv[k] == (items@[k].0@, val_view(items@[k].1)),
                    (out.view(), extras_view(extra@)) == dict_to_json(iv, i as int, e0),
                decreases items@.len() - i,
            {
                proof {
                    let w = val_view(*v);
                    assert(decreases_to!(w => w->Dict_0));
                    assert(decreases_to!(iv => iv[i as int]));
                    assert(decreases_to!(iv[i as int] => iv[i as int].1));
                    assert(iv[i as int].1 == val_view(items@[i as int].1));
                    assert(decreases_to!(w => val_view(items@[i as int].1)));
                }
                let x = to_json(&items[i].1, extra);
                out.insert(items[i].0.clone(), x);
                i += 1;
            }
            Val::Dict(out)
        },
        Val::List(l) => {
            proof {
                lemma_vals_view(l@);
                let w = val_view(*v);
                assert(w == ValV::List(vals_view(l@)));
                assert(decreases_to!(w => w->List_0));
            }
            let ghost lv = vals_view(l@);
            let ghost e0 = extras_view(extra@);
            let mut out: Vec<Val> = Vec::new();
            let mut i: usize = 0;
            while i < l.len()
                invariant
                    i <= l@.len(),
                    lv == vals_view(l@),
                    val_view(*v) == ValV::List(lv),
                    e0 == extras_view(old(extra)@),
                    lv.len() == l@.len(),
                    forall|k: int| 0 <= k < l@.len() ==> #[trigger] lv[k] == val_view(l@[k]),
                    (vals_view(out@), extras_view(extra@)) == list_to_json(lv, i as int, e0),
                decreases l@.len() - i,
            {
                proof {
                    let w = val_view(*v);
                    assert(decreases_to!(w => w->List_0));
                    assert(decreases_to!(lv => lv[i as int]));
                    assert(decreases_to!(w => val_view(l@[i as int])));
                }
                let x = to_json(&l[i], extra);
                let ghost before = out@;
                out.push(x);
                proof {
                    assert(out@.drop_last() =~= before);
                }
                i += 1;
            }
            Val::List(out)
        },
        Val::Null => Val::Null,
        Val::Bool(b) => Val::Bool(*b),
        Val::Int(i) => Val::Int(*i),
        Val::F32(f) => Val::F32(*f),
        Val::F64(f) => Val::F64(*f),
        Val::Str(s) => Val::Str(s.clone()),
    }
}

/// The file name of a root binary under `key`: the key's safe name, or
/// "_bin<index>.bin" where that is empty.
pub open spec fn root_file_name(key: Seq<char>, b: Binary) -> Seq<char> {
    if safe_name_spec(key).len() == 0 {
        bin_file_name(b)
    } else {
        safe_name_spec(key)
    }
}

/// The binaries among the first `n` root members: (key, file name, binary).
pub open spec fn root_bins_spec(items: Seq<(Seq<char>, ValV)>, n: int) -> Seq<(Seq<char>, Seq<char>, Binary)>
    decreases n,
{
    if n <= 0 || n > items.len() {
        seq![]
    } else {
        let p = root_bins_spec(items, n - 1);
        match items[n - 1].1 {
            ValV::Bin(b) => p.push((items[n - 1].0, root_file_name(items[n - 1].0, b), b)),
            _ => p,
        }
    }
}

/// The file name recorded for `key`, from entry `i` on.
pub open spec fn find_bin(bins: Seq<(Seq<char>, Seq<char>, Binary)>, key: Seq<char>, i: int) -> Option<Seq<char>>
    decreases bins.len() - i,
{
    if i < 0 || i >= bins.len() {
        None
    } else if bins[i].0 == key {
        Some(bins[i].1)
    } else {
        find_bin(bins, key, i + 1)
    }
}

/// The JSON tree of the first `n` root members: a root binary becomes its
/// file name, any other member its JSON tree.
pub open spec fn tree_spec(
    items: Seq<(Seq<char>, ValV)>,
    n: int,
    bins: Seq<(Seq<char>, Seq<char>, Binary)>,
    extra: Seq<(Seq<char>, Binary)>,
) -> (Seq<(Seq<char>, ValV)>, Seq<(Seq<char>, Binary)>)
    decreases n,
{
    if n <= 0 || n > items.len() {
        (seq![], extra)
    } else {
        let (p, e) = tree_spec(items, n - 1, bins, extra);
        let (key, v) = items[n - 1];
        match find_bin(bins, key, 0) {
            Some(f) => (dict_insert(p, key, ValV::Str(f)), e),
            None => {
                let (x, e2) = to_json_spec(v, e);
                (dict_insert(p, key, x), e2)
            },
        }
    }
}

/// What raw/ gets: the root binaries with their file names, the JSON tree,
/// and the other binaries with their "_binN.bin" names.
pub struct RawPlan {
    pub root_bins: Vec<(String, String, Binary)>,
    pub tree: Dict,
    pub extra: Vec<(String, Binary)>,
}

pub open spec fn bins_view(b: Seq<(String, String, Binary)>) -> Seq<(Seq<char>, Seq<char>, Binary)> {
    b.map_values(|t: (String, String, Binary)| (t.0@, t.1@, t.2))
}

fn lookup_bin(bins: &Vec<(String, String, Binary)>, key: &String) -> (r: Option<String>)
    ensures
        match find_bin(bins_view(bins@), key@, 0) {
            Some(f) => r matches Some(x) && x@ == f,
            None => r is None,
        },
{
    let ghost bv = bins_view(bins@);
    let mut i: usize = 0;
    while i < bins.len()
        invariant
            i <= bins@.len(),
            bv == bins_view(bins@),
            find_bin(bv, key@, 0) == find_bin(bv, key@, i as int),
        decreases bins@.len() - i,
    {
        if bins[i].0 == *key {
            return Some(bins[i].1.clone());
        }
        i += 1;
    }
    None
}

/// Plans raw/ for the root dictionary: which binaries are written under
/// which names, and the JSON tree of the rest.
pub fn raw_plan(root: &Dict) -> (p: RawPlan)
    ensures
        bins_view(p.root_bins@) == root_bins_spec(root.view(), root.view().len() as int),
        (p.tree.view(), extras_view(p.extra@)) == tree_spec(
            root.view(),
            root.view().len() as int,
            bins_view(p.root_bins@),
            seq![],
        ),
{
    let items = root.iter();
    proof {
        lemma_items_view(items@);
    }
    let ghost iv = root.view();
    let mut bins: Vec<(String, String, Binary)> = Vec::new();
    let mut i: usize = 0;
    while i < items.len()
        invariant
            i <= items@.len(),
            iv == items_view(items@),
            iv.len() == items@.len(),
            forall|k: int| 0 <= k < items@.len() ==> #[trigger] iv[k] == (items@[k].0@, val_view(items@[k].1)),
            bins_view(bins@) == root_bins_spec(iv, i as int),
        decreases items@.len() - i,
    {
        match &items[i].1 {
            Val::Bin(b) => {
                let mut fname = safe_name(items[i].0.as_str());
                if fname.as_str().unicode_len() == 0 {
                    fname = bin_name(b);
                }
                let ghost before = bins_view(bins@);
                let key = items[i].0.clone();
                let ghost t = (key@, fname@, *b);
                bins.push((key, fname, *b));
                assert(bins_view(bins@) =~= before.push(t));
            },
            _ => {},
        }
        i += 1;
    }
    let ghost bv = bins_view(bins@);
    let mut extra: Vec<(String, Binary)> = Vec::new();
    assert(extras_view(extra@) =~= seq![]);
    let mut tree = Dict::new();
    let mut j: usize = 0;
    while j < items.len()
        invariant
            j <= items@.len(),
            iv == items_view(items@),
            iv.len() == items@.len(),
            bv == bins_view(bins@),
            forall|k: int| 0 <= k < items@.len() ==> #[trigger] iv[k] == (items@[k].0@, val_view(items@[k].1)),
            (tree.view(), extras_view(extra@)) == tree_spec(iv, j as int, bv, seq![]),
        decreases items@.len() - j,
    {
        match lookup_bin(&bins, &items[j].0) {
            Some(f) => {
                tree.insert(items[j].0.clone(), Val::Str(f));
            },
            None => {
                let x = to_json(&items[j].1, &mut extra);
                tree.insert(items[j].0.clone(), x);
            },
        }
        j += 1;
    }
    RawPlan { root_bins: bins, tree, extra }
}

/// What `str::to_lowercase` gives for `s`: the Unicode lowercase
/// mapping of each character.
pub uninterp spec fn lowercase(s: Seq<char>) -> Seq<char>;

/// ASCII lowercase of one character.
pub open spec fn ascii_lower(c: char) -> char {
    if 'A' <= c && c <= 'Z' {
        ((c as u32) + 32) as char
    } else {
        c
    }
}

/// `str::to_lowercase`. Claimed: the result is `lowercase(s)`, and for an
/// all-ASCII string it is the string with 'A'..'Z' turned into 'a'..'z'
/// (the Unicode lowercase mapping of ASCII characters).
#[verifier::external_body]
pub(crate) fn to_lowercase(s: &str) -> (r: String)
    ensures
        r@ == lowercase(s@),
        ascii_only(s@) ==> r@ == s@.map_values(|c: char| ascii_lower(c)),
{
    s.to_lowercase()
}

/// What to do with a root binary for its PNG copy.
pub enum PngTarget {
    /// Its file name does not end with ".tlg".
    NotTlg,
    /// The PNG name is already used by another written binary.
    Taken(String),
    /// Write the PNG under this name.
    Write(String),
}

pub enum PngTargetV {
    NotTlg,
    Taken(Seq<char>),
    Write(Seq<char>),
}

impl View for PngTarget {
    type V = PngTargetV;

    open spec fn view(&self) -> PngTargetV {
        match self {
            PngTarget::NotTlg => PngTargetV::NotTlg,
            PngTarget::Taken(s) => PngTargetV::Taken(s@),
            PngTarget::Write(s) => PngTargetV::Write(s@),
        }
    }
}

/// The names written in raw/, lower-cased.
pub open spec fn written_lower(bins: Seq<(Seq<char>, Seq<char>, Binary)>, extra: Seq<(Seq<char>, Binary)>) -> Seq<
    Seq<char>,
> {
    bins.map_values(|t: (Seq<char>, Seq<char>, Binary)| lowercase(t.1)) + extra.map_values(
        |t: (Seq<char>, Binary)| lowercase(t.0),
    )
}

pub open spec fn ends_with_tlg(s: Seq<char>) -> bool {
    s.len() >= 4 && s.skip(s.len() - 4) == seq!['.', 't', 'l', 'g']
}

/// The name of the PNG copy of a ".tlg" file: ".png" in place of its last
/// four characters.
pub open spec fn png_name(fname: Seq<char>) -> Seq<char> {
    fname.take(fname.len() - 4) + ".png"@
}

/// The PNG copy of a root binary named `fname`, given the lower-cased forms
/// of that name, of its PNG name, and of the names written: only for a
/// ".tlg" file name, and not where the PNG name is already written.
pub open spec fn png_choice_spec(
    fname: Seq<char>,
    fname_lower: Seq<char>,
    png_lower: Seq<char>,
    written: Seq<Seq<char>>,
) -> PngTargetV {
    if !ends_with_tlg(fname_lower) || fname.len() < 4 {
        PngTargetV::NotTlg
    } else if written.contains(png_lower) {
        PngTargetV::Taken(png_name(fname))
    } else {
        PngTargetV::Write(png_name(fname))
    }
}

/// The PNG copy of root binary `i`, with names compared in lower case.
pub open spec fn png_target_spec(
    bins: Seq<(Seq<char>, Seq<char>, Binary)>,
    extra: Seq<(Seq<char>, Binary)>,
    i: int,
) -> PngTargetV {
    let fname = bins[i].1;
    png_choice_spec(fname, lowercase(fname), lowercase(png_name(fname)), written_lower(bins, extra))
}

fn ends_tlg(s: &[char]) -> (b: bool)
    ensures
        b == ends_with_tlg(s@),
{
    if s.len() < 4 {
        return false;
    }
    let n = s.len();
    let r = s[n - 4] == '.' && s[n - 3] == 't' && s[n - 2] == 'l' && s[n - 1] == 'g';
    proof {
        if r {
            assert(s@.skip(s@.len() - 4) =~= seq!['.', 't', 'l', 'g']);
        } else if s@.skip(s@.len() - 4) == seq!['.', 't', 'l', 'g'] {
            assert(s@.skip(s@.len() - 4)[0] == s@[n - 4]);
            assert(s@.skip(s@.len() - 4)[1] == s@[n - 3]);
            assert(s@.skip(s@.len() - 4)[2] == s@[n - 2]);
            assert(s@.skip(s@.len() - 4)[3] == s@[n - 1]);
        }
    }
    r
}

/// Where a root binary named `fname` gets its PNG copy, from the lower-cased
/// forms of its name, of its PNG name, and of the names written.
pub fn png_choice(fname: &str, fname_lower: &str, png_lower: &str, written: &Vec<String>) -> (r: PngTarget)
    ensures
        r@ == png_choice_spec(fname@, fname_lower@, png_lower@, strings_view(written@)),
{
    let lc = chars_of(fname_lower);
    let fc = chars_of(fname);
    if !ends_tlg(lc.as_slice()) || fc.len() < 4 {
        return PngTarget::NotTlg;
    }
    let mut png = string_of(&fc[0..fc.len() - 4]);
    png.append(".png");
    assert(png@ == png_name(fname@));
    let target = String::from_str(png_lower);
    let ghost wv = strings_view(written@);
    let mut k: usize = 0;
    while k < written.len()
        invariant
            k <= written@.len(),
            wv == strings_view(written@),
            target@ == png_lower@,
            ends_with_tlg(fname_lower@) && fname@.len() >= 4,
            png@ == png_name(fname@),
            forall|j: int| 0 <= j < k ==> wv[j] != png_lower@,
        decreases written@.len() - k,
    {
        if written[k] == target {
            assert(wv[k as int] == png_lower@);
            return PngTarget::Taken(png);
        }
        k += 1;
    }
    PngTarget::Write(png)
}

/// The names written in raw/, each lower-cased.
pub fn written_names_lower(plan: &RawPlan) -> (r: Vec<String>)
    ensures
        strings_view(r@) == written_lower(bins_view(plan.root_bins@), extras_view(plan.extra@)),
{
    let ghost wl = written_lower(bins_view(plan.root_bins@), extras_view(plan.extra@));
    let mut r: Vec<String> = Vec::new();
    let mut k: usize = 0;
    while k < plan.root_bins.len()
        invariant
            k <= plan.root_bins@.len(),
            wl == written_lower(bins_view(plan.root_bins@), extras_view(plan.extra@)),
            strings_view(r@) == wl.take(k as int),
        decreases plan.root_bins@.len() - k,
    {
        let w = to_lowercase(plan.root_bins[k].1.as_str());
        let ghost before = strings_view(r@);
        let ghost wv = w@;
        assert(bins_view(plan.root_bins@)[k as int].1 == plan.root_bins@[k as int].1@);
        assert(wl[k as int] == wv);
        r.push(w);
        assert(strings_view(r@) =~= before.push(wv));
        assert(wl.take(k + 1) =~= wl.take(k as int).push(wl[k as int]));
        k += 1;
    }
    let n = plan.root_bins.len();
    let mut k2: usize = 0;
    while k2 < plan.extra.len()
        invariant
            k2 <= plan.extra@.len(),
            n == plan.root_bins@.len(),
            wl == written_lower(bins_view(plan.root_bins@), extras_view(plan.extra@)),
            strings_view(r@) == wl.take(n + k2),
        decreases plan.extra@.len() - k2,
    {
        let w = to_lowercase(plan.extra[k2].0.as_str());
        let ghost before = strings_view(r@);
        let ghost wv = w@;
        assert(extras_view(plan.extra@)[k2 as int].0 == plan.extra@[k2 as int].0@);
        assert(wl[n + k2] == wv);
        r.push(w);
        assert(strings_view(r@) =~= before.push(wv));
        assert(wl.take(n + k2 + 1) =~= wl.take(n + k2).push(wl[n + k2]));
        k2 += 1;
    }
    assert(wl.take(n + plan.extra@.len()) =~= wl);
    r
}

/// Where root binary `i` of `plan` gets its PNG copy.
pub fn png_target(plan: &RawPlan, i: usize) -> (r: PngTarget)
    requires
        i < plan.root_bins@.len(),
    ensures
        r@ == png_target_spec(bins_view(plan.root_bins@), extras_view(plan.extra@), i as int),
{
    let fname = &plan.root_bins[i].1;
    let lower = to_lowercase(fname.as_str());
    let fc = chars_of(fname.as_str());
    let mut png = String::new();
    if fc.len() >= 4 {
        png = string_of(&fc[0..fc.len() - 4]);
        png.append(".png");
    }
    let png_lower = to_lowercase(png.as_str());
    let written = written_names_lower(plan);
    let r = png_choice(fname.as_str(), lower.as_str(), png_lower.as_str(), &written);
    proof {
        if fc@.len() >= 4 {
            assert(png@ == png_name(fname@));
        }
    }
    r
}

/// The dictionaries among the first `n` items of a list.
pub open spec fn dicts_of(l: Seq<ValV>, n: int) -> Seq<Seq<(Seq<char>, ValV)>>
    decreases n,
{
    if n <= 0 || n > l.len() {
        seq![]
    } else {
        let p = dicts_of(l, n - 1);
        match l[n - 1] {
            ValV::Dict(d) => p.push(d),
            _ => p,
        }
    }
}

/// The layers of the root: the dictionaries of its non-empty "layers" list;
/// None where there is no such list.
pub open spec fn layers_spec(root: Seq<(Seq<char>, ValV)>) -> Option<Seq<Seq<(Seq<char>, ValV)>>> {
    match dict_get(root, "layers"@) {
        Some(ValV::List(l)) => if l.len() > 0 {
            Some(dicts_of(l, l.len() as int))
        } else {
            None
        },
        _ => None,
    }
}

pub open spec fn dict_refs_view(v: Seq<&Dict>) -> Seq<Seq<(Seq<char>, ValV)>> {
    v.map_values(|d: &Dict| d.view())
}

/// The layer dictionaries of the root, if it has a non-empty "layers" list.
pub fn layer_dicts(root: &Dict) -> (r: Option<Vec<&Dict>>)
    ensures
        match layers_spec(root.view()) {
            Some(ls) => r matches Some(v) && dict_refs_view(v@) == ls,
            None => r is None,
        },
{
    match root.get("layers") {
        Some(Val::List(l)) => {
            if l.len() == 0 {
                return None;
            }
            proof {
                lemma_vals_view(l@);
            }
            let ghost lv = vals_view(l@);
            let mut out: Vec<&Dict> = Vec::new();
            let mut i: usize = 0;
            while i < l.len()
                invariant
                    i <= l@.len(),
                    lv == vals_view(l@),
                    lv.len() == l@.len(),
                    forall|k: int| 0 <= k < l@.len() ==> #[trigger] lv[k] == val_view(l@[k]),
                    dict_refs_view(out@) == dicts_of(lv, i as int),
                decreases l@.len() - i,
            {
                match &l[i] {
                    Val::Dict(d) => {
                        let ghost before = dict_refs_view(out@);
                        out.push(d);
                        assert(dict_refs_view(out@) =~= before.push(d.view()));
                    },
                    _ => {},
                }
                i += 1;
            }
            Some(out)
        },
        _ => None,
    }
}

/// Whether a value holds no binary anywhere in it.
pub open spec fn no_bins(v: ValV) -> bool
    decreases v, 0nat,
{
    match v {
        ValV::Bin(_) => false,
        ValV::List(l) => no_bins_list(l, l.len() as int),
        ValV::Dict(d) => no_bins_dict(d, d.len() as int),
        _ => true,
    }
}

pub open spec fn no_bins_list(l: Seq<ValV>, n: int) -> bool
    decreases l, n,
{
    if n <= 0 || n > l.len() {
        true
    } else {
        no_bins_list(l, n - 1) && no_bins(l[n - 1])
    }
}

pub open spec fn no_bins_dict(d: Seq<(Seq<char>, ValV)>, n: int) -> bool
    decreases d, n,
{
    if n <= 0 || n > d.len() {
        true
    } else {
        no_bins_dict(d, n - 1) && no_bins(d[n - 1].1)
    }
}

proof fn lemma_no_bins_list(l: Seq<ValV>, n: int)
    requires
        0 <= n <= l.len(),
    ensures
        no_bins_list(l, n) <==> forall|i: int| 0 <= i < n ==> no_bins(#[trigger] l[i]),
    decreases n,
{
    if n > 0 {
        lemma_no_bins_list(l, n - 1);
    }
}

proof fn lemma_no_bins_dict(d: Seq<(Seq<char>, ValV)>, n: int)
    requires
        0 <= n <= d.len(),
    ensures
        no_bins_dict(d, n) <==> forall|i: int| 0 <= i < n ==> no_bins(#[trigger] d[i].1),
    decreases n,
{
    if n > 0 {
        lemma_no_bins_dict(d, n - 1);
    }
}

proof fn lemma_insert_no_bins(items: Seq<(Seq<char>, ValV)>, k: Seq<char>, v: ValV)
    requires
        forall|i: int| 0 <= i < items.len() ==> no_bins(#[trigger] items[i].1),
        no_bins(v),
    ensures
        forall|i: int| 0 <= i < dict_insert(items, k, v).len() ==> no_bins(#[trigger] dict_insert(items, k, v)[i].1),
{
    let r = dict_insert(items, k, v);
    let p = key_pos(items, k, 0);
    lemma_key_pos(items, k, 0);
    assert forall|i: int| 0 <= i < r.len() implies no_bins(#[trigger] r[i].1) by {
        if p < 0 {
            if i < items.len() {
                assert(r[i] == items[i]);
            } else {
                assert(r[i] == (k, v));
            }
        } else if i == p {
            assert(r[i] == (k, v));
        } else {
            assert(r[i] == items[i]);
        }
    }
}

proof fn lemma_to_json_no_bins(v: ValV, extra: Seq<(Seq<char>, Binary)>)
    ensures
        no_bins(to_json_spec(v, extra).0),
    decreases v, 0nat,
{
    match v {
        ValV::Dict(items) => {
            lemma_dict_to_json_no_bins(items, items.len() as int, extra);
            let d = dict_to_json(items, items.len() as int, extra).0;
            lemma_no_bins_dict(d, d.len() as int);
        },
        ValV::List(l) => {
            lemma_list_to_json_no_bins(l, l.len() as int, extra);
            let l2 = list_to_json(l, l.len() as int, extra).0;
            lemma_no_bins_list(l2, l2.len() as int);
        },
        _ => {},
    }
}

proof fn lemma_list_to_json_no_bins(l: Seq<ValV>, n: int, extra: Seq<(Seq<char>, Binary)>)
    ensures
        forall|i: int|
            0 <= i < list_to_json(l, n, extra).0.len() ==> no_bins(#[trigger] list_to_json(l, n, extra).0[i]),
    decreases l, n,
{
    if 0 < n <= l.len() {
        lemma_list_to_json_no_bins(l, n - 1, extra);
        let (p, e) = list_to_json(l, n - 1, extra);
        lemma_to_json_no_bins(l[n - 1], e);
        let r = list_to_json(l, n, extra).0;
        assert forall|i: int| 0 <= i < r.len() implies no_bins(#[trigger] r[i]) by {
            if i < p.len() {
                assert(r[i] == p[i]);
            }
        }
    }
}

proof fn lemma_dict_to_json_no_bins(items: Seq<(Seq<char>, ValV)>, n: int, extra: Seq<(Seq<char>, Binary)>)
    ensures
        forall|i: int|
            0 <= i < dict_to_json(items, n, extra).0.len() ==> no_bins(
                #[trigger] dict_to_json(items, n, extra).0[i].1,
            ),
    decreases items, n,
{
    if 0 < n <= items.len() {
        lemma_dict_to_json_no_bins(items, n - 1, extra);
        let (p, e) = dict_to_json(items, n - 1, extra);
        let (key, value) = items[n - 1];
        lemma_to_json_no_bins(value, e);
        lemma_insert_no_bins(p, key, to_json_spec(value, e).0);
    }
}

/// The JSON tree of a value holds no binary: each one became a string.
pub proof fn lemma_json_tree_has_no_binaries(v: ValV, extra: Seq<(Seq<char>, Binary)>)
    ensures
        no_bins(to_json_spec(v, extra).0),
{
    lemma_to_json_no_bins(v, extra);
}

/// The tree that raw/ gets as JSON holds no binary: a root binary becomes
/// its file name, and every other binary its "<binary:N>" string.
pub proof fn lemma_raw_tree_has_no_binaries(
    items: Seq<(Seq<char>, ValV)>,
    n: int,
    bins: Seq<(Seq<char>, Seq<char>, Binary)>,
    extra: Seq<(Seq<char>, Binary)>,
)
    ensures
        forall|i: int|
            0 <= i < tree_spec(items, n, bins, extra).0.len() ==> no_bins(
                #[trigger] tree_spec(items, n, bins, extra).0[i].1,
            ),
    decreases n,
{
    if 0 < n <= items.len() {
        lemma_raw_tree_has_no_binaries(items, n - 1, bins, extra);
        let (p, e) = tree_spec(items, n - 1, bins, extra);
        let (key, v) = items[n - 1];
        match find_bin(bins, key, 0) {
            Some(f) => {
                lemma_insert_no_bins(p, key, ValV::Str(f));
            },
            None => {
                lemma_to_json_no_bins(v, e);
                lemma_insert_no_bins(p, key, to_json_spec(v, e).0);
            },
        }
    }
}

/// Whether `a` comes no later than `b` in Rust's order of strings (by code
/// point, a prefix first).
pub open spec fn str_le(a: Seq<char>, b: Seq<char>) -> bool
    decreases a.len(),
{
    if a.len() == 0 {
        true
    } else if b.len() == 0 {
        false
    } else if a[0] != b[0] {
        a[0] < b[0]
    } else {
        str_le(a.drop_first(), b.drop_first())
    }
}

proof fn lemma_str_le_total(a: Seq<char>, b: Seq<char>)
    ensures
        str_le(a, b) || str_le(b, a),
    decreases a.len(),
{
    if a.len() > 0 && b.len() > 0 && a[0] == b[0] {
        lemma_str_le_total(a.drop_first(), b.drop_first());
    }
}

proof fn lemma_str_le_trans(a: Seq<char>, b: Seq<char>, c: Seq<char>)
    requires
        str_le(a, b),
        str_le(b, c),
    ensures
        str_le(a, c),
    decreases a.len(),
{
    if a.len() > 0 && b.len() > 0 && c.len() > 0 && a[0] == b[0] && b[0] == c[0] {
        lemma_str_le_trans(a.drop_first(), b.drop_first(), c.drop_first());
    }
}

fn str_le_exec(a: &String, b: &String) -> (r: bool)
    ensures
        r == str_le(a@, b@),
{
    let x = chars_of(a.as_str());
    let y = chars_of(b.as_str());
    let mut i: usize = 0;
    assert(x@.skip(0) =~= x@);
    assert(y@.skip(0) =~= y@);
    while i < x.len() && i < y.len() && x[i] == y[i]
        invariant
            i <= x@.len(),
            i <= y@.len(),
            str_le(a@, b@) == str_le(x@.skip(i as int), y@.skip(i as int)),
            x@ == a@,
            y@ == b@,
        decreases x@.len() - i,
    {
        assert(x@.skip(i as int).drop_first() =~= x@.skip(i + 1));
        assert(y@.skip(i as int).drop_first() =~= y@.skip(i + 1));
        i += 1;
    }
    if i == x.len() {
        true
    } else if i == y.len() {
        false
    } else {
        assert(x@.skip(i as int)[0] == x@[i as int]);
        assert(y@.skip(i as int)[0] == y@[i as int]);
        x[i] < y[i]
    }
}

pub open spec fn names_view(v: Seq<String>) -> Seq<Seq<char>> {
    v.map_values(|s: String| s@)
}

/// Whether the names are in Rust's order of strings.
pub open spec fn sorted_names(v: Seq<Seq<char>>) -> bool {
    forall|i: int, j: int| 0 <= i < j < v.len() ==> str_le(#[trigger] v[i], #[trigger] v[j])
}

/// The names sorted in Rust's order of strings (`sort` of a Vec<String>).
pub fn sort_names(v: Vec<String>) -> (r: Vec<String>)
    ensures
        sorted_names(names_view(r@)),
        names_view(r@).to_multiset() == names_view(v@).to_multiset(),
{
    broadcast use vstd::seq_lib::group_to_multiset_ensures;
    let mut r: Vec<String> = Vec::new();
    let ghost vv = names_view(v@);
    let mut i: usize = 0;
    assert(names_view(r@) =~= seq![]);
    assert(vv.take(0) =~= seq![]);
    while i < v.len()
        invariant
            i <= v@.len(),
            vv == names_view(v@),
            sorted_names(names_view(r@)),
            names_view(r@).to_multiset() == vv.take(i as int).to_multiset(),
        decreases v@.len() - i,
    {
        let x = &v[i];
        let mut p: usize = 0;
        while p < r.len() && str_le_exec(&r[p], x)
            invariant
                p <= r@.len(),
                forall|j: int| 0 <= j < p ==> str_le(#[trigger] names_view(r@)[j], x@),
            decreases r@.len() - p,
        {
            p += 1;
        }
        let ghost before = names_view(r@);
        proof {
            if p < r@.len() {
                lemma_str_le_total(before[p as int], x@);
            }
        }
        r.insert(p, x.clone());
        proof {
            let after = names_view(r@);
            assert(after =~= before.insert(p as int, x@));
            assert forall|a: int, b: int| 0 <= a < b < after.len() implies str_le(
                #[trigger] after[a],
                #[trigger] after[b],
            ) by {
                if a < p && b < p {
                    assert(after[a] == before[a] && after[b] == before[b]);
                } else if a < p && b == p {
                    assert(after[a] == before[a]);
                } else if a < p && b > p {
                    assert(after[a] == before[a] && after[b] == before[b - 1]);
                    if a < b - 1 {
                    }
                } else if a == p {
                    assert(after[b] == before[b - 1]);
                    if b - 1 > p {
                        lemma_str_le_trans(x@, before[p as int], before[b - 1]);
                    }
                } else {
                    assert(after[a] == before[a - 1] && after[b] == before[b - 1]);
                }
            }
            vstd::seq_lib::to_multiset_insert(before, p as int, x@);
            assert(vv.take(i + 1) =~= vv.take(i as int).push(vv[i as int]));
            vstd::seq_lib::to_multiset_build(vv.take(i as int), vv[i as int]);
        }
        i += 1;
    }
    assert(vv.take(v@.len() as int) =~= vv);
    r
}

/// Whether a name ends with ".pimg".
pub open spec fn ends_with_pimg(l: Seq<char>) -> bool {
    l.len() >= 5 && l.skip(l.len() - 5) == seq!['.', 'p', 'i', 'm', 'g']
}

/// Whether a directory entry is a .pimg file name (compared in lower case).
pub open spec fn pimg_name_spec(n: Seq<char>) -> bool {
    ends_with_pimg(lowercase(n))
}

/// Whether the lower-cased name `lower` ends with ".pimg".
pub fn pimg_suffix(lower: &str) -> (b: bool)
    ensures
        b == ends_with_pimg(lower@),
{
    let c = chars_of(lower);
    if c.len() < 5 {
        return false;
    }
    let k = c.len() - 5;
    let r = c[k] == '.' && c[k + 1] == 'p' && c[k + 2] == 'i' && c[k + 3] == 'm' && c[k + 4] == 'g';
    proof {
        let t = c@.skip(k as int);
        if r {
            assert(t =~= seq!['.', 'p', 'i', 'm', 'g']);
        } else if t == seq!['.', 'p', 'i', 'm', 'g'] {
            assert(t[0] == c@[k as int] && t[1] == c@[k + 1] && t[2] == c@[k + 2] && t[3] == c@[k + 3] && t[4]
                == c@[k + 4]);
        }
    }
    r
}

pub fn is_pimg_name(n: &str) -> (b: bool)
    ensures
        b == pimg_name_spec(n@),
{
    let l = to_lowercase(n);
    pimg_suffix(l.as_str())
}

/// d.get(k, default)
pub open spec fn member_or(d: Seq<(Seq<char>, ValV)>, k: Seq<char>, default: ValV) -> ValV {
    match dict_get(d, k) {
        Some(v) => v,
        None => default,
    }
}

/// Whether a layer is a plain image layer: its "layer_type" (0 where it is
/// missing) equals 0.
pub fn layer_type_ok(l: &Dict) -> (b: bool)
    ensures
        b == eq_num_spec(member_or(l.view(), "layer_type"@, ValV::Int(0)), 0),
{
    match l.get("layer_type") {
        Some(v) => eq_num(v, 0),
        None => true,
    }
}

/// Whether a layer's "width" and "height" equal the size of its image.
pub fn size_matches(l: &Dict, w: u32, h: u32) -> (b: bool)
    ensures
        b == (eq_num_spec(member_or(l.view(), "width"@, ValV::Null), w as int) && eq_num_spec(
            member_or(l.view(), "height"@, ValV::Null),
            h as int,
        )),
{
    let wok = match l.get("width") {
        Some(v) => eq_num(v, w as i128),
        None => false,
    };
    let hok = match l.get("height") {
        Some(v) => eq_num(v, h as i128),
        None => false,
    };
    wok && hok
}

/// Whether a layer blends normally: its "type" (ltPsNormal, 13, where it is
/// missing) equals 13.
pub fn blend_is_normal(l: &Dict) -> (b: bool)
    ensures
        b == eq_num_spec(member_or(l.view(), "type"@, ValV::Int(13)), 13),
{
    match l.get("type") {
        Some(v) => eq_num(v, 13),
        None => true,
    }
}

/// Whether a layer sits at (0, 0): its "left" and "top" (0 where missing)
/// equal 0.
pub fn at_origin(l: &Dict) -> (b: bool)
    ensures
        b == (eq_num_spec(member_or(l.view(), "left"@, ValV::Int(0)), 0) && eq_num_spec(
            member_or(l.view(), "top"@, ValV::Int(0)),
            0,
        )),
{
    let lok = match l.get("left") {
        Some(v) => eq_num(v, 0),
        None => true,
    };
    let tok = match l.get("top") {
        Some(v) => eq_num(v, 0),
        None => true,
    };
    lok && tok
}

} // verus!
