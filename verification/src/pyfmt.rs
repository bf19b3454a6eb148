//! Python-compatible text: repr() of str and bytes, str.isspace().

use vstd::prelude::*;
use crate::literal::{bytes_literal_denotes, hex_escape_len, lemma_padded_hex, pow16, str_literal_denotes};
use crate::text::{hex, hex_char, hex_pad, push_chars, push_char, chars_of, zero_pad};
use crate::value::{items_view, lemma_items_view, lemma_vals_view, val_view, vals_view, Binary, Val, ValV};
use crate::json::{pieces_view, Piece, PieceV};
use crate::text::{dec_i128, dec_int, hex_u64};

verus! {

/// Approximation of str.isprintable() for repr() (no Unicode tables): the
/// control, separator, private-use and format ranges are not printable.
pub open spec fn printable(c: char) -> bool {
    let u = c as u32;
    !(u < 0x20 || (0x7f <= u <= 0xa0) || u == 0xad || u == 0x1680 || (0x2000 <= u <= 0x200f) || (0x2028
        <= u <= 0x202f) || (0x205f <= u <= 0x206f) || u == 0x3000 || (0xd800 <= u <= 0xf8ff) || u == 0xfeff
        || (0xfff0 <= u <= 0xfffb) || (0xf0000 <= u <= 0x10ffff))
}

/// Approximation of str.isprintable() for repr() (no Unicode tables in std).
pub fn is_printable(c: char) -> (b: bool)
    ensures
        b == printable(c),
{
    let u = c as u32;
    !(u < 0x20 || (0x7f <= u && u <= 0xa0) || u == 0xad || u == 0x1680 || (0x2000 <= u && u <= 0x200f)
        || (0x2028 <= u && u <= 0x202f) || (0x205f <= u && u <= 0x206f) || u == 0x3000 || (0xd800 <= u
        && u <= 0xf8ff) || u == 0xfeff || (0xfff0 <= u && u <= 0xfffb) || (0xf0000 <= u && u <= 0x10ffff))
}

/// The escape of a character that repr() does not print as it is.
pub open spec fn char_escape(c: char) -> Seq<char> {
    let u = c as u32;
    if u < 0x100 {
        "\\x"@ + zero_pad(hex(u as nat), 2)
    } else if u < 0x10000 {
        "\\u"@ + zero_pad(hex(u as nat), 4)
    } else {
        "\\U"@ + zero_pad(hex(u as nat), 8)
    }
}

/// How repr() writes character `c` inside quotes `quote`.
pub open spec fn repr_char(c: char, quote: char) -> Seq<char> {
    if c == '\\' {
        "\\\\"@
    } else if c == '\t' {
        "\\t"@
    } else if c == '\n' {
        "\\n"@
    } else if c == '\r' {
        "\\r"@
    } else if c == quote {
        seq!['\\', c]
    } else if !printable(c) {
        char_escape(c)
    } else {
        seq![c]
    }
}

pub open spec fn repr_body(s: Seq<char>, quote: char) -> Seq<char>
    decreases s.len(),
{
    if s.len() == 0 {
        seq![]
    } else {
        repr_body(s.drop_last(), quote) + repr_char(s.last(), quote)
    }
}

/// The quote repr() uses: double quotes where the text holds a single quote
/// and no double quote, single quotes otherwise.
pub open spec fn repr_quote(s: Seq<char>) -> char {
    if s.contains('\'') && !s.contains('"') {
        '"'
    } else {
        '\''
    }
}

/// repr(s) for a str.
pub open spec fn str_repr_spec(s: Seq<char>) -> Seq<char> {
    seq![repr_quote(s)] + repr_body(s, repr_quote(s)) + seq![repr_quote(s)]
}

proof fn lemma_repr_body_first(s: Seq<char>, q: char)
    requires
        s.len() > 0,
    ensures
        repr_body(s, q) == repr_char(s[0], q) + repr_body(s.skip(1), q),
    decreases s.len(),
{
    if s.len() == 1 {
        assert(s.drop_last() =~= Seq::<char>::empty());
        assert(s.skip(1) =~= Seq::<char>::empty());
        assert(repr_body(Seq::<char>::empty(), q) == Seq::<char>::empty());
        assert(repr_body(s, q) == repr_body(s.drop_last(), q) + repr_char(s.last(), q));
        assert(s.last() == s[0]);
        assert(repr_body(s, q) =~= repr_char(s[0], q));
        assert(repr_char(s[0], q) + repr_body(s.skip(1), q) =~= repr_char(s[0], q));
    } else {
        lemma_repr_body_first(s.drop_last(), q);
        assert(s.drop_last().skip(1) =~= s.skip(1).drop_last());
        assert(s.skip(1).last() == s.last());
        assert(s.drop_last()[0] == s[0]);
        assert(repr_body(s, q) =~= repr_char(s[0], q) + repr_body(s.skip(1), q));
    }
}

proof fn lemma_pow16_values()
    ensures
        pow16(2) == 0x100,
        pow16(4) == 0x10000,
        pow16(8) == 0x1_0000_0000,
{
    assert(pow16(0) == 1);
    assert(pow16(1) == 16);
    assert(pow16(2) == 0x100);
    assert(pow16(3) == 0x1000);
    assert(pow16(4) == 0x10000);
    assert(pow16(5) == 0x10_0000);
    assert(pow16(6) == 0x100_0000);
    assert(pow16(7) == 0x1000_0000);
    assert(pow16(8) == 0x1_0000_0000);
}

/// A hex escape `\` `e` followed by `k` digits of `u`, then `t`, reads back
/// as the character `c` of code `u`, then what `t` stands for.
proof fn lemma_hex_escape_denotes(e: char, k: nat, c: char, q: char, t: Seq<char>, s: Seq<char>)
    requires
        hex_escape_len(e) == k,
        k >= 1,
        (c as u32) < pow16(k),
        str_literal_denotes(t, s, q),
    ensures
        str_literal_denotes(seq!['\\', e] + zero_pad(hex(c as u32 as nat), k) + t, seq![c] + s, q),
{
    let u = c as u32 as nat;
    lemma_padded_hex(u, k);
    let z = zero_pad(hex(u), k);
    let x = seq!['\\', e] + z + t;
    let s2 = seq![c] + s;
    assert(x[0] == '\\');
    assert(x[1] == e);
    assert(x.subrange(2, 2 + k as int) =~= z);
    assert(x.skip(2 + k as int) =~= t);
    assert(s2.skip(1) =~= s);
    assert(s2[0] == c);
}

/// repr() of one character, then `t`, reads back as the character, then
/// what `t` stands for.
proof fn lemma_repr_char_denotes(c: char, q: char, t: Seq<char>, s: Seq<char>)
    requires
        q == '\'' || q == '"',
        str_literal_denotes(t, s, q),
    ensures
        str_literal_denotes(repr_char(c, q) + t, seq![c] + s, q),
{
    let rc = repr_char(c, q);
    let x = rc + t;
    let s2 = seq![c] + s;
    assert(s2.skip(1) =~= s);
    assert(s2[0] == c);
    reveal_strlit("\\\\");
    reveal_strlit("\\t");
    reveal_strlit("\\n");
    reveal_strlit("\\r");
    reveal_strlit("\\x");
    reveal_strlit("\\u");
    reveal_strlit("\\U");
    if c == '\\' || c == '\t' || c == '\n' || c == '\r' || c == q {
        assert(rc.len() == 2);
        assert(x.skip(2) =~= t);
        assert(x[0] == rc[0] && x[1] == rc[1]);
    } else if !printable(c) {
        lemma_pow16_values();
        let u = c as u32;
        if u < 0x100 {
            assert("\\x"@ =~= seq!['\\', 'x']);
            lemma_hex_escape_denotes('x', 2, c, q, t, s);
        } else if u < 0x10000 {
            assert("\\u"@ =~= seq!['\\', 'u']);
            lemma_hex_escape_denotes('u', 4, c, q, t, s);
        } else {
            assert("\\U"@ =~= seq!['\\', 'U']);
            lemma_hex_escape_denotes('U', 8, c, q, t, s);
        }
    } else {
        assert(x[0] == c);
        assert(x.skip(1) =~= t);
    }
}

/// The body that repr() writes for `s` reads back as `s`.
pub proof fn lemma_repr_body_denotes(s: Seq<char>, q: char)
    requires
        q == '\'' || q == '"',
    ensures
        str_literal_denotes(repr_body(s, q), s, q),
    decreases s.len(),
{
    if s.len() > 0 {
        lemma_repr_body_denotes(s.skip(1), q);
        lemma_repr_char_denotes(s[0], q, repr_body(s.skip(1), q), s.skip(1));
        lemma_repr_body_first(s, q);
        assert(seq![s[0]] + s.skip(1) =~= s);
    }
}

fn contains_char(v: &[char], c: char) -> (b: bool)
    ensures
        b == v@.contains(c),
{
    for i in 0..v.len()
        invariant
            forall|j: int| 0 <= j < i ==> v@[j] != c,
    {
        if v[i] == c {
            return true;
        }
    }
    false
}

fn push_escape(out: &mut String, c: char)
    ensures
        final(out)@ == old(out)@ + char_escape(c),
{
    let u = c as u32;
    if u < 0x100 {
        out.append("\\x");
        push_chars(out, hex_pad(u as u64, 2).as_slice());
    } else if u < 0x10000 {
        out.append("\\u");
        push_chars(out, hex_pad(u as u64, 4).as_slice());
    } else {
        out.append("\\U");
        push_chars(out, hex_pad(u as u64, 8).as_slice());
    }
}

/// str.__repr__: the text in quotes reads back as `s`.
pub fn str_repr(s: &str) -> (r: String)
    ensures
        r@ == str_repr_spec(s@),
        r@.len() >= 2,
        str_literal_denotes(r@.subrange(1, r@.len() - 1), s@, repr_quote(s@)),
{
    let v = chars_of(s);
    let quote = if contains_char(v.as_slice(), '\'') && !contains_char(v.as_slice(), '"') {
        '"'
    } else {
        '\''
    };
    let mut out = String::new();
    push_char(&mut out, quote);
    for i in 0..v.len()
        invariant
            quote == repr_quote(v@),
            v@ == s@,
            out@ == seq![quote] + repr_body(v@.take(i as int), quote),
    {
        let c = v[i];
        let ghost before = out@;
        if c == '\\' {
            out.append("\\\\");
        } else if c == '\t' {
            out.append("\\t");
        } else if c == '\n' {
            out.append("\\n");
        } else if c == '\r' {
            out.append("\\r");
        } else if c == quote {
            push_char(&mut out, '\\');
            push_char(&mut out, c);
        } else if !is_printable(c) {
            push_escape(&mut out, c);
        } else {
            push_char(&mut out, c);
        }
        proof {
            assert(v@.take(i + 1).drop_last() =~= v@.take(i as int));
            assert(out@ =~= before + repr_char(c, quote));
        }
    }
    push_char(&mut out, quote);
    assert(v@.take(v@.len() as int) =~= v@);
    proof {
        let body = repr_body(s@, quote);
        lemma_repr_body_denotes(s@, quote);
        assert(out@.subrange(1, out@.len() - 1) =~= body);
    }
    out
}

/// How repr() writes byte `c` of a bytes object inside quotes `quote`.
pub open spec fn repr_byte(c: u8, quote: u8) -> Seq<char> {
    if c == 0x5c {
        "\\\\"@
    } else if c == 0x09 {
        "\\t"@
    } else if c == 0x0a {
        "\\n"@
    } else if c == 0x0d {
        "\\r"@
    } else if c == quote {
        seq!['\\', c as char]
    } else if 0x20 <= c <= 0x7e {
        seq![c as char]
    } else {
        "\\x"@ + zero_pad(hex(c as nat), 2)
    }
}

pub open spec fn bytes_body(b: Seq<u8>, quote: u8) -> Seq<char>
    decreases b.len(),
{
    if b.len() == 0 {
        seq![]
    } else {
        bytes_body(b.drop_last(), quote) + repr_byte(b.last(), quote)
    }
}

pub open spec fn bytes_quote(b: Seq<u8>) -> u8 {
    if b.contains(0x27u8) && !b.contains(0x22u8) {
        0x22
    } else {
        0x27
    }
}

/// repr(b) for a bytes object.
pub open spec fn bytes_repr_spec(b: Seq<u8>) -> Seq<char> {
    seq!['b', bytes_quote(b) as char] + bytes_body(b, bytes_quote(b)) + seq![bytes_quote(b) as char]
}

fn contains_byte(v: &[u8], c: u8) -> (b: bool)
    ensures
        b == v@.contains(c),
{
    for i in 0..v.len()
        invariant
            forall|j: int| 0 <= j < i ==> v@[j] != c,
    {
        if v[i] == c {
            return true;
        }
    }
    false
}

proof fn lemma_bytes_body_first(b: Seq<u8>, q: u8)
    requires
        b.len() > 0,
    ensures
        bytes_body(b, q) == repr_byte(b[0], q) + bytes_body(b.skip(1), q),
    decreases b.len(),
{
    if b.len() == 1 {
        assert(b.drop_last() =~= Seq::<u8>::empty());
        assert(b.skip(1) =~= Seq::<u8>::empty());
        assert(bytes_body(Seq::<u8>::empty(), q) == Seq::<char>::empty());
        assert(bytes_body(b, q) == bytes_body(b.drop_last(), q) + repr_byte(b.last(), q));
        assert(b.last() == b[0]);
        assert(bytes_body(b, q) =~= repr_byte(b[0], q));
        assert(repr_byte(b[0], q) + bytes_body(b.skip(1), q) =~= repr_byte(b[0], q));
    } else {
        lemma_bytes_body_first(b.drop_last(), q);
        assert(b.drop_last().skip(1) =~= b.skip(1).drop_last());
        assert(b.skip(1).last() == b.last());
        assert(b.drop_last()[0] == b[0]);
        assert(bytes_body(b, q) =~= repr_byte(b[0], q) + bytes_body(b.skip(1), q));
    }
}

/// repr() of one byte, then `t`, reads back as the byte, then what `t`
/// stands for.
proof fn lemma_repr_byte_denotes(c: u8, q: u8, t: Seq<char>, b: Seq<u8>)
    requires
        q == 0x22 || q == 0x27,
        bytes_literal_denotes(t, b, q as char),
    ensures
        bytes_literal_denotes(repr_byte(c, q) + t, seq![c] + b, q as char),
{
    let rc = repr_byte(c, q);
    let x = rc + t;
    let b2 = seq![c] + b;
    assert(b2.skip(1) =~= b);
    assert(b2[0] == c);
    reveal_strlit("\\\\");
    reveal_strlit("\\t");
    reveal_strlit("\\n");
    reveal_strlit("\\r");
    reveal_strlit("\\x");
    if c == 0x5c || c == 0x09 || c == 0x0a || c == 0x0d || c == q {
        assert(rc.len() == 2);
        assert(x.skip(2) =~= t);
        assert(x[0] == rc[0] && x[1] == rc[1]);
    } else if 0x20 <= c <= 0x7e {
        assert(x[0] == c as char);
        assert(x.skip(1) =~= t);
    } else {
        lemma_pow16_values();
        lemma_padded_hex(c as nat, 2);
        let z = zero_pad(hex(c as nat), 2);
        assert(rc =~= seq!['\\', 'x'] + z);
        assert(x[0] == '\\');
        assert(x[1] == 'x');
        assert(x.subrange(2, 4) =~= z);
        assert(x.skip(4) =~= t);
    }
}

/// The body that repr() writes for `b` reads back as `b`.
pub proof fn lemma_bytes_body_denotes(b: Seq<u8>, q: u8)
    requires
        q == 0x22 || q == 0x27,
    ensures
        bytes_literal_denotes(bytes_body(b, q), b, q as char),
    decreases b.len(),
{
    if b.len() > 0 {
        lemma_bytes_body_denotes(b.skip(1), q);
        lemma_repr_byte_denotes(b[0], q, bytes_body(b.skip(1), q), b.skip(1));
        lemma_bytes_body_first(b, q);
        assert(seq![b[0]] + b.skip(1) =~= b);
    }
}

/// Whether every character of `s` is printable ASCII, ' ' to '~'.
pub open spec fn printable_ascii(s: Seq<char>) -> bool {
    forall|i: int| 0 <= i < s.len() ==> 0x20 <= #[trigger] (s[i] as u32) <= 0x7e
}

proof fn lemma_hex_printable(n: nat)
    ensures
        printable_ascii(hex(n)),
    decreases n,
{
    if n >= 16 {
        lemma_hex_printable(n / 16);
        let d = (n % 16) as int;
        assert(hex(n) == hex(n / 16).push(hex_char(d)));
        assert forall|i: int| 0 <= i < hex(n).len() implies 0x20 <= #[trigger] (hex(n)[i] as u32) <= 0x7e by {
            if i < hex(n / 16).len() {
                assert(hex(n)[i] == hex(n / 16)[i]);
            }
        }
    }
}

proof fn lemma_repr_byte_printable(c: u8, quote: u8)
    requires
        quote == 0x22 || quote == 0x27,
    ensures
        printable_ascii(repr_byte(c, quote)),
{
    reveal_strlit("\\\\");
    reveal_strlit("\\t");
    reveal_strlit("\\n");
    reveal_strlit("\\r");
    reveal_strlit("\\x");
    if !(c == 0x5c || c == 0x09 || c == 0x0a || c == 0x0d || c == quote || (0x20 <= c <= 0x7e)) {
        let h = hex(c as nat);
        lemma_hex_printable(c as nat);
        let z = zero_pad(h, 2);
        assert(printable_ascii(z)) by {
            assert forall|i: int| 0 <= i < z.len() implies 0x20 <= #[trigger] (z[i] as u32) <= 0x7e by {
                if h.len() < 2 && i < 2 - h.len() {
                    assert(z[i] == '0');
                } else if h.len() < 2 {
                    assert(z[i] == h[i - (2 - h.len())]);
                }
            }
        }
        let r = "\\x"@ + z;
        assert forall|i: int| 0 <= i < r.len() implies 0x20 <= #[trigger] (r[i] as u32) <= 0x7e by {
            if i >= 2 {
                assert(r[i] == z[i - 2]);
            }
        }
    }
}

proof fn lemma_bytes_body_printable(b: Seq<u8>, quote: u8)
    requires
        quote == 0x22 || quote == 0x27,
    ensures
        printable_ascii(bytes_body(b, quote)),
    decreases b.len(),
{
    if b.len() > 0 {
        lemma_bytes_body_printable(b.drop_last(), quote);
        lemma_repr_byte_printable(b.last(), quote);
        let x = bytes_body(b.drop_last(), quote);
        let y = repr_byte(b.last(), quote);
        assert forall|i: int| 0 <= i < (x + y).len() implies 0x20 <= #[trigger] ((x + y)[i] as u32) <= 0x7e by {
            if i < x.len() {
                assert((x + y)[i] == x[i]);
            } else {
                assert((x + y)[i] == y[i - x.len()]);
            }
        }
    }
}

/// bytes.__repr__: printable ASCII only, and the text in quotes after the
/// 'b' reads back as `b`.
pub fn bytes_repr(b: &[u8]) -> (r: String)
    ensures
        r@ == bytes_repr_spec(b@),
        printable_ascii(r@),
        r@.len() >= 3,
        bytes_literal_denotes(r@.subrange(2, r@.len() - 1), b@, bytes_quote(b@) as char),
{
    let quote: u8 = if contains_byte(b, 0x27) && !contains_byte(b, 0x22) {
        0x22
    } else {
        0x27
    };
    let mut out = String::new();
    push_char(&mut out, 'b');
    push_char(&mut out, quote as char);
    for i in 0..b.len()
        invariant
            quote == bytes_quote(b@),
            out@ == seq!['b', quote as char] + bytes_body(b@.take(i as int), quote),
    {
        let c = b[i];
        let ghost before = out@;
        if c == 0x5c {
            out.append("\\\\");
        } else if c == 0x09 {
            out.append("\\t");
        } else if c == 0x0a {
            out.append("\\n");
        } else if c == 0x0d {
            out.append("\\r");
        } else if c == quote {
            push_char(&mut out, '\\');
            push_char(&mut out, c as char);
        } else if 0x20 <= c && c <= 0x7e {
            push_char(&mut out, c as char);
        } else {
            out.append("\\x");
            push_chars(&mut out, hex_pad(c as u64, 2).as_slice());
        }
        proof {
            assert(b@.take(i + 1).drop_last() =~= b@.take(i as int));
            assert(out@ =~= before + repr_byte(c, quote));
        }
    }
    push_char(&mut out, quote as char);
    assert(b@.take(b@.len() as int) =~= b@);
    proof {
        let body = bytes_body(b@, quote);
        lemma_bytes_body_printable(b@, quote);
        lemma_bytes_body_denotes(b@, quote);
        assert(out@ == seq!['b', quote as char] + body + seq![quote as char]);
        assert forall|i: int| 0 <= i < out@.len() implies 0x20 <= #[trigger] (out@[i] as u32) <= 0x7e by {
            if 2 <= i < 2 + body.len() {
                assert(out@[i] == body[i - 2]);
            }
        }
        assert(out@.subrange(2, out@.len() - 1) =~= body);
    }
    out
}

/// str.isspace()
pub open spec fn py_space(c: char) -> bool {
    c == '\t' || c == '\n' || c == '\x0b' || c == '\x0c' || c == '\r' || ('\x1c' <= c <= '\x1f') || c == ' '
        || c == '\u{85}' || c == '\u{a0}' || c == '\u{1680}' || ('\u{2000}' <= c <= '\u{200a}') || c
        == '\u{2028}' || c == '\u{2029}' || c == '\u{202f}' || c == '\u{205f}' || c == '\u{3000}'
}

/// str.isspace() for str.strip()
pub fn is_py_space(c: char) -> (b: bool)
    ensures
        b == py_space(c),
{
    c == '\t' || c == '\n' || c == '\x0b' || c == '\x0c' || c == '\r' || ('\x1c' <= c && c <= '\x1f') || c
        == ' ' || c == '\u{85}' || c == '\u{a0}' || c == '\u{1680}' || ('\u{2000}' <= c && c <= '\u{200a}')
        || c == '\u{2028}' || c == '\u{2029}' || c == '\u{202f}' || c == '\u{205f}' || c == '\u{3000}'
}

/// The name of the Python type of a value.
pub open spec fn py_type_name_spec(v: ValV) -> Seq<char> {
    match v {
        ValV::Null => "NoneType"@,
        ValV::Bool(_) => "bool"@,
        ValV::Int(_) => "int"@,
        ValV::F32(_) => "float"@,
        ValV::F64(_) => "float"@,
        ValV::Str(_) => "str"@,
        ValV::Bin(_) => "Binary"@,
        ValV::List(_) => "list"@,
        ValV::Dict(_) => "dict"@,
    }
}

/// type(v).__name__
pub fn py_type_name(v: &Val) -> (s: &'static str)
    ensures
        s@ == py_type_name_spec(val_view(*v)),
{
    match v {
        Val::Null => "NoneType",
        Val::Bool(_) => "bool",
        Val::Int(_) => "int",
        Val::F32(_) => "float",
        Val::F64(_) => "float",
        Val::Str(_) => "str",
        Val::Bin(_) => "Binary",
        Val::List(_) => "list",
        Val::Dict(_) => "dict",
    }
}

/// The object address shown in the repr of a Binary object.
pub open spec fn bin_addr(b: Binary) -> nat {
    ((0x7f00_0000_0000 + b.index * 0x30) % 0x1_0000_0000_0000_0000) as nat
}

/// repr(v), as text pieces and floats (which are written by float.__repr__).
pub open spec fn repr_spec(v: ValV) -> Seq<PieceV>
    decreases v, 0nat,
{
    match v {
        ValV::Null => seq![PieceV::Text("None"@)],
        ValV::Bool(b) => seq![PieceV::Text(if b { "True"@ } else { "False"@ })],
        ValV::Int(i) => seq![PieceV::Text(dec_int(i as int))],
        ValV::F32(b) => seq![PieceV::Float32(b)],
        ValV::F64(b) => seq![PieceV::Float64(b)],
        ValV::Str(s) => seq![PieceV::Text(str_repr_spec(s))],
        ValV::Bin(b) => seq![PieceV::Text("<__main__.Binary object at 0x"@ + hex(bin_addr(b)) + ">"@)],
        ValV::List(l) => seq![PieceV::Text("["@)] + repr_list(l, l.len() as int) + seq![PieceV::Text("]"@)],
        ValV::Dict(d) => seq![PieceV::Text("{"@)] + repr_dict(d, d.len() as int) + seq![PieceV::Text("}"@)],
    }
}

/// The first `n` items of a list, separated by ", ".
pub open spec fn repr_list(l: Seq<ValV>, n: int) -> Seq<PieceV>
    decreases l, n,
{
    if n <= 0 || n > l.len() {
        seq![]
    } else {
        repr_list(l, n - 1) + (if n > 1 {
            seq![PieceV::Text(", "@)]
        } else {
            seq![]
        }) + repr_spec(l[n - 1])
    }
}

/// The first `n` items of a dictionary, as "key: value", separated by ", ".
pub open spec fn repr_dict(d: Seq<(Seq<char>, ValV)>, n: int) -> Seq<PieceV>
    decreases d, n,
{
    if n <= 0 || n > d.len() {
        seq![]
    } else {
        repr_dict(d, n - 1) + (if n > 1 {
            seq![PieceV::Text(", "@)]
        } else {
            seq![]
        }) + seq![PieceV::Text(str_repr_spec(d[n - 1].0) + ": "@)] + repr_spec(d[n - 1].1)
    }
}

/// str(v): a string as it is, anything else as its repr.
pub open spec fn str_spec(v: ValV) -> Seq<PieceV> {
    match v {
        ValV::Str(s) => seq![PieceV::Text(s)],
        _ => repr_spec(v),
    }
}

fn push_text(out: &mut Vec<Piece>, t: String)
    ensures
        pieces_view(final(out)@) == pieces_view(old(out)@) + seq![PieceV::Text(t@)],
{
    let ghost before = pieces_view(out@);
    let ghost tv = t@;
    out.push(Piece::Text(t));
    assert(pieces_view(out@) =~= before + seq![PieceV::Text(tv)]);
}

fn repr_into(out: &mut Vec<Piece>, v: &Val)
    ensures
        pieces_view(final(out)@) == pieces_view(old(out)@) + repr_spec(val_view(*v)),
    decreases val_view(*v), 0nat,
{
    match v {
        Val::Null => push_text(out, String::from_str("None")),
        Val::Bool(b) => push_text(out, if *b { String::from_str("True") } else { String::from_str("False") }),
        Val::Int(i) => {
            let mut t = String::new();
            push_chars(&mut t, dec_i128(*i as i128).as_slice());
            push_text(out, t);
        },
        Val::F32(b) => {
            let ghost before = pieces_view(out@);
            out.push(Piece::Float32(*b));
            assert(pieces_view(out@) =~= before + seq![PieceV::Float32(*b)]);
        },
        Val::F64(b) => {
            let ghost before = pieces_view(out@);
            out.push(Piece::Float64(*b));
            assert(pieces_view(out@) =~= before + seq![PieceV::Float64(*b)]);
        },
        Val::Str(s) => push_text(out, str_repr(s.as_str())),
        Val::Bin(b) => {
            let a = ((0x7f00_0000_0000u128 + (b.index as u128) * 0x30) % 0x1_0000_0000_0000_0000u128) as u64;
            let mut t = String::from_str("<__main__.Binary object at 0x");
            push_chars(&mut t, hex_u64(a).as_slice());
            t.append(">");
            push_text(out, t);
        },
        Val::List(l) => {
            proof {
                lemma_vals_view(l@);
                let w = val_view(*v);
                assert(w == ValV::List(vals_view(l@)));
                assert(decreases_to!(w => w->List_0));
            }
            let ghost lv = vals_view(l@);
            let ghost start = pieces_view(out@);
            push_text(out, String::from_str("["));
            let mut i: usize = 0;
            while i < l.len()
                invariant
                    i <= l@.len(),
                    lv == vals_view(l@),
                    val_view(*v) == ValV::List(lv),
                    lv.len() == l@.len(),
                    forall|k: int| 0 <= k < l@.len() ==> #[trigger] lv[k] == val_view(l@[k]),
                    pieces_view(out@) == start + seq![PieceV::Text("["@)] + repr_list(lv, i as int),
                decreases l@.len() - i,
            {
                proof {
                    let w = val_view(*v);
                    assert(decreases_to!(w => w->List_0));
                    assert(decreases_to!(lv => lv[i as int]));
                    assert(decreases_to!(w => val_view(l@[i as int])));
                }
                if i > 0 {
                    push_text(out, String::from_str(", "));
                }
                repr_into(out, &l[i]);
                i += 1;
            }
            push_text(out, String::from_str("]"));
        },
        Val::Dict(d) => {
            let items = d.iter();
            proof {
                lemma_items_view(items@);
                let w = val_view(*v);
                assert(w == ValV::Dict(items_view(d.items@)));
                assert(decreases_to!(w => w->Dict_0));
            }
            let ghost iv = items_view(items@);
            let ghost start = pieces_view(out@);
            push_text(out, String::from_str("{"));
            let mut i: usize = 0;
            while i < items.len()
                invariant
                    i <= items@.len(),
                    iv == items_view(items@),
                    val_view(*v) == ValV::Dict(iv),
                    iv.len() == items@.len(),
                    forall|k: int| 0 <= k < items@.len() ==> #[trigger] iv[k] == (items@[k].0@, val_view(items@[k].1)),
                    pieces_view(out@) == start + seq![PieceV::Text("{"@)] + repr_dict(iv, i as int),
                decreases items@.len() - i,
            {
                proof {
                    let w = val_view(*v);
                    assert(decreases_to!(w => w->Dict_0));
                    assert(decreases_to!(iv => iv[i as int]));
                    assert(decreases_to!(iv[i as int] => iv[i as int].1));
                    assert(iv[i as int].1 == val_view(items@[i as int].1));
                    assert(decreases_to!(w => val_view(items@[i as int].1)));
                }
                if i > 0 {
                    push_text(out, String::from_str(", "));
                }
                let mut key = str_repr(items[i].0.as_str());
                key.append(": ");
                push_text(out, key);
                repr_into(out, &items[i].1);
                i += 1;
            }
            push_text(out, String::from_str("}"));
        },
    }
}

/// repr(v), as pieces.
pub fn py_repr(v: &Val) -> (r: Vec<Piece>)
    ensures
        pieces_view(r@) == repr_spec(val_view(*v)),
{
    let mut out: Vec<Piece> = Vec::new();
    assert(pieces_view(out@) =~= seq![]);
    repr_into(&mut out, v);
    assert(seq![] + repr_spec(val_view(*v)) =~= repr_spec(val_view(*v)));
    out
}

/// str(v) / '%s' % v, as pieces.
pub fn py_str(v: &Val) -> (r: Vec<Piece>)
    ensures
        pieces_view(r@) == str_spec(val_view(*v)),
{
    match v {
        Val::Str(s) => {
            let mut out: Vec<Piece> = Vec::new();
            assert(pieces_view(out@) =~= seq![]);
            push_text(&mut out, s.clone());
            out
        },
        _ => py_repr(v),
    }
}

} // verus!
