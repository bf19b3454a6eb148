//! json.dump(tree, f, ensure_ascii=False, indent=2) with the output of
//! Python's pure encoder, including where it stops on RecursionError.
//!
//! The text comes out as pieces: text, and the floating-point numbers of
//! the tree by their bits, which the caller writes as `float.__repr__` does.

use vstd::prelude::*;
use crate::error::{recursion_error, ErrV, PyErr};
use crate::psb::{call, recursion_errv, MAX_FRAMES};
use crate::text::{chars_of, dec, dec_i128, dec_int, dec_u128, hex, hex_pad, push_char, push_chars, zero_pad};
use crate::literal::{json_string_denotes, lemma_padded_hex, pow16};
use crate::value::{items_view, lemma_items_view, lemma_vals_view, val_view, vals_view, Dict, Val, ValV};

verus! {

/// The stack frame of the root dictionary's encoder.
pub const ROOT_FRAME: u32 = 7;

/// A piece of the JSON text.
pub enum Piece {
    Text(String),
    /// A 32-bit float, by its bits.
    Float32(u32),
    /// A 64-bit float, by its bits.
    Float64(u64),
}

pub enum PieceV {
    Text(Seq<char>),
    Float32(u32),
    Float64(u64),
}

impl View for Piece {
    type V = PieceV;

    open spec fn view(&self) -> PieceV {
        match self {
            Piece::Text(s) => PieceV::Text(s@),
            Piece::Float32(b) => PieceV::Float32(*b),
            Piece::Float64(b) => PieceV::Float64(*b),
        }
    }
}

pub open spec fn pieces_view(v: Seq<Piece>) -> Seq<PieceV> {
    v.map_values(|p: Piece| p@)
}

/// How c_encode_basestring writes one character.
pub open spec fn json_char(c: char) -> Seq<char> {
    if c == '"' {
        seq!['\\', '"']
    } else if c == '\\' {
        seq!['\\', '\\']
    } else if c == '\n' {
        seq!['\\', 'n']
    } else if c == '\r' {
        seq!['\\', 'r']
    } else if c == '\t' {
        seq!['\\', 't']
    } else if c == '\x08' {
        seq!['\\', 'b']
    } else if c == '\x0c' {
        seq!['\\', 'f']
    } else if (c as u32) < 0x20 {
        seq!['\\', 'u'] + zero_pad(hex((c as u32) as nat), 4)
    } else {
        seq![c]
    }
}

pub open spec fn json_body(s: Seq<char>) -> Seq<char>
    decreases s.len(),
{
    if s.len() == 0 {
        seq![]
    } else {
        json_body(s.drop_last()) + json_char(s.last())
    }
}

/// A JSON string literal (ensure_ascii=False).
pub open spec fn json_str(s: Seq<char>) -> Seq<char> {
    seq!['"'] + json_body(s) + seq!['"']
}

proof fn lemma_json_body_first(s: Seq<char>)
    requires
        s.len() > 0,
    ensures
        json_body(s) == json_char(s[0]) + json_body(s.skip(1)),
    decreases s.len(),
{
    assert(json_body(s) == json_body(s.drop_last()) + json_char(s.last()));
    if s.len() == 1 {
        assert(s.drop_last() =~= Seq::<char>::empty());
        assert(s.skip(1) =~= Seq::<char>::empty());
        assert(json_body(Seq::<char>::empty()) == Seq::<char>::empty());
        assert(s.last() == s[0]);
        assert(json_body(s) =~= json_char(s[0]));
        assert(json_char(s[0]) + json_body(s.skip(1)) =~= json_char(s[0]));
    } else {
        lemma_json_body_first(s.drop_last());
        assert(s.drop_last().skip(1) =~= s.skip(1).drop_last());
        assert(s.skip(1).last() == s.last());
        assert(s.drop_last()[0] == s[0]);
        assert(json_body(s.skip(1)) == json_body(s.skip(1).drop_last()) + json_char(s.skip(1).last()));
        assert(json_body(s) =~= json_char(s[0]) + json_body(s.skip(1)));
    }
}

proof fn lemma_json_char_denotes(c: char, t: Seq<char>, s: Seq<char>)
    requires
        json_string_denotes(t, s),
    ensures
        json_string_denotes(json_char(c) + t, seq![c] + s),
{
    let x = json_char(c) + t;
    let s2 = seq![c] + s;
    assert(s2.skip(1) =~= s);
    assert(s2[0] == c);
    if c == '"' || c == '\\' || c == '\n' || c == '\r' || c == '\t' || c == '\x08' || c == '\x0c' {
        assert(x.skip(2) =~= t);
        assert(x[0] == json_char(c)[0] && x[1] == json_char(c)[1]);
    } else if (c as u32) < 0x20 {
        let u = c as u32 as nat;
        assert(pow16(4) == 0x10000) by {
            assert(pow16(0) == 1);
            assert(pow16(1) == 16);
            assert(pow16(2) == 0x100);
            assert(pow16(3) == 0x1000);
        }
        lemma_padded_hex(u, 4);
        let z = zero_pad(hex(u), 4);
        assert(x =~= seq!['\\', 'u'] + z + t);
        assert(x[0] == '\\');
        assert(x[1] == 'u');
        assert(x.subrange(2, 6) =~= z);
        assert(x.skip(6) =~= t);
    } else {
        assert(x[0] == c);
        assert(x.skip(1) =~= t);
    }
}

proof fn lemma_json_body_denotes(s: Seq<char>)
    ensures
        json_string_denotes(json_body(s), s),
    decreases s.len(),
{
    if s.len() > 0 {
        lemma_json_body_denotes(s.skip(1));
        lemma_json_char_denotes(s[0], json_body(s.skip(1)), s.skip(1));
        lemma_json_body_first(s);
        assert(seq![s[0]] + s.skip(1) =~= s);
    }
}

/// The JSON string written for `s` is quoted, and what the quotes hold reads
/// back (JSON-decodes) as exactly `s`.
pub proof fn lemma_json_str_reads_back(s: Seq<char>)
    ensures
        json_str(s).len() >= 2,
        json_str(s)[0] == '"',
        json_str(s).last() == '"',
        json_string_denotes(json_str(s).subrange(1, json_str(s).len() - 1), s),
{
    lemma_json_body_denotes(s);
    assert(json_str(s).subrange(1, json_str(s).len() - 1) =~= json_body(s));
}

/// c_encode_basestring (ensure_ascii=False): appends `s` as a JSON string.
pub fn encode_str(out: &mut String, s: &str)
    ensures
        final(out)@ == old(out)@ + json_str(s@),
{
    let v = chars_of(s);
    let ghost head = out@;
    push_char(out, '"');
    let mut i: usize = 0;
    while i < v.len()
        invariant
            i <= v@.len(),
            v@ == s@,
            out@ == head + seq!['"'] + json_body(v@.take(i as int)),
        decreases v@.len() - i,
    {
        let c = v[i];
        let ghost before = out@;
        if c == '"' {
            push_char(out, '\\');
            push_char(out, '"');
        } else if c == '\\' {
            push_char(out, '\\');
            push_char(out, '\\');
        } else if c == '\n' {
            push_char(out, '\\');
            push_char(out, 'n');
        } else if c == '\r' {
            push_char(out, '\\');
            push_char(out, 'r');
        } else if c == '\t' {
            push_char(out, '\\');
            push_char(out, 't');
        } else if c == '\x08' {
            push_char(out, '\\');
            push_char(out, 'b');
        } else if c == '\x0c' {
            push_char(out, '\\');
            push_char(out, 'f');
        } else if (c as u32) < 0x20 {
            push_char(out, '\\');
            push_char(out, 'u');
            let u = c as u32;
            let h = hex_pad(u as u64, 4);
            push_chars(out, h.as_slice());
        } else {
            push_char(out, c);
        }
        proof {
            assert(out@ =~= before + json_char(c));
            assert(v@.take(i + 1).drop_last() =~= v@.take(i as int));
        }
        i += 1;
    }
    push_char(out, '"');
    assert(v@.take(v@.len() as int) =~= v@);
}

/// The new line and indentation of nesting level `level` (two spaces each).
pub open spec fn indent_spec(level: nat) -> Seq<char> {
    seq!['\n'] + Seq::new(2 * level, |i: int| ' ')
}

/// "\n" followed by two spaces per level.
pub fn indent(level: usize) -> (r: String)
    requires
        level < 0x4000_0000,
    ensures
        r@ == indent_spec(level as nat),
{
    let mut r = String::new();
    push_char(&mut r, '\n');
    let mut i: usize = 0;
    while i < 2 * level
        invariant
            i <= 2 * level,
            level < 0x4000_0000,
            r@ == seq!['\n'] + Seq::new(i as nat, |j: int| ' '),
        decreases 2 * level - i,
    {
        push_char(&mut r, ' ');
        assert(seq!['\n'] + Seq::new((i + 1) as nat, |j: int| ' ') =~= (seq!['\n'] + Seq::new(
            i as nat,
            |j: int| ' ',
        )).push(' '));
        i += 1;
    }
    r
}

/// What the encoder yields for a scalar at stack frame `frame`; None for
/// a list or a dictionary. A float is formatted by a Python function, one
/// frame deeper.
pub open spec fn scalar_spec(v: ValV, frame: int) -> Option<Result<PieceV, ErrV>> {
    match v {
        ValV::Str(s) => Some(Ok(PieceV::Text(json_str(s)))),
        ValV::Null => Some(Ok(PieceV::Text("null"@))),
        ValV::Bool(b) => Some(Ok(PieceV::Text(if b { "true"@ } else { "false"@ }))),
        ValV::Int(i) => Some(Ok(PieceV::Text(dec_int(i as int)))),
        ValV::F32(b) => if frame + 1 > MAX_FRAMES {
            Some(Err(recursion_errv()))
        } else {
            Some(Ok(PieceV::Float32(b)))
        },
        ValV::F64(b) => if frame + 1 > MAX_FRAMES {
            Some(Err(recursion_errv()))
        } else {
            Some(Ok(PieceV::Float64(b)))
        },
        ValV::Bin(b) => Some(Ok(PieceV::Text("\"<binary:"@ + dec(b.index as nat) + ">\""@))),
        ValV::List(_) => None,
        ValV::Dict(_) => None,
    }
}

fn scalar(v: &Val, frame: u32) -> (r: Option<Result<Piece, PyErr>>)
    ensures
        match scalar_spec(val_view(*v), frame as int) {
            None => r is None,
            Some(Ok(p)) => r matches Some(Ok(q)) && q@ == p,
            Some(Err(e)) => r matches Some(Err(x)) && x@ == e,
        },
{
    match v {
        Val::Str(s) => {
            let mut o = String::new();
            encode_str(&mut o, s.as_str());
            Some(Ok(Piece::Text(o)))
        },
        Val::Null => Some(Ok(Piece::Text(String::from_str("null")))),
        Val::Bool(b) => Some(Ok(Piece::Text(if *b { String::from_str("true") } else { String::from_str("false") }))),
        Val::Int(i) => {
            let mut o = String::new();
            push_chars(&mut o, dec_i128(*i as i128).as_slice());
            Some(Ok(Piece::Text(o)))
        },
        Val::F32(b) => {
            if frame >= MAX_FRAMES {
                return Some(Err(recursion_error()));
            }
            Some(Ok(Piece::Float32(*b)))
        },
        Val::F64(b) => {
            if frame >= MAX_FRAMES {
                return Some(Err(recursion_error()));
            }
            Some(Ok(Piece::Float64(*b)))
        },
        Val::Bin(b) => {
            let mut o = String::from_str("\"<binary:");
            push_chars(&mut o, dec_u128(b.index as u128).as_slice());
            o.append(">\"");
            Some(Ok(Piece::Text(o)))
        },
        Val::List(_) => None,
        Val::Dict(_) => None,
    }
}

/// The separator before list item `k`: "[" and the indentation for the
/// first, "," and the indentation for the others.
pub open spec fn list_sep(k: int, level: nat) -> Seq<char> {
    if k == 0 {
        seq!['['] + indent_spec(level)
    } else {
        seq![','] + indent_spec(level)
    }
}

/// The separator before dictionary item `k`, with its key.
pub open spec fn dict_sep(k: int, level: nat, key: Seq<char>) -> Seq<char> {
    (if k == 0 {
        indent_spec(level)
    } else {
        seq![','] + indent_spec(level)
    }) + json_str(key) + ": "@
}

/// _iterencode of a list or a dictionary value, called from stack frame
/// `frame`: the pieces written after `out`, and the error that stopped it.
pub open spec fn json_child(out: Seq<PieceV>, v: ValV, level: nat, frame: int) -> (Seq<PieceV>, Option<ErrV>)
    decreases v, 0nat,
{
    if frame + 1 > MAX_FRAMES {
        (out, Some(recursion_errv()))
    } else {
        match v {
            ValV::List(l) => json_list(out, l, level, frame + 1),
            ValV::Dict(d) => json_dict(out, d, level, frame + 1),
            _ => (out, None),
        }
    }
}

/// _iterencode_list
pub open spec fn json_list(out: Seq<PieceV>, lst: Seq<ValV>, level: nat, frame: int) -> (Seq<PieceV>, Option<ErrV>)
    decreases lst, lst.len() + 1,
{
    if lst.len() == 0 {
        (out.push(PieceV::Text("[]"@)), None)
    } else {
        let (o, e) = json_list_items(out, lst, lst.len() as int, level + 1, frame);
        if e is Some {
            (o, e)
        } else {
            (o.push(PieceV::Text(indent_spec(level) + "]"@)), None)
        }
    }
}

/// The first `n` items of a list.
pub open spec fn json_list_items(out: Seq<PieceV>, lst: Seq<ValV>, n: int, level: nat, frame: int) -> (
    Seq<PieceV>,
    Option<ErrV>,
)
    decreases lst, n,
{
    if n <= 0 || n > lst.len() {
        (out, None)
    } else {
        let (o, e) = json_list_items(out, lst, n - 1, level, frame);
        if e is Some {
            (o, e)
        } else {
            let buf = PieceV::Text(list_sep(n - 1, level));
            match scalar_spec(lst[n - 1], frame) {
                Some(Err(x)) => (o, Some(x)),
                Some(Ok(p)) => (o.push(buf).push(p), None),
                None => json_child(o.push(buf), lst[n - 1], level, frame),
            }
        }
    }
}

/// _iterencode_dict
pub open spec fn json_dict(out: Seq<PieceV>, items: Seq<(Seq<char>, ValV)>, level: nat, frame: int) -> (
    Seq<PieceV>,
    Option<ErrV>,
)
    decreases items, items.len() + 1,
{
    if items.len() == 0 {
        (out.push(PieceV::Text("{}"@)), None)
    } else {
        let (o, e) = json_dict_items(out.push(PieceV::Text("{"@)), items, items.len() as int, level + 1, frame);
        if e is Some {
            (o, e)
        } else {
            (o.push(PieceV::Text(indent_spec(level) + "}"@)), None)
        }
    }
}

/// The first `n` items of a dictionary.
pub open spec fn json_dict_items(
    out: Seq<PieceV>,
    items: Seq<(Seq<char>, ValV)>,
    n: int,
    level: nat,
    frame: int,
) -> (Seq<PieceV>, Option<ErrV>)
    decreases items, n,
{
    if n <= 0 || n > items.len() {
        (out, None)
    } else {
        let (o, e) = json_dict_items(out, items, n - 1, level, frame);
        if e is Some {
            (o, e)
        } else {
            let (key, value) = items[n - 1];
            let o2 = o.push(PieceV::Text(dict_sep(n - 1, level, key)));
            match scalar_spec(value, frame) {
                Some(Err(x)) => (o2, Some(x)),
                Some(Ok(p)) => (o2.push(p), None),
                None => json_child(o2, value, level, frame),
            }
        }
    }
}

/// The JSON text of the tree as json.dump writes it, and the error that
/// stopped it, if any.
pub open spec fn dump_spec(tree: Seq<(Seq<char>, ValV)>) -> (Seq<PieceV>, Option<ErrV>) {
    json_dict(seq![], tree, 0, ROOT_FRAME as int)
}

pub open spec fn err_opt(r: Result<(), PyErr>) -> Option<ErrV> {
    match r {
        Ok(()) => None,
        Err(e) => Some(e@),
    }
}

proof fn lemma_list_err(out: Seq<PieceV>, lst: Seq<ValV>, n: int, m: int, level: nat, frame: int)
    requires
        0 <= n <= m <= lst.len(),
        json_list_items(out, lst, n, level, frame).1 is Some,
    ensures
        json_list_items(out, lst, m, level, frame) == json_list_items(out, lst, n, level, frame),
    decreases m - n,
{
    if m > n {
        lemma_list_err(out, lst, n, m - 1, level, frame);
    }
}

proof fn lemma_dict_err(out: Seq<PieceV>, items: Seq<(Seq<char>, ValV)>, n: int, m: int, level: nat, frame: int)
    requires
        0 <= n <= m <= items.len(),
        json_dict_items(out, items, n, level, frame).1 is Some,
    ensures
        json_dict_items(out, items, m, level, frame) == json_dict_items(out, items, n, level, frame),
    decreases m - n,
{
    if m > n {
        lemma_dict_err(out, items, n, m - 1, level, frame);
    }
}

fn push_piece(out: &mut Vec<Piece>, p: Piece)
    ensures
        pieces_view(final(out)@) == pieces_view(old(out)@).push(p@),
{
    let ghost before = pieces_view(out@);
    let ghost pv = p@;
    out.push(p);
    assert(pieces_view(out@) =~= before.push(pv));
}

/// Encodes a list or a dictionary value from stack frame `frame`.
fn encode_child(out: &mut Vec<Piece>, v: &Val, level: usize, frame: u32) -> (r: Result<(), PyErr>)
    requires
        frame <= MAX_FRAMES,
        level <= frame + 1,
    ensures
        (pieces_view(final(out)@), err_opt(r)) == json_child(pieces_view(old(out)@), val_view(*v), level as nat, frame as int),
    decreases val_view(*v), 0nat,
{
    match call(frame + 1) {
        Err(e) => {
            return Err(e);
        },
        Ok(()) => {},
    }
    match v {
        Val::List(l) => {
            proof {
                let w = val_view(*v);
                assert(w == ValV::List(vals_view(l@)));
                assert(decreases_to!(w => w->List_0));
            }
            encode_list(out, l, level, frame + 1)
        },
        Val::Dict(d) => {
            proof {
                let w = val_view(*v);
                assert(w == ValV::Dict(items_view(d.items@)));
                assert(decreases_to!(w => w->Dict_0));
            }
            encode_dict(out, d, level, frame + 1)
        },
        _ => Ok(()),
    }
}

fn encode_list(out: &mut Vec<Piece>, lst: &Vec<Val>, level: usize, frame: u32) -> (r: Result<(), PyErr>)
    requires
        frame <= MAX_FRAMES,
        level <= frame,
    ensures
        (pieces_view(final(out)@), err_opt(r)) == json_list(pieces_view(old(out)@), vals_view(lst@), level as nat, frame as int),
    decreases vals_view(lst@), lst@.len() + 1,
{
    proof {
        lemma_vals_view(lst@);
    }
    if lst.len() == 0 {
        push_piece(out, Piece::Text(String::from_str("[]")));
        return Ok(());
    }
    let ghost out0 = pieces_view(out@);
    let ghost vl = vals_view(lst@);
    let lvl = level + 1;
    let newline_indent = indent(lvl);
    let mut i: usize = 0;
    while i < lst.len()
        invariant
            i <= lst@.len(),
            lvl == level + 1,
            level <= frame <= MAX_FRAMES,
            newline_indent@ == indent_spec(lvl as nat),
            vl == vals_view(lst@),
            out0 == pieces_view(old(out)@),
            vl.len() == lst@.len(),
            forall|k: int| 0 <= k < lst@.len() ==> #[trigger] vl[k] == val_view(lst@[k]),
            (pieces_view(out@), None::<ErrV>) == json_list_items(out0, vl, i as int, lvl as nat, frame as int),
        decreases lst@.len() - i,
    {
        let mut buf = String::new();
        if i == 0 {
            push_char(&mut buf, '[');
        } else {
            push_char(&mut buf, ',');
        }
        buf.append(newline_indent.as_str());
        assert(buf@ =~= list_sep(i as int, lvl as nat));
        let value = &lst[i];
        assert(vl[i as int] == val_view(*value));
        match scalar(value, frame) {
            Some(Ok(p)) => {
                push_piece(out, Piece::Text(buf));
                push_piece(out, p);
            },
            Some(Err(e)) => {
                proof {
                    assert(json_list_items(out0, vl, i + 1, lvl as nat, frame as int) == (pieces_view(out@), Some(e@)));
                    lemma_list_err(out0, vl, i + 1, vl.len() as int, lvl as nat, frame as int);
                }
                return Err(e);
            },
            None => {
                push_piece(out, Piece::Text(buf));
                assert(decreases_to!(vl => vl[i as int]));
                let ghost before_child = pieces_view(out@);
                match encode_child(out, value, lvl, frame) {
                    Err(e) => {
                        proof {
                            assert(json_list_items(out0, vl, i + 1, lvl as nat, frame as int) == json_child(before_child, vl[i as int], lvl as nat, frame as int));
                            lemma_list_err(out0, vl, i + 1, vl.len() as int, lvl as nat, frame as int);
                        }
                        return Err(e);
                    },
                    Ok(()) => {},
                }
            },
        }
        i += 1;
    }
    let mut close = indent(level);
    close.append("]");
    push_piece(out, Piece::Text(close));
    Ok(())
}

fn encode_dict(out: &mut Vec<Piece>, dct: &Dict, level: usize, frame: u32) -> (r: Result<(), PyErr>)
    requires
        frame <= MAX_FRAMES,
        level <= frame,
    ensures
        (pieces_view(final(out)@), err_opt(r)) == json_dict(pieces_view(old(out)@), dct.view(), level as nat, frame as int),
    decreases dct.view(), dct.view().len() + 1,
{
    let items = dct.iter();
    proof {
        lemma_items_view(items@);
    }
    if items.len() == 0 {
        push_piece(out, Piece::Text(String::from_str("{}")));
        return Ok(());
    }
    push_piece(out, Piece::Text(String::from_str("{")));
    let ghost out0 = pieces_view(out@);
    let ghost iv = dct.view();
    let lvl = level + 1;
    let newline_indent = indent(lvl);
    let mut i: usize = 0;
    while i < items.len()
        invariant
            i <= items@.len(),
            lvl == level + 1,
            level <= frame <= MAX_FRAMES,
            newline_indent@ == indent_spec(lvl as nat),
            iv == items_view(items@),
            iv == dct.view(),
            out0 == pieces_view(old(out)@).push(PieceV::Text("{"@)),
            iv.len() == items@.len(),
            forall|k: int| 0 <= k < items@.len() ==> #[trigger] iv[k] == (items@[k].0@, val_view(items@[k].1)),
            (pieces_view(out@), None::<ErrV>) == json_dict_items(out0, iv, i as int, lvl as nat, frame as int),
        decreases items@.len() - i,
    {
        let mut buf = String::new();
        if i > 0 {
            push_char(&mut buf, ',');
        }
        buf.append(newline_indent.as_str());
        encode_str(&mut buf, items[i].0.as_str());
        buf.append(": ");
        assert(buf@ =~= dict_sep(i as int, lvl as nat, items@[i as int].0@));
        push_piece(out, Piece::Text(buf));
        let value = &items[i].1;
        assert(iv[i as int].1 == val_view(*value));
        match scalar(value, frame) {
            Some(Ok(p)) => {
                push_piece(out, p);
            },
            Some(Err(e)) => {
                proof {
                    assert(json_dict_items(out0, iv, i + 1, lvl as nat, frame as int) == (pieces_view(out@), Some(e@)));
                    lemma_dict_err(out0, iv, i + 1, iv.len() as int, lvl as nat, frame as int);
                }
                return Err(e);
            },
            None => {
                assert(decreases_to!(iv => iv[i as int]));
                assert(decreases_to!(iv[i as int] => iv[i as int].1));
                assert(decreases_to!(iv => iv[i as int].1));
                let ghost before_child = pieces_view(out@);
                match encode_child(out, value, lvl, frame) {
                    Err(e) => {
                        proof {
                            assert(json_dict_items(out0, iv, i + 1, lvl as nat, frame as int) == json_child(before_child, iv[i as int].1, lvl as nat, frame as int));
                            lemma_dict_err(out0, iv, i + 1, iv.len() as int, lvl as nat, frame as int);
                        }
                        return Err(e);
                    },
                    Ok(()) => {},
                }
            },
        }
        i += 1;
    }
    let mut close = indent(level);
    close.append("}");
    push_piece(out, Piece::Text(close));
    Ok(())
}

pub open spec fn opt_err_view(e: Option<PyErr>) -> Option<ErrV> {
    match e {
        Some(x) => Some(x@),
        None => None,
    }
}

/// The JSON text of `tree` as pieces, and the error that stopped writing it,
/// if any (the text written so far is kept).
pub fn dump(tree: &Dict) -> (r: (Vec<Piece>, Option<PyErr>))
    ensures
        (pieces_view(r.0@), opt_err_view(r.1)) == dump_spec(tree.view()),
{
    let mut out: Vec<Piece> = Vec::new();
    assert(pieces_view(out@) =~= seq![]);
    let r = encode_dict(&mut out, tree, 0, ROOT_FRAME);
    let err = match r {
        Ok(()) => None,
        Err(e) => Some(e),
    };
    (out, err)
}

} // verus!
