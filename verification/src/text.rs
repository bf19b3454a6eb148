//! Character and number text helpers shared by the formatters.

use vstd::prelude::*;

verus! {

/// Whether every character of `s` is ASCII.
pub open spec fn ascii_only(s: Seq<char>) -> bool {
    forall|i: int| 0 <= i < s.len() ==> (s[i] as u32) < 128
}

/// The characters of `s`, in order.
pub fn chars_of(s: &str) -> (v: Vec<char>)
    ensures
        v@ == s@,
{
    let mut v: Vec<char> = Vec::new();
    for c in it: s.chars()
        invariant
            v@ == it.seq().take(it.index() as int),
            it.seq() == s@,
    {
        v.push(c);
    }
    v
}

/// `String::push`: appends one character.
#[verifier::external_body]
pub fn push_char(s: &mut String, c: char)
    ensures
        final(s)@ == old(s)@.push(c),
{
    s.push(c);
}

/// Appends the characters of `v` to `s`.
pub fn push_chars(s: &mut String, v: &[char])
    ensures
        final(s)@ == old(s)@ + v@,
{
    let ghost start = s@;
    for i in 0..v.len()
        invariant
            s@ == start + v@.take(i as int),
    {
        push_char(s, v[i]);
        assert(v@.take(i + 1) == v@.take(i as int).push(v@[i as int]));
    }
    assert(v@.take(v.len() as int) == v@);
}

/// The string made of the characters of `v`.
pub fn string_of(v: &[char]) -> (s: String)
    ensures
        s@ == v@,
{
    let mut s = String::new();
    push_chars(&mut s, v);
    s
}

/// The character of a decimal digit.
pub open spec fn digit_char(d: int) -> char {
    (d + 48) as char
}

/// Decimal digits of a natural number, most significant first.
pub open spec fn dec(n: nat) -> Seq<char>
    decreases n,
{
    if n < 10 {
        seq![digit_char(n as int)]
    } else {
        dec(n / 10).push(digit_char((n % 10) as int))
    }
}

/// Decimal text of an integer (a '-' before the digits of a negative one).
pub open spec fn dec_int(n: int) -> Seq<char> {
    if n < 0 {
        seq!['-'] + dec((-n) as nat)
    } else {
        dec(n as nat)
    }
}

fn digit(d: u8) -> (c: char)
    requires
        d < 10,
    ensures
        c == digit_char(d as int),
{
    (d + 48) as char
}

/// Decimal digits of `n`.
pub fn dec_u128(n: u128) -> (v: Vec<char>)
    ensures
        v@ == dec(n as nat),
    decreases n,
{
    if n < 10 {
        let mut v = Vec::new();
        v.push(digit(n as u8));
        v
    } else {
        let mut v = dec_u128(n / 10);
        v.push(digit((n % 10) as u8));
        v
    }
}

/// Decimal text of `n`, as `i128::to_string` gives it.
pub fn dec_i128(n: i128) -> (v: Vec<char>)
    ensures
        v@ == dec_int(n as int),
{
    if n < 0 {
        let m: u128 = if n == i128::MIN {
            (i128::MAX as u128) + 1
        } else {
            (-n) as u128
        };
        let mut v = Vec::new();
        v.push('-');
        let mut d = dec_u128(m);
        v.append(&mut d);
        v
    } else {
        dec_u128(n as u128)
    }
}

/// Lower-case hexadecimal digit character.
pub open spec fn hex_char(d: int) -> char {
    if d < 10 {
        (d + 48) as char
    } else {
        (d + 87) as char
    }
}

/// Lower-case hexadecimal digits of `n`, most significant first.
pub open spec fn hex(n: nat) -> Seq<char>
    decreases n,
{
    if n < 16 {
        seq![hex_char(n as int)]
    } else {
        hex(n / 16).push(hex_char((n % 16) as int))
    }
}

/// `s` with '0' characters in front up to `width` characters.
pub open spec fn zero_pad(s: Seq<char>, width: nat) -> Seq<char> {
    if s.len() >= width {
        s
    } else {
        Seq::new((width - s.len()) as nat, |i: int| '0') + s
    }
}

fn hex_digit(d: u8) -> (c: char)
    requires
        d < 16,
    ensures
        c == hex_char(d as int),
{
    if d < 10 {
        (d + 48) as char
    } else {
        (d + 87) as char
    }
}

/// Lower-case hexadecimal digits of `n`.
pub fn hex_u64(n: u64) -> (v: Vec<char>)
    ensures
        v@ == hex(n as nat),
    decreases n,
{
    if n < 16 {
        let mut v = Vec::new();
        v.push(hex_digit(n as u8));
        v
    } else {
        let mut v = hex_u64(n / 16);
        v.push(hex_digit((n % 16) as u8));
        v
    }
}

/// `format!("{:0w$x}", n)`: lower-case hexadecimal padded with zeros.
pub fn hex_pad(n: u64, width: usize) -> (v: Vec<char>)
    ensures
        v@ == zero_pad(hex(n as nat), width as nat),
{
    let h = hex_u64(n);
    if h.len() >= width {
        h
    } else {
        let mut v = Vec::new();
        let k = width - h.len();
        for i in 0..k
            invariant
                v@ == Seq::new(i as nat, |j: int| '0'),
        {
            v.push('0');
            assert(v@ =~= Seq::new((i + 1) as nat, |j: int| '0'));
        }
        for i in 0..h.len()
            invariant
                v@ == Seq::new(k as nat, |j: int| '0') + h@.take(i as int),
        {
            v.push(h[i]);
            assert(h@.take(i + 1) == h@.take(i as int).push(h@[i as int]));
        }
        assert(h@.take(h.len() as int) == h@);
        v
    }
}

} // verus!

verus! {

/// What `String::from_utf8_lossy` gives for `b`: its UTF-8 text, with each
/// invalid sequence replaced by U+FFFD.
pub uninterp spec fn utf8_lossy(b: Seq<u8>) -> Seq<char>;

/// `String::from_utf8_lossy(b)`, owned. Claimed: the result is
/// `utf8_lossy(b)`, and for bytes that are all ASCII it is those bytes as
/// characters (ASCII is valid UTF-8 and is kept as it is).
#[verifier::external_body]
pub fn from_utf8_lossy(b: &[u8]) -> (s: String)
    ensures
        s@ == utf8_lossy(b@),
        (forall|i: int| 0 <= i < b@.len() ==> b@[i] < 128) ==> s@ == Seq::new(
            b@.len(),
            |i: int| b@[i] as char,
        ),
{
    String::from_utf8_lossy(b).into_owned()
}

} // verus!
