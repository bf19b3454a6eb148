//! Reading Python string literals back: what the body of a quoted literal
//! stands for, under the escapes that repr() writes.

use vstd::prelude::*;
use crate::text::{hex, hex_char, zero_pad};

verus! {

/// The value of a hexadecimal digit, or -1 for another character.
pub open spec fn hex_digit_val(c: char) -> int {
    let u = c as u32;
    if 0x30 <= u <= 0x39 {
        u - 0x30
    } else if 0x61 <= u <= 0x66 {
        u - 0x57
    } else if 0x41 <= u <= 0x46 {
        u - 0x37
    } else {
        -1
    }
}

/// Whether every character of `s` is a hexadecimal digit.
pub open spec fn all_hex(s: Seq<char>) -> bool {
    forall|i: int| 0 <= i < s.len() ==> #[trigger] hex_digit_val(s[i]) >= 0
}

/// The number that the hexadecimal digits `s` write.
pub open spec fn hex_val(s: Seq<char>) -> int
    decreases s.len(),
{
    if s.len() == 0 {
        0
    } else {
        hex_val(s.drop_last()) * 16 + hex_digit_val(s.last())
    }
}

/// The character that a one-letter escape `\c` stands for.
pub open spec fn simple_escape(c: char) -> Option<char> {
    if c == '\\' {
        Some('\\')
    } else if c == '\'' {
        Some('\'')
    } else if c == '"' {
        Some('"')
    } else if c == 't' {
        Some('\t')
    } else if c == 'n' {
        Some('\n')
    } else if c == 'r' {
        Some('\r')
    } else {
        None
    }
}

/// How many hexadecimal digits follow `\c` in a str literal: 2 for `\x`,
/// 4 for `\u`, 8 for `\U`; 0 where `c` starts no such escape.
pub open spec fn hex_escape_len(c: char) -> int {
    if c == 'x' {
        2
    } else if c == 'u' {
        4
    } else if c == 'U' {
        8
    } else {
        0
    }
}

/// Whether the body `t` of a str literal quoted with `quote` stands for
/// the text `s`: a character other than a backslash, the quote or a line
/// break stands for itself; `\\`, `\'`, `\"`, `\t`, `\n`, `\r` for the
/// character they name; `\xHH`, `\uHHHH`, `\UHHHHHHHH` for the character
/// with that code.
pub open spec fn str_literal_denotes(t: Seq<char>, s: Seq<char>, quote: char) -> bool
    decreases t.len(),
{
    if t.len() == 0 {
        s.len() == 0
    } else if s.len() == 0 {
        false
    } else if t[0] != '\\' {
        &&& t[0] != quote
        &&& t[0] != '\n'
        &&& t[0] != '\r'
        &&& t[0] == s[0]
        &&& str_literal_denotes(t.skip(1), s.skip(1), quote)
    } else if t.len() < 2 {
        false
    } else if simple_escape(t[1]) is Some {
        &&& s[0] == simple_escape(t[1])->0
        &&& str_literal_denotes(t.skip(2), s.skip(1), quote)
    } else if hex_escape_len(t[1]) > 0 && t.len() >= 2 + hex_escape_len(t[1]) {
        let n = hex_escape_len(t[1]);
        &&& all_hex(t.subrange(2, 2 + n))
        &&& s[0] as int == hex_val(t.subrange(2, 2 + n))
        &&& str_literal_denotes(t.skip(2 + n), s.skip(1), quote)
    } else {
        false
    }
}

/// Whether the body `t` of a bytes literal quoted with `quote` stands for
/// the bytes `b`: an ASCII character other than a backslash, the quote or a
/// line break stands for its code; `\\`, `\'`, `\"`, `\t`, `\n`, `\r` for
/// the byte they name; `\xHH` for the byte with that value.
pub open spec fn bytes_literal_denotes(t: Seq<char>, b: Seq<u8>, quote: char) -> bool
    decreases t.len(),
{
    if t.len() == 0 {
        b.len() == 0
    } else if b.len() == 0 {
        false
    } else if t[0] != '\\' {
        &&& (t[0] as u32) < 0x80
        &&& t[0] != quote
        &&& t[0] != '\n'
        &&& t[0] != '\r'
        &&& t[0] as u32 == b[0] as u32
        &&& bytes_literal_denotes(t.skip(1), b.skip(1), quote)
    } else if t.len() < 2 {
        false
    } else if simple_escape(t[1]) is Some {
        &&& b[0] as u32 == simple_escape(t[1])->0 as u32
        &&& bytes_literal_denotes(t.skip(2), b.skip(1), quote)
    } else if t[1] == 'x' && t.len() >= 4 {
        &&& all_hex(t.subrange(2, 4))
        &&& b[0] as int == hex_val(t.subrange(2, 4))
        &&& bytes_literal_denotes(t.skip(4), b.skip(1), quote)
    } else {
        false
    }
}

/// The character that a one-letter escape `\c` stands for in JSON.
pub open spec fn json_simple_escape(c: char) -> Option<char> {
    if c == '"' {
        Some('"')
    } else if c == '\\' {
        Some('\\')
    } else if c == '/' {
        Some('/')
    } else if c == 'b' {
        Some('\x08')
    } else if c == 'f' {
        Some('\x0c')
    } else if c == 'n' {
        Some('\n')
    } else if c == 'r' {
        Some('\r')
    } else if c == 't' {
        Some('\t')
    } else {
        None
    }
}

/// Whether the body `t` of a JSON string (between its quotes) stands for
/// the text `s` (RFC 8259): a character other than '"', a backslash or a
/// control character stands for itself; `\"`, `\\`, `\/`, `\b`, `\f`,
/// `\n`, `\r`, `\t` for the character they name; `\uXXXX` for the
/// character with that code.
pub open spec fn json_string_denotes(t: Seq<char>, s: Seq<char>) -> bool
    decreases t.len(),
{
    if t.len() == 0 {
        s.len() == 0
    } else if s.len() == 0 {
        false
    } else if t[0] != '\\' {
        &&& t[0] != '"'
        &&& (t[0] as u32) >= 0x20
        &&& t[0] == s[0]
        &&& json_string_denotes(t.skip(1), s.skip(1))
    } else if t.len() < 2 {
        false
    } else if json_simple_escape(t[1]) is Some {
        &&& s[0] == json_simple_escape(t[1])->0
        &&& json_string_denotes(t.skip(2), s.skip(1))
    } else if t[1] == 'u' && t.len() >= 6 {
        &&& all_hex(t.subrange(2, 6))
        &&& s[0] as int == hex_val(t.subrange(2, 6))
        &&& json_string_denotes(t.skip(6), s.skip(1))
    } else {
        false
    }
}

/// 16 to the power `k`.
pub open spec fn pow16(k: nat) -> int
    decreases k,
{
    if k == 0 {
        1
    } else {
        16 * pow16((k - 1) as nat)
    }
}

proof fn lemma_hex_char_val(d: int)
    requires
        0 <= d < 16,
    ensures
        hex_digit_val(hex_char(d)) == d,
{
}

pub proof fn lemma_hex_digits(n: nat)
    ensures
        all_hex(hex(n)),
        hex_val(hex(n)) == n,
        hex(n).len() >= 1,
    decreases n,
{
    if n < 16 {
        lemma_hex_char_val(n as int);
        assert(hex(n).drop_last() =~= Seq::<char>::empty());
        assert(hex_val(hex(n)) == hex_val(Seq::<char>::empty()) * 16 + hex_digit_val(hex(n).last()));
    } else {
        lemma_hex_digits(n / 16);
        lemma_hex_char_val((n % 16) as int);
        let h = hex(n / 16).push(hex_char((n % 16) as int));
        assert(hex(n) == h);
        assert(h.drop_last() =~= hex(n / 16));
        assert(hex_val(h) == hex_val(hex(n / 16)) * 16 + hex_digit_val(h.last()));
        vstd::arithmetic::div_mod::lemma_fundamental_div_mod(n as int, 16);
        assert forall|i: int| 0 <= i < h.len() implies #[trigger] hex_digit_val(h[i]) >= 0 by {
            if i < h.len() - 1 {
                assert(h[i] == hex(n / 16)[i]);
            }
        }
    }
}

pub proof fn lemma_hex_len(n: nat, k: nat)
    requires
        k >= 1,
        n < pow16(k),
    ensures
        hex(n).len() <= k,
    decreases k,
{
    if n >= 16 {
        assert(k >= 2) by {
            if k == 1 {
                assert(pow16(0) == 1);
            }
        }
        let p = pow16((k - 1) as nat);
        assert(n / 16 < p) by (nonlinear_arith)
            requires
                n < 16 * p,
                p >= 1,
        ;
        lemma_hex_len(n / 16, (k - 1) as nat);
    }
}

proof fn lemma_zero_prefix(m: nat, s: Seq<char>)
    ensures
        hex_val(Seq::new(m, |i: int| '0') + s) == hex_val(s),
        all_hex(s) ==> all_hex(Seq::new(m, |i: int| '0') + s),
    decreases s.len(),
{
    let z = Seq::new(m, |i: int| '0');
    if s.len() == 0 {
        assert(z + s =~= z);
        lemma_zeros(m);
    } else {
        lemma_zero_prefix(m, s.drop_last());
        assert((z + s).drop_last() =~= z + s.drop_last());
    }
    if all_hex(s) {
        assert forall|i: int| 0 <= i < (z + s).len() implies #[trigger] hex_digit_val((z + s)[i]) >= 0 by {
            if i >= m {
                assert((z + s)[i] == s[i - m]);
            }
        }
    }
}

proof fn lemma_zeros(m: nat)
    ensures
        hex_val(Seq::new(m, |i: int| '0')) == 0,
    decreases m,
{
    if m > 0 {
        lemma_zeros((m - 1) as nat);
        assert(Seq::new(m, |i: int| '0').drop_last() =~= Seq::new((m - 1) as nat, |i: int| '0'));
    }
}

/// The `k` zero-padded hexadecimal digits of `n < 16^k` read back as `n`.
pub proof fn lemma_padded_hex(n: nat, k: nat)
    requires
        k >= 1,
        n < pow16(k),
    ensures
        zero_pad(hex(n), k).len() == k,
        all_hex(zero_pad(hex(n), k)),
        hex_val(zero_pad(hex(n), k)) == n,
{
    lemma_hex_digits(n);
    lemma_hex_len(n, k);
    if hex(n).len() < k {
        lemma_zero_prefix((k - hex(n).len()) as nat, hex(n));
    }
}

} // verus!
