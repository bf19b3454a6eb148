//! PSB reader: the PSB container of a .pimg file and its value tree, with
//! Python's forgiving slicing (reads past the end yield short or empty data)
//! and its recursion limit.

use vstd::prelude::*;
use crate::error::{index_error, recursion_error, struct_short, struct_short_msg, ErrV, PyErr, R};
use crate::text::{dec, dec_u128, from_utf8_lossy, hex, hex_pad, hex_u64, push_chars, utf8_lossy, zero_pad};
use crate::value::{dict_insert, val_view, vals_view, Binary, Dict, Val, ValV};

verus! {

/// `s[a:b]` for non-negative `a` and `b`, with Python's clamping.
pub open spec fn py_slice(s: Seq<u8>, a: int, b: int) -> Seq<u8> {
    let lo = if a < s.len() { a } else { s.len() as int };
    let hi = if b < lo { lo } else if b > s.len() { s.len() as int } else { b };
    s.subrange(lo, hi)
}

/// data[a:b] with Python slice clamping.
pub fn slice(data: &[u8], a: u64, b: u64) -> (r: &[u8])
    ensures
        r@ == py_slice(data@, a as int, b as int),
{
    let len = data.len() as u64;
    let a = if a < len { a } else { len };
    let b = if b < a { a } else if b > len { len } else { b };
    &data[a as usize..b as usize]
}

/// data[p] (IndexError if out of range).
pub fn byte(data: &[u8], p: u64) -> (r: R<u8>)
    ensures
        p < data@.len() ==> r == Ok::<u8, PyErr>(data@[p as int]),
        p >= data@.len() ==> (r matches Err(e) && e@ == ErrV::Index("index out of range"@)),
{
    if p < data.len() as u64 {
        Ok(data[p as usize])
    } else {
        Err(index_error())
    }
}

/// 256 to the power `n`.
pub open spec fn p256(n: nat) -> nat
    decreases n,
{
    if n == 0 {
        1
    } else {
        256 * p256((n - 1) as nat)
    }
}

/// int.from_bytes(s, 'little')
pub open spec fn le_val(s: Seq<u8>) -> nat
    decreases s.len(),
{
    if s.len() == 0 {
        0
    } else {
        (s[0] + 256 * le_val(s.drop_first())) as nat
    }
}

/// int.from_bytes(s, 'little', signed=True)
pub open spec fn le_sval(s: Seq<u8>) -> int {
    if s.len() == 0 {
        0
    } else if le_val(s) * 2 >= p256(s.len()) {
        le_val(s) - p256(s.len())
    } else {
        le_val(s) as int
    }
}

pub proof fn lemma_le_val_bound(s: Seq<u8>)
    ensures
        le_val(s) < p256(s.len()),
        p256(s.len()) > 0,
    decreases s.len(),
{
    if s.len() > 0 {
        lemma_le_val_bound(s.drop_first());
    }
}

pub proof fn lemma_p256_8()
    ensures
        p256(8) == 0x1_0000_0000_0000_0000,
        p256(4) == 0x1_0000_0000,
{
    reveal_with_fuel(p256, 9);
}

pub proof fn lemma_p256_mono(a: nat, b: nat)
    requires
        a <= b,
    ensures
        p256(a) <= p256(b),
    decreases b,
{
    if a < b {
        lemma_p256_mono(a, (b - 1) as nat);
    }
}

/// le_val of the bytes from `i` on, built from the last byte down.
proof fn lemma_le_val_step(s: Seq<u8>, i: int)
    requires
        0 <= i < s.len(),
    ensures
        le_val(s.subrange(i, s.len() as int)) == s[i] + 256 * le_val(s.subrange(i + 1, s.len() as int)),
{
    assert(s.subrange(i, s.len() as int).drop_first() =~= s.subrange(i + 1, s.len() as int));
}

/// int.from_bytes(s, 'little') for len(s) <= 8
pub fn le_uint(s: &[u8]) -> (v: u64)
    requires
        s@.len() <= 8,
    ensures
        v == le_val(s@),
{
    let mut acc: u64 = 0;
    let mut i = s.len();
    proof {
        lemma_p256_8();
        lemma_p256_mono(s@.len(), 8);
    }
    while i > 0
        invariant
            0 <= i <= s@.len() <= 8,
            acc == le_val(s@.subrange(i as int, s@.len() as int)),
            p256(s@.len()) <= 0x1_0000_0000_0000_0000,
        decreases i,
    {
        i -= 1;
        proof {
            lemma_le_val_step(s@, i as int);
            lemma_le_val_bound(s@.subrange(i as int, s@.len() as int));
            lemma_p256_mono((s@.len() - i) as nat, s@.len());
        }
        acc = acc * 256 + s[i] as u64;
    }
    assert(s@.subrange(0, s@.len() as int) =~= s@);
    acc
}

/// int.from_bytes(s, 'little', signed=True) for len(s) <= 8
pub fn le_int(s: &[u8]) -> (v: i64)
    requires
        s@.len() <= 8,
    ensures
        v == le_sval(s@),
{
    if s.len() == 0 {
        return 0;
    }
    let v = le_uint(s);
    let mut p: u128 = 1;
    let mut i: usize = 0;
    proof {
        lemma_p256_8();
        lemma_p256_mono(s@.len(), 8);
    }
    while i < s.len()
        invariant
            0 <= i <= s@.len() <= 8,
            p == p256(i as nat),
        decreases s@.len() - i,
    {
        proof {
            lemma_p256_mono((i + 1) as nat, 8);
            lemma_p256_8();
            assert(p256((i + 1) as nat) == 256 * p256(i as nat));
        }
        p = p * 256;
        i += 1;
    }
    proof {
        lemma_le_val_bound(s@);
    }
    if (v as u128) * 2 >= p {
        ((v as i128) - (p as i128)) as i64
    } else {
        v as i64
    }
}


/// The little-endian 32-bit number at `o`.
pub open spec fn le32(s: Seq<u8>, o: int) -> int {
    s[o] + 256 * s[o + 1] + 65536 * s[o + 2] + 16777216 * s[o + 3]
}

/// The little-endian 16-bit number at `o`.
pub open spec fn le16(s: Seq<u8>, o: int) -> int {
    s[o] + 256 * s[o + 1]
}

fn rd16(d: &[u8], o: usize) -> (v: u16)
    requires
        o + 2 <= d@.len(),
    ensures
        v == le16(d@, o as int),
{
    d[o] as u16 + d[o + 1] as u16 * 256
}

fn rd32(d: &[u8], o: usize) -> (v: u64)
    requires
        o + 4 <= d@.len(),
    ensures
        v == le32(d@, o as int),
        v < 0x1_0000_0000,
{
    d[o] as u64 + d[o + 1] as u64 * 256 + d[o + 2] as u64 * 65536 + d[o + 3] as u64 * 16777216
}

/// The type byte of a dictionary value.
pub const PSB_TYPE_DICT: u8 = 0x21;

/// Python's default recursion limit: a call that would make the stack
/// deeper than this many frames raises RecursionError.
pub const MAX_FRAMES: u32 = 1000;

pub open spec fn recursion_errv() -> ErrV {
    ErrV::Fatal { kind: "RecursionError"@, msg: "maximum recursion depth exceeded"@ }
}

/// Raise RecursionError if a Python function called at stack depth `frame`
/// would exceed the recursion limit.
pub fn call(frame: u32) -> (r: R<()>)
    ensures
        frame <= MAX_FRAMES ==> r is Ok,
        frame > MAX_FRAMES ==> (r matches Err(e) && e@ == recursion_errv()),
{
    if frame > MAX_FRAMES {
        Err(recursion_error())
    } else {
        Ok(())
    }
}

/// `s[a:b]` for positions beyond the 64-bit range as well.
fn slice_wide(data: &[u8], a: u128, b: u128) -> (r: &[u8])
    ensures
        r@ == py_slice(data@, a as int, b as int),
{
    let len = data.len() as u128;
    let a = if a < len { a } else { len };
    let b = if b < a { a } else if b > len { len } else { b };
    &data[a as usize..b as usize]
}

/// A typed array of the PSB file: `count` little-endian numbers of `size`
/// bytes each, starting at `code`; `nbytes` is its whole length.
pub struct ArrV {
    pub count: int,
    pub size: int,
    pub code: int,
    pub nbytes: int,
}

pub open spec fn array_header_msg(t: u8, p: int) -> Seq<char> {
    "psb: invalid array header 0x"@ + zero_pad(hex(t as nat), 2) + " at 0x"@ + hex(p as nat)
}

pub open spec fn array_size_msg(p: int) -> Seq<char> {
    "psb: invalid array element size at 0x"@ + hex(p as nat)
}

/// The array that starts at `p`: a type byte 13..16 that gives the width
/// of the count, the count, a byte 13..16 that gives the element size,
/// then the elements.
pub open spec fn spec_array(data: Seq<u8>, p: int) -> Result<ArrV, ErrV> {
    if p >= data.len() {
        Err(ErrV::Index("index out of range"@))
    } else if !(13 <= data[p] <= 16) {
        Err(ErrV::Pimg(array_header_msg(data[p], p)))
    } else {
        let l = data[p] - 11;
        let count = le_val(py_slice(data, p + 1, p + l));
        if p + l >= data.len() {
            Err(ErrV::Index("index out of range"@))
        } else if !(13 <= data[p + l] <= 16) {
            Err(ErrV::Pimg(array_size_msg(p)))
        } else {
            let size = data[p + l] - 12;
            Ok(ArrV { count: count as int, size, code: p + l + 1, nbytes: count * size + l + 1 })
        }
    }
}

/// a[i] (no bounds check: past the end it reads what is there)
pub open spec fn arr_get(data: Seq<u8>, a: ArrV, i: int) -> int {
    le_val(py_slice(data, a.code + i * a.size, a.code + i * a.size + a.size)) as int
}

pub open spec fn arr_wf(a: ArrV) -> bool {
    &&& 0 <= a.count < 0x1_0000_0000
    &&& 1 <= a.size <= 4
    &&& 0 <= a.code < 0x4_0000_0000_0000_0000
    &&& 0 <= a.nbytes < 0x10_0000_0000
}

/// A typed array of the PSB file (see `ArrV`).
pub struct PsbArray {
    pub count: u64,
    pub size: u64,
    pub code: u128,
    pub nbytes: u64,
}

impl PsbArray {
    pub open spec fn view(&self) -> ArrV {
        ArrV { count: self.count as int, size: self.size as int, code: self.code as int, nbytes: self.nbytes as int }
    }

    fn new(data: &[u8], p: u128) -> (r: R<PsbArray>)
        requires
            p < 0x2_0000_0000_0000_0000,
        ensures
            match spec_array(data@, p as int) {
                Ok(a) => r matches Ok(x) && x.view() == a && arr_wf(a),
                Err(e) => r matches Err(e2) && e2@ == e,
            },
    {
        if p >= data.len() as u128 {
            return Err(index_error());
        }
        let t = data[p as usize];
        if !(13 <= t && t <= 16) {
            let mut m = String::from_str("psb: invalid array header 0x");
            push_chars(&mut m, hex_pad(t as u64, 2).as_slice());
            m.append(" at 0x");
            push_chars(&mut m, hex_u64(p as u64).as_slice());
            return Err(PyErr::Pimg(m));
        }
        let l = (t - 11) as u128;
        let cs = slice_wide(data, p + 1, p + l);
        proof {
            lemma_le_val_bound(cs@);
            lemma_p256_mono(cs@.len(), 4);
            lemma_p256_8();
        }
        let count = le_uint(cs);
        if p + l >= data.len() as u128 {
            return Err(index_error());
        }
        let sb = data[(p + l) as usize];
        if !(13 <= sb && sb <= 16) {
            let mut m = String::from_str("psb: invalid array element size at 0x");
            push_chars(&mut m, hex_u64(p as u64).as_slice());
            return Err(PyErr::Pimg(m));
        }
        let size = (sb - 12) as u64;
        assert(cs@.len() <= 4);
        assert(count * size < 0x4_0000_0000) by (nonlinear_arith)
            requires
                count < 0x1_0000_0000,
                size <= 4,
        ;
        Ok(PsbArray { count, size, code: p + l + 1, nbytes: count * size + l as u64 + 1 })
    }

    /// a[i] (no bounds check: past the end it reads what is there)
    fn get(&self, data: &[u8], i: u64) -> (v: u64)
        requires
            arr_wf(self.view()),
            i < 0x1_0000_0000,
        ensures
            v == arr_get(data@, self.view(), i as int),
            v < 0x1_0000_0000,
    {
        assert(i * self.size < 0x4_0000_0000) by (nonlinear_arith)
            requires
                i < 0x1_0000_0000,
                self.size <= 4,
        ;
        let o = self.code + i as u128 * self.size as u128;
        let s = slice_wide(data, o, o + self.size as u128);
        proof {
            lemma_le_val_bound(s@);
            lemma_p256_mono(s@.len(), 4);
            lemma_p256_8();
        }
        le_uint(s)
    }
}


/// The signature "mdf\0" of a zlib-compressed PSB file.
pub open spec fn is_mdf(d: Seq<u8>) -> bool {
    d.len() >= 4 && d[0] == 0x6d && d[1] == 0x64 && d[2] == 0x66 && d[3] == 0
}

/// What an inflation result holds, with its text as characters.
pub open spec fn inflated_view(r: Result<Vec<u8>, String>) -> Result<Seq<u8>, Seq<char>> {
    match r {
        Ok(v) => Ok(v@),
        Err(m) => Err(m@),
    }
}

/// An mdf container: "mdf\0", the size of the PSB data as a 32-bit number,
/// then the zlib stream; `inflated` is what decompressing that stream gave.
pub open spec fn spec_unpack_mdf(data: Seq<u8>, inflated: Result<Seq<u8>, Seq<char>>) -> Result<Seq<u8>, ErrV> {
    if data.len() <= 10 {
        Err(ErrV::Pimg("mdf: file too small"@))
    } else {
        match inflated {
            Err(m) => Err(ErrV::Pimg("mdf: zlib decompression failed ("@ + m + ")"@)),
            Ok(out) => if out.len() != le32(data, 4) {
                Err(ErrV::Pimg("mdf: size mismatch (header "@ + dec(le32(data, 4) as nat) + ", actual "@
                    + dec(out.len()) + ")"@))
            } else {
                Ok(out)
            },
        }
    }
}

/// Unpacks an mdf container. `inflated` is what zlib's decompress gave for
/// `data[8..]`; where `data` is 10 bytes long or less it is not looked at.
pub fn unpack_mdf(data: &[u8], inflated: Result<Vec<u8>, String>) -> (r: R<Vec<u8>>)
    ensures
        match spec_unpack_mdf(data@, inflated_view(inflated)) {
            Ok(d) => r matches Ok(v) && v@ == d,
            Err(e) => r matches Err(e2) && e2@ == e,
        },
{
    if data.len() <= 10 {
        return Err(PyErr::Pimg(String::from_str("mdf: file too small")));
    }
    let size = rd32(data, 4);
    match inflated {
        Err(m) => {
            let mut s = String::from_str("mdf: zlib decompression failed (");
            s.append(m.as_str());
            s.append(")");
            Err(PyErr::Pimg(s))
        },
        Ok(out) => {
            if out.len() as u64 != size {
                let mut s = String::from_str("mdf: size mismatch (header ");
                push_chars(&mut s, dec_u128(size as u128).as_slice());
                s.append(", actual ");
                push_chars(&mut s, dec_u128(out.len() as u128).as_slice());
                s.append(")");
                Err(PyErr::Pimg(s))
            } else {
                Ok(out)
            }
        },
    }
}

/// The fixed part of a PSB file: the pools, the root and the tables.
pub struct HdrV {
    pub p_str_pool: int,
    pub p_bin_pool: int,
    pub p_root: int,
    pub a1: ArrV,
    pub a2: ArrV,
    pub a3: ArrV,
    pub str_offsets: ArrV,
    pub bin_offsets: ArrV,
    pub bin_sizes: ArrV,
}

pub open spec fn psb_magic() -> Seq<u8> {
    seq![0x50u8, 0x53, 0x42, 0x00]
}

/// The header of the PSB data `data`: "PSB\0", version 2 or 3, no
/// encryption flag, and the name, string and binary tables.
pub open spec fn spec_header(data: Seq<u8>) -> Result<HdrV, ErrV> {
    if data.len() < 64 || data.subrange(0, 4) != psb_magic() {
        Err(ErrV::Pimg("not a PSB/PIMG file"@))
    } else if le16(data, 4) != 2 && le16(data, 4) != 3 {
        Err(ErrV::Pimg("unsupported PSB version "@ + dec(le16(data, 4) as nat)))
    } else if le16(data, 6) % 4 != 0 || le32(data, 36) >= data.len() || data[le32(data, 36)] != 0x21 {
        Err(ErrV::Pimg("encrypted PSB is not supported"@))
    } else {
        let p = le32(data, 12);
        match spec_array(data, p) {
            Err(e) => Err(e),
            Ok(a1) => match spec_array(data, p + a1.nbytes) {
                Err(e) => Err(e),
                Ok(a2) => match spec_array(data, p + a1.nbytes + a2.nbytes) {
                    Err(e) => Err(e),
                    Ok(a3) => match spec_array(data, le32(data, 16)) {
                        Err(e) => Err(e),
                        Ok(so) => match spec_array(data, le32(data, 24)) {
                            Err(e) => Err(e),
                            Ok(bo) => match spec_array(data, le32(data, 28)) {
                                Err(e) => Err(e),
                                Ok(bs) => Ok(
                                    HdrV {
                                        p_str_pool: le32(data, 20),
                                        p_bin_pool: le32(data, 32),
                                        p_root: le32(data, 36),
                                        a1,
                                        a2,
                                        a3,
                                        str_offsets: so,
                                        bin_offsets: bo,
                                        bin_sizes: bs,
                                    },
                                ),
                            },
                        },
                    },
                },
            },
        }
    }
}

/// The PSB data of a file: unpacked first where it is an mdf container.
pub open spec fn spec_psb_data(data: Seq<u8>, inflated: Result<Seq<u8>, Seq<char>>) -> Result<Seq<u8>, ErrV> {
    if is_mdf(data) {
        spec_unpack_mdf(data, inflated)
    } else {
        Ok(data)
    }
}

/// An open PSB file.
pub struct PsbFile {
    data: Vec<u8>,
    p_str_pool: u64,
    p_bin_pool: u64,
    p_root: u64,
    name_a1: PsbArray,
    name_a2: PsbArray,
    name_a3: PsbArray,
    str_offsets: PsbArray,
    bin_offsets: PsbArray,
    bin_sizes: PsbArray,
}

impl PsbFile {
    /// The PSB data.
    pub closed spec fn data_view(&self) -> Seq<u8> {
        self.data@
    }

    /// The header: pool and root positions and the tables.
    pub closed spec fn hdr(&self) -> HdrV {
        HdrV {
            p_str_pool: self.p_str_pool as int,
            p_bin_pool: self.p_bin_pool as int,
            p_root: self.p_root as int,
            a1: self.name_a1.view(),
            a2: self.name_a2.view(),
            a3: self.name_a3.view(),
            str_offsets: self.str_offsets.view(),
            bin_offsets: self.bin_offsets.view(),
            bin_sizes: self.bin_sizes.view(),
        }
    }

    /// The tables are well formed and the positions in range, for every
    /// file that `new` opened.
    #[verifier::type_invariant]
    spec fn wf(&self) -> bool {
        &&& arr_wf(self.name_a1.view())
        &&& arr_wf(self.name_a2.view())
        &&& arr_wf(self.name_a3.view())
        &&& arr_wf(self.str_offsets.view())
        &&& arr_wf(self.bin_offsets.view())
        &&& arr_wf(self.bin_sizes.view())
        &&& self.p_str_pool < 0x1_0000_0000
        &&& self.p_bin_pool < 0x1_0000_0000
        &&& self.p_root < 0x1_0000_0000
    }

    /// Opens a PSB file. `inflated` is what zlib's decompress gave for
    /// `data[8..]`; it is looked at only where `data` is an mdf container of
    /// more than 10 bytes.
    #[verifier::rlimit(40)]
    pub fn new(data: Vec<u8>, inflated: Result<Vec<u8>, String>) -> (r: R<PsbFile>)
        ensures
            match spec_psb_data(data@, inflated_view(inflated)) {
                Err(e) => r matches Err(e2) && e2@ == e,
                Ok(d) => match spec_header(d) {
                    Ok(h) => r matches Ok(f) && f.data_view() == d && f.hdr() == h,
                    Err(e) => r matches Err(e2) && e2@ == e,
                },
            },
    {
        let is_mdf = data.len() >= 4 && data[0] == 0x6d && data[1] == 0x64 && data[2] == 0x66 && data[3] == 0;
        let data = if is_mdf {
            match unpack_mdf(data.as_slice(), inflated) {
                Ok(d) => d,
                Err(e) => {
                    return Err(e);
                },
            }
        } else {
            data
        };
        let ok_magic = data.len() >= 64 && data[0] == 0x50 && data[1] == 0x53 && data[2] == 0x42 && data[3] == 0;
        proof {
            if data@.len() >= 64 {
                let s = data@.subrange(0, 4);
                if ok_magic {
                    assert(s =~= psb_magic());
                } else if s == psb_magic() {
                    assert(s[0] == 0x50 && s[1] == 0x53 && s[2] == 0x42 && s[3] == 0);
                }
            }
        }
        if !ok_magic {
            return Err(PyErr::Pimg(String::from_str("not a PSB/PIMG file")));
        }
        let d = data.as_slice();
        let version = rd16(d, 4);
        let flag = rd16(d, 6);
        if version != 2 && version != 3 {
            let mut s = String::from_str("unsupported PSB version ");
            push_chars(&mut s, dec_u128(version as u128).as_slice());
            return Err(PyErr::Pimg(s));
        }
        let p_str_index = rd32(d, 12);
        let p_str_offset = rd32(d, 16);
        let p_str_pool = rd32(d, 20);
        let p_bin_offset = rd32(d, 24);
        let p_bin_size = rd32(d, 28);
        let p_bin_pool = rd32(d, 32);
        let p_root = rd32(d, 36);
        assert((flag & 3 != 0) == (flag % 4 != 0)) by (bit_vector);
        if (flag & 3) != 0 || p_root >= d.len() as u64 || d[p_root as usize] != PSB_TYPE_DICT {
            return Err(PyErr::Pimg(String::from_str("encrypted PSB is not supported")));
        }
        let mut p = p_str_index as u128;
        let name_a1 = match PsbArray::new(d, p) {
            Ok(a) => a,
            Err(e) => {
                return Err(e);
            },
        };
        p = p + name_a1.nbytes as u128;
        let name_a2 = match PsbArray::new(d, p) {
            Ok(a) => a,
            Err(e) => {
                return Err(e);
            },
        };
        p = p + name_a2.nbytes as u128;
        let name_a3 = match PsbArray::new(d, p) {
            Ok(a) => a,
            Err(e) => {
                return Err(e);
            },
        };
        let str_offsets = match PsbArray::new(d, p_str_offset as u128) {
            Ok(a) => a,
            Err(e) => {
                return Err(e);
            },
        };
        let bin_offsets = match PsbArray::new(d, p_bin_offset as u128) {
            Ok(a) => a,
            Err(e) => {
                return Err(e);
            },
        };
        let bin_sizes = match PsbArray::new(d, p_bin_size as u128) {
            Ok(a) => a,
            Err(e) => {
                return Err(e);
            },
        };
        Ok(
            PsbFile {
                data,
                p_str_pool,
                p_bin_pool,
                p_root,
                name_a1,
                name_a2,
                name_a3,
                str_offsets,
                bin_offsets,
                bin_sizes,
            },
        )
    }
}


/// The bytes of a name, last byte first: the name tables link each byte to
/// the one before it. `Err` where the chain runs past 2**28 bytes (a
/// cyclic table), where the chain never ends and CPython runs out of memory.
pub open spec fn name_walk(data: Seq<u8>, h: HdrV, c1: int, k: int) -> Result<Seq<u8>, ()>
    decreases 0x1000_0000 - k,
{
    if c1 == 0 {
        Ok(seq![])
    } else if k >= 0x1000_0000 || k < 0 {
        Err(())
    } else {
        let c2 = arr_get(data, h.a2, c1);
        let b = ((c1 - arr_get(data, h.a1, c2)) % 256) as u8;
        match name_walk(data, h, c2, k + 1) {
            Ok(r) => Ok(seq![b] + r),
            Err(_) => Err(()),
        }
    }
}

pub open spec fn memory_errv() -> ErrV {
    ErrV::Fatal { kind: "MemoryError"@, msg: Seq::<char>::empty() }
}

/// The name with index `idx`.
pub open spec fn spec_name(data: Seq<u8>, h: HdrV, idx: int) -> Result<Seq<char>, ErrV> {
    match name_walk(data, h, arr_get(data, h.a2, arr_get(data, h.a3, idx)), 0) {
        Ok(bs) => Ok(utf8_lossy(bs.reverse())),
        Err(_) => Err(memory_errv()),
    }
}

/// The position of the first zero byte of `s` from `i` on, or -1.
pub open spec fn zero_pos(s: Seq<u8>, i: int) -> int
    decreases s.len() - i,
{
    if i < 0 || i >= s.len() {
        -1
    } else if s[i] == 0 {
        i
    } else {
        zero_pos(s, i + 1)
    }
}

/// The string with index `idx`: the zero-terminated text at its offset in
/// the string pool.
pub open spec fn spec_string(data: Seq<u8>, h: HdrV, idx: int) -> Result<Seq<char>, ErrV> {
    let s = h.p_str_pool + arr_get(data, h.str_offsets, idx);
    let rest = if s < data.len() { data.subrange(s, data.len() as int) } else { seq![] };
    let e = zero_pos(rest, 0);
    if e < 0 {
        Err(ErrV::Value("subsection not found"@))
    } else {
        Ok(utf8_lossy(rest.subrange(0, e)))
    }
}

pub open spec fn unknown_type_msg(t: u8, p: int) -> Seq<char> {
    "psb: unknown value type 0x"@ + zero_pad(hex(t as nat), 2) + " at 0x"@ + hex(p as nat)
}

/// The value at `p`, parsed by a Python function running as stack frame
/// number `frame` (nested lists and dictionaries parse their members one
/// frame deeper, and parsing fails with RecursionError past the limit).
pub open spec fn spec_value(data: Seq<u8>, h: HdrV, p: int, frame: int) -> Result<ValV, ErrV>
    decreases 1001 - frame, 0int,
{
    if p < 0 || p >= data.len() {
        Err(ErrV::Index("index out of range"@))
    } else {
        let t = data[p];
        if t <= 1 {
            Ok(ValV::Null)
        } else if t == 2 {
            Ok(ValV::Bool(true))
        } else if t == 3 {
            Ok(ValV::Bool(false))
        } else if t == 4 {
            Ok(ValV::Int(0))
        } else if t <= 12 {
            Ok(ValV::Int(le_sval(py_slice(data, p + 1, p + t - 3)) as i64))
        } else if t == 29 {
            Ok(ValV::F64(0))
        } else if t == 30 {
            if data.len() < p + 5 {
                Err(ErrV::Struct(struct_short_msg((p + 1) as nat, 4, data.len())))
            } else {
                Ok(ValV::F32(le_val(data.subrange(p + 1, p + 5)) as u32))
            }
        } else if t == 31 {
            if data.len() < p + 9 {
                Err(ErrV::Struct(struct_short_msg((p + 1) as nat, 8, data.len())))
            } else {
                Ok(ValV::F64(le_val(data.subrange(p + 1, p + 9)) as u64))
            }
        } else if 21 <= t <= 24 {
            if frame + 2 > 1000 {
                Err(recursion_errv())
            } else {
                match spec_string(data, h, le_val(py_slice(data, p + 1, p + t - 19)) as int) {
                    Ok(s) => Ok(ValV::Str(s)),
                    Err(e) => Err(e),
                }
            }
        } else if 25 <= t <= 28 {
            if frame + 1 > 1000 {
                Err(recursion_errv())
            } else {
                let i = le_val(py_slice(data, p + 1, p + t - 23)) as int;
                Ok(
                    ValV::Bin(
                        Binary {
                            index: i as u64,
                            offset: (h.p_bin_pool + arr_get(data, h.bin_offsets, i)) as u64,
                            size: arr_get(data, h.bin_sizes, i) as u64,
                        },
                    ),
                )
            }
        } else if t == 0x20 {
            if frame + 1 > 1000 {
                Err(recursion_errv())
            } else {
                match spec_array(data, p + 1) {
                    Err(e) => Err(e),
                    Ok(a) => match spec_list(data, h, p + 1 + a.nbytes, a, 0, frame + 1, seq![]) {
                        Ok(l) => Ok(ValV::List(l)),
                        Err(e) => Err(e),
                    },
                }
            }
        } else if t == 0x21 {
            if frame + 1 > 1000 {
                Err(recursion_errv())
            } else {
                match spec_array(data, p + 1) {
                    Err(e) => Err(e),
                    Ok(names) => match spec_array(data, p + 1 + names.nbytes) {
                        Err(e) => Err(e),
                        Ok(offs) => match spec_dict(
                            data,
                            h,
                            p + 1 + names.nbytes + offs.nbytes,
                            names,
                            offs,
                            0,
                            frame + 1,
                            seq![],
                        ) {
                            Ok(d) => Ok(ValV::Dict(d)),
                            Err(e) => Err(e),
                        },
                    },
                }
            }
        } else {
            Err(ErrV::Pimg(unknown_type_msg(t, p)))
        }
    }
}

/// The members of a list from element `i` on, after those in `acc`; each
/// is the value at `base` plus its offset.
pub open spec fn spec_list(data: Seq<u8>, h: HdrV, base: int, a: ArrV, i: int, frame: int, acc: Seq<ValV>) -> Result<
    Seq<ValV>,
    ErrV,
>
    decreases 1001 - frame, a.count - i + 1,
{
    if i < 0 || i >= a.count {
        Ok(acc)
    } else {
        match spec_value(data, h, base + arr_get(data, a, i), frame) {
            Err(e) => Err(e),
            Ok(v) => spec_list(data, h, base, a, i + 1, frame, acc.push(v)),
        }
    }
}

/// The entries of a dictionary from entry `i` on, inserted in order into
/// `acc`.
pub open spec fn spec_dict(
    data: Seq<u8>,
    h: HdrV,
    base: int,
    names: ArrV,
    offs: ArrV,
    i: int,
    frame: int,
    acc: Seq<(Seq<char>, ValV)>,
) -> Result<Seq<(Seq<char>, ValV)>, ErrV>
    decreases 1001 - frame, names.count - i + 1,
{
    if i < 0 || i >= names.count {
        Ok(acc)
    } else {
        match spec_name(data, h, arr_get(data, names, i)) {
            Err(e) => Err(e),
            Ok(k) => match spec_value(data, h, base + arr_get(data, offs, i), frame) {
                Err(e) => Err(e),
                Ok(v) => spec_dict(data, h, base, names, offs, i + 1, frame, dict_insert(acc, k, v)),
            },
        }
    }
}


proof fn lemma_zero_pos_char(s: Seq<u8>, i: int, p: int)
    requires
        0 <= i,
        p == -1 ==> forall|j: int| i <= j < s.len() ==> s[j] != 0,
        p != -1 ==> i <= p < s.len() && s[p] == 0 && forall|j: int| i <= j < p ==> s[j] != 0,
    ensures
        zero_pos(s, i) == p,
    decreases s.len() - i,
{
    if i < s.len() && s[i] != 0 {
        lemma_zero_pos_char(s, i + 1, p);
    }
}

proof fn lemma_byte_diff(c1: int, x: int)
    requires
        0 <= c1,
        0 <= x,
    ensures
        ((c1 % 256) + 256 - (x % 256)) % 256 == (c1 - x) % 256,
{
    assert(((c1 % 256) + 256 - (x % 256)) % 256 == (c1 - x) % 256) by (nonlinear_arith)
        requires
            0 <= c1,
            0 <= x,
    ;
}

impl PsbFile {
    /// The name with index `idx`.
    fn name(&self, idx: u64) -> (r: R<String>)
        requires
            self.wf(),
            idx < 0x1_0000_0000,
        ensures
            match spec_name(self.data@, self.hdr(), idx as int) {
                Ok(s) => r matches Ok(x) && x@ == s,
                Err(e) => r matches Err(e2) && e2@ == e,
            },
    {
        let d = self.data.as_slice();
        let ghost h = self.hdr();
        let mut out: Vec<u8> = Vec::new();
        let mut c1 = self.name_a2.get(d, self.name_a3.get(d, idx));
        let ghost total = name_walk(d@, h, c1 as int, 0);
        while c1 != 0
            invariant
                self.wf(),
                h == self.hdr(),
                d@ == self.data@,
                idx < 0x1_0000_0000,
                total == name_walk(d@, h, arr_get(d@, h.a2, arr_get(d@, h.a3, idx as int)), 0),
                c1 < 0x1_0000_0000,
                out@.len() <= 0x1000_0000,
                match name_walk(d@, h, c1 as int, out@.len() as int) {
                    Ok(r) => total == Ok::<Seq<u8>, ()>(out@ + r),
                    Err(_) => total is Err,
                },
            decreases 0x1000_0001 - out@.len(),
        {
            let c2 = self.name_a2.get(d, c1);
            let x = self.name_a1.get(d, c2);
            proof {
                lemma_byte_diff(c1 as int, x as int);
            }
            let b = ((c1 % 256 + 256 - x % 256) % 256) as u8;
            let ghost before = out@;
            let ghost c1_old = c1 as int;
            out.push(b);
            proof {
                if before.len() < 0x1000_0000 {
                    match name_walk(d@, h, c2 as int, out@.len() as int) {
                        Ok(r) => {
                            assert(before + (seq![b] + r) =~= out@ + r);
                        },
                        Err(_) => {},
                    }
                }
            }
            c1 = c2;
            if out.len() > 0x1000_0000 {
                assert(name_walk(d@, h, c1_old, before.len() as int) is Err);
                return Err(PyErr::fatal("MemoryError", String::new()));
            }
        }
        assert(total == Ok::<Seq<u8>, ()>(out@)) by {
            assert(out@ + Seq::<u8>::empty() =~= out@);
        }
        let n = out.len();
        let mut rev: Vec<u8> = Vec::new();
        for i in 0..n
            invariant
                n == out@.len(),
                rev@.len() == i,
                forall|j: int| 0 <= j < i ==> rev@[j] == out@[n - 1 - j],
        {
            rev.push(out[n - 1 - i]);
        }
        assert(rev@ =~= out@.reverse());
        Ok(from_utf8_lossy(rev.as_slice()))
    }

    /// The string with index `idx`.
    fn string(&self, idx: u64) -> (r: R<String>)
        requires
            self.wf(),
            idx < 0x1_0000_0000,
        ensures
            match spec_string(self.data@, self.hdr(), idx as int) {
                Ok(s) => r matches Ok(x) && x@ == s,
                Err(e) => r matches Err(e2) && e2@ == e,
            },
    {
        let d = self.data.as_slice();
        let s = self.p_str_pool as u128 + self.str_offsets.get(d, idx) as u128;
        let start = if s < d.len() as u128 { s as usize } else { d.len() };
        let ghost rest = if s < d@.len() { d@.subrange(s as int, d@.len() as int) } else { seq![] };
        let mut e = start;
        while e < d.len() && d[e] != 0
            invariant
                start <= e <= d@.len(),
                forall|j: int| start <= j < e ==> d@[j] != 0,
            decreases d@.len() - e,
        {
            e += 1;
        }
        if e >= d.len() {
            proof {
                lemma_zero_pos_char(rest, 0, -1);
            }
            return Err(PyErr::Value(String::from_str("subsection not found")));
        }
        proof {
            lemma_zero_pos_char(rest, 0, (e - start) as int);
            assert(rest.subrange(0, (e - start) as int) =~= d@.subrange(start as int, e as int));
        }
        Ok(from_utf8_lossy(&d[start..e]))
    }

    /// data[offset:offset + size]
    pub fn binary(&self, b: &Binary) -> (r: &[u8])
        ensures
            r@ == py_slice(self.data_view(), b.offset as int, b.offset + b.size),
    {
        slice_wide(self.data.as_slice(), b.offset as u128, b.offset as u128 + b.size as u128)
    }

    /// The root value, parsed as Python stack frame 5 (see `MAX_FRAMES`).
    pub fn root(&self) -> (r: R<Val>)
        ensures
            match spec_value(self.data_view(), self.hdr(), self.hdr().p_root, 5) {
                Ok(v) => r matches Ok(x) && val_view(x) == v,
                Err(e) => r matches Err(e2) && e2@ == e,
            },
    {
        proof {
            use_type_invariant(self);
        }
        self.value(self.p_root as u128, 5)
    }

    /// The value at `p`, parsed as stack frame `frame`.
    fn value(&self, p: u128, frame: u32) -> (r: R<Val>)
        requires
            self.wf(),
            frame <= MAX_FRAMES,
            p < 0x2_0000_0000_0000_0000,
        ensures
            match spec_value(self.data@, self.hdr(), p as int, frame as int) {
                Ok(v) => r matches Ok(x) && val_view(x) == v,
                Err(e) => r matches Err(e2) && e2@ == e,
            },
        decreases 1001 - frame, 0int,
    {
        let d = self.data.as_slice();
        if p >= d.len() as u128 {
            return Err(index_error());
        }
        let t = d[p as usize];
        if t <= 1 {
            Ok(Val::Null)
        } else if t == 2 {
            Ok(Val::Bool(true))
        } else if t == 3 {
            Ok(Val::Bool(false))
        } else if t == 4 {
            Ok(Val::Int(0))
        } else if t <= 12 {
            Ok(Val::Int(le_int(slice_wide(d, p + 1, p + t as u128 - 3))))
        } else if t == 29 {
            Ok(Val::F64(0))
        } else if t == 30 {
            if (d.len() as u128) < p + 5 {
                return Err(struct_short((p + 1) as u64, 4, d.len()));
            }
            let s = slice_wide(d, p + 1, p + 5);
            proof {
                lemma_le_val_bound(s@);
                lemma_p256_8();
            }
            Ok(Val::F32(le_uint(s) as u32))
        } else if t == 31 {
            if (d.len() as u128) < p + 9 {
                return Err(struct_short((p + 1) as u64, 8, d.len()));
            }
            Ok(Val::F64(le_uint(slice_wide(d, p + 1, p + 9))))
        } else if 21 <= t && t <= 24 {
            match call(frame + 2) {
                Ok(()) => {},
                Err(e) => {
                    return Err(e);
                },
            }
            let s = slice_wide(d, p + 1, p + t as u128 - 19);
            proof {
                lemma_le_val_bound(s@);
                lemma_p256_mono(s@.len(), 4);
                lemma_p256_8();
            }
            let i = le_uint(s);
            match self.string(i) {
                Ok(st) => Ok(Val::Str(st)),
                Err(e) => Err(e),
            }
        } else if 25 <= t && t <= 28 {
            match call(frame + 1) {
                Ok(()) => {},
                Err(e) => {
                    return Err(e);
                },
            }
            let s = slice_wide(d, p + 1, p + t as u128 - 23);
            proof {
                lemma_le_val_bound(s@);
                lemma_p256_mono(s@.len(), 4);
                lemma_p256_8();
            }
            let i = le_uint(s);
            let offset = self.p_bin_pool + self.bin_offsets.get(d, i);
            let size = self.bin_sizes.get(d, i);
            Ok(Val::Bin(Binary { index: i, offset, size }))
        } else if t == 0x20 {
            match call(frame + 1) {
                Ok(()) => {},
                Err(e) => {
                    return Err(e);
                },
            }
            let a = match PsbArray::new(d, p + 1) {
                Ok(a) => a,
                Err(e) => {
                    return Err(e);
                },
            };
            match self.value_list(p + 1 + a.nbytes as u128, &a, frame + 1) {
                Ok(l) => Ok(Val::List(l)),
                Err(e) => Err(e),
            }
        } else if t == PSB_TYPE_DICT {
            match call(frame + 1) {
                Ok(()) => {},
                Err(e) => {
                    return Err(e);
                },
            }
            let names = match PsbArray::new(d, p + 1) {
                Ok(a) => a,
                Err(e) => {
                    return Err(e);
                },
            };
            let offsets = match PsbArray::new(d, p + 1 + names.nbytes as u128) {
                Ok(a) => a,
                Err(e) => {
                    return Err(e);
                },
            };
            let base = p + 1 + names.nbytes as u128 + offsets.nbytes as u128;
            match self.value_dict(base, &names, &offsets, frame + 1) {
                Ok(dct) => Ok(Val::Dict(dct)),
                Err(e) => Err(e),
            }
        } else {
            let mut m = String::from_str("psb: unknown value type 0x");
            push_chars(&mut m, hex_pad(t as u64, 2).as_slice());
            m.append(" at 0x");
            push_chars(&mut m, hex_u64(p as u64).as_slice());
            Err(PyErr::Pimg(m))
        }
    }

    /// The members of a list whose offsets are in `a`, relative to `base`.
    fn value_list(&self, base: u128, a: &PsbArray, frame: u32) -> (r: R<Vec<Val>>)
        requires
            self.wf(),
            arr_wf(a.view()),
            frame <= MAX_FRAMES,
            base < 0x1_0000_0010_0000_0000,
        ensures
            match spec_list(self.data@, self.hdr(), base as int, a.view(), 0, frame as int, seq![]) {
                Ok(l) => r matches Ok(v) && vals_view(v@) == l,
                Err(e) => r matches Err(e2) && e2@ == e,
            },
        decreases 1001 - frame, 1int,
    {
        let d = self.data.as_slice();
        let ghost h = self.hdr();
        let mut list: Vec<Val> = Vec::new();
        let mut i: u64 = 0;
        while i < a.count
            invariant
                self.wf(),
                h == self.hdr(),
                d@ == self.data@,
                arr_wf(a.view()),
                frame <= MAX_FRAMES,
                base < 0x1_0000_0010_0000_0000,
                spec_list(d@, h, base as int, a.view(), 0, frame as int, seq![]) == spec_list(
                    d@,
                    h,
                    base as int,
                    a.view(),
                    i as int,
                    frame as int,
                    vals_view(list@),
                ),
            decreases a.count - i,
        {
            let o = a.get(d, i);
            match self.value(base + o as u128, frame) {
                Ok(v) => {
                    let ghost before = list@;
                    let ghost vv = val_view(v);
                    list.push(v);
                    assert(vals_view(list@) == vals_view(before).push(vv)) by {
                        assert(list@.drop_last() =~= before);
                    }
                },
                Err(e) => {
                    return Err(e);
                },
            }
            i += 1;
        }
        Ok(list)
    }

    /// The entries of a dictionary whose name indexes are in `names` and
    /// whose value offsets, relative to `base`, are in `offs`.
    fn value_dict(&self, base: u128, names: &PsbArray, offs: &PsbArray, frame: u32) -> (r: R<Dict>)
        requires
            self.wf(),
            arr_wf(names.view()),
            arr_wf(offs.view()),
            frame <= MAX_FRAMES,
            base < 0x1_0000_0010_0000_0000,
        ensures
            match spec_dict(self.data@, self.hdr(), base as int, names.view(), offs.view(), 0, frame as int, seq![]) {
                Ok(items) => r matches Ok(dct) && dct.view() == items,
                Err(e) => r matches Err(e2) && e2@ == e,
            },
        decreases 1001 - frame, 1int,
    {
        let d = self.data.as_slice();
        let ghost h = self.hdr();
        let mut dict = Dict::new();
        let mut i: u64 = 0;
        while i < names.count
            invariant
                self.wf(),
                h == self.hdr(),
                d@ == self.data@,
                arr_wf(names.view()),
                arr_wf(offs.view()),
                frame <= MAX_FRAMES,
                base < 0x1_0000_0010_0000_0000,
                spec_dict(d@, h, base as int, names.view(), offs.view(), 0, frame as int, seq![]) == spec_dict(
                    d@,
                    h,
                    base as int,
                    names.view(),
                    offs.view(),
                    i as int,
                    frame as int,
                    dict.view(),
                ),
            decreases names.count - i,
        {
            match call(frame) {
                Ok(()) => {},
                Err(e) => {
                    return Err(e);
                },
            }
            let key = match self.name(names.get(d, i)) {
                Ok(k) => k,
                Err(e) => {
                    return Err(e);
                },
            };
            let o = offs.get(d, i);
            match self.value(base + o as u128, frame) {
                Ok(v) => {
                    dict.insert(key, v);
                },
                Err(e) => {
                    return Err(e);
                },
            }
            i += 1;
        }
        Ok(dict)
    }
}

/// The root of a PSB file is a dictionary: reading it gives a dictionary,
/// or an error.
pub proof fn lemma_root_is_dict(data: Seq<u8>, h: HdrV)
    requires
        spec_header(data) == Ok::<HdrV, ErrV>(h),
    ensures
        spec_value(data, h, h.p_root, 5) matches Ok(v) ==> v is Dict,
{
    assert(data[h.p_root] == 0x21);
}

/// The `n` bytes of `data` from `o` on as a little-endian number: byte
/// `o + j` weighs 256 to the power `j`.
pub open spec fn le_bytes(data: Seq<u8>, o: int, n: nat) -> int
    decreases n,
{
    if n == 0 {
        0
    } else {
        le_bytes(data, o, (n - 1) as nat) + data[o + n - 1] * p256((n - 1) as nat)
    }
}

proof fn lemma_le_val_last(s: Seq<u8>)
    requires
        s.len() > 0,
    ensures
        le_val(s) == le_val(s.drop_last()) + s.last() * p256((s.len() - 1) as nat),
    decreases s.len(),
{
    assert(le_val(s) == s[0] + 256 * le_val(s.drop_first()));
    if s.len() == 1 {
        assert(s.drop_first() =~= Seq::<u8>::empty());
        assert(s.drop_last() =~= Seq::<u8>::empty());
        assert(le_val(Seq::<u8>::empty()) == 0);
        assert(p256(0) == 1);
        assert(s.last() == s[0]);
        assert(le_val(s) == s[0] + 256 * 0);
        assert(le_val(s.drop_last()) == 0);
        assert(le_val(s) == le_val(s.drop_last()) + s.last() * p256((s.len() - 1) as nat));
    } else {
        let df = s.drop_first();
        lemma_le_val_last(df);
        assert(s.drop_last().drop_first() =~= df.drop_last());
        assert(df.last() == s.last());
        assert(s.drop_last()[0] == s[0]);
        assert(le_val(s.drop_last()) == s[0] + 256 * le_val(s.drop_last().drop_first()));
        let p = p256((df.len() - 1) as nat);
        assert(p256((s.len() - 1) as nat) == 256 * p);
        assert(256 * (le_val(df.drop_last()) + df.last() * p) == 256 * le_val(df.drop_last()) + df.last() * (256
            * p)) by (nonlinear_arith);
        assert(le_val(s) == le_val(s.drop_last()) + s.last() * p256((s.len() - 1) as nat));
    }
}

proof fn lemma_le_bytes_val(data: Seq<u8>, o: int, n: nat)
    requires
        0 <= o,
        o + n <= data.len(),
    ensures
        le_bytes(data, o, n) == le_val(data.subrange(o, o + n)),
    decreases n,
{
    if n > 0 {
        lemma_le_bytes_val(data, o, (n - 1) as nat);
        let s = data.subrange(o, o + n);
        lemma_le_val_last(s);
        assert(s.drop_last() =~= data.subrange(o, o + n - 1));
    }
}

/// Element `i` of a PSB array, where its bytes lie within `data`, is the
/// little-endian number made of all `size` of them.
pub proof fn lemma_arr_get_bytes(data: Seq<u8>, a: ArrV, i: int)
    requires
        a.size >= 0,
        0 <= a.code + i * a.size,
        a.code + i * a.size + a.size <= data.len(),
    ensures
        arr_get(data, a, i) == le_bytes(data, a.code + i * a.size, a.size as nat),
{
    let o = a.code + i * a.size;
    lemma_le_bytes_val(data, o, a.size as nat);
    assert(py_slice(data, o, o + a.size) == data.subrange(o, o + a.size));
}

} // verus!
