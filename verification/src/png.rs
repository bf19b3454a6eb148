//! Minimal RGBA PNG writer: 8-bit RGBA, no interlace, filter 0 on every
//! row, one IDAT chunk holding the zlib stream of the rows.

use vstd::prelude::*;
use crate::error::{ErrV, PyErr};
use crate::psb::py_slice;

verus! {

/// The reflected CRC-32 polynomial.
pub const CRC_POLY: u32 = 0xEDB8_8320;

/// `n` rounds of the bitwise CRC-32 register update.
pub open spec fn crc_bits(c: u32, n: nat) -> u32
    decreases n,
{
    if n == 0 {
        c
    } else {
        let c2 = if c & 1 == 1 { (c >> 1) ^ CRC_POLY } else { c >> 1 };
        crc_bits(c2, (n - 1) as nat)
    }
}

/// The CRC-32 register after the bytes of `s`, from register `c`.
pub open spec fn crc_update(c: u32, s: Seq<u8>) -> u32
    decreases s.len(),
{
    if s.len() == 0 {
        c
    } else {
        crc_bits(crc_update(c, s.drop_last()) ^ (s.last() as u32), 8)
    }
}

/// CRC-32 (ISO-HDLC, as zlib's `crc32(0, ...)` computes it).
pub open spec fn crc32_spec(s: Seq<u8>) -> u32 {
    crc_update(0xFFFF_FFFF, s) ^ 0xFFFF_FFFF
}

/// zlib.crc32(data)
pub fn crc32(data: &[u8]) -> (c: u32)
    ensures
        c == crc32_spec(data@),
{
    let mut c: u32 = 0xFFFF_FFFF;
    for i in 0..data.len()
        invariant
            c == crc_update(0xFFFF_FFFF, data@.take(i as int)),
    {
        let ghost c0 = c ^ (data@[i as int] as u32);
        c = c ^ (data[i] as u32);
        for k in 0..8u32
            invariant
                crc_bits(c0, 8) == crc_bits(c, (8 - k) as nat),
        {
            c = if c & 1 == 1 { (c >> 1) ^ CRC_POLY } else { c >> 1 };
        }
        assert(data@.take(i + 1).drop_last() =~= data@.take(i as int));
    }
    assert(data@.take(data@.len() as int) =~= data@);
    c ^ 0xFFFF_FFFF
}

/// The big-endian bytes of the low 32 bits of `x`.
pub open spec fn be32(x: int) -> Seq<u8> {
    seq![((x / 0x100_0000) % 256) as u8, ((x / 0x1_0000) % 256) as u8, ((x / 0x100) % 256) as u8, (x % 256) as u8]
}

fn push_be32(out: &mut Vec<u8>, x: u64)
    ensures
        final(out)@ == old(out)@ + be32(x as int),
{
    out.push(((x / 0x100_0000) % 256) as u8);
    out.push(((x / 0x1_0000) % 256) as u8);
    out.push(((x / 0x100) % 256) as u8);
    out.push((x % 256) as u8);
    assert(final(out)@ =~= old(out)@ + be32(x as int));
}

fn push_all(out: &mut Vec<u8>, s: &[u8])
    ensures
        final(out)@ == old(out)@ + s@,
{
    let ghost start = out@;
    for i in 0..s.len()
        invariant
            out@ == start + s@.take(i as int),
    {
        out.push(s[i]);
        assert(s@.take(i + 1) =~= s@.take(i as int).push(s@[i as int]));
    }
    assert(s@.take(s@.len() as int) =~= s@);
}

/// A PNG chunk: the body's length (its low 32 bits), the tag, the body, and
/// the CRC-32 of tag and body.
pub open spec fn png_chunk(tag: Seq<u8>, body: Seq<u8>) -> Seq<u8> {
    be32((body.len() % 0x1_0000_0000) as int) + tag + body + be32(crc32_spec(tag + body) as int)
}

/// The number that four bytes give, read big-endian as a PNG reader does.
pub open spec fn be32_val(b: Seq<u8>) -> int {
    b[0] * 0x100_0000 + b[1] * 0x1_0000 + b[2] * 0x100 + b[3]
}

proof fn lemma_be32_val(x: int)
    requires
        0 <= x < 0x1_0000_0000,
    ensures
        be32(x).len() == 4,
        be32_val(be32(x)) == x,
{
    let y = x as u32;
    assert(((y / 0x100_0000) % 256) * 0x100_0000 + ((y / 0x1_0000) % 256) * 0x1_0000 + ((y / 0x100) % 256)
        * 0x100 + y % 256 == y) by (bit_vector);
    assert(y as int == x);
}

/// What a PNG reader checks of a chunk holds: the first four bytes give the
/// length of the data, the tag and the data follow, and the last four bytes
/// are the big-endian CRC-32 of the tag and the data as they stand in the
/// chunk, so that any change to either shows.
pub proof fn lemma_chunk_checks(tag: Seq<u8>, body: Seq<u8>)
    requires
        tag.len() == 4,
        body.len() < 0x1_0000_0000,
    ensures
        png_chunk(tag, body).len() == body.len() + 12,
        be32_val(png_chunk(tag, body).subrange(0, 4)) == body.len(),
        png_chunk(tag, body).subrange(4, 8) == tag,
        png_chunk(tag, body).subrange(8, body.len() as int + 8) == body,
        be32_val(png_chunk(tag, body).subrange(body.len() as int + 8, body.len() as int + 12)) == crc32_spec(
            png_chunk(tag, body).subrange(4, body.len() as int + 8),
        ),
{
    let c = png_chunk(tag, body);
    let n = body.len() as int;
    lemma_be32_val(n);
    lemma_be32_val(crc32_spec(tag + body) as int);
    assert(n % 0x1_0000_0000 == n);
    let l = be32(n);
    let k = be32(crc32_spec(tag + body) as int);
    assert(c =~= l + tag + body + k);
    assert(c.subrange(0, 4) =~= l);
    assert(c.subrange(4, 8) =~= tag);
    assert(c.subrange(8, n + 8) =~= body);
    assert(c.subrange(4, n + 8) =~= tag + body);
    assert(c.subrange(n + 8, n + 12) =~= k);
}

/// Appends a chunk to `out`.
pub fn chunk(out: &mut Vec<u8>, tag: &[u8; 4], body: &[u8])
    ensures
        final(out)@ == old(out)@ + png_chunk(tag@, body@),
{
    let n = (body.len() as u64) % 0x1_0000_0000;
    push_be32(out, n);
    let mut tb: Vec<u8> = Vec::new();
    push_all(&mut tb, tag);
    push_all(&mut tb, body);
    push_all(out, tb.as_slice());
    let crc = crc32(tb.as_slice());
    push_be32(out, crc as u64);
    assert(final(out)@ =~= old(out)@ + png_chunk(tag@, body@));
}

/// The filtered image rows that the IDAT chunk compresses: each of the `h`
/// rows of a `w`-pixel-wide RGBA image is a filter byte 0 and the row's
/// bytes, cut short where `rgba` ends (Python slicing). Empty unless `h > 0`
/// and `w >= 0`.
pub open spec fn png_rows(w: int, h: int, rgba: Seq<u8>) -> Seq<u8>
    decreases h,
{
    if h <= 0 || w < 0 {
        seq![]
    } else {
        png_rows(w, h - 1, rgba) + seq![0u8] + py_slice(rgba, (h - 1) * (w * 4), h * (w * 4))
    }
}

/// min(y * stride, len) without overflow.
fn clamp_mul(y: u128, stride: u128, len: usize) -> (r: usize)
    ensures
        r == if y * stride < len { y * stride } else { len as int },
{
    if stride == 0 {
        0
    } else if y > (len as u128) / stride {
        proof {
            assert(y * stride >= len) by (nonlinear_arith)
                requires
                    y > (len as u128) / stride,
                    stride > 0,
            ;
        }
        len
    } else {
        proof {
            assert(y * stride <= len) by (nonlinear_arith)
                requires
                    y <= (len as u128) / stride,
                    stride > 0,
            ;
        }
        (y * stride) as usize
    }
}

/// The filtered rows of an RGBA image (see `png_rows`).
pub fn scanlines(w: i128, h: i128, rgba: &[u8]) -> (raw: Vec<u8>)
    requires
        h <= usize::MAX,
        w <= 0x1_0000_0000_0000_0000,
    ensures
        raw@ == png_rows(w as int, h as int, rgba@),
{
    let mut raw: Vec<u8> = Vec::new();
    if h > 0 && w >= 0 {
        let stride = (w * 4) as u128;
        let n = h as usize;
        for y in 0..n
            invariant
                n == h,
                h > 0,
                w >= 0,
                stride == w * 4,
                raw@ == png_rows(w as int, y as int, rgba@),
        {
            raw.push(0);
            let a = clamp_mul(y as u128, stride, rgba.len());
            let b = clamp_mul(y as u128 + 1, stride, rgba.len());
            let ghost before = raw@;
            assert(y * stride <= (y + 1) * stride) by (nonlinear_arith)
                requires
                    stride >= 0,
            ;
            push_all(&mut raw, &rgba[a..b]);
            proof {
                assert((y + 1) * stride == y * stride + stride) by (nonlinear_arith);
                assert(py_slice(rgba@, y * (w * 4), (y + 1) * (w * 4)) =~= rgba@.subrange(a as int, b as int));
                assert(raw@ =~= png_rows(w as int, (y + 1) as int, rgba@));
            }
        }
    }
    raw
}

/// The 8 bytes that every PNG file starts with.
pub open spec fn png_signature() -> Seq<u8> {
    seq![0x89u8, 0x50, 0x4e, 0x47, 0x0d, 0x0a, 0x1a, 0x0a]
}

pub open spec fn ihdr_tag() -> Seq<u8> {
    seq![0x49u8, 0x48, 0x44, 0x52]
}

pub open spec fn idat_tag() -> Seq<u8> {
    seq![0x49u8, 0x44, 0x41, 0x54]
}

pub open spec fn iend_tag() -> Seq<u8> {
    seq![0x49u8, 0x45, 0x4e, 0x44]
}

/// The PNG file of a `w` x `h` RGBA image whose compressed rows are `idat`.
pub open spec fn png_file(w: int, h: int, idat: Seq<u8>) -> Seq<u8> {
    png_signature() + png_chunk(ihdr_tag(), be32(w) + be32(h) + seq![8u8, 6, 0, 0, 0]) + png_chunk(
        idat_tag(),
        idat,
    ) + png_chunk(iend_tag(), seq![])
}

pub open spec fn struct_range_errv() -> ErrV {
    ErrV::Fatal { kind: "struct.error"@, msg: "'I' format requires 0 <= number <= 4294967295"@ }
}

/// What write_png puts in the file, and the error it raises after that.
/// `idat` is what zlib's compress (level 6) gave for `scanlines(w, h, rgba)`.
/// Width and height are Python ints and may be out of the PNG range for a
/// bogus canvas size: then only the signature is written, and struct.pack
/// fails.
pub fn write_png(w: i128, h: i128, idat: &[u8]) -> (r: (Vec<u8>, Option<PyErr>))
    ensures
        0 <= w <= 0xFFFF_FFFF && 0 <= h <= 0xFFFF_FFFF ==> r.0@ == png_file(w as int, h as int, idat@)
            && r.1 is None,
        !(0 <= w <= 0xFFFF_FFFF && 0 <= h <= 0xFFFF_FFFF) ==> r.0@ == png_signature() && (r.1 matches Some(
            e,
        ) && e@ == struct_range_errv()),
{
    let sig: [u8; 8] = [0x89, 0x50, 0x4e, 0x47, 0x0d, 0x0a, 0x1a, 0x0a];
    let mut out: Vec<u8> = Vec::new();
    push_all(&mut out, &sig);
    assert(out@ =~= png_signature());
    if !(0 <= w && w <= 0xFFFF_FFFF && 0 <= h && h <= 0xFFFF_FFFF) {
        return (
            out,
            Some(
                PyErr::fatal(
                    "struct.error",
                    String::from_str("'I' format requires 0 <= number <= 4294967295"),
                ),
            ),
        );
    }
    let mut ihdr: Vec<u8> = Vec::new();
    push_be32(&mut ihdr, w as u64);
    push_be32(&mut ihdr, h as u64);
    ihdr.push(8);
    ihdr.push(6);
    ihdr.push(0);
    ihdr.push(0);
    ihdr.push(0);
    assert(ihdr@ =~= be32(w as int) + be32(h as int) + seq![8u8, 6, 0, 0, 0]);
    let ihdr_t: [u8; 4] = [0x49, 0x48, 0x44, 0x52];
    let idat_t: [u8; 4] = [0x49, 0x44, 0x41, 0x54];
    let iend_t: [u8; 4] = [0x49, 0x45, 0x4e, 0x44];
    assert(ihdr_t@ =~= ihdr_tag());
    assert(idat_t@ =~= idat_tag());
    assert(iend_t@ =~= iend_tag());
    chunk(&mut out, &ihdr_t, ihdr.as_slice());
    chunk(&mut out, &idat_t, idat);
    let empty: [u8; 0] = [];
    assert(empty@ =~= Seq::<u8>::empty());
    chunk(&mut out, &iend_t, &empty);
    (out, None)
}

proof fn lemma_sub_of_sub(f: Seq<u8>, c: Seq<u8>, o: int, a: int, b: int)
    requires
        0 <= o,
        o + c.len() <= f.len(),
        f.subrange(o, o + c.len()) == c,
        0 <= a <= b <= c.len(),
    ensures
        f.subrange(o + a, o + b) == c.subrange(a, b),
{
    assert forall|j: int| 0 <= j < b - a implies f.subrange(o + a, o + b)[j] == c.subrange(a, b)[j] by {
        assert(f.subrange(o, o + c.len())[a + j] == f[o + a + j]);
    }
    assert(f.subrange(o + a, o + b) =~= c.subrange(a, b));
}

proof fn lemma_concat_front(a: Seq<u8>, b: Seq<u8>, c: Seq<u8>, d: Seq<u8>)
    ensures
        (a + b + c + d).subrange(0, a.len() as int) == a,
        (a + b + c + d).subrange(a.len() as int, a.len() as int + b.len()) == b,
{
    assert((a + b + c + d).subrange(0, a.len() as int) =~= a);
    assert((a + b + c + d).subrange(a.len() as int, a.len() as int + b.len()) =~= b);
}

/// The IHDR data of a `w` x `h` 8-bit RGBA image.
pub open spec fn ihdr_body(w: int, h: int) -> Seq<u8> {
    be32(w) + be32(h) + seq![8u8, 6, 0, 0, 0]
}

proof fn lemma_ihdr_reads(w: int, h: int)
    requires
        0 <= w < 0x1_0000_0000,
        0 <= h < 0x1_0000_0000,
    ensures
        png_chunk(ihdr_tag(), ihdr_body(w, h)).len() == 25,
        be32_val(png_chunk(ihdr_tag(), ihdr_body(w, h)).subrange(0, 4)) == 13,
        png_chunk(ihdr_tag(), ihdr_body(w, h)).subrange(4, 8) == ihdr_tag(),
        be32_val(png_chunk(ihdr_tag(), ihdr_body(w, h)).subrange(8, 12)) == w,
        be32_val(png_chunk(ihdr_tag(), ihdr_body(w, h)).subrange(12, 16)) == h,
        be32_val(png_chunk(ihdr_tag(), ihdr_body(w, h)).subrange(21, 25)) == crc32_spec(
            png_chunk(ihdr_tag(), ihdr_body(w, h)).subrange(4, 21),
        ),
{
    let body = ihdr_body(w, h);
    lemma_be32_val(w);
    lemma_be32_val(h);
    assert(body.len() == 13);
    lemma_chunk_checks(ihdr_tag(), body);
    let c = png_chunk(ihdr_tag(), body);
    lemma_sub_of_sub(c, body, 8, 0, 4);
    lemma_sub_of_sub(c, body, 8, 4, 8);
    assert(body.subrange(0, 4) =~= be32(w));
    assert(body.subrange(4, 8) =~= be32(h));
}

/// A PNG reader finds in the file the signature, then an IHDR chunk of 13
/// data bytes that passes its CRC check and gives back the width and the
/// height.
pub proof fn lemma_png_header_reads_back(w: int, h: int, idat: Seq<u8>)
    requires
        0 <= w < 0x1_0000_0000,
        0 <= h < 0x1_0000_0000,
    ensures
        png_file(w, h, idat).subrange(0, 8) == png_signature(),
        be32_val(png_file(w, h, idat).subrange(8, 12)) == 13,
        png_file(w, h, idat).subrange(12, 16) == ihdr_tag(),
        be32_val(png_file(w, h, idat).subrange(16, 20)) == w,
        be32_val(png_file(w, h, idat).subrange(20, 24)) == h,
        be32_val(png_file(w, h, idat).subrange(29, 33)) == crc32_spec(png_file(w, h, idat).subrange(12, 29)),
{
    let c = png_chunk(ihdr_tag(), ihdr_body(w, h));
    let sig = png_signature();
    let c2 = png_chunk(idat_tag(), idat);
    let c3 = png_chunk(iend_tag(), seq![]);
    let f = png_file(w, h, idat);
    assert(f == sig + c + c2 + c3);
    lemma_ihdr_reads(w, h);
    assert(sig.len() == 8);
    lemma_concat_front(sig, c, c2, c3);
    assert(f.subrange(8, 33) == c);
    lemma_sub_of_sub(f, c, 8, 0, 4);
    lemma_sub_of_sub(f, c, 8, 4, 8);
    lemma_sub_of_sub(f, c, 8, 8, 12);
    lemma_sub_of_sub(f, c, 8, 12, 16);
    lemma_sub_of_sub(f, c, 8, 4, 21);
    lemma_sub_of_sub(f, c, 8, 21, 25);
}

} // verus!
