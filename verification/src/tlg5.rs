//! TLG5 decoder: a TLG5 image to RGBA pixels.
//!
//! A TLG5 image is cut into blocks of `bh` rows. Each block holds one stream
//! per colour channel (B, G, R and optionally A), each either stored or
//! compressed with an LZSS scheme whose 4096-byte ring buffer runs on across
//! all channels and blocks. The channel values are deltas: each pixel adds
//! the running sum of its row's deltas to the pixel above.

use vstd::prelude::*;
use crate::error::{alloc_zeroed, index_error, struct_short, struct_short_msg, ErrV, PyErr, R};
use crate::psb::{le32, py_slice, slice};
use crate::text::{dec, dec_u128, push_chars};
use vstd::arithmetic::div_mod::{lemma_add_mod_noop_right, lemma_fundamental_div_mod_converse, lemma_div_is_ordered, lemma_multiply_divide_lt};
use vstd::arithmetic::mul::{lemma_mul_inequality, lemma_mul_is_distributive_sub, lemma_mul_is_distributive_add};
use vstd::slice::slice_to_vec;

verus! {

/// The state of the LZSS decoder that runs on across channels and blocks:
/// the ring buffer and the position where the next byte goes.
pub struct Lz {
    pub text: Seq<u8>,
    pub r: int,
}

/// Writes one decoded byte into the ring buffer.
pub open spec fn lz_put(st: Lz, v: u8) -> Lz {
    Lz { text: st.text.update(st.r, v), r: (st.r + 1) % 4096 }
}

/// Copies `n` bytes from ring position `mpos` on (a back reference), each
/// byte read after the previous one was written.
pub open spec fn lz_copy(st: Lz, out: Seq<u8>, mpos: int, n: nat) -> (Lz, Seq<u8>)
    decreases n,
{
    if n == 0 {
        (st, out)
    } else {
        let v = st.text[mpos];
        lz_copy(lz_put(st, v), out.push(v), (mpos + 1) % 4096, (n - 1) as nat)
    }
}

/// Decodes an LZSS stream `src` that its header says is `size` bytes long,
/// from input position `i` on, where `flags` is the flag word read so far.
/// Each flag byte gives, lowest bit first, for eight items whether the item
/// is a literal byte (0) or a back reference of two or three bytes (1).
/// `Err` where an item reaches past the end of `src`.
pub open spec fn lz_run(src: Seq<u8>, size: int, i: int, flags: int, st: Lz, out: Seq<u8>) -> Result<
    (Lz, Seq<u8>),
    (),
>
    decreases src.len() - i,
{
    if i >= size {
        Ok((st, out))
    } else {
        let f1 = flags / 2;
        let reload = (f1 / 256) % 2 == 0;
        if reload && i >= src.len() {
            Err(())
        } else {
            let f2 = if reload { src[i] + 0xFF00 } else { f1 };
            let j = if reload { i + 1 } else { i };
            if f2 % 2 == 1 {
                if j + 1 >= src.len() {
                    Err(())
                } else {
                    let b0 = src[j] as int;
                    let b1 = src[j + 1] as int;
                    let mpos = b0 + (b1 % 16) * 256;
                    let mlen0 = b1 / 16 + 3;
                    if mlen0 == 18 && j + 2 >= src.len() {
                        Err(())
                    } else {
                        let mlen = if mlen0 == 18 { 18 + src[j + 2] } else { mlen0 };
                        let k = if mlen0 == 18 { j + 3 } else { j + 2 };
                        let (st2, out2) = lz_copy(st, out, mpos, mlen as nat);
                        lz_run(src, size, k, f2, st2, out2)
                    }
                }
            } else {
                if j >= src.len() {
                    Err(())
                } else {
                    lz_run(src, size, j + 1, f2, lz_put(st, src[j]), out.push(src[j]))
                }
            }
        }
    }
}

pub open spec fn lz_wf(st: Lz) -> bool {
    st.text.len() == 4096 && 0 <= st.r < 4096
}

proof fn lemma_lz_copy_wf(st: Lz, out: Seq<u8>, mpos: int, n: nat)
    requires
        lz_wf(st),
        0 <= mpos < 4096,
    ensures
        lz_wf(lz_copy(st, out, mpos, n).0),
    decreases n,
{
    if n > 0 {
        let v = st.text[mpos];
        lemma_lz_copy_wf(lz_put(st, v), out.push(v), (mpos + 1) % 4096, (n - 1) as nat);
    }
}

/// How far back from the write position ring position `mpos` lies: 1 to
/// 4096 (a whole turn where they are the same).
pub open spec fn lz_dist(st: Lz, mpos: int) -> int {
    if (st.r - mpos) % 4096 == 0 {
        4096
    } else {
        (st.r - mpos) % 4096
    }
}

/// A back reference of `n` bytes from ring position `mpos` (n at most the
/// ring's size):
/// - appends `n` bytes to the output and moves the write position `n` on;
/// - writes each byte that it outputs into the ring, one position after the
///   other from the write position;
/// - leaves the rest of the ring as it was;
/// - outputs, as its `k`-th byte, the ring's byte at `mpos + k` while that
///   lies behind the write position, and after that the byte it output `d`
///   bytes before, `d` being how far back `mpos` lies: a reference that
///   overlaps what it writes repeats it (one byte back repeats that byte).
pub proof fn lemma_lz_copy_law(st: Lz, out: Seq<u8>, mpos: int, n: nat)
    requires
        lz_wf(st),
        0 <= mpos < 4096,
        n <= 4096,
    ensures
        lz_copy(st, out, mpos, n).1.len() == out.len() + n,
        lz_copy(st, out, mpos, n).1.subrange(0, out.len() as int) == out,
        lz_copy(st, out, mpos, n).0.r == (st.r + n) % 4096,
        forall|k: int|
            0 <= k < n ==> #[trigger] lz_copy(st, out, mpos, n).0.text[(st.r + k) % 4096] == lz_copy(
                st,
                out,
                mpos,
                n,
            ).1[out.len() + k],
        forall|q: int|
            0 <= q < 4096 && (q - st.r) % 4096 >= n ==> #[trigger] lz_copy(st, out, mpos, n).0.text[q]
                == st.text[q],
        forall|k: int|
            0 <= k < n ==> #[trigger] lz_copy(st, out, mpos, n).1[out.len() + k] == if k < lz_dist(st, mpos) {
                st.text[(mpos + k) % 4096]
            } else {
                lz_copy(st, out, mpos, n).1[out.len() + k - lz_dist(st, mpos)]
            },
    decreases n,
{
    if n == 0 {
        assert(out.subrange(0, out.len() as int) =~= out);
    } else {
        let v = st.text[mpos];
        let st1 = lz_put(st, v);
        let out1 = out.push(v);
        let m1 = (mpos + 1) % 4096;
        let o = out.len() as int;
        let d = lz_dist(st, mpos);
        lemma_lz_copy_law(st1, out1, m1, (n - 1) as nat);
        let res = lz_copy(st, out, mpos, n);
        assert(res == lz_copy(st1, out1, m1, (n - 1) as nat));
        let st2 = res.0;
        let out2 = res.1;
        assert(lz_dist(st1, m1) == d);
        assert(out2.subrange(0, o + 1) == out1);
        assert(out2[o] == v) by {
            assert(out2.subrange(0, o + 1)[o] == out2[o]);
        }
        assert(out2.subrange(0, o) =~= out) by {
            assert forall|j: int| 0 <= j < o implies out2.subrange(0, o)[j] == out[j] by {
                assert(out2.subrange(0, o + 1)[j] == out2[j]);
            }
        }
        assert forall|k: int| 0 <= k < n implies #[trigger] st2.text[(st.r + k) % 4096] == out2[o + k] by {
            if k == 0 {
                assert((st.r - st1.r) % 4096 == 4095);
                assert(st1.text[st.r] == v);
                assert(st.r % 4096 == st.r);
            } else {
                assert((st1.r + (k - 1)) % 4096 == (st.r + k) % 4096);
                assert(st2.text[(st1.r + (k - 1)) % 4096] == out2[out1.len() + (k - 1)]);
            }
        }
        assert forall|q: int| 0 <= q < 4096 && (q - st.r) % 4096 >= n implies #[trigger] st2.text[q]
            == st.text[q] by {
            assert(q != st.r);
            assert((q - st1.r) % 4096 == (q - st.r) % 4096 - 1);
            assert(st2.text[q] == st1.text[q]);
        }
        assert forall|k: int| 0 <= k < n implies #[trigger] out2[o + k] == if k < d {
            st.text[(mpos + k) % 4096]
        } else {
            out2[o + k - d]
        } by {
            if k == 0 {
                assert(mpos % 4096 == mpos);
            } else {
                assert(out2[out1.len() + (k - 1)] == if k - 1 < d {
                    st1.text[(m1 + (k - 1)) % 4096]
                } else {
                    out2[out1.len() + (k - 1) - d]
                });
                if k - 1 < d {
                    let pos = (mpos + k) % 4096;
                    assert((m1 + (k - 1)) % 4096 == pos);
                    if k == d {
                        assert(pos == st.r);
                    } else {
                        assert(pos != st.r);
                    }
                }
            }
        }
    }
}

proof fn lemma_lz_run_wf(src: Seq<u8>, size: int, i: int, flags: int, st: Lz, out: Seq<u8>)
    requires
        lz_wf(st),
    ensures
        lz_run(src, size, i, flags, st, out) matches Ok((st2, _)) ==> lz_wf(st2),
    decreases src.len() - i,
{
    if i < size {
        let f1 = flags / 2;
        let reload = (f1 / 256) % 2 == 0;
        if !(reload && i >= src.len()) {
            let f2 = if reload { src[i] + 0xFF00 } else { f1 };
            let j = if reload { i + 1 } else { i };
            if f2 % 2 == 1 {
                if j + 1 < src.len() {
                    let b0 = src[j] as int;
                    let b1 = src[j + 1] as int;
                    let mpos = b0 + (b1 % 16) * 256;
                    let mlen0 = b1 / 16 + 3;
                    if !(mlen0 == 18 && j + 2 >= src.len()) {
                        let mlen = if mlen0 == 18 { 18 + src[j + 2] } else { mlen0 };
                        let k = if mlen0 == 18 { j + 3 } else { j + 2 };
                        lemma_lz_copy_wf(st, out, mpos, mlen as nat);
                        let (st2, out2) = lz_copy(st, out, mpos, mlen as nat);
                        assert(0 <= src.len() - k < src.len() - i);
                        lemma_lz_run_wf(src, size, k, f2, st2, out2);
                    }
                }
            } else if j < src.len() {
                lemma_lz_run_wf(src, size, j + 1, f2, lz_put(st, src[j]), out.push(src[j]));
            }
        }
    }
}

/// The ring holds the last `n` bytes of `out`, the latest one just behind
/// the write position.
pub open spec fn ring_holds(st: Lz, out: Seq<u8>, n: int) -> bool {
    &&& 0 <= n <= out.len()
    &&& n <= 4096
    &&& forall|j: int| 1 <= j <= n ==> #[trigger] st.text[(st.r - j) % 4096] == out[out.len() - j]
}

pub open spec fn min4096(x: int) -> int {
    if x < 4096 {
        x
    } else {
        4096
    }
}

/// Writing one output byte into the ring keeps it holding the latest bytes.
proof fn lemma_ring_put(st: Lz, out: Seq<u8>, n: int, v: u8)
    requires
        lz_wf(st),
        ring_holds(st, out, n),
    ensures
        ring_holds(lz_put(st, v), out.push(v), min4096(n + 1)),
{
    let st1 = lz_put(st, v);
    let o1 = out.push(v);
    assert forall|j: int| 1 <= j <= min4096(n + 1) implies #[trigger] st1.text[(st1.r - j) % 4096] == o1[o1.len()
        - j] by {
        if j == 1 {
            assert((st1.r - 1) % 4096 == st.r);
        } else {
            assert((st1.r - j) % 4096 == (st.r - (j - 1)) % 4096);
            assert((st.r - (j - 1)) % 4096 != st.r);
            assert(o1[o1.len() - j] == out[out.len() - (j - 1)]);
        }
    }
}

/// A back reference writes every byte it outputs into the ring.
proof fn lemma_ring_copy(st: Lz, out: Seq<u8>, mpos: int, len: nat, n: int)
    requires
        lz_wf(st),
        0 <= mpos < 4096,
        ring_holds(st, out, n),
    ensures
        lz_copy(st, out, mpos, len).1.len() == out.len() + len,
        ring_holds(lz_copy(st, out, mpos, len).0, lz_copy(st, out, mpos, len).1, min4096(n + len)),
    decreases len,
{
    if len > 0 {
        let v = st.text[mpos];
        lemma_ring_put(st, out, n, v);
        lemma_ring_copy(lz_put(st, v), out.push(v), (mpos + 1) % 4096, (len - 1) as nat, min4096(n + 1));
        assert(min4096(min4096(n + 1) + (len - 1)) == min4096(n + len));
    }
}

/// The ring holds the last 4096 bytes that an LZSS stream outputs: every
/// byte it outputs, literal or copied, goes into the ring, one after the
/// other, and the write position ends just after the latest.
pub proof fn lemma_lz_run_ring(src: Seq<u8>, size: int, i: int, flags: int, st: Lz, out: Seq<u8>, n: int)
    requires
        lz_wf(st),
        ring_holds(st, out, n),
    ensures
        lz_run(src, size, i, flags, st, out) matches Ok((st2, out2)) ==> out2.len() >= out.len() && ring_holds(
            st2,
            out2,
            min4096(n + out2.len() - out.len()),
        ),
    decreases src.len() - i,
{
    if i >= size {
        assert(min4096(n) == n);
    } else {
        let f1 = flags / 2;
        let reload = (f1 / 256) % 2 == 0;
        if !(reload && i >= src.len()) {
            let f2 = if reload { src[i] + 0xFF00 } else { f1 };
            let j = if reload { i + 1 } else { i };
            if f2 % 2 == 1 {
                if j + 1 < src.len() {
                    let b0 = src[j] as int;
                    let b1 = src[j + 1] as int;
                    let mpos = b0 + (b1 % 16) * 256;
                    let mlen0 = b1 / 16 + 3;
                    if !(mlen0 == 18 && j + 2 >= src.len()) {
                        let mlen = if mlen0 == 18 { 18 + src[j + 2] } else { mlen0 };
                        let k = if mlen0 == 18 { j + 3 } else { j + 2 };
                        lemma_lz_copy_wf(st, out, mpos, mlen as nat);
                        lemma_ring_copy(st, out, mpos, mlen as nat, n);
                        let (st2, out2) = lz_copy(st, out, mpos, mlen as nat);
                        let n2 = min4096(n + mlen);
                        assert(0 <= src.len() - k < src.len() - i);
                        lemma_lz_run_ring(src, size, k, f2, st2, out2, n2);
                        if let Ok((st3, out3)) = lz_run(src, size, k, f2, st2, out2) {
                            assert(min4096(n2 + out3.len() - out2.len()) == min4096(n + out3.len() - out.len()));
                        }
                    }
                }
            } else if j < src.len() {
                let v = src[j];
                lemma_ring_put(st, out, n, v);
                let n2 = min4096(n + 1);
                lemma_lz_run_ring(src, size, j + 1, f2, lz_put(st, v), out.push(v), n2);
                if let Ok((st3, out3)) = lz_run(src, size, j + 1, f2, lz_put(st, v), out.push(v)) {
                    assert(min4096(n2 + out3.len() - (out.len() + 1)) == min4096(n + out3.len() - out.len()));
                }
            }
        }
    }
}

/// Decodes one LZSS-compressed channel stream, running the ring buffer on.
fn lz_decode(src: &[u8], size: u64, text: &mut Vec<u8>, r: &mut usize) -> (res: Result<Vec<u8>, ()>)
    requires
        old(text)@.len() == 4096,
        *old(r) < 4096,
    ensures
        final(text)@.len() == 4096,
        *final(r) < 4096,
        match lz_run(src@, size as int, 0, 0, Lz { text: old(text)@, r: *old(r) as int }, seq![]) {
            Ok((st, o)) => res matches Ok(v) && v@ == o && final(text)@ == st.text && *final(r) == st.r,
            Err(()) => res is Err,
        },
{
    let ghost total = lz_run(src@, size as int, 0, 0, Lz { text: text@, r: *r as int }, seq![]);
    let mut o: Vec<u8> = Vec::new();
    let mut i: u64 = 0;
    let mut flags: u32 = 0;
    while i < size
        invariant
            text@.len() == 4096,
            *r < 4096,
            flags <= 0xFFFF,
            i <= src@.len(),
            total == lz_run(src@, size as int, 0, 0, Lz { text: old(text)@, r: *old(r) as int }, seq![]),
            total == lz_run(src@, size as int, i as int, flags as int, Lz { text: text@, r: *r as int }, o@),
        decreases src@.len() - i,
    {
        let ghost flags0 = flags as int;
        let ghost i0 = i as int;
        let f1 = flags >> 1;
        assert(f1 == flags / 2 && (f1 & 0x100 == 0) == ((f1 / 256) % 2 == 0)) by (bit_vector)
            requires
                f1 == flags >> 1,
                flags <= 0xFFFF,
        ;
        flags = f1;
        if flags & 0x100 == 0 {
            if i >= src.len() as u64 {
                assert(lz_run(src@, size as int, i0, flags0, Lz { text: text@, r: *r as int }, o@) is Err);
                return Err(());
            }
            let b = src[i as usize];
            assert((b as u32) | 0xFF00 == b + 0xFF00) by (bit_vector);
            flags = (b as u32) | 0xFF00;
            i += 1;
        }
        assert((flags & 1 != 0) == (flags % 2 == 1)) by (bit_vector);
        if flags & 1 != 0 {
            if src.len() as u64 - i < 2 {
                assert(lz_run(src@, size as int, i0, flags0, Lz { text: text@, r: *r as int }, o@) is Err);
                return Err(());
            }
            let b0 = src[i as usize] as usize;
            let b1 = src[(i + 1) as usize] as usize;
            assert((b0 | ((b1 & 0x0F) << 8)) == b0 + (b1 % 16) * 256 && (b1 >> 4) == b1 / 16) by (bit_vector)
                requires
                    b0 < 256,
                    b1 < 256,
            ;
            let mut mpos = b0 | ((b1 & 0x0F) << 8);
            let mut mlen = (b1 >> 4) + 3;
            i += 2;
            if mlen == 18 {
                if i >= src.len() as u64 {
                    return Err(());
                }
                mlen += src[i as usize] as usize;
                i += 1;
            }
            let ghost st0 = Lz { text: text@, r: *r as int };
            let ghost o0 = o@;
            let ghost mpos0 = mpos as int;
            let mut n: usize = 0;
            while n < mlen
                invariant
                    text@.len() == 4096,
                    *r < 4096,
                    mpos < 4096,
                    n <= mlen,
                    lz_copy(st0, o0, mpos0, mlen as nat) == lz_copy(
                        Lz { text: text@, r: *r as int },
                        o@,
                        mpos as int,
                        (mlen - n) as nat,
                    ),
                decreases mlen - n,
            {
                let v = text[mpos];
                o.push(v);
                text.set(*r, v);
                *r = (*r + 1) % 4096;
                mpos = (mpos + 1) % 4096;
                n += 1;
            }
        } else {
            if i >= src.len() as u64 {
                return Err(());
            }
            let v = src[i as usize];
            i += 1;
            o.push(v);
            text.set(*r, v);
            *r = (*r + 1) % 4096;
        }
    }
    Ok(o)
}


/// The signature "TLG5.0\0raw\x1a" that a TLG5 image starts with.
pub open spec fn tlg5_magic() -> Seq<u8> {
    seq![0x54u8, 0x4c, 0x47, 0x35, 0x2e, 0x30, 0x00, 0x72, 0x61, 0x77, 0x1a]
}

pub open spec fn has_magic(buf: Seq<u8>) -> bool {
    buf.len() >= 11 && buf.subrange(0, 11) == tlg5_magic()
}


/// One channel stream at `p`: a mark byte (0 = compressed), its size as a
/// 32-bit number, then that many bytes. Gives the channel's data, the
/// position after it and the decoder state after it.
pub open spec fn read_channel(buf: Seq<u8>, p: int, st: Lz) -> Result<(Seq<u8>, int, Lz), ErrV> {
    if p >= buf.len() {
        Err(ErrV::Index("index out of range"@))
    } else if buf.len() < p + 5 {
        Err(ErrV::Struct(struct_short_msg((p + 1) as nat, 4, buf.len())))
    } else {
        let size = le32(buf, p + 1);
        let src = py_slice(buf, p + 5, p + 5 + size);
        if buf[p] != 0 {
            Ok((src, p + 5 + size, st))
        } else {
            match lz_run(src, size, 0, 0, st, seq![]) {
                Ok((st2, o)) => Ok((o, p + 5 + size, st2)),
                Err(_) => Err(ErrV::Index("index out of range"@)),
            }
        }
    }
}

/// The first `n` channel streams from `p` on, in order.
pub open spec fn read_channels(buf: Seq<u8>, p: int, st: Lz, n: nat) -> Result<
    (Seq<Seq<u8>>, int, Lz),
    ErrV,
>
    decreases n,
{
    if n == 0 {
        Ok((seq![], p, st))
    } else {
        match read_channels(buf, p, st, (n - 1) as nat) {
            Err(e) => Err(e),
            Ok((cs, p1, st1)) => match read_channel(buf, p1, st1) {
                Err(e) => Err(e),
                Ok((c, p2, st2)) => Ok((cs.push(c), p2, st2)),
            },
        }
    }
}

/// The error of a block whose channels are too short for `need` pixels.
pub open spec fn block_error(chans: Seq<Seq<u8>>, need: int) -> Option<ErrV> {
    if chans[0].len() < need {
        Some(ErrV::Pimg("TLG5: truncated block"@))
    } else if need > 0 && exists|c: int| 1 <= c < chans.len() && #[trigger] chans[c].len() < need {
        Some(ErrV::Index("bytearray index out of range"@))
    } else {
        None
    }
}

pub open spec fn rows_left(h: nat, by: nat) -> nat {
    if by < h {
        (h - by) as nat
    } else {
        0
    }
}

/// The channel data of the blocks from row `by` on, after those in `acc`.
pub open spec fn read_blocks(
    buf: Seq<u8>,
    colors: nat,
    w: nat,
    h: nat,
    bh: nat,
    p: int,
    st: Lz,
    by: nat,
    acc: Seq<Seq<Seq<u8>>>,
) -> Result<Seq<Seq<Seq<u8>>>, ErrV>
    decreases rows_left(h, by),
{
    if by >= h || bh == 0 {
        Ok(acc)
    } else {
        let rows = if bh < h - by { bh as int } else { h - by };
        match read_channels(buf, p, st, colors) {
            Err(e) => Err(e),
            Ok((chans, p2, st2)) => match block_error(chans, rows * w) {
                Some(e) => Err(e),
                None => read_blocks(buf, colors, w, h, bh, p2, st2, by + bh, acc.push(chans)),
            },
        }
    }
}

/// ch[base] + ... + ch[base + x]
#[verifier::opaque]
pub open spec fn csum(ch: Seq<u8>, base: int, x: int) -> int
    decreases x + 1,
{
    if x < 0 {
        0
    } else {
        csum(ch, base, x - 1) + ch[base + x]
    }
}

/// The running delta sum of channel `c` (R, G, B, A) of the pixel at `x` of
/// the row whose deltas start at `base` in the block's channels
/// (B, G, R, A): red and blue carry the green delta as well.
#[verifier::opaque]
pub open spec fn delta(chans: Seq<Seq<u8>>, colors: nat, base: int, x: int, c: int) -> int {
    if c == 0 {
        csum(chans[2], base, x) + csum(chans[1], base, x)
    } else if c == 1 {
        csum(chans[1], base, x)
    } else if c == 2 {
        csum(chans[0], base, x) + csum(chans[1], base, x)
    } else if colors == 4 {
        csum(chans[3], base, x)
    } else {
        0
    }
}

/// Byte `k` of row `y` of the image: the byte above it plus the running
/// delta sum, modulo 256; alpha is 255 when the image has three channels.
#[verifier::opaque]
pub open spec fn tlg5_px(blocks: Seq<Seq<Seq<u8>>>, colors: nat, w: nat, bh: nat, y: int, k: int) -> int
    decreases y + 1,
{
    if y < 0 {
        0
    } else if k % 4 == 3 && colors == 3 {
        255
    } else {
        (tlg5_px(blocks, colors, w, bh, y - 1, k) + delta(
            blocks[(y as int) / (bh as int)],
            colors,
            ((y as int) % (bh as int)) * w,
            k / 4,
            k % 4,
        )) % 256
    }
}

/// The RGBA bytes of a `w` x `h` image, row after row.
pub open spec fn tlg5_pixels(blocks: Seq<Seq<Seq<u8>>>, colors: nat, w: nat, h: nat, bh: nat) -> Seq<u8> {
    Seq::new(4 * w * h, |i: int| tlg5_px(blocks, colors, w, bh, i / (4 * w as int), i % (4 * w as int)) as u8)
}

/// The pixels of an image with the given header, or the error that its
/// data gives.
pub open spec fn tlg5_body(buf: Seq<u8>, colors: nat, w: nat, h: nat, bh: nat) -> Result<Seq<u8>, ErrV> {
    let nblk = (h + bh - 1) / (bh as int);
    let st0 = Lz { text: Seq::new(4096, |i: int| 0u8), r: 0 };
    match read_blocks(buf, colors, w, h, bh, 24 + 4 * nblk, st0, 0, seq![]) {
        Ok(blocks) => Ok(tlg5_pixels(blocks, colors, w, h, bh)),
        Err(e) => Err(e),
    }
}


pub open spec fn hdr_colors(buf: Seq<u8>) -> nat {
    buf[11] as nat
}

pub open spec fn hdr_w(buf: Seq<u8>) -> nat {
    le32(buf, 12) as nat
}

pub open spec fn hdr_h(buf: Seq<u8>) -> nat {
    le32(buf, 16) as nat
}

pub open spec fn hdr_bh(buf: Seq<u8>) -> nat {
    le32(buf, 20) as nat
}

/// A TLG5 header that this decoder takes: three or four channels and a
/// block height above zero.
pub open spec fn header_ok(buf: Seq<u8>) -> bool {
    &&& has_magic(buf)
    &&& buf.len() >= 24
    &&& (hdr_colors(buf) == 3 || hdr_colors(buf) == 4)
    &&& hdr_bh(buf) != 0
}

pub open spec fn unsupported_msg(colors: u8) -> Seq<char> {
    "unsupported TLG5 (colors="@ + dec(colors as nat) + ")"@
}

/// A decoded image: `px` holds `w * h` RGBA pixels, row after row.
pub struct Image {
    pub w: u32,
    pub h: u32,
    pub px: Vec<u8>,
}

/// src[i] (IndexError if out of range).
pub fn at(src: &[u8], i: u64) -> (r: R<u8>)
    ensures
        i < src@.len() ==> r == Ok::<u8, PyErr>(src@[i as int]),
        i >= src@.len() ==> (r matches Err(e) && e@ == ErrV::Index("index out of range"@)),
{
    if i < src.len() as u64 {
        Ok(src[i as usize])
    } else {
        Err(index_error())
    }
}

fn rd32(buf: &[u8], o: usize) -> (v: u64)
    requires
        o + 4 <= buf@.len(),
    ensures
        v == le32(buf@, o as int),
        v < 0x1_0000_0000,
{
    buf[o] as u64 + buf[o + 1] as u64 * 256 + buf[o + 2] as u64 * 65536 + buf[o + 3] as u64 * 16777216
}

fn read_channel_exec(buf: &[u8], p: u128, text: &mut Vec<u8>, r: &mut usize) -> (res: R<(Vec<u8>, u128)>)
    requires
        old(text)@.len() == 4096,
        *old(r) < 4096,
        p <= 0x4_0000_0000_0000_0000,
    ensures
        final(text)@.len() == 4096,
        *final(r) < 4096,
        match read_channel(buf@, p as int, Lz { text: old(text)@, r: *old(r) as int }) {
            Ok((c, p2, st2)) => res matches Ok((v, q)) && v@ == c && q == p2 && final(text)@ == st2.text
                && *final(r) == st2.r,
            Err(e) => res matches Err(e2) && e2@ == e,
        },
        res matches Ok((v, q)) ==> q <= 0x4_0000_0000_0000_0000,
{
    let len = buf.len();
    if p >= len as u128 {
        return Err(index_error());
    }
    if (len as u128) < p + 5 {
        return Err(struct_short((p + 1) as u64, 4, len));
    }
    let mark = buf[p as usize];
    let size = rd32(buf, (p + 1) as usize);
    let q = p + 5;
    let end = q + size as u128;
    let b: u64 = if end < len as u128 { end as u64 } else { len as u64 };
    let src = slice(buf, q as u64, b);
    assert(src@ == py_slice(buf@, q as int, end as int));
    if mark != 0 {
        return Ok((slice_to_vec(src), end));
    }
    match lz_decode(src, size, text, r) {
        Ok(o) => Ok((o, end)),
        Err(()) => Err(index_error()),
    }
}

proof fn lemma_read_channels_err(buf: Seq<u8>, p: int, st: Lz, n: nat, m: nat)
    requires
        n <= m,
        read_channels(buf, p, st, n) is Err,
    ensures
        read_channels(buf, p, st, m) == read_channels(buf, p, st, n),
    decreases m - n,
{
    if n < m {
        lemma_read_channels_err(buf, p, st, n, (m - 1) as nat);
    }
}

pub open spec fn views(v: Seq<Vec<u8>>) -> Seq<Seq<u8>> {
    v.map_values(|c: Vec<u8>| c@)
}

/// Reads the `colors` channel streams of one block.
fn read_block(buf: &[u8], p: u128, colors: u8, text: &mut Vec<u8>, r: &mut usize) -> (res: R<(Vec<Vec<u8>>, u128)>)
    requires
        old(text)@.len() == 4096,
        *old(r) < 4096,
        p <= 0x4_0000_0000_0000_0000,
    ensures
        final(text)@.len() == 4096,
        *final(r) < 4096,
        match read_channels(buf@, p as int, Lz { text: old(text)@, r: *old(r) as int }, colors as nat) {
            Ok((cs, p2, st2)) => res matches Ok((v, q)) && views(v@) == cs && q == p2 && final(text)@
                == st2.text && *final(r) == st2.r,
            Err(e) => res matches Err(e2) && e2@ == e,
        },
        res matches Ok((v, q)) ==> q <= 0x4_0000_0000_0000_0000 && v@.len() == colors,
{
    let ghost st0 = Lz { text: text@, r: *r as int };
    let mut chans: Vec<Vec<u8>> = Vec::new();
    let mut q = p;
    let mut c: u8 = 0;
    assert(views(chans@) =~= Seq::<Seq<u8>>::empty());
    while c < colors
        invariant
            text@.len() == 4096,
            *r < 4096,
            q <= 0x4_0000_0000_0000_0000,
            c <= colors,
            chans@.len() == c,
            st0 == (Lz { text: old(text)@, r: *old(r) as int }),
            read_channels(buf@, p as int, st0, c as nat) == Ok::<(Seq<Seq<u8>>, int, Lz), ErrV>(
                (views(chans@), q as int, Lz { text: text@, r: *r as int }),
            ),
        decreases colors - c,
    {
        let ghost before = Lz { text: text@, r: *r as int };
        match read_channel_exec(buf, q, text, r) {
            Ok((v, q2)) => {
                let ghost prev = chans@;
                let ghost vv = v@;
                chans.push(v);
                q = q2;
                assert(views(chans@) =~= views(prev).push(vv));
            },
            Err(e) => {
                assert(read_channels(buf@, p as int, st0, (c + 1) as nat) is Err);
                proof {
                    lemma_read_channels_err(buf@, p as int, st0, (c + 1) as nat, colors as nat);
                }
                return Err(e);
            },
        }
        c += 1;
    }
    Ok((chans, q))
}


proof fn lemma_px_range(blocks: Seq<Seq<Seq<u8>>>, colors: nat, w: nat, bh: nat, y: int, k: int)
    ensures
        0 <= tlg5_px(blocks, colors, w, bh, y, k) < 256,
{
    reveal(tlg5_px);
}

/// One step of the row recurrence: the byte above plus the delta sum taken
/// modulo 256 gives the pixel byte.
proof fn lemma_px_step(
    blocks: Seq<Seq<Seq<u8>>>,
    colors: nat,
    w: nat,
    bh: nat,
    y: int,
    x: int,
    c: int,
    cs: Seq<Seq<u8>>,
    base: int,
    prev: int,
    acc: int,
)
    requires
        y >= 0,
        bh > 0,
        0 <= c < 4,
        !(c == 3 && colors == 3),
        blocks[y / (bh as int)] == cs,
        base == (y % (bh as int)) * w,
        prev == tlg5_px(blocks, colors, w, bh, y - 1, 4 * x + c),
        acc == delta(cs, colors, base, x, c) % 256,
    ensures
        (prev + acc) % 256 == tlg5_px(blocks, colors, w, bh, y, 4 * x + c),
{
    reveal(tlg5_px);
    assert((4 * x + c) / 4 == x && (4 * x + c) % 4 == c);
    lemma_mod256_add(delta(cs, colors, base, x, c), prev);
}

/// tlg5_px of an alpha byte of a three-channel image.
proof fn lemma_px_alpha3(blocks: Seq<Seq<Seq<u8>>>, w: nat, bh: nat, y: int, x: int)
    requires
        y >= 0,
    ensures
        tlg5_px(blocks, 3, w, bh, y, 4 * x + 3) == 255,
{
    reveal(tlg5_px);
    assert((4 * x + 3) % 4 == 3);
}

/// The delta sums of pixel `x` from those of pixel `x - 1`.
proof fn lemma_delta_step(cs: Seq<Seq<u8>>, colors: nat, base: int, x: int)
    requires
        x >= 0,
    ensures
        delta(cs, colors, base, x, 0) == delta(cs, colors, base, x - 1, 0) + cs[2][base + x] + cs[1][base + x],
        delta(cs, colors, base, x, 1) == delta(cs, colors, base, x - 1, 1) + cs[1][base + x],
        delta(cs, colors, base, x, 2) == delta(cs, colors, base, x - 1, 2) + cs[0][base + x] + cs[1][base + x],
        colors == 4 ==> delta(cs, colors, base, x, 3) == delta(cs, colors, base, x - 1, 3) + cs[3][base + x],
        delta(cs, colors, base, -1, 0) == 0,
        delta(cs, colors, base, -1, 1) == 0,
        delta(cs, colors, base, -1, 2) == 0,
        delta(cs, colors, base, -1, 3) == 0,
{
    reveal(delta);
    reveal(csum);
}

proof fn lemma_mod256_add(a: int, b: int)
    ensures
        ((a % 256) + b) % 256 == (a + b) % 256,
        (b + (a % 256)) % 256 == (b + a) % 256,
{
    lemma_add_mod_noop_right(b, a, 256);
}

/// The row of `w` pixels at `y` whose deltas start at `base` in the
/// block's channels, on top of the row `prev` above it.
fn recon_row(
    prev: &[u8],
    y: usize,
    w: usize,
    chans: &Vec<Vec<u8>>,
    colors: u8,
    base: usize,
    Ghost(blocks): Ghost<Seq<Seq<Seq<u8>>>>,
    Ghost(bh): Ghost<nat>,
) -> (row: Vec<u8>)
    requires
        colors == 3 || colors == 4,
        chans@.len() == colors,
        forall|c: int| 0 <= c < colors ==> base + w <= #[trigger] chans@[c]@.len(),
        bh > 0,
        (y as int) / (bh as int) < blocks.len(),
        blocks[(y as int) / (bh as int)] == views(chans@),
        base == ((y as int) % (bh as int)) * w,
        prev@.len() == 4 * w,
        forall|k: int|
            0 <= k < 4 * w ==> prev@[k] as int == #[trigger] tlg5_px(
                blocks,
                colors as nat,
                w as nat,
                bh,
                y - 1,
                k,
            ),
    ensures
        row@.len() == 4 * w,
        forall|k: int|
            0 <= k < 4 * w ==> row@[k] == tlg5_px(blocks, colors as nat, w as nat, bh, y as int, k) as u8,
{
    let ghost cs = views(chans@);
    let cb = &chans[0];
    let cg = &chans[1];
    let cr = &chans[2];
    let mut pb: u8 = 0;
    let mut pg: u8 = 0;
    let mut pr: u8 = 0;
    let mut pa: u8 = 0;
    let mut row: Vec<u8> = Vec::new();
    assert(cs[0] == cb@ && cs[1] == cg@ && cs[2] == cr@);
    assert(base + w <= chans@[0]@.len() && base + w <= chans@[1]@.len() && base + w <= chans@[2]@.len());
    assert(colors == 4 ==> base + w <= chans@[3]@.len());
    let cgl = cg.len();
    let cbl = cb.len();
    let crl = cr.len();
    let cal = if colors == 4 { chans[3].len() } else { 0 };
    let pl = prev.len();
    proof {
        lemma_delta_step(cs, colors as nat, base as int, 0);
    }
    for x in 0..w
        invariant
            pl == prev@.len(),
            cgl == cg@.len(),
            cbl == cb@.len(),
            crl == cr@.len(),
            colors == 4 ==> cal == chans@[3]@.len() && cs[3] == chans@[3]@ && base + w <= cal,
            base + w <= cgl,
            base + w <= cbl,
            base + w <= crl,
            cs == views(chans@),
            cs[0] == cb@,
            cs[1] == cg@,
            cs[2] == cr@,
            colors == 3 || colors == 4,
            chans@.len() == colors,
            (y as int) / (bh as int) < blocks.len(),
            blocks[(y as int) / (bh as int)] == cs,
            base == ((y as int) % (bh as int)) * w,
            bh > 0,
            prev@.len() == 4 * w,
            forall|k: int|
                0 <= k < 4 * w ==> prev@[k] as int == #[trigger] tlg5_px(
                    blocks,
                    colors as nat,
                    w as nat,
                    bh,
                    y - 1,
                    k,
                ),
            pr as int == delta(cs, colors as nat, base as int, x - 1, 0) % 256,
            pg as int == delta(cs, colors as nat, base as int, x - 1, 1) % 256,
            pb as int == delta(cs, colors as nat, base as int, x - 1, 2) % 256,
            colors == 4 ==> pa as int == delta(cs, colors as nat, base as int, x - 1, 3) % 256,
            row@.len() == 4 * x,
            forall|k: int|
                0 <= k < 4 * x ==> row@[k] == tlg5_px(
                    blocks,
                    colors as nat,
                    w as nat,
                    bh,
                    y as int,
                    k,
                ) as u8,
    {
        let i = base + x;
        let g = cg[i];
        proof {
            lemma_delta_step(cs, colors as nat, base as int, x as int);
            lemma_mod256_add(delta(cs, colors as nat, base as int, x - 1, 2), cb[i as int] + g);
            lemma_mod256_add(delta(cs, colors as nat, base as int, x - 1, 1), g as int);
            lemma_mod256_add(delta(cs, colors as nat, base as int, x - 1, 0), cr[i as int] + g);
        }
        pb = ((pb as u32 + cb[i] as u32 + g as u32) % 256) as u8;
        pg = ((pg as u32 + g as u32) % 256) as u8;
        pr = ((pr as u32 + cr[i] as u32 + g as u32) % 256) as u8;
        if colors == 4 {
            proof {
                lemma_mod256_add(delta(cs, colors as nat, base as int, x - 1, 3), chans@[3]@[i as int] as int);
            }
            pa = ((pa as u32 + chans[3][i] as u32) % 256) as u8;
        }
        let k = 4 * x;
        let ghost row0 = row@;
        proof {
            lemma_px_step(blocks, colors as nat, w as nat, bh, y as int, x as int, 0, cs, base as int, prev@[k as int] as int, pr as int);
            lemma_px_step(blocks, colors as nat, w as nat, bh, y as int, x as int, 1, cs, base as int, prev@[k + 1] as int, pg as int);
            lemma_px_step(blocks, colors as nat, w as nat, bh, y as int, x as int, 2, cs, base as int, prev@[k + 2] as int, pb as int);
            if colors == 4 {
                lemma_px_step(blocks, colors as nat, w as nat, bh, y as int, x as int, 3, cs, base as int, prev@[k + 3] as int, pa as int);
            } else {
                lemma_px_alpha3(blocks, w as nat, bh, y as int, x as int);
            }
        }
        row.push(((prev[k] as u32 + pr as u32) % 256) as u8);
        row.push(((prev[k + 1] as u32 + pg as u32) % 256) as u8);
        row.push(((prev[k + 2] as u32 + pb as u32) % 256) as u8);
        if colors == 4 {
            row.push(((prev[k + 3] as u32 + pa as u32) % 256) as u8);
        } else {
            row.push(0xFF);
        }
        assert forall|kk: int| 0 <= kk < 4 * (x + 1) implies row@[kk] == tlg5_px(
            blocks,
            colors as nat,
            w as nat,
            bh,
            y as int,
            kk,
        ) as u8 by {
            if kk >= 4 * x {
                assert(kk == k || kk == k + 1 || kk == k + 2 || kk == k + 3);
            } else {
                assert(row@[kk] == row0[kk]);
            }
        }
    }
    row
}

/// Growing the block list leaves the pixels of the rows already covered
/// unchanged.
proof fn lemma_px_prefix(
    b1: Seq<Seq<Seq<u8>>>,
    b2: Seq<Seq<Seq<u8>>>,
    colors: nat,
    w: nat,
    bh: nat,
    y: int,
    k: int,
)
    requires
        bh > 0,
        b1.len() <= b2.len(),
        forall|j: int| 0 <= j < b1.len() ==> b2[j] == b1[j],
        y / (bh as int) < b1.len(),
    ensures
        tlg5_px(b1, colors, w, bh, y, k) == tlg5_px(b2, colors, w, bh, y, k),
    decreases y + 1,
{
    reveal(tlg5_px);
    if y >= 0 {
        lemma_div_is_ordered(y - 1, y, bh as int);
        lemma_px_prefix(b1, b2, colors, w, bh, y - 1, k);
        if y / (bh as int) >= 0 {
            assert(b2[y / (bh as int)] == b1[y / (bh as int)]);
        }
    }
}

pub(crate) fn has_magic_exec(buf: &[u8]) -> (b: bool)
    ensures
        b == has_magic(buf@),
{
    if buf.len() < 11 {
        return false;
    }
    let b = buf[0] == 0x54 && buf[1] == 0x4c && buf[2] == 0x47 && buf[3] == 0x35 && buf[4] == 0x2e
        && buf[5] == 0x30 && buf[6] == 0x00 && buf[7] == 0x72 && buf[8] == 0x61 && buf[9] == 0x77
        && buf[10] == 0x1a;
    proof {
        if b {
            assert(buf@.subrange(0, 11) =~= tlg5_magic());
        } else {
            let m = tlg5_magic();
            let s = buf@.subrange(0, 11);
            if s == m {
                assert(s[0] == m[0] && s[1] == m[1] && s[2] == m[2] && s[3] == m[3] && s[4] == m[4]
                    && s[5] == m[5] && s[6] == m[6] && s[7] == m[7] && s[8] == m[8] && s[9] == m[9]
                    && s[10] == m[10]);
            }
        }
    }
    b
}

/// Whether a channel after the first is shorter than `need`.
fn any_short(chans: &Vec<Vec<u8>>, need: u64) -> (b: bool)
    ensures
        b == exists|c: int| 1 <= c < chans@.len() && #[trigger] views(chans@)[c].len() < need,
{
    let mut c: usize = 1;
    while c < chans.len()
        invariant
            1 <= c,
            forall|j: int| 1 <= j < c && j < chans@.len() ==> #[trigger] views(chans@)[j].len() >= need,
        decreases chans@.len() - c,
    {
        if (chans[c].len() as u64) < need {
            assert(views(chans@)[c as int].len() < need);
            return true;
        }
        c += 1;
    }
    false
}

proof fn lemma_row_block(i: int, stride: int, done: int, bh: int, n: int)
    requires
        stride > 0,
        bh > 0,
        0 <= i < done * stride,
        done <= n * bh,
    ensures
        0 <= i / stride < done,
        (i / stride) / bh < n,
{
    assert(done * stride == stride * done) by (nonlinear_arith);
    lemma_multiply_divide_lt(i, stride, done);
    assert(bh * n == n * bh) by (nonlinear_arith);
    lemma_multiply_divide_lt(i / stride, bh, n);
}

/// Decodes a TLG5 image into RGBA pixels, with the outcome that
/// `decode_outcome` describes.
///
/// Where the buffer is not a TLG5 image, or one that this decoder does not
/// take, the error says so. Otherwise the pixels are those of `tlg5_body`,
/// or its error; allocating the pixel buffer and the zero row fails as
/// `bytearray()` does: with `OverflowError` for more than `isize::MAX`
/// bytes, and with `MemoryError` where the allocator refuses a buffer of
/// more than zero bytes.
pub fn decode(buf: &[u8]) -> (res: R<Image>)
    ensures
        decode_outcome(buf@, image_result_view(res)),
{
    if !has_magic_exec(buf) {
        return Err(PyErr::Pimg(String::from_str("not a TLG5 image")));
    }
    if buf.len() < 24 {
        return Err(struct_short(11, 13, buf.len()));
    }
    let colors = buf[11];
    let w = rd32(buf, 12);
    let h = rd32(buf, 16);
    let bh = rd32(buf, 20);
    if (colors != 3 && colors != 4) || bh == 0 {
        let mut m = String::from_str("unsupported TLG5 (colors=");
        push_chars(&mut m, dec_u128(colors as u128).as_slice());
        m.append(")");
        return Err(PyErr::Pimg(m));
    }
    let ghost gw = w as nat;
    let ghost gh = h as nat;
    let ghost gbh = bh as nat;
    let ghost gc = colors as nat;
    let nblk = (h + bh - 1) / bh;
    let mut p: u128 = 24 + 4 * nblk as u128;
    let mut text: Vec<u8> = Vec::new();
    for i in 0..4096usize
        invariant
            text@ == Seq::new(i as nat, |j: int| 0u8),
    {
        text.push(0);
        assert(text@ =~= Seq::new((i + 1) as nat, |j: int| 0u8));
    }
    let mut r: usize = 0;
    let stride = w * 4;
    assert(stride as i128 * h as i128 == 4 * gw * gh && 0 <= stride * h < 0x10_0000_0000_0000_0000)
        by (nonlinear_arith)
        requires
            stride == w * 4,
            gw == w,
            gh == h,
            w < 0x1_0000_0000,
            h < 0x1_0000_0000,
    ;
    assert(gw == hdr_w(buf@) && gh == hdr_h(buf@));
    assert(4 * gw * gh <= isize::MAX && 4 * gw > isize::MAX ==> gh == 0) by (nonlinear_arith);
    assert(4 * gw * gh > 0 ==> gw > 0) by (nonlinear_arith);
    let mut out = match alloc_zeroed(stride as i128 * h as i128) {
        Ok(v) => v,
        Err(e) => {
            assert(4 * gw * gh > isize::MAX ==> e@ == overflow_errv());
            proof {
                if 4 * gw * gh <= isize::MAX {
                    assert(e@ == memory_errv());
                    assert(stride as i128 * h as i128 != 0);
                    assert(4 * gw * gh > 0);
                    assert(gw > 0 && 4 * gw <= 4 * gw * gh) by (nonlinear_arith)
                        requires
                            4 * gw * gh > 0,
                    ;
                }
            }
            return Err(e);
        },
    };
    assert(4 * gw * gh <= isize::MAX);
    assert(stride as i128 == 4 * gw);
    let zero_row = match alloc_zeroed(stride as i128) {
        Ok(v) => v,
        Err(e) => {
            assert(4 * gw > isize::MAX ==> e@ == overflow_errv());
            assert(4 * gw <= isize::MAX ==> e@ == memory_errv() && gw > 0);
            return Err(e);
        },
    };
    assert(4 * gw <= isize::MAX);
    let ghost st0 = Lz { text: text@, r: 0 };
    let ghost total = read_blocks(buf@, gc, gw, gh, gbh, p as int, st0, 0, seq![]);
    let ghost mut acc: Seq<Seq<Seq<u8>>> = seq![];
    let ghost mut done: int = 0;
    let mut by: u64 = 0;
    assert(done * stride == 0);
    let outl = out.len();
    while by < h
        invariant
            header_ok(buf@),
            gc == hdr_colors(buf@),
            gw == hdr_w(buf@),
            gh == hdr_h(buf@),
            gbh == hdr_bh(buf@),
            4 * gw * gh <= isize::MAX,
            4 * gw <= isize::MAX,
            colors == 3 || colors == 4,
            gc == colors,
            gw == w,
            gh == h,
            gbh == bh,
            bh > 0,
            w < 0x1_0000_0000,
            h < 0x1_0000_0000,
            bh < 0x1_0000_0000,
            stride == w * 4,
            outl == out@.len(),
            out@.len() == stride * h,
            zero_row@ == Seq::new(stride as nat, |j: int| 0u8),
            text@.len() == 4096,
            r < 4096,
            p <= 0x4_0000_0000_0000_0000,
            by == acc.len() * bh,
            by <= h + bh,
            total == read_blocks(buf@, gc, gw, gh, gbh, p as int, Lz { text: text@, r: r as int }, by as nat, acc),
            total == read_blocks(buf@, gc, gw, gh, gbh, 24 + 4 * ((gh + gbh - 1) / (gbh as int)), Lz { text: Seq::new(4096, |i: int| 0u8), r: 0 }, 0, seq![]),
            done == (if by < h { by as int } else { h as int }),
            forall|i: int|
                0 <= i < done * stride ==> #[trigger] out@[i]
                    == tlg5_px(acc, gc, gw, gbh, i / (stride as int), i % (stride as int)) as u8,
        decreases rows_left(gh, by as nat),
    {
        let rows = if bh < h - by { bh } else { h - by };
        let ghost p0 = p as int;
        let ghost stb = Lz { text: text@, r: r as int };
        let (chans, q) = match read_block(buf, p, colors, &mut text, &mut r) {
            Ok(x) => x,
            Err(e) => {
                return Err(e);
            },
        };
        let ghost cs = views(chans@);
        assert(rows * w < 0x1_0000_0000_0000_0000) by (nonlinear_arith)
            requires
                rows <= bh,
                bh < 0x1_0000_0000,
                w < 0x1_0000_0000,
        ;
        let need = rows * w;
        if (chans[0].len() as u64) < need {
            return Err(PyErr::Pimg(String::from_str("TLG5: truncated block")));
        }
        if need > 0 && any_short(&chans, need) {
            return Err(PyErr::Index(String::from_str("bytearray index out of range")));
        }
        assert(block_error(cs, rows * w) is None);
        let ghost acc0 = acc;
        proof {
            acc = acc.push(cs);
            assert(forall|c: int| 0 <= c < colors ==> #[trigger] cs[c].len() >= need);
            assert forall|i: int|
                0 <= i < done * stride implies #[trigger] out@[i]
                    == tlg5_px(acc, gc, gw, gbh, i / (stride as int), i % (stride as int)) as u8 by {
                lemma_row_block(i, stride as int, done, bh as int, acc0.len() as int);
                lemma_px_prefix(acc0, acc, gc, gw, gbh, i / (stride as int), i % (stride as int));
            }
        }
        let mut yy: u64 = 0;
        while yy < rows
            invariant
                0 <= yy <= rows,
                rows <= bh,
                by + rows <= h,
                rows == (if bh < h - by { bh as int } else { h - by }),
                need == rows * w,
                colors == 3 || colors == 4,
                gc == colors,
                gw == w,
                gh == h,
                gbh == bh,
                bh > 0,
                w < 0x1_0000_0000,
                h < 0x1_0000_0000,
                stride == w * 4,
                4 * w <= isize::MAX,
                outl == out@.len(),
                out@.len() == stride * h,
                zero_row@ == Seq::new(stride as nat, |j: int| 0u8),
                chans@.len() == colors,
                cs == views(chans@),
                forall|c: int| 0 <= c < colors ==> #[trigger] cs[c].len() >= need,
                acc.len() == acc0.len() + 1,
                acc[acc0.len() as int] == cs,
                by == acc0.len() * bh,
                forall|i: int|
                    0 <= i < (by + yy) * stride ==> #[trigger] out@[i] == tlg5_px(
                        acc,
                        gc,
                        gw,
                        gbh,
                        i / (stride as int),
                        i % (stride as int),
                    ) as u8,
            decreases rows - yy,
        {
            let y = by + yy;
            proof {
                lemma_mul_inequality(y + 1, h as int, stride as int);
                lemma_mul_is_distributive_add(stride as int, y as int, 1);
                lemma_mul_inequality(yy + 1, rows as int, w as int);
                lemma_mul_is_distributive_add(w as int, yy as int, 1);
                lemma_fundamental_div_mod_converse(y as int, bh as int, acc0.len() as int, yy as int);
                assert(y * stride + stride <= out@.len()) by (nonlinear_arith)
                    requires
                        (y + 1) * stride <= h * stride,
                        out@.len() == stride * h,
                ;
                assert(yy * w + w <= rows * w) by (nonlinear_arith)
                    requires
                        (yy + 1) * w <= rows * w,
                ;
                assert(y > 0 ==> y * stride >= stride) by (nonlinear_arith)
                    requires
                        stride >= 0,
                ;
            }
            let c0len = chans[0].len();
            assert(cs[0].len() >= need);
            assert(cs[0] == chans@[0]@);
            assert(yy * w <= c0len);
            let rowstart = (y * stride) as usize;
            let base = (yy * w) as usize;
            let su = stride as usize;
            assert(su == stride && rowstart == y * stride && base == yy * w);
            assert forall|c: int| 0 <= c < colors implies base + w <= #[trigger] chans@[c]@.len() by {
                assert(cs[c] == chans@[c]@);
            }
            let row = if y == 0 {
                proof {
                    assert forall|k: int| 0 <= k < 4 * w implies zero_row@[k] as int == #[trigger] tlg5_px(
                        acc,
                        colors as nat,
                        w as nat,
                        gbh,
                        y - 1,
                        k,
                    ) by {
                        reveal(tlg5_px);
                    }
                }
                recon_row(zero_row.as_slice(), y as usize, w as usize, &chans, colors, base, Ghost(acc), Ghost(gbh))
            } else {
                let prev = &out[rowstart - su..rowstart];
                proof {
                    lemma_mul_is_distributive_sub(stride as int, y as int, 1);
                    assert forall|k: int| 0 <= k < 4 * w implies prev@[k] as int == #[trigger] tlg5_px(
                        acc,
                        colors as nat,
                        w as nat,
                        gbh,
                        y - 1,
                        k,
                    ) by {
                        let i = rowstart - stride + k;
                        assert((y - 1) * stride == y * stride - stride) by (nonlinear_arith);
                        assert(i == (y - 1) * stride + k);
                        assert(0 <= i < (by + yy) * stride);
                        assert(out@[i] == tlg5_px(acc, gc, gw, gbh, i / (stride as int), i % (stride as int)) as u8);
                        lemma_px_range(acc, gc, gw, gbh, y - 1, k);
                        lemma_fundamental_div_mod_converse(i, stride as int, y - 1, k);
                        assert(prev@[k] == out@[i]);
                    }
                }
                recon_row(prev, y as usize, w as usize, &chans, colors, base, Ghost(acc), Ghost(gbh))
            };
            let ghost before = out@;
            for k in 0..su
                invariant
                    out@.len() == before.len(),
                    before.len() == outl,
                    rowstart + su <= before.len(),
                    row@.len() == su,
                    forall|i: int| 0 <= i < rowstart ==> #[trigger] out@[i] == before[i],
                    forall|j: int| 0 <= j < k ==> #[trigger] out@[rowstart + j] == row@[j],
            {
                out.set(rowstart + k, row[k]);
            }
            proof {
                assert forall|i: int|
                    0 <= i < (by + yy + 1) * stride implies #[trigger] out@[i] == tlg5_px(
                        acc,
                        gc,
                        gw,
                        gbh,
                        i / (stride as int),
                        i % (stride as int),
                    ) as u8 by {
                    if i >= rowstart {
                        let k = i - rowstart;
                        assert(out@[rowstart + k] == row@[k]);
                        lemma_fundamental_div_mod_converse(i, stride as int, y as int, k);
                    } else {
                        assert(out@[i] == before[i]);
                    }
                }
            }
            yy += 1;
        }
        proof {
            assert(by + bh == acc.len() * bh) by (nonlinear_arith)
                requires
                    by == acc0.len() * bh,
                    acc.len() == acc0.len() + 1,
            ;
            done = by + rows;
        }
        p = q;
        by = by + bh;
    }
    proof {
        assert(done == h);
        assert(stride as int == 4 * gw);
        assert(out@.len() == 4 * gw * gh);
        assert(done * stride == stride * h) by (nonlinear_arith)
            requires
                done == h,
        ;
        assert forall|i: int| 0 <= i < out@.len() implies out@[i] == tlg5_pixels(acc, gc, gw, gh, gbh)[i] by {
            assert(i < done * stride);
        }
        assert(out@ =~= tlg5_pixels(acc, gc, gw, gh, gbh));
        assert(total == Ok::<Seq<Seq<Seq<u8>>>, ErrV>(acc));
    }
    Ok(Image { w: w as u32, h: h as u32, px: out })
}

/// An image result by its size and pixels.
pub open spec fn image_result_view(r: R<Image>) -> Result<(nat, nat, Seq<u8>), ErrV> {
    match r {
        Ok(img) => Ok((img.w as nat, img.h as nat, img.px@)),
        Err(e) => Err(e@),
    }
}

pub open spec fn overflow_errv() -> ErrV {
    ErrV::Fatal { kind: "OverflowError"@, msg: "cannot fit 'int' into an index-sized integer"@ }
}

pub open spec fn memory_errv() -> ErrV {
    ErrV::Fatal { kind: "MemoryError"@, msg: Seq::<char>::empty() }
}

/// The decoded image of a buffer whose header is taken, by size and pixels,
/// or the error that its data gives.
pub open spec fn body_view(buf: Seq<u8>) -> Result<(nat, nat, Seq<u8>), ErrV> {
    match tlg5_body(buf, hdr_colors(buf), hdr_w(buf), hdr_h(buf), hdr_bh(buf)) {
        Ok(px) => Ok((hdr_w(buf), hdr_h(buf), px)),
        Err(e) => Err(e),
    }
}

/// What decoding `buf` gives. The header errors come first. Then the pixel
/// buffer of `4 * w * h` bytes and the zero row of `4 * w` bytes are
/// allocated: more than `isize::MAX` bytes is an `OverflowError`, and where
/// the allocator refuses one of them, which can only be where `w > 0`, a
/// `MemoryError`. Otherwise the image is `body_view`.
pub open spec fn decode_outcome(buf: Seq<u8>, d: Result<(nat, nat, Seq<u8>), ErrV>) -> bool {
    if !has_magic(buf) {
        d == Err::<(nat, nat, Seq<u8>), ErrV>(ErrV::Pimg("not a TLG5 image"@))
    } else if buf.len() < 24 {
        d == Err::<(nat, nat, Seq<u8>), ErrV>(ErrV::Struct(struct_short_msg(11, 13, buf.len())))
    } else if !header_ok(buf) {
        d == Err::<(nat, nat, Seq<u8>), ErrV>(ErrV::Pimg(unsupported_msg(buf[11])))
    } else if 4 * hdr_w(buf) * hdr_h(buf) > isize::MAX || 4 * hdr_w(buf) > isize::MAX {
        d == Err::<(nat, nat, Seq<u8>), ErrV>(overflow_errv())
    } else {
        ||| (hdr_w(buf) > 0 && d == Err::<(nat, nat, Seq<u8>), ErrV>(memory_errv()))
        ||| d == body_view(buf)
    }
}

/// A three-channel image decodes fully opaque: each pixel's alpha byte is
/// 255.
pub proof fn lemma_rgb_opaque(buf: Seq<u8>, w: nat, h: nat, bh: nat)
    ensures
        tlg5_body(buf, 3, w, h, bh) matches Ok(px) ==> forall|i: int|
            0 <= i < px.len() && i % 4 == 3 ==> #[trigger] px[i] == 255,
{
    let nblk = (h + bh - 1) / (bh as int);
    let st0 = Lz { text: Seq::new(4096, |i: int| 0u8), r: 0 };
    match read_blocks(buf, 3, w, h, bh, 24 + 4 * nblk, st0, 0, seq![]) {
        Ok(blocks) => {
            let px = tlg5_pixels(blocks, 3, w, h, bh);
            assert forall|i: int| 0 <= i < px.len() && i % 4 == 3 implies #[trigger] px[i] == 255 by {
                let row: int = 4 * (w as int);
                if w == 0 {
                    assert(4 * w * h == 0);
                }
                assert(row > 0);
                let y = i / row;
                let k = i % row;
                assert(y >= 0) by (nonlinear_arith)
                    requires
                        i >= 0,
                        row > 0,
                        y == i / row,
                ;
                vstd::arithmetic::div_mod::lemma_mod_mod(i, 4, w as int);
                assert(k % 4 == 3);
                lemma_px_alpha3(blocks, w, bh, y, k / 4);
                assert(4 * (k / 4) + 3 == k);
            }
        },
        Err(_) => {},
    }
}

} // verus!
