//! Python's `==` between a tree value and an int, exact for floats: a float
//! is taken by its bits as the number it stands for.

use vstd::prelude::*;
use crate::value::{val_view, Val, ValV};

verus! {

/// 2 to the power `n`.
pub open spec fn p2(n: nat) -> int
    decreases n,
{
    if n == 0 {
        1
    } else {
        2 * p2((n - 1) as nat)
    }
}

proof fn lemma_p2_pos(n: nat)
    ensures
        p2(n) >= 1,
    decreases n,
{
    if n > 0 {
        lemma_p2_pos((n - 1) as nat);
    }
}

proof fn lemma_p2_add(a: nat, b: nat)
    ensures
        p2(a + b) == p2(a) * p2(b),
    decreases b,
{
    if b > 0 {
        lemma_p2_add(a, (b - 1) as nat);
        assert(p2(a + b) == 2 * p2((a + b - 1) as nat));
        assert(p2(a) * p2(b) == p2(a) * (2 * p2((b - 1) as nat)));
        assert(p2(a) * (2 * p2((b - 1) as nat)) == 2 * (p2(a) * p2((b - 1) as nat))) by (nonlinear_arith);
    }
}

/// A finite 64-bit float by its bits: `m * 2^k` with a signed integer `m`;
/// None for an infinity or a NaN.
pub open spec fn f64_parts(bits: u64) -> Option<(int, int)> {
    let e = (bits / 0x10_0000_0000_0000) % 2048;
    let f = bits % 0x10_0000_0000_0000;
    let neg = bits / 0x8000_0000_0000_0000 == 1;
    if e == 2047 {
        None
    } else {
        let m: int = if e == 0 { f as int } else { f + 0x10_0000_0000_0000 };
        let k: int = if e == 0 { -1074 } else { e - 1075 };
        Some((if neg { -m } else { m }, k))
    }
}

/// A finite 32-bit float by its bits, the same way.
pub open spec fn f32_parts(bits: u32) -> Option<(int, int)> {
    let e = (bits / 0x80_0000) % 256;
    let f = bits % 0x80_0000;
    let neg = bits / 0x8000_0000 == 1;
    if e == 255 {
        None
    } else {
        let m: int = if e == 0 { f as int } else { f + 0x80_0000 };
        let k: int = if e == 0 { -149 } else { e - 150 };
        Some((if neg { -m } else { m }, k))
    }
}

/// The bound past which an int is not compared exactly with a float: the
/// double nearest to 10**38.
pub open spec fn big_bound() -> int {
    99999999999999997748809823456034029568
}

/// Whether `m * 2^k` equals the int `n`, for `n` under the bound.
pub open spec fn float_eq_int(m: int, k: int, n: int) -> bool {
    &&& -big_bound() < n < big_bound()
    &&& if k >= 0 {
        m * p2(k as nat) == n
    } else {
        m == n * p2((-k) as nat)
    }
}

/// Python's `v == n` for a value of the tree and an int: a bool counts as
/// 0 or 1, a float compares by the number it stands for, anything else is
/// unequal.
pub open spec fn eq_num_spec(v: ValV, n: int) -> bool {
    match v {
        ValV::Int(i) => i == n,
        ValV::Bool(b) => (if b { 1int } else { 0int }) == n,
        ValV::F32(b) => match f32_parts(b) {
            Some((m, k)) => float_eq_int(m, k, n),
            None => false,
        },
        ValV::F64(b) => match f64_parts(b) {
            Some((m, k)) => float_eq_int(m, k, n),
            None => false,
        },
        _ => false,
    }
}

const BIG: i128 = 99999999999999997748809823456034029568;

/// Whether `(-1)^neg * m * 2^k` equals `n`.
fn parts_eq(neg: bool, m: u64, k: i32, n: i128) -> (r: bool)
    requires
        m < 0x20_0000_0000_0000,
        -1100 <= k <= 1000,
    ensures
        r == float_eq_int(if neg { -(m as int) } else { m as int }, k as int, n as int),
{
    assert(BIG == big_bound());
    if !(-BIG < n && n < BIG) {
        return false;
    }
    if m == 0 {
        proof {
            lemma_p2_pos(if k >= 0 { k as nat } else { (-k) as nat });
            if k < 0 && n != 0 {
                let q = p2((-k) as nat);
                assert(n * q != 0) by (nonlinear_arith)
                    requires
                        n != 0,
                        q >= 1,
                ;
            }
            if k >= 0 {
                assert(0 * p2(k as nat) == 0);
            }
        }
        return n == 0;
    }
    if k >= 0 {
        // the value m * 2^k, while it stays below 2^127
        let mut v: u128 = m as u128;
        let mut i: i32 = 0;
        while i < k
            invariant
                0 <= i <= k,
                v == (m as int) * p2(i as nat),
                v < 0x8000_0000_0000_0000_0000_0000_0000_0000,
                m >= 1,
                -big_bound() < n < big_bound(),
            decreases k - i,
        {
            if v >= 0x4000_0000_0000_0000_0000_0000_0000_0000 {
                proof {
                    lemma_p2_add(i as nat, (k - i) as nat);
                    lemma_p2_pos((k - i) as nat);
                    let rest = p2((k - i) as nat);
                    assert((m as int) * p2(k as nat) == v * rest) by (nonlinear_arith)
                        requires
                            v == (m as int) * p2(i as nat),
                            p2(k as nat) == p2(i as nat) * rest,
                    ;
                    assert(v * rest >= 2 * v) by (nonlinear_arith)
                        requires
                            rest >= 2,
                            v >= 0,
                    ;
                    assert(rest >= 2) by {
                        assert(p2((k - i) as nat) == 2 * p2((k - i - 1) as nat));
                        lemma_p2_pos((k - i - 1) as nat);
                    }
                    assert((m as int) * p2(k as nat) >= 0x8000_0000_0000_0000_0000_0000_0000_0000);
                    assert(-((m as int)) * p2(k as nat) == -((m as int) * p2(k as nat))) by (nonlinear_arith);
                }
                return false;
            }
            v = v * 2;
            proof {
                assert(p2((i + 1) as nat) == 2 * p2(i as nat));
                assert((m as int) * (2 * p2(i as nat)) == 2 * ((m as int) * p2(i as nat))) by (nonlinear_arith);
            }
            i += 1;
        }
        let x = v as i128;
        proof {
            assert((-(m as int)) * p2(k as nat) == -((m as int) * p2(k as nat))) by (nonlinear_arith);
        }
        if neg {
            -x == n
        } else {
            x == n
        }
    } else {
        // m == n * 2^j: m has j trailing zero bits and m / 2^j == |n|
        let j = -k;
        let mut q: u64 = m;
        let mut i: i32 = 0;
        while i < j
            invariant
                0 <= i <= j,
                j == -k,
                (m as int) == (q as int) * p2(i as nat),
                q >= 1,
                -big_bound() < n < big_bound(),
            decreases j - i,
        {
            if q % 2 != 0 {
                proof {
                    let x: int = if neg { -(n as int) } else { n as int };
                    if (m as int) == x * p2(j as nat) {
                        lemma_p2_add(i as nat, (j - i) as nat);
                        let rest = p2((j - i) as nat);
                        assert(rest == 2 * p2((j - i - 1) as nat));
                        lemma_p2_pos(i as nat);
                        assert((q as int) * p2(i as nat) == (x * rest) * p2(i as nat)) by (nonlinear_arith)
                            requires
                                (m as int) == (q as int) * p2(i as nat),
                                (m as int) == x * p2(j as nat),
                                p2(j as nat) == p2(i as nat) * rest,
                        ;
                        assert((q as int) == x * rest) by (nonlinear_arith)
                            requires
                                (q as int) * p2(i as nat) == (x * rest) * p2(i as nat),
                                p2(i as nat) >= 1,
                        ;
                        let hh = p2((j - i - 1) as nat);
                        assert(x * rest == 2 * (x * hh)) by (nonlinear_arith)
                            requires
                                rest == 2 * hh,
                        ;
                        assert((q as int) % 2 == 0);
                    }
                    if neg {
                        if (-(m as int)) == (n as int) * p2(j as nat) {
                            assert((m as int) == (-(n as int)) * p2(j as nat)) by (nonlinear_arith)
                                requires
                                    (-(m as int)) == (n as int) * p2(j as nat),
                            ;
                        }
                    }
                }
                return false;
            }
            q = q / 2;
            proof {
                assert(p2((i + 1) as nat) == 2 * p2(i as nat));
                assert((m as int) == (q as int) * p2((i + 1) as nat)) by (nonlinear_arith)
                    requires
                        (m as int) == (2 * (q as int)) * p2(i as nat),
                        p2((i + 1) as nat) == 2 * p2(i as nat),
                ;
            }
            i += 1;
        }
        let x = q as i128;
        proof {
            lemma_p2_pos(j as nat);
            let pj = p2(j as nat);
            if neg {
                assert((-(m as int) == (n as int) * pj) <==> (-(q as int) == n)) by (nonlinear_arith)
                    requires
                        (m as int) == (q as int) * pj,
                        pj >= 1,
                ;
            } else {
                assert(((m as int) == (n as int) * pj) <==> ((q as int) == n)) by (nonlinear_arith)
                    requires
                        (m as int) == (q as int) * pj,
                        pj >= 1,
                ;
            }
        }
        if neg {
            -x == n
        } else {
            x == n
        }
    }
}

/// v == n, with Python's semantics for ints, bools and floats.
pub fn eq_num(v: &Val, n: i128) -> (r: bool)
    ensures
        r == eq_num_spec(val_view(*v), n as int),
{
    match v {
        Val::Int(i) => *i as i128 == n,
        Val::Bool(b) => (if *b { 1i128 } else { 0i128 }) == n,
        Val::F64(bits) => {
            let b = *bits;
            let e = (b >> 52) & 0x7ff;
            let f = b & 0xF_FFFF_FFFF_FFFF;
            let neg = (b >> 63) == 1;
            proof {
                assert((b >> 52) & 0x7ff == (b / 0x10_0000_0000_0000) % 2048) by (bit_vector);
                assert(b & 0xF_FFFF_FFFF_FFFF == b % 0x10_0000_0000_0000) by (bit_vector);
                assert(b >> 63 == b / 0x8000_0000_0000_0000) by (bit_vector);
            }
            if e == 2047 {
                return false;
            }
            let m: u64 = if e == 0 {
                f
            } else {
                f + 0x10_0000_0000_0000
            };
            let k: i32 = if e == 0 {
                -1074
            } else {
                e as i32 - 1075
            };
            parts_eq(neg, m, k, n)
        },
        Val::F32(bits) => {
            let b = *bits;
            let e = (b >> 23) & 0xff;
            let f = b & 0x7F_FFFF;
            let neg = (b >> 31) == 1;
            proof {
                assert((b >> 23) & 0xff == (b / 0x80_0000) % 256) by (bit_vector);
                assert(b & 0x7F_FFFF == b % 0x80_0000) by (bit_vector);
                assert(b >> 31 == b / 0x8000_0000) by (bit_vector);
            }
            if e == 255 {
                return false;
            }
            let m: u64 = if e == 0 {
                f as u64
            } else {
                f as u64 + 0x80_0000
            };
            let k: i32 = if e == 0 {
                -149
            } else {
                e as i32 - 150
            };
            parts_eq(neg, m, k, n)
        },
        _ => false,
    }
}

} // verus!
