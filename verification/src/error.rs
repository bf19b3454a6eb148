//! Error kinds mirroring the Python exceptions that pimgext distinguishes.

use vstd::prelude::*;
use crate::text::{dec, dec_u128, push_chars};

verus! {

/// An error, named after the Python exception it stands for.
pub enum PyErr {
    /// PimgError
    Pimg(String),
    /// IndexError
    Index(String),
    /// ValueError
    Value(String),
    /// struct.error
    Struct(String),
    /// OSError (`text` is already formatted like str(OSError))
    Os { errno: Option<i32>, text: String },
    /// An exception that is never caught (the run stops). `kind` is the
    /// exception class name.
    Fatal { kind: &'static str, msg: String },
}

/// What an error holds, with its texts as character sequences.
pub enum ErrV {
    Pimg(Seq<char>),
    Index(Seq<char>),
    Value(Seq<char>),
    Struct(Seq<char>),
    Os { errno: Option<i32>, text: Seq<char> },
    Fatal { kind: Seq<char>, msg: Seq<char> },
}

impl View for PyErr {
    type V = ErrV;

    open spec fn view(&self) -> ErrV {
        match self {
            PyErr::Pimg(m) => ErrV::Pimg(m@),
            PyErr::Index(m) => ErrV::Index(m@),
            PyErr::Value(m) => ErrV::Value(m@),
            PyErr::Struct(m) => ErrV::Struct(m@),
            PyErr::Os { errno, text } => ErrV::Os { errno: *errno, text: text@ },
            PyErr::Fatal { kind, msg } => ErrV::Fatal { kind: kind@, msg: msg@ },
        }
    }
}

pub type R<T> = Result<T, PyErr>;

impl ErrV {
    /// str(exception)
    pub open spec fn text(self) -> Seq<char> {
        match self {
            ErrV::Pimg(m) => m,
            ErrV::Index(m) => m,
            ErrV::Value(m) => m,
            ErrV::Struct(m) => m,
            ErrV::Os { text, .. } => text,
            ErrV::Fatal { msg, .. } => msg,
        }
    }
}

impl PyErr {
    /// str(exception)
    pub fn text(&self) -> (s: String)
        ensures
            s@ == self@.text(),
    {
        match self {
            PyErr::Pimg(m) => m.clone(),
            PyErr::Index(m) => m.clone(),
            PyErr::Value(m) => m.clone(),
            PyErr::Struct(m) => m.clone(),
            PyErr::Os { text, .. } => text.clone(),
            PyErr::Fatal { msg, .. } => msg.clone(),
        }
    }

    /// An exception that stops the run.
    pub fn fatal(kind: &'static str, msg: String) -> (e: PyErr)
        ensures
            e@ == (ErrV::Fatal { kind: kind@, msg: msg@ }),
    {
        PyErr::Fatal { kind, msg }
    }
}

/// IndexError("index out of range")
pub fn index_error() -> (e: PyErr)
    ensures
        e@ == ErrV::Index("index out of range"@),
{
    PyErr::Index(String::from_str("index out of range"))
}

/// RecursionError("maximum recursion depth exceeded")
pub fn recursion_error() -> (e: PyErr)
    ensures
        e@ == (ErrV::Fatal { kind: "RecursionError"@, msg: "maximum recursion depth exceeded"@ }),
{
    PyErr::fatal("RecursionError", String::from_str("maximum recursion depth exceeded"))
}

/// TypeError(msg)
pub fn type_error(msg: String) -> (e: PyErr)
    ensures
        e@ == (ErrV::Fatal { kind: "TypeError"@, msg: msg@ }),
{
    PyErr::fatal("TypeError", msg)
}

/// The text of struct.error for struct.unpack_from() on a too short buffer.
pub open spec fn struct_short_msg(offset: nat, size: nat, buflen: nat) -> Seq<char> {
    "unpack_from requires a buffer of at least "@ + dec(offset + size)
        + " bytes for unpacking "@ + dec(size) + " bytes at offset "@ + dec(offset)
        + " (actual buffer size is "@ + dec(buflen) + ")"@
}

/// struct.unpack_from() on a too short buffer.
pub fn struct_short(offset: u64, size: u64, buflen: usize) -> (e: PyErr)
    ensures
        e@ == ErrV::Struct(struct_short_msg(offset as nat, size as nat, buflen as nat)),
{
    let mut s = String::from_str("unpack_from requires a buffer of at least ");
    let total = offset as u128 + size as u128;
    push_chars(&mut s, dec_u128(total).as_slice());
    s.append(" bytes for unpacking ");
    push_chars(&mut s, dec_u128(size as u128).as_slice());
    s.append(" bytes at offset ");
    push_chars(&mut s, dec_u128(offset as u128).as_slice());
    s.append(" (actual buffer size is ");
    push_chars(&mut s, dec_u128(buflen as u128).as_slice());
    s.append(")");
    PyErr::Struct(s)
}

/// A zero-filled buffer of `n` bytes, or `None` where the allocator refuses it.
/// The empty buffer takes no allocation, so it is always given.
fn zeroed(n: usize) -> (r: Option<Vec<u8>>)
    ensures
        r matches Some(v) ==> v@ == Seq::new(n as nat, |i: int| 0u8),
        n == 0 ==> r is Some,
{
    let mut v: Vec<u8> = Vec::new();
    if n == 0 {
        assert(v@ =~= Seq::new(0nat, |i: int| 0u8));
        return Some(v);
    }
    if v.try_reserve(n).is_err() {
        return None;
    }
    for i in 0..n
        invariant
            v@ == Seq::new(i as nat, |j: int| 0u8),
    {
        v.push(0);
        assert(v@ =~= Seq::new((i + 1) as nat, |j: int| 0u8));
    }
    Some(v)
}

/// bytearray(n): zero-filled buffer, failing the way CPython does.
/// Only `MemoryError` depends on the machine: it comes where the allocator
/// refuses the buffer, which never happens to an empty one.
pub fn alloc_zeroed(n: i128) -> (r: R<Vec<u8>>)
    ensures
        n > isize::MAX || n < isize::MIN ==> (r matches Err(e) && e@ == (ErrV::Fatal {
            kind: "OverflowError"@,
            msg: "cannot fit 'int' into an index-sized integer"@,
        })),
        isize::MIN <= n < 0 ==> (r matches Err(e) && e@ == (ErrV::Fatal {
            kind: "ValueError"@,
            msg: "negative count"@,
        })),
        0 <= n <= isize::MAX ==> match r {
            Ok(v) => v@ == Seq::new(n as nat, |i: int| 0u8),
            Err(e) => e@ == (ErrV::Fatal { kind: "MemoryError"@, msg: Seq::<char>::empty() }),
        },
        n == 0 ==> r is Ok,
{
    if n > isize::MAX as i128 || n < isize::MIN as i128 {
        return Err(
            PyErr::fatal(
                "OverflowError",
                String::from_str("cannot fit 'int' into an index-sized integer"),
            ),
        );
    }
    if n < 0 {
        return Err(PyErr::fatal("ValueError", String::from_str("negative count")));
    }
    match zeroed(n as usize) {
        Some(v) => Ok(v),
        None => Err(PyErr::fatal("MemoryError", String::new())),
    }
}

} // verus!
