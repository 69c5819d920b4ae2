//! A bounds-checked, forward-only reader over a byte buffer.
//!
//! Every read takes the buffer and a position in it, and either succeeds or
//! returns an [`Eof`] that says how many bytes were asked for and how many
//! remained. No read looks past the end of the buffer.
use vstd::prelude::*;

verus! {

/// The input ended before a read could complete.
#[derive(Debug, Clone, Copy, PartialEq, Eq, Structural)]
pub struct Eof {
    pub needed: usize,
    pub available: usize,
}

/// The error of a read of `w` bytes at `p` in `b`.
pub open spec fn eof_at(b: Seq<u8>, p: int, w: int) -> Eof {
    Eof { needed: w as usize, available: (b.len() - p) as usize }
}

/// Little-endian 16-bit value of the two bytes at `p`.
pub open spec fn u16_le(b: Seq<u8>, p: int) -> u16 {
    (b[p] as int + 256 * b[p + 1] as int) as u16
}

/// Little-endian 32-bit value of the four bytes at `p`.
pub open spec fn u32_le(b: Seq<u8>, p: int) -> u32 {
    (b[p] as int + 256 * b[p + 1] as int + 65536 * b[p + 2] as int + 16777216 * b[p + 3] as int) as u32
}

/// Position of the first zero byte at or after `p`, if there is one.
pub open spec fn nul_from(b: Seq<u8>, p: int) -> Option<int>
    decreases b.len() - p,
{
    if p < 0 || p >= b.len() {
        None
    } else if b[p] == 0 {
        Some(p)
    } else {
        nul_from(b, p + 1)
    }
}

/// What `String::from_utf8_lossy` makes of a run of bytes.
pub uninterp spec fn lossy_of(b: Seq<u8>) -> Seq<char>;

/// A null-terminated run of text at `p`: the text and the position after
/// the terminator. Without a terminator the read asks for every byte left
/// and one more, for the terminator.
pub open spec fn cstr_spec(b: Seq<u8>, p: int) -> Result<(Seq<char>, int), Eof> {
    match nul_from(b, p) {
        Some(e) => Ok((lossy_of(b.subrange(p, e)), e + 1)),
        None => Err(eof_at(b, p, b.len() - p + 1)),
    }
}

/// `n` null-terminated runs of text read one after another from `p`.
pub open spec fn cstrs_spec(b: Seq<u8>, p: int, n: nat) -> Result<(Seq<Seq<char>>, int), Eof>
    decreases n,
{
    if n == 0 {
        Ok((Seq::empty(), p))
    } else {
        match cstrs_spec(b, p, (n - 1) as nat) {
            Err(e) => Err(e),
            Ok((ss, q)) => match cstr_spec(b, q) {
                Err(e) => Err(e),
                Ok((s, r)) => Ok((ss.push(s), r)),
            },
        }
    }
}

/// The first zero byte from `p` on lies at or after `p`, within `b`; in a
/// prefix of `b` it is found where the prefix holds it, and not otherwise.
pub proof fn lemma_nul_prefix(b: Seq<u8>, p: int, n: int)
    requires
        0 <= p,
        0 <= n <= b.len(),
        nul_from(b, p) is Some,
    ensures
        p <= nul_from(b, p)->Some_0 < b.len(),
        nul_from(b, p)->Some_0 < n ==> nul_from(b.take(n), p) == nul_from(b, p),
        n <= nul_from(b, p)->Some_0 ==> nul_from(b.take(n), p) is None,
    decreases b.len() - p,
{
    if b[p] != 0 {
        lemma_nul_prefix(b, p + 1, n);
    }
}

/// The failure of a read in a buffer of `n` bytes, where the read would
/// have ended by `end`: it starts within the buffer, counts as available the
/// bytes left where it starts, and asks for more than that.
pub open spec fn eof_cut(e: Eof, n: int, end: int) -> bool {
    &&& e.available < e.needed
    &&& e.available <= n
    &&& n - e.available + e.needed <= end
}

/// A run of text read from a prefix of `b` that holds its terminator is the
/// run read from `b`; otherwise it runs out.
pub proof fn lemma_cstr_prefix(b: Seq<u8>, p: int, n: int)
    requires
        0 <= p,
        0 <= n <= b.len(),
        b.len() < usize::MAX,
        cstr_spec(b, p) is Ok,
    ensures
        p < cstr_spec(b, p)->Ok_0.1 <= b.len(),
        cstr_spec(b, p)->Ok_0.1 <= n ==> cstr_spec(b.take(n), p) == cstr_spec(b, p),
        n < cstr_spec(b, p)->Ok_0.1 ==> cstr_spec(b.take(n), p) is Err,
        p <= n < cstr_spec(b, p)->Ok_0.1 ==> eof_cut(
            cstr_spec(b.take(n), p)->Err_0,
            n,
            cstr_spec(b, p)->Ok_0.1,
        ),
{
    lemma_nul_prefix(b, p, n);
    let e = nul_from(b, p)->Some_0;
    if e < n {
        assert(b.take(n).subrange(p, e) =~= b.subrange(p, e));
    }
}

/// As `lemma_cstr_prefix`, for `k` runs read one after another.
pub proof fn lemma_cstrs_prefix(b: Seq<u8>, p: int, k: nat, n: int)
    requires
        0 <= p <= n <= b.len(),
        b.len() < usize::MAX,
        cstrs_spec(b, p, k) is Ok,
    ensures
        p <= cstrs_spec(b, p, k)->Ok_0.1 <= b.len(),
        cstrs_spec(b, p, k)->Ok_0.1 <= n ==> cstrs_spec(b.take(n), p, k) == cstrs_spec(b, p, k),
        n < cstrs_spec(b, p, k)->Ok_0.1 ==> cstrs_spec(b.take(n), p, k) is Err && eof_cut(
            cstrs_spec(b.take(n), p, k)->Err_0,
            n,
            cstrs_spec(b, p, k)->Ok_0.1,
        ),
    decreases k,
{
    if k > 0 {
        lemma_cstrs_prefix(b, p, (k - 1) as nat, n);
        let q = cstrs_spec(b, p, (k - 1) as nat)->Ok_0.1;
        lemma_cstr_prefix(b, q, n);
    }
}

/// The views of a sequence of strings.
pub open spec fn strings_view(v: Seq<String>) -> Seq<Seq<char>> {
    v.map_values(|s: String| s@)
}

/// Relies on `String::from_utf8_lossy`: the text depends on the bytes alone.
#[verifier::external_body]
pub(crate) fn bytes_to_string(bytes: &[u8]) -> (r: String)
    ensures
        r@ == lossy_of(bytes@),
{
    String::from_utf8_lossy(bytes).to_string()
}

/// Reads one byte at `pos`.
pub fn read_u8(b: &[u8], pos: usize) -> (r: Result<u8, Eof>)
    requires
        pos <= b@.len(),
    ensures
        match r {
            Ok(v) => pos + 1 <= b@.len() && v == b@[pos as int],
            Err(e) => pos + 1 > b@.len() && e == eof_at(b@, pos as int, 1),
        },
{
    if b.len() - pos < 1 {
        return Err(Eof { needed: 1, available: b.len() - pos });
    }
    Ok(b[pos])
}

/// Reads a little-endian 16-bit value at `pos`.
pub fn read_u16(b: &[u8], pos: usize) -> (r: Result<u16, Eof>)
    requires
        pos <= b@.len(),
    ensures
        match r {
            Ok(v) => pos + 2 <= b@.len() && v == u16_le(b@, pos as int),
            Err(e) => pos + 2 > b@.len() && e == eof_at(b@, pos as int, 2),
        },
{
    if b.len() - pos < 2 {
        return Err(Eof { needed: 2, available: b.len() - pos });
    }
    let v: u16 = b[pos] as u16 + 256 * (b[pos + 1] as u16);
    Ok(v)
}

/// Reads a little-endian 32-bit value at `pos`.
pub fn read_u32(b: &[u8], pos: usize) -> (r: Result<u32, Eof>)
    requires
        pos <= b@.len(),
    ensures
        match r {
            Ok(v) => pos + 4 <= b@.len() && v == u32_le(b@, pos as int),
            Err(e) => pos + 4 > b@.len() && e == eof_at(b@, pos as int, 4),
        },
{
    if b.len() - pos < 4 {
        return Err(Eof { needed: 4, available: b.len() - pos });
    }
    let v: u32 = b[pos] as u32 + 256 * (b[pos + 1] as u32) + 65536 * (b[pos + 2] as u32)
        + 16777216 * (b[pos + 3] as u32);
    Ok(v)
}

/// Steps over `n` bytes at `pos`, returning the position after them.
pub fn skip(b: &[u8], pos: usize, n: usize) -> (r: Result<usize, Eof>)
    requires
        pos <= b@.len(),
    ensures
        match r {
            Ok(q) => pos + n <= b@.len() && q == pos + n,
            Err(e) => pos + n > b@.len() && e == eof_at(b@, pos as int, n as int),
        },
{
    if b.len() - pos < n {
        return Err(Eof { needed: n, available: b.len() - pos });
    }
    Ok(pos + n)
}

/// Reads a null-terminated run of text at `pos`, decoding it lossily.
/// Returns the text and the position after the terminator.
///
/// A slice never holds `usize::MAX` bytes (its size is at most `isize::MAX`),
/// so the count of bytes asked for fits in a `usize`.
pub fn take_null_terminated_string(b: &[u8], pos: usize) -> (r: Result<(String, usize), Eof>)
    requires
        pos <= b@.len(),
        b@.len() < usize::MAX,
    ensures
        match r {
            Ok((s, q)) => cstr_spec(b@, pos as int) == Ok::<(Seq<char>, int), Eof>((s@, q as int))
                && q <= b@.len(),
            Err(e) => cstr_spec(b@, pos as int) == Err::<(Seq<char>, int), Eof>(e),
        },
{
    let mut e: usize = pos;
    while e < b.len() && b[e] != 0
        invariant
            pos <= e <= b@.len(),
            nul_from(b@, pos as int) == nul_from(b@, e as int),
        decreases b@.len() - e,
    {
        e = e + 1;
    }
    if e == b.len() {
        return Err(Eof { needed: b.len() - pos + 1, available: b.len() - pos });
    }
    let run = vstd::slice::slice_subrange(b, pos, e);
    let s = bytes_to_string(run);
    Ok((s, e + 1))
}

} // verus!
