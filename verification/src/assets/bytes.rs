//! Little-endian fields of byte buffers, and a cursor over an in-memory buffer.
use vstd::prelude::*;

use super::error::AssetError;
use crate::text::utf8_str;

verus! {

/// The little-endian `u16` at byte `i`.
pub open spec fn le_u16(b: Seq<u8>, i: int) -> u16 {
    (b[i] as int + b[i + 1] as int * 0x100) as u16
}

/// The little-endian `u32` at byte `i`.
pub open spec fn le_u32(b: Seq<u8>, i: int) -> u32 {
    (b[i] as int + b[i + 1] as int * 0x100 + b[i + 2] as int * 0x1_0000 + b[i + 3] as int
        * 0x100_0000) as u32
}

pub fn get_u16(b: &[u8], i: usize) -> (r: u16)
    requires
        i + 2 <= b@.len(),
    ensures
        r == le_u16(b@, i as int),
{
    b[i] as u16 + (b[i + 1] as u16) * 0x100
}

pub fn get_u32(b: &[u8], i: usize) -> (r: u32)
    requires
        i + 4 <= b@.len(),
    ensures
        r == le_u32(b@, i as int),
{
    b[i] as u32 + (b[i + 1] as u32) * 0x100 + (b[i + 2] as u32) * 0x1_0000 + (b[i + 3] as u32)
        * 0x100_0000
}

/// Where a cursor over `len` bytes stands after trying to read `n` bytes at `pos`: past
/// them when they are all there, and at the end of the buffer when they are not.
pub open spec fn after_read(len: int, pos: int, n: int) -> int {
    if pos + n <= len {
        pos + n
    } else {
        len
    }
}

/// Read the `u32` at the cursor. A short read is `UnexpectedEof` and leaves the cursor at
/// the end of the buffer.
pub fn read_u32(b: &[u8], pos: &mut usize) -> (r: Result<u32, AssetError>)
    ensures
        *final(pos) == after_read(b@.len() as int, *old(pos) as int, 4),
        *old(pos) + 4 <= b@.len() ==> r == Ok::<u32, AssetError>(le_u32(b@, *old(pos) as int)),
        *old(pos) + 4 > b@.len() ==> r == Err::<u32, AssetError>(AssetError::UnexpectedEof),
{
    if *pos <= b.len() && b.len() - *pos >= 4 {
        let v = get_u32(b, *pos);
        *pos = *pos + 4;
        Ok(v)
    } else {
        *pos = b.len();
        Err(AssetError::UnexpectedEof)
    }
}

/// Read the `u16` at the cursor, as `read_u32` does.
pub fn read_u16(b: &[u8], pos: &mut usize) -> (r: Result<u16, AssetError>)
    ensures
        *final(pos) == after_read(b@.len() as int, *old(pos) as int, 2),
        *old(pos) + 2 <= b@.len() ==> r == Ok::<u16, AssetError>(le_u16(b@, *old(pos) as int)),
        *old(pos) + 2 > b@.len() ==> r == Err::<u16, AssetError>(AssetError::UnexpectedEof),
{
    if *pos <= b.len() && b.len() - *pos >= 2 {
        let v = get_u16(b, *pos);
        *pos = *pos + 2;
        Ok(v)
    } else {
        *pos = b.len();
        Err(AssetError::UnexpectedEof)
    }
}

/// Read `n` bytes at the cursor, as `read_u32` does.
pub fn read_bytes(b: &[u8], pos: &mut usize, n: usize) -> (r: Result<Vec<u8>, AssetError>)
    ensures
        *final(pos) == after_read(b@.len() as int, *old(pos) as int, n as int),
        *old(pos) + n <= b@.len() ==> (r matches Ok(v) && v@ == b@.subrange(
            *old(pos) as int,
            *old(pos) + n,
        )),
        *old(pos) + n > b@.len() ==> r == Err::<Vec<u8>, AssetError>(AssetError::UnexpectedEof),
{
    if *pos <= b.len() && b.len() - *pos >= n {
        let v = slice_to_vec(slice_subrange(b, *pos, *pos + n));
        *pos = *pos + n;
        Ok(v)
    } else {
        *pos = b.len();
        Err(AssetError::UnexpectedEof)
    }
}

pub fn slice_to_vec(s: &[u8]) -> (v: Vec<u8>)
    ensures
        v@ == s@,
{
    vstd::slice::slice_to_vec(s)
}

pub fn slice_subrange(s: &[u8], i: usize, j: usize) -> (r: &[u8])
    requires
        i <= j <= s@.len(),
    ensures
        r@ == s@.subrange(i as int, j as int),
{
    vstd::slice::slice_subrange(s, i, j)
}

/// `k` is where the NUL-terminated string at the start of `s` ends: no NUL before it, and
/// a NUL or the end of `s` at it.
pub open spec fn nul_end(s: Seq<u8>, k: int) -> bool {
    &&& 0 <= k <= s.len()
    &&& forall|m: int| 0 <= m < k ==> s[m] != 0
    &&& (k == s.len() || s[k] == 0)
}

/// The bytes of `s` before its first NUL (all of `s` when there is none).
pub open spec fn cstr(s: Seq<u8>) -> Seq<u8> {
    s.take(choose|k: int| nul_end(s, k))
}

pub proof fn lemma_nul_end_unique(s: Seq<u8>, a: int, b: int)
    requires
        nul_end(s, a),
        nul_end(s, b),
    ensures
        a == b,
{
    if a < b {
        assert(s[a] != 0);
    } else if b < a {
        assert(s[b] != 0);
    }
}

/// The NUL-terminated UTF-8 name at `off` of a name table.
pub open spec fn cstring_at(table: Seq<u8>, off: int) -> Result<Seq<char>, AssetError> {
    if off >= table.len() {
        Err(AssetError::Truncated("name table offset"))
    } else if vstd::utf8::valid_utf8(cstr(table.skip(off))) {
        Ok(vstd::utf8::decode_utf8(cstr(table.skip(off))))
    } else {
        Err(AssetError::Utf8)
    }
}

/// The NUL-terminated name at `offset` of a name table, up to the end when no NUL follows.
pub fn read_cstring(bytes: &[u8], offset: usize) -> (r: Result<&str, AssetError>)
    ensures
        match r {
            Ok(s) => cstring_at(bytes@, offset as int) == Ok::<Seq<char>, AssetError>(s@),
            Err(e) => cstring_at(bytes@, offset as int) == Err::<Seq<char>, AssetError>(e),
        },
{
    if offset >= bytes.len() {
        return Err(AssetError::Truncated("name table offset"));
    }
    let mut end: usize = offset;
    while end < bytes.len() && bytes[end] != 0
        invariant
            offset <= end <= bytes@.len(),
            forall|m: int| offset <= m < end ==> bytes@[m] != 0,
        decreases bytes@.len() - end,
    {
        end += 1;
    }
    let ghost rest = bytes@.skip(offset as int);
    proof {
        assert(nul_end(rest, end - offset));
        lemma_nul_end_unique(rest, end - offset, choose|k: int| nul_end(rest, k));
        assert(cstr(rest) == bytes@.subrange(offset as int, end as int));
    }
    match utf8_str(slice_subrange(bytes, offset, end)) {
        Some(s) => Ok(s),
        None => Err(AssetError::Utf8),
    }
}

} // verus!
