//! Archive payload decompression: a whole zlib stream, or F.E.A.R. 2-style deflate blocks.
use vstd::prelude::*;

use super::bytes::{get_u32, le_u32, slice_subrange};
use super::error::AssetError;

verus! {

#[verifier::external_type_specification]
#[verifier::external_body]
pub struct ExDecompressError(flate2::DecompressError);

/// How a one-shot inflate call ended.
#[derive(Debug, Clone, Copy, PartialEq, Eq, Structural)]
pub enum InflateStatus {
    Done,
    BufError,
    StreamEnd,
}

/// What flate2 produces when a fresh decoder inflates all of `input` into a zeroed
/// buffer of `capacity` bytes with `FlushDecompress::Finish`: `None` when it reports the
/// stream corrupt, else the status, the buffer and the number of bytes written.
pub uninterp spec fn inflate_result(input: Seq<u8>, capacity: nat, zlib_header: bool) -> Option<
    (InflateStatus, Seq<u8>, u64),
>;

/// `flate2::Decompress::new(zlib_header)`, one `decompress` call into a zeroed buffer of
/// `capacity` bytes with `FlushDecompress::Finish`, then `total_out`. The contract claims
/// that the outcome is `inflate_result` of the arguments, that the buffer keeps its
/// length, and that no more bytes were written than it holds.
#[verifier::external_body]
fn inflate(input: &[u8], capacity: usize, zlib_header: bool) -> (r: Result<
    (InflateStatus, Vec<u8>, u64),
    flate2::DecompressError,
>)
    ensures
        r is Err <==> inflate_result(input@, capacity as nat, zlib_header) is None,
        r matches Ok((st, out, total)) ==> inflate_result(input@, capacity as nat, zlib_header)
            == Some((st, out@, total)) && out@.len() == capacity && total <= capacity,
{
    let mut dec = flate2::Decompress::new(zlib_header);
    let mut out = vec![0u8; capacity];
    let status = dec.decompress(input, &mut out, flate2::FlushDecompress::Finish)?;
    let st = match status {
        flate2::Status::Ok => InflateStatus::Done,
        flate2::Status::BufError => InflateStatus::BufError,
        flate2::Status::StreamEnd => InflateStatus::StreamEnd,
    };
    Ok((st, out, dec.total_out()))
}

/// A byte result seen through the views of its bytes.
pub open spec fn bytes_result(r: Result<Vec<u8>, AssetError>) -> Result<Seq<u8>, AssetError> {
    match r {
        Ok(v) => Ok(v@),
        Err(e) => Err(e),
    }
}

/// A whole zlib stream that must inflate to exactly `raw_size` bytes.
pub open spec fn zlib_whole(c: Seq<u8>, raw_size: u32) -> Result<Seq<u8>, AssetError> {
    match inflate_result(c, raw_size as nat, true) {
        None => Err(AssetError::Zlib),
        Some((_, out, total)) => if total == raw_size {
            Ok(out)
        } else {
            Err(AssetError::Invalid("zlib size"))
        },
    }
}

/// Padding after a block of `n` bytes, up to a multiple of four.
pub open spec fn pad4(n: int) -> int {
    if n % 4 == 0 {
        0
    } else {
        4 - n % 4
    }
}

/// One block's bytes: stored when both sizes agree, else raw deflate into `raw` bytes.
pub open spec fn block_bytes(payload: Seq<u8>, raw: u32) -> Result<Seq<u8>, AssetError> {
    if payload.len() == raw {
        Ok(payload)
    } else {
        match inflate_result(payload, raw as nat, false) {
            None => Err(AssetError::Zlib),
            Some((_, out, total)) => Ok(out.take(total as int)),
        }
    }
}

pub open spec fn prepend(o: Seq<u8>, r: Result<Seq<u8>, AssetError>) -> Result<Seq<u8>, AssetError> {
    match r {
        Ok(rest) => Ok(o + rest),
        Err(e) => Err(e),
    }
}

/// The blocks `{comp_size, raw_size, payload, pad to 4}` from byte `p` on, concatenated.
pub open spec fn fear_blocks(c: Seq<u8>, p: int) -> Result<Seq<u8>, AssetError>
    decreases c.len() + 4 - p,
{
    if p < 0 || p + 8 > c.len() {
        Ok(Seq::empty())
    } else {
        let comp = le_u32(c, p) as int;
        let raw = le_u32(c, p + 4);
        if p + 8 + comp > c.len() {
            Err(AssetError::Truncated("zlib block"))
        } else {
            match block_bytes(c.subrange(p + 8, p + 8 + comp), raw) {
                Err(e) => Err(e),
                Ok(b) => prepend(b, fear_blocks(c, p + 8 + comp + pad4(comp))),
            }
        }
    }
}

/// Block zlib as a whole: with a nonzero `raw_size` the blocks must add up to it.
pub open spec fn blocks_whole(c: Seq<u8>, raw_size: u32) -> Result<Seq<u8>, AssetError> {
    match fear_blocks(c, 0) {
        Err(e) => Err(e),
        Ok(out) => if raw_size != 0 && out.len() != raw_size {
            Err(AssetError::Invalid("block zlib size"))
        } else {
            Ok(out)
        },
    }
}

/// What an archive payload decompresses to: a whole zlib stream when that works, else
/// block zlib.
pub open spec fn payload_bytes(c: Seq<u8>, raw_size: u32) -> Result<Seq<u8>, AssetError> {
    if zlib_whole(c, raw_size) is Ok {
        zlib_whole(c, raw_size)
    } else {
        blocks_whole(c, raw_size)
    }
}

/// Inflate one zlib stream that must come to exactly `raw_size` bytes.
pub fn try_zlib(compressed: &[u8], raw_size: u32) -> (r: Result<Vec<u8>, AssetError>)
    ensures
        bytes_result(r) == zlib_whole(compressed@, raw_size),
{
    match inflate(compressed, raw_size as usize, true) {
        Err(_) => Err(AssetError::Zlib),
        Ok((_, out, total)) => {
            if total == raw_size as u64 {
                Ok(out)
            } else {
                Err(AssetError::Invalid("zlib size"))
            }
        },
    }
}

fn append_bytes(out: &mut Vec<u8>, b: &[u8], n: usize)
    requires
        n <= b@.len(),
    ensures
        final(out)@ == old(out)@ + b@.take(n as int),
{
    let mut i: usize = 0;
    while i < n
        invariant
            n <= b@.len(),
            i <= n,
            out@ == old(out)@ + b@.take(i as int),
        decreases n - i,
    {
        out.push(b[i]);
        assert(b@.take(i + 1) == b@.take(i as int).push(b@[i as int]));
        i += 1;
    }
}

/// F.E.A.R. 2-style block zlib: repeating `{comp_size, raw_size, payload, pad4}`.
pub fn decompress_fear_blocks(compressed: &[u8], raw_size: u32) -> (r: Result<Vec<u8>, AssetError>)
    ensures
        bytes_result(r) == blocks_whole(compressed@, raw_size),
{
    let len = compressed.len();
    let mut out: Vec<u8> = Vec::new();
    let mut p: usize = 0;
    assert(out@ + Seq::<u8>::empty() == out@);
    while p <= len && len - p >= 8
        invariant
            len == compressed@.len(),
            p <= len,
            fear_blocks(compressed@, 0) == prepend(out@, fear_blocks(compressed@, p as int)),
        decreases len - p,
    {
        let ghost c = compressed@;
        let comp = get_u32(compressed, p) as usize;
        let raw = get_u32(compressed, p + 4);
        if len - p - 8 < comp {
            return Err(AssetError::Truncated("zlib block"));
        }
        let payload = slice_subrange(compressed, p + 8, p + 8 + comp);
        let ghost before = out@;
        let ghost added: Seq<u8>;
        if comp == raw as usize {
            append_bytes(&mut out, payload, comp);
            assert(payload@.take(comp as int) == payload@);
            proof {
                added = payload@;
            }
        } else {
            match inflate(payload, raw as usize, false) {
                Err(_) => {
                    return Err(AssetError::Zlib);
                },
                Ok((_, chunk, total)) => {
                    append_bytes(&mut out, chunk.as_slice(), total as usize);
                    proof {
                        added = chunk@.take(total as int);
                    }
                },
            }
        }
        let end = p + 8 + comp;
        let pad = if comp % 4 == 0 {
            0
        } else {
            4 - comp % 4
        };
        proof {
            assert(block_bytes(c.subrange(p + 8, p + 8 + comp), raw) == Ok::<Seq<u8>, AssetError>(
                added,
            ));
            assert(out@ == before + added);
            match fear_blocks(c, (end + pad) as int) {
                Ok(rest) => {
                    assert(before + (added + rest) == out@ + rest);
                },
                Err(_) => {},
            }
        }
        if len - end < pad {
            assert(fear_blocks(c, (end + pad) as int) == fear_blocks(c, len as int));
            p = len;
        } else {
            p = end + pad;
        }
    }
    proof {
        assert(fear_blocks(compressed@, p as int) == Ok::<Seq<u8>, AssetError>(Seq::empty()));
        assert(out@ + Seq::<u8>::empty() == out@);
    }
    if raw_size != 0 && out.len() != raw_size as usize {
        return Err(AssetError::Invalid("block zlib size"));
    }
    Ok(out)
}

/// Decompress an archive payload: a whole zlib stream first, block zlib when that fails.
pub fn decompress_payload(compressed: &[u8], raw_size: u32) -> (r: Result<Vec<u8>, AssetError>)
    ensures
        bytes_result(r) == payload_bytes(compressed@, raw_size),
{
    match try_zlib(compressed, raw_size) {
        Ok(out) => Ok(out),
        Err(_) => decompress_fear_blocks(compressed, raw_size),
    }
}

/// Each block is padded to the next multiple of four bytes, with fewer than four bytes of
/// padding; a stored block (its sizes agree) is its payload as it stands.
pub proof fn law_blocks_padded_and_stored(n: int, payload: Seq<u8>)
    requires
        n >= 0,
    ensures
        0 <= pad4(n) < 4,
        (n + pad4(n)) % 4 == 0,
        payload.len() <= u32::MAX ==> block_bytes(payload, payload.len() as u32) == Ok::<Seq<u8>, AssetError>(payload),
{
}

} // verus!
