//! Retail DDS (D3D9) textures and cubemaps. BC1/BC2/BC3 and BGRA8 payloads are kept as
//! they are in the file; nothing is decompressed.
use vstd::prelude::*;

use super::bytes::{get_u32, le_u32, slice_subrange, slice_to_vec};
use super::error::AssetError;

verus! {

/// `'DDS '`
pub const DDS_MAGIC: u32 = 0x2053_4444;

pub const DXT1: u32 = 0x3154_5844;

pub const DXT3: u32 = 0x3354_5844;

pub const DXT5: u32 = 0x3554_5844;

pub const DDPF_ALPHAPIXELS: u32 = 0x1;

pub const DDPF_RGB: u32 = 0x40;

pub const MASK_R: u32 = 0x00FF_0000;

pub const MASK_G: u32 = 0x0000_FF00;

pub const MASK_B: u32 = 0x0000_00FF;

pub const MASK_A: u32 = 0xFF00_0000;

pub const DDSCAPS2_CUBEMAP: u32 = 0x200;

/// All six faces: +X -X +Y -Y +Z -Z. A sky cannot be sampled without the full set.
pub const DDSCAPS2_CUBEMAP_ALL_FACES: u32 = 0xFC00;

/// The magic and the 124-byte `DDS_HEADER`.
pub const HEADER_SIZE: usize = 128;

/// Face order of D3D9 and Vulkan cubes: +X, -X, +Y, -Y, +Z, -Z.
pub const CUBEMAP_FACES: usize = 6;

#[derive(Debug, Clone, Copy, PartialEq, Eq, Structural)]
pub enum DdsFormat {
    Bc1,
    Bc2,
    Bc3,
    Bgra8,
}

/// A 2D texture with its whole mip chain.
#[derive(Debug, Clone)]
pub struct DdsImage {
    pub width: u32,
    pub height: u32,
    pub mip_count: u32,
    pub format: DdsFormat,
    pub bytes: Vec<u8>,
}

/// A cubemap: six faces one after another, each with its full mip chain, as in D3D9.
#[derive(Debug, Clone)]
pub struct DdsCubemap {
    pub width: u32,
    pub height: u32,
    pub mip_count: u32,
    pub format: DdsFormat,
    pub bytes: Vec<u8>,
}

/// The header fields that the loaders use.
pub struct DdsHeader {
    pub width: u32,
    pub height: u32,
    pub mip_count: u32,
    pub format: DdsFormat,
    pub is_cubemap: bool,
    pub all_faces: bool,
}

pub open spec fn max1(x: u32) -> int {
    if x == 0 { 1 } else { x as int }
}

/// Bytes of one mip level: 4 per pixel for BGRA8, else 8 (BC1) or 16 (BC2/BC3) per 4x4 block.
pub open spec fn mip_size(width: u32, height: u32, format: DdsFormat) -> int {
    match format {
        DdsFormat::Bgra8 => max1(width) * max1(height) * 4,
        DdsFormat::Bc1 => ((max1(width) + 3) / 4) * ((max1(height) + 3) / 4) * 8,
        _ => ((max1(width) + 3) / 4) * ((max1(height) + 3) / 4) * 16,
    }
}

/// Block-compressed formats round dimensions up to whole 4x4 blocks in 32-bit
/// arithmetic, which needs `max(width, 1) + 3` and `max(height, 1) + 3` to fit in a `u32`.
pub open spec fn dims_fit(width: u32, height: u32, format: DdsFormat) -> bool {
    format is Bgra8 || (max1(width) + 3 <= u32::MAX && max1(height) + 3 <= u32::MAX)
}

pub open spec fn half(x: u32) -> u32 {
    if x / 2 == 0 { 1 } else { x / 2 }
}

/// Bytes of `mips` levels starting at `width` x `height`, each level half the last (at least 1).
pub open spec fn mip_chain_size(width: u32, height: u32, mips: nat, format: DdsFormat) -> int
    decreases mips,
{
    if mips == 0 {
        0
    } else {
        mip_size(width, height, format) + mip_chain_size(half(width), half(height), (mips - 1) as nat, format)
    }
}

pub proof fn lemma_mip_size_pos(width: u32, height: u32, format: DdsFormat)
    ensures
        mip_size(width, height, format) >= 4,
{
    assert(max1(width) * max1(height) >= 1) by (nonlinear_arith)
        requires
            max1(width) >= 1,
            max1(height) >= 1,
    ;
    assert(((max1(width) + 3) / 4) * ((max1(height) + 3) / 4) >= 1) by (nonlinear_arith)
        requires
            max1(width) >= 1,
            max1(height) >= 1,
    ;
}

pub proof fn lemma_chain_nonneg(width: u32, height: u32, mips: nat, format: DdsFormat)
    ensures
        mip_chain_size(width, height, mips, format) >= 0,
    decreases mips,
{
    if mips > 0 {
        lemma_mip_size_pos(width, height, format);
        lemma_chain_nonneg(half(width), half(height), (mips - 1) as nat, format);
    }
}

/// The format that the pixel-format fields name, if the loaders support it.
pub open spec fn spec_format(b: Seq<u8>) -> Option<DdsFormat> {
    let four_cc = le_u32(b, 84);
    if four_cc == DXT1 {
        Some(DdsFormat::Bc1)
    } else if four_cc == DXT3 {
        Some(DdsFormat::Bc2)
    } else if four_cc == DXT5 {
        Some(DdsFormat::Bc3)
    } else if le_u32(b, 80) & (DDPF_RGB | DDPF_ALPHAPIXELS) == (DDPF_RGB | DDPF_ALPHAPIXELS)
        && le_u32(b, 88) == 32 && le_u32(b, 92) == MASK_R && le_u32(b, 96) == MASK_G && le_u32(
        b,
        100,
    ) == MASK_B && le_u32(b, 104) == MASK_A {
        Some(DdsFormat::Bgra8)
    } else {
        None
    }
}

/// What `parse_header` gives for `b`: errors in the order the fields are checked.
pub open spec fn spec_header(b: Seq<u8>) -> Result<(u32, u32, u32, DdsFormat, bool, bool), AssetError> {
    if b.len() < HEADER_SIZE {
        Err(AssetError::Truncated("DDS header"))
    } else if le_u32(b, 0) != DDS_MAGIC {
        Err(AssetError::Invalid("DDS magic"))
    } else if le_u32(b, 4) != 124 {
        Err(AssetError::Invalid("DDS header size"))
    } else if spec_format(b) is None {
        Err(AssetError::UnsupportedDds(le_u32(b, 84)))
    } else if le_u32(b, 16) == 0 || le_u32(b, 12) == 0 {
        Err(AssetError::Invalid("DDS dimensions"))
    } else {
        let caps2 = le_u32(b, 112);
        Ok(
            (
                le_u32(b, 16),
                le_u32(b, 12),
                if le_u32(b, 28) == 0 { 1 } else { le_u32(b, 28) },
                spec_format(b)->0,
                caps2 & DDSCAPS2_CUBEMAP != 0,
                caps2 & DDSCAPS2_CUBEMAP_ALL_FACES == DDSCAPS2_CUBEMAP_ALL_FACES,
            ),
        )
    }
}

/// The bytes that one face's mip chain takes, for a header that parses.
pub open spec fn spec_face_size(b: Seq<u8>) -> int {
    match spec_header(b) {
        Ok(h) => mip_chain_size(h.0, h.1, h.2 as nat, h.3),
        Err(_) => 0,
    }
}

/// The sizes that a DDS header declares fit in memory: `faces` faces of its mip chain
/// take no more than `usize::MAX` bytes.
pub open spec fn sizes_fit(b: Seq<u8>, faces: int) -> bool {
    &&& spec_face_size(b) * faces <= usize::MAX
    &&& spec_header(b) matches Ok(h) ==> dims_fit(h.0, h.1, h.3)
}

pub fn parse_header(bytes: &[u8]) -> (r: Result<DdsHeader, AssetError>)
    ensures
        match (r, spec_header(bytes@)) {
            (Ok(h), Ok(s)) => h.width == s.0 && h.height == s.1 && h.mip_count == s.2 && h.format
                == s.3 && h.is_cubemap == s.4 && h.all_faces == s.5,
            (Err(e), Err(s)) => e == s,
            _ => false,
        },
{
    if bytes.len() < HEADER_SIZE {
        return Err(AssetError::Truncated("DDS header"));
    }
    let magic = get_u32(bytes, 0);
    if magic != DDS_MAGIC {
        return Err(AssetError::Invalid("DDS magic"));
    }
    let header_size = get_u32(bytes, 4);
    if header_size != 124 {
        return Err(AssetError::Invalid("DDS header size"));
    }
    let height = get_u32(bytes, 12);
    let width = get_u32(bytes, 16);
    let mip_raw = get_u32(bytes, 28);
    let pf_flags = get_u32(bytes, 80);
    let four_cc = get_u32(bytes, 84);
    let rgb_bits = get_u32(bytes, 88);
    let mask_r = get_u32(bytes, 92);
    let mask_g = get_u32(bytes, 96);
    let mask_b = get_u32(bytes, 100);
    let mask_a = get_u32(bytes, 104);
    let caps2 = get_u32(bytes, 112);
    let format = if four_cc == DXT1 {
        DdsFormat::Bc1
    } else if four_cc == DXT3 {
        DdsFormat::Bc2
    } else if four_cc == DXT5 {
        DdsFormat::Bc3
    } else if pf_flags & (DDPF_RGB | DDPF_ALPHAPIXELS) == (DDPF_RGB | DDPF_ALPHAPIXELS) && rgb_bits
        == 32 && mask_r == MASK_R && mask_g == MASK_G && mask_b == MASK_B && mask_a == MASK_A {
        DdsFormat::Bgra8
    } else {
        return Err(AssetError::UnsupportedDds(four_cc));
    };
    if width == 0 || height == 0 {
        return Err(AssetError::Invalid("DDS dimensions"));
    }
    Ok(
        DdsHeader {
            width,
            height,
            mip_count: if mip_raw == 0 { 1 } else { mip_raw },
            format,
            is_cubemap: caps2 & DDSCAPS2_CUBEMAP != 0,
            all_faces: caps2 & DDSCAPS2_CUBEMAP_ALL_FACES == DDSCAPS2_CUBEMAP_ALL_FACES,
        },
    )
}

/// Bytes of one mip level.
pub fn mip_bytes(width: u32, height: u32, format: DdsFormat) -> (r: usize)
    requires
        mip_size(width, height, format) <= usize::MAX,
        dims_fit(width, height, format),
    ensures
        r == mip_size(width, height, format),
{
    let w: usize = if width == 0 { 1 } else { width as usize };
    let h: usize = if height == 0 { 1 } else { height as usize };
    match format {
        DdsFormat::Bgra8 => {
            assert(w * h * 4 == mip_size(width, height, format));
            assert(w * h <= usize::MAX) by (nonlinear_arith)
                requires
                    w * h * 4 <= usize::MAX,
                    w >= 1,
                    h >= 1,
            ;
            w * h * 4
        },
        DdsFormat::Bc1 => {
            let bx = ((if width == 0 { 1 } else { width }) + 3) / 4;
            let by = ((if height == 0 { 1 } else { height }) + 3) / 4;
            let bx = bx as usize;
            let by = by as usize;
            assert(bx * by <= usize::MAX) by (nonlinear_arith)
                requires
                    bx * by * 8 <= usize::MAX,
                    bx >= 0,
                    by >= 0,
            ;
            bx * by * 8
        },
        _ => {
            let bx = ((if width == 0 { 1 } else { width }) + 3) / 4;
            let by = ((if height == 0 { 1 } else { height }) + 3) / 4;
            let bx = bx as usize;
            let by = by as usize;
            assert(bx * by <= usize::MAX) by (nonlinear_arith)
                requires
                    bx * by * 16 <= usize::MAX,
                    bx >= 0,
                    by >= 0,
            ;
            bx * by * 16
        },
    }
}

/// Bytes of a mip chain of `mips` levels.
pub fn mip_chain_bytes(width: u32, height: u32, mips: u32, format: DdsFormat) -> (r: usize)
    requires
        mip_chain_size(width, height, mips as nat, format) <= usize::MAX,
        dims_fit(width, height, format),
    ensures
        r == mip_chain_size(width, height, mips as nat, format),
{
    let mut total: usize = 0;
    let mut w = width;
    let mut h = height;
    let mut i: u32 = 0;
    while i < mips
        invariant
            i <= mips,
            total + mip_chain_size(w, h, (mips - i) as nat, format) == mip_chain_size(
                width,
                height,
                mips as nat,
                format,
            ),
            mip_chain_size(width, height, mips as nat, format) <= usize::MAX,
            dims_fit(w, h, format),
        decreases mips - i,
    {
        proof {
            lemma_chain_nonneg(half(w), half(h), (mips - i - 1) as nat, format);
            lemma_mip_size_pos(w, h, format);
        }
        total = total + mip_bytes(w, h, format);
        w = if w / 2 == 0 { 1 } else { w / 2 };
        h = if h / 2 == 0 { 1 } else { h / 2 };
        i += 1;
    }
    total
}

fn mip_size_wide(width: u32, height: u32, format: DdsFormat) -> (r: u128)
    ensures
        r == mip_size(width, height, format),
{
    let w: u128 = if width == 0 { 1 } else { width as u128 };
    let h: u128 = if height == 0 { 1 } else { height as u128 };
    assert(w * h <= 0x1_0000_0000 * 0x1_0000_0000) by (nonlinear_arith)
        requires
            1 <= w <= 0x1_0000_0000,
            1 <= h <= 0x1_0000_0000,
    ;
    match format {
        DdsFormat::Bgra8 => w * h * 4,
        DdsFormat::Bc1 => {
            let bx = (w + 3) / 4;
            let by = (h + 3) / 4;
            assert(bx * by <= 0x1_0000_0000 * 0x1_0000_0000) by (nonlinear_arith)
                requires
                    0 <= bx <= 0x1_0000_0000,
                    0 <= by <= 0x1_0000_0000,
            ;
            bx * by * 8
        },
        _ => {
            let bx = (w + 3) / 4;
            let by = (h + 3) / 4;
            assert(bx * by <= 0x1_0000_0000 * 0x1_0000_0000) by (nonlinear_arith)
                requires
                    0 <= bx <= 0x1_0000_0000,
                    0 <= by <= 0x1_0000_0000,
            ;
            bx * by * 16
        },
    }
}

/// Whether the sizes a DDS header declares fit in memory for `faces` faces, as
/// `DdsImage::parse` (one face) and `DdsCubemap::parse` (six) need.
pub fn declared_sizes_fit(bytes: &[u8], faces: usize) -> (r: bool)
    ensures
        r == sizes_fit(bytes@, faces as int),
{
    let h = match parse_header(bytes) {
        Ok(h) => h,
        Err(_) => {
            return true;
        },
    };
    if !(h.format == DdsFormat::Bgra8 || ((if h.width == 0 { 1 } else { h.width }) <= u32::MAX - 3
        && (if h.height == 0 { 1 } else { h.height }) <= u32::MAX - 3)) {
        return false;
    }
    let ghost full = mip_chain_size(h.width, h.height, h.mip_count as nat, h.format);
    proof {
        lemma_chain_nonneg(h.width, h.height, h.mip_count as nat, h.format);
    }
    let limit: u128 = if faces == 0 { usize::MAX as u128 } else { usize::MAX as u128 / faces as u128 };
    let mut total: u128 = 0;
    let mut w = h.width;
    let mut hh = h.height;
    let mut i: u32 = 0;
    while i < h.mip_count
        invariant
            i <= h.mip_count,
            total <= limit,
            limit <= usize::MAX,
            faces > 0 ==> limit == (usize::MAX as int) / (faces as int),
            faces == 0 ==> limit == usize::MAX,
            full == spec_face_size(bytes@),
            spec_header(bytes@) matches Ok(sh) ==> dims_fit(sh.0, sh.1, sh.3),
            full >= 0,
            total + mip_chain_size(w, hh, (h.mip_count - i) as nat, h.format) == full,
        decreases h.mip_count - i,
    {
        proof {
            lemma_chain_nonneg(half(w), half(hh), (h.mip_count - i - 1) as nat, h.format);
        }
        let m = mip_size_wide(w, hh, h.format);
        if m > limit - total {
            proof {
                lemma_chain_nonneg(half(w), half(hh), (h.mip_count - i - 1) as nat, h.format);
                if faces > 0 {
                    assert(full * faces > usize::MAX) by (nonlinear_arith)
                        requires
                            full > limit,
                            limit == (usize::MAX as int) / (faces as int),
                            faces > 0,
                    ;
                }
            }
            return faces == 0;
        }
        total = total + m;
        w = if w / 2 == 0 { 1 } else { w / 2 };
        hh = if hh / 2 == 0 { 1 } else { hh / 2 };
        i += 1;
    }
    proof {
        if faces > 0 {
            assert(full * faces <= usize::MAX) by (nonlinear_arith)
                requires
                    full <= limit,
                    limit == (usize::MAX as int) / (faces as int),
                    faces > 0,
                    full >= 0,
            ;
        }
    }
    true
}

/// What `DdsImage::parse` gives: the header's size and format, and the first
/// mip-chain's worth of payload after the 128-byte header.
pub open spec fn spec_image(b: Seq<u8>) -> Result<(u32, u32, u32, DdsFormat, Seq<u8>), AssetError> {
    match spec_header(b) {
        Err(e) => Err(e),
        Ok(h) => if h.4 {
            Err(AssetError::Invalid("DDS cubemap"))
        } else if b.len() - HEADER_SIZE < spec_face_size(b) {
            Err(AssetError::Truncated("DDS payload"))
        } else {
            Ok((h.0, h.1, h.2, h.3, b.subrange(HEADER_SIZE as int, HEADER_SIZE + spec_face_size(b))))
        },
    }
}

/// What `DdsCubemap::parse` gives: six faces' worth of payload after the header.
pub open spec fn spec_cubemap(b: Seq<u8>) -> Result<(u32, u32, u32, DdsFormat, Seq<u8>), AssetError> {
    match spec_header(b) {
        Err(e) => Err(e),
        Ok(h) => if !h.4 {
            Err(AssetError::Invalid("DDS not cubemap"))
        } else if !h.5 {
            Err(AssetError::Invalid("DDS cubemap faces"))
        } else if b.len() - HEADER_SIZE < spec_face_size(b) * 6 {
            Err(AssetError::Truncated("DDS cubemap"))
        } else {
            Ok(
                (
                    h.0,
                    h.1,
                    h.2,
                    h.3,
                    b.subrange(HEADER_SIZE as int, HEADER_SIZE + spec_face_size(b) * 6),
                ),
            )
        },
    }
}

impl DdsImage {
    pub open spec fn fields(&self) -> (u32, u32, u32, DdsFormat, Seq<u8>) {
        (self.width, self.height, self.mip_count, self.format, self.bytes@)
    }

    /// Decode a 2D DDS; a cubemap is refused.
    pub fn parse(bytes: &[u8]) -> (r: Result<Self, AssetError>)
        requires
            sizes_fit(bytes@, 1),
        ensures
            match (r, spec_image(bytes@)) {
                (Ok(img), Ok(s)) => img.fields() == s,
                (Err(e), Err(s)) => e == s,
                _ => false,
            },
    {
        let header = parse_header(bytes)?;
        if header.is_cubemap {
            return Err(AssetError::Invalid("DDS cubemap"));
        }
        proof {
            lemma_chain_nonneg(header.width, header.height, header.mip_count as nat, header.format);
        }
        let expected = mip_chain_bytes(header.width, header.height, header.mip_count, header.format);
        let payload_len = bytes.len() - HEADER_SIZE;
        if payload_len < expected {
            return Err(AssetError::Truncated("DDS payload"));
        }
        let payload = slice_to_vec(slice_subrange(bytes, HEADER_SIZE, HEADER_SIZE + expected));
        Ok(
            DdsImage {
                width: header.width,
                height: header.height,
                mip_count: header.mip_count,
                format: header.format,
                bytes: payload,
            },
        )
    }

    /// Bytes per block: 8 for BC1, 16 for BC2/BC3, 4 per pixel for BGRA8.
    pub fn block_bytes(&self) -> (r: u32)
        ensures
            r == (match self.format {
                DdsFormat::Bc1 => 8u32,
                DdsFormat::Bc2 | DdsFormat::Bc3 => 16,
                DdsFormat::Bgra8 => 4,
            }),
    {
        match self.format {
            DdsFormat::Bc1 => 8,
            DdsFormat::Bc2 | DdsFormat::Bc3 => 16,
            DdsFormat::Bgra8 => 4,
        }
    }
}

impl DdsCubemap {
    pub open spec fn fields(&self) -> (u32, u32, u32, DdsFormat, Seq<u8>) {
        (self.width, self.height, self.mip_count, self.format, self.bytes@)
    }

    /// Decode a cubemap DDS with all six faces.
    pub fn parse(bytes: &[u8]) -> (r: Result<Self, AssetError>)
        requires
            sizes_fit(bytes@, CUBEMAP_FACES as int),
        ensures
            match (r, spec_cubemap(bytes@)) {
                (Ok(img), Ok(s)) => img.fields() == s,
                (Err(e), Err(s)) => e == s,
                _ => false,
            },
    {
        let header = parse_header(bytes)?;
        if !header.is_cubemap {
            return Err(AssetError::Invalid("DDS not cubemap"));
        }
        if !header.all_faces {
            return Err(AssetError::Invalid("DDS cubemap faces"));
        }
        proof {
            lemma_chain_nonneg(header.width, header.height, header.mip_count as nat, header.format);
        }
        let face = mip_chain_bytes(header.width, header.height, header.mip_count, header.format);
        let expected = face * CUBEMAP_FACES;
        let payload_len = bytes.len() - HEADER_SIZE;
        if payload_len < expected {
            return Err(AssetError::Truncated("DDS cubemap"));
        }
        let payload = slice_to_vec(slice_subrange(bytes, HEADER_SIZE, HEADER_SIZE + expected));
        Ok(
            DdsCubemap {
                width: header.width,
                height: header.height,
                mip_count: header.mip_count,
                format: header.format,
                bytes: payload,
            },
        )
    }

    /// Bytes of one face (its whole mip chain).
    pub fn face_bytes(&self) -> (r: usize)
        requires
            mip_chain_size(self.width, self.height, self.mip_count as nat, self.format) <= usize::MAX,
            dims_fit(self.width, self.height, self.format),
        ensures
            r == mip_chain_size(self.width, self.height, self.mip_count as nat, self.format),
    {
        mip_chain_bytes(self.width, self.height, self.mip_count, self.format)
    }
}


/// No file is both a 2D texture and a cubemap: where one loader accepts a file, the other
/// refuses it.
pub proof fn law_image_or_cubemap(b: Seq<u8>)
    ensures
        !(spec_image(b) is Ok && spec_cubemap(b) is Ok),
{
}

/// A mip chain is its first level followed by the chain of the half-size levels.
pub proof fn law_mip_chain_steps(width: u32, height: u32, mips: nat, format: DdsFormat)
    ensures
        mip_chain_size(width, height, 0, format) == 0,
        mip_chain_size(width, height, mips + 1, format) == mip_size(width, height, format)
            + mip_chain_size(half(width), half(height), mips, format),
{
}

/// A cubemap's bytes are its six faces back to back, each a whole mip chain, right after
/// the header.
pub proof fn law_cubemap_six_faces(b: Seq<u8>)
    requires
        spec_cubemap(b) is Ok,
    ensures
        spec_cubemap(b) matches Ok(c) && c.4.len() == 6 * mip_chain_size(c.0, c.1, c.2 as nat, c.3)
            && c.4 == b.subrange(HEADER_SIZE as int, HEADER_SIZE + 6 * mip_chain_size(c.0, c.1, c.2 as nat, c.3)),
{
    let h = spec_header(b)->Ok_0;
    lemma_chain_nonneg(h.0, h.1, h.2 as nat, h.3);
}

/// A mip level of a block-compressed format is its 4x4 blocks (each side rounded up, a
/// side of 0 counted as 1) times 8 bytes for BC1 and 16 bytes for BC2 and BC3 alike; a
/// BGRA8 level is 4 bytes per pixel.
pub proof fn law_mip_level_bytes(width: u32, height: u32)
    ensures
        ({
            let w: int = if width == 0 { 1 } else { width as int };
            let h: int = if height == 0 { 1 } else { height as int };
            &&& mip_size(width, height, DdsFormat::Bc1) == ((w + 3) / 4) * ((h + 3) / 4) * 8
            &&& mip_size(width, height, DdsFormat::Bc2) == ((w + 3) / 4) * ((h + 3) / 4) * 16
            &&& mip_size(width, height, DdsFormat::Bc3) == ((w + 3) / 4) * ((h + 3) / 4) * 16
            &&& mip_size(width, height, DdsFormat::Bgra8) == w * h * 4
        }),
        mip_size(width, height, DdsFormat::Bc2) == mip_size(width, height, DdsFormat::Bc3),
        mip_size(width, height, DdsFormat::Bc2) == 2 * mip_size(width, height, DdsFormat::Bc1),
{
}

/// The FourCC `DXT1` names BC1, `DXT3` BC2 and `DXT5` BC3, written as their four ASCII
/// characters at byte 84.
pub proof fn law_fourcc_formats(b: Seq<u8>)
    requires
        b.len() >= HEADER_SIZE,
        b[84] == 0x44 && b[85] == 0x58 && b[86] == 0x54,
    ensures
        b[87] == 0x31 ==> spec_format(b) == Some(DdsFormat::Bc1),
        b[87] == 0x33 ==> spec_format(b) == Some(DdsFormat::Bc2),
        b[87] == 0x35 ==> spec_format(b) == Some(DdsFormat::Bc3),
{
}

} // verus!
