//! What the renderer is handed: mesh, texture and cubemap handles, texture uploads, and the
//! layout of the mip levels inside an upload's bytes.
use vstd::prelude::*;

use crate::assets::dds::{mip_size, DdsFormat};

verus! {

pub const MAX_TEXTURES: u32 = 4096;

/// A mesh uploaded to the GPU.
#[derive(Debug, Clone, Copy, PartialEq, Eq, Structural)]
pub struct MeshId(pub u32);

/// A 2D texture slot on the GPU.
#[derive(Debug, Clone, Copy, PartialEq, Eq, Structural)]
pub struct TextureId(pub u32);

/// The white texture's slot.
pub const WHITE_TEXTURE: u32 = 0;

/// The flat normal map's slot.
pub const FLAT_NORMAL_TEXTURE: u32 = 1;

/// The black specular map's slot.
pub const BLACK_SPEC_TEXTURE: u32 = 2;

/// The sky's cubemap slot; there is one cubemap per frame.
#[derive(Debug, Clone, Copy, PartialEq, Eq, Structural)]
pub struct CubemapId(pub u32);

pub const SKY_CUBEMAP: u32 = 0;

#[derive(Debug, Clone, Copy, PartialEq, Eq, Structural)]
pub enum TextureFormat {
    Rgba8,
    Bgra8,
    Bc1,
    Bc2,
    Bc3,
}

/// A 2D texture with its mip levels one after another.
#[derive(Debug)]
pub struct TextureUpload {
    pub width: u32,
    pub height: u32,
    pub mip_count: u32,
    pub format: TextureFormat,
    pub bytes: Vec<u8>,
}

/// A cubemap: all faces one after another, as in a D3D9 DDS (+X -X +Y -Y +Z -Z), each
/// with its own mip levels.
#[derive(Debug)]
pub struct CubemapUpload {
    pub width: u32,
    pub height: u32,
    pub mip_count: u32,
    pub format: TextureFormat,
    pub bytes: Vec<u8>,
}

/// The upload format of a DDS pixel format.
pub open spec fn format_of_dds(f: DdsFormat) -> TextureFormat {
    match f {
        DdsFormat::Bc1 => TextureFormat::Bc1,
        DdsFormat::Bc2 => TextureFormat::Bc2,
        DdsFormat::Bc3 => TextureFormat::Bc3,
        DdsFormat::Bgra8 => TextureFormat::Bgra8,
    }
}

/// The upload format of a DDS pixel format.
pub fn texture_format(f: DdsFormat) -> (r: TextureFormat)
    ensures
        r == format_of_dds(f),
{
    match f {
        DdsFormat::Bc1 => TextureFormat::Bc1,
        DdsFormat::Bc2 => TextureFormat::Bc2,
        DdsFormat::Bc3 => TextureFormat::Bc3,
        DdsFormat::Bgra8 => TextureFormat::Bgra8,
    }
}

fn one_pixel(bytes: [u8; 4]) -> (r: TextureUpload)
    ensures
        r.width == 1 && r.height == 1 && r.mip_count == 1,
        r.format == TextureFormat::Rgba8,
        r.bytes@ == bytes@,
{
    let mut v: Vec<u8> = Vec::new();
    v.push(bytes[0]);
    v.push(bytes[1]);
    v.push(bytes[2]);
    v.push(bytes[3]);
    assert(v@ =~= bytes@);
    TextureUpload { width: 1, height: 1, mip_count: 1, format: TextureFormat::Rgba8, bytes: v }
}

/// One white RGBA8 pixel.
pub fn white_upload() -> (r: TextureUpload)
    ensures
        r.width == 1 && r.height == 1 && r.mip_count == 1,
        r.format == TextureFormat::Rgba8,
        r.bytes@ == seq![255u8, 255, 255, 255],
{
    let r = one_pixel([255, 255, 255, 255]);
    assert(r.bytes@ =~= seq![255u8, 255, 255, 255]);
    r
}

/// One RGBA8 pixel of the flat normal (0, 0, 1).
pub fn flat_normal_upload() -> (r: TextureUpload)
    ensures
        r.width == 1 && r.height == 1 && r.mip_count == 1,
        r.format == TextureFormat::Rgba8,
        r.bytes@ == seq![128u8, 128, 255, 255],
{
    let r = one_pixel([128, 128, 255, 255]);
    assert(r.bytes@ =~= seq![128u8, 128, 255, 255]);
    r
}

/// One opaque black RGBA8 pixel: no specular.
pub fn black_spec_upload() -> (r: TextureUpload)
    ensures
        r.width == 1 && r.height == 1 && r.mip_count == 1,
        r.format == TextureFormat::Rgba8,
        r.bytes@ == seq![0u8, 0, 0, 255],
{
    let r = one_pixel([0, 0, 0, 255]);
    assert(r.bytes@ =~= seq![0u8, 0, 0, 255]);
    r
}

/// A 1x1 dark grey cubemap, until a level brings its sky.
pub fn dummy_upload() -> (r: CubemapUpload)
    ensures
        r.width == 1 && r.height == 1 && r.mip_count == 1,
        r.format == TextureFormat::Rgba8,
        r.bytes@.len() == 24,
        forall|i: int| 0 <= i < 24 ==> #[trigger] r.bytes@[i] == if i % 4 == 3 {
            255u8
        } else if i % 4 == 2 {
            45u8
        } else {
            40u8
        },
{
    let mut v: Vec<u8> = Vec::new();
    let mut face: usize = 0;
    while face < 6
        invariant
            face <= 6,
            v@.len() == 4 * face,
            forall|i: int| 0 <= i < v@.len() ==> #[trigger] v@[i] == if i % 4 == 3 {
                255u8
            } else if i % 4 == 2 {
                45u8
            } else {
                40u8
            },
        decreases 6 - face,
    {
        v.push(40);
        v.push(40);
        v.push(45);
        v.push(255);
        face += 1;
    }
    CubemapUpload { width: 1, height: 1, mip_count: 1, format: TextureFormat::Rgba8, bytes: v }
}

/// Bytes of one mip level: 4 per pixel for RGBA8 and BGRA8 (as the dimensions are), else
/// 8 (BC1) or 16 (BC2, BC3) per 4x4 block of the dimensions taken as at least 1.
pub open spec fn level_size(width: u32, height: u32, format: TextureFormat) -> int {
    match format {
        TextureFormat::Rgba8 | TextureFormat::Bgra8 => width * height * 4,
        TextureFormat::Bc1 => ((max1(width) + 3) / 4) * ((max1(height) + 3) / 4) * 8,
        _ => ((max1(width) + 3) / 4) * ((max1(height) + 3) / 4) * 16,
    }
}

pub open spec fn max1(x: u32) -> int {
    if x == 0 {
        1
    } else {
        x as int
    }
}

/// The level's size is a machine number, and block formats can round their dimensions up
/// in 32 bits.
pub open spec fn level_fits(width: u32, height: u32, format: TextureFormat) -> bool {
    &&& level_size(width, height, format) <= usize::MAX
    &&& (format is Rgba8 || format is Bgra8 || (max1(width) + 3 <= u32::MAX && max1(height) + 3
        <= u32::MAX))
}

/// Bytes of one mip level of an upload.
pub fn mip_bytes(width: u32, height: u32, format: TextureFormat) -> (r: usize)
    requires
        level_fits(width, height, format),
    ensures
        r == level_size(width, height, format),
{
    match format {
        TextureFormat::Rgba8 | TextureFormat::Bgra8 => {
            let w = width as usize;
            let h = height as usize;
            assert(w * h <= usize::MAX) by (nonlinear_arith)
                requires
                    w * h * 4 <= usize::MAX,
            ;
            w * h * 4
        },
        TextureFormat::Bc1 => {
            let bx = ((if width == 0 { 1 } else { width }) + 3) / 4;
            let by = ((if height == 0 { 1 } else { height }) + 3) / 4;
            let bx = bx as usize;
            let by = by as usize;
            assert(bx * by <= usize::MAX) by (nonlinear_arith)
                requires
                    bx * by * 8 <= usize::MAX,
            ;
            bx * by * 8
        },
        _ => {
            let bx = ((if width == 0 { 1 } else { width }) + 3) / 4;
            let by = ((if height == 0 { 1 } else { height }) + 3) / 4;
            let bx = bx as usize;
            let by = by as usize;
            assert(bx * by <= usize::MAX) by (nonlinear_arith)
                requires
                    bx * by * 16 <= usize::MAX,
            ;
            bx * by * 16
        },
    }
}

/// Where one mip level of one layer lies in an upload's bytes, and its extent.
#[derive(Debug, Clone, Copy, PartialEq, Eq, Structural)]
pub struct CopyRegion {
    pub offset: u64,
    pub mip_level: u32,
    pub layer: u32,
    pub width: u32,
    pub height: u32,
}

pub open spec fn halve(x: u32) -> u32 {
    if x / 2 == 0 {
        1
    } else {
        x / 2
    }
}

/// The width (or height) of mip level `k` below `w`: halved each level, never below 1
/// after the first.
pub open spec fn dim_at(w: u32, k: nat) -> u32
    decreases k,
{
    if k == 0 {
        w
    } else {
        halve(dim_at(w, (k - 1) as nat))
    }
}

/// Bytes of the first `k` mip levels.
pub open spec fn levels_size(width: u32, height: u32, format: TextureFormat, k: nat) -> int
    decreases k,
{
    if k == 0 {
        0
    } else {
        levels_size(width, height, format, (k - 1) as nat) + level_size(
            dim_at(width, (k - 1) as nat),
            dim_at(height, (k - 1) as nat),
            format,
        )
    }
}

/// The mip levels of an upload fit its sizes: every level's size is a machine number and
/// `layers` times the whole chain fits in 64 bits.
pub open spec fn chain_fits(width: u32, height: u32, format: TextureFormat, mips: nat, layers: nat) -> bool {
    &&& forall|k: nat| k < mips ==> #[trigger] level_fits(dim_at(width, k), dim_at(height, k), format)
    &&& levels_size(width, height, format, mips) * layers <= u64::MAX
}

/// The copy of level `k` of layer `layer` of an upload of `mips` levels per layer.
pub open spec fn region_at(width: u32, height: u32, format: TextureFormat, mips: nat, layer: nat, k: nat) -> CopyRegion {
    CopyRegion {
        offset: (levels_size(width, height, format, mips) * layer + levels_size(width, height, format, k)) as u64,
        mip_level: k as u32,
        layer: layer as u32,
        width: if dim_at(width, k) == 0 { 1 } else { dim_at(width, k) },
        height: if dim_at(height, k) == 0 { 1 } else { dim_at(height, k) },
    }
}

proof fn lemma_levels_monotone(width: u32, height: u32, format: TextureFormat, a: nat, b: nat)
    requires
        a <= b,
    ensures
        levels_size(width, height, format, a) <= levels_size(width, height, format, b),
    decreases b - a,
{
    if b > a {
        lemma_levels_monotone(width, height, format, a, (b - 1) as nat);
        let k = (b - 1) as nat;
        match format {
            TextureFormat::Rgba8 | TextureFormat::Bgra8 => {
                let w = dim_at(width, k) as int;
                let h = dim_at(height, k) as int;
                assert(w * h * 4 >= 0) by (nonlinear_arith)
                    requires
                        w >= 0,
                        h >= 0,
                ;
            },
            _ => {
                let bx = (max1(dim_at(width, k)) + 3) / 4;
                let by = (max1(dim_at(height, k)) + 3) / 4;
                assert(bx * by >= 0) by (nonlinear_arith)
                    requires
                        bx >= 0,
                        by >= 0,
                ;
            },
        }
    }
}

/// The copies that place `layers` layers of `mips` levels each, laid out layer after
/// layer, level after level, into an image.
pub fn copy_regions(width: u32, height: u32, mips: u32, format: TextureFormat, layers: u32) -> (r: Vec<CopyRegion>)
    requires
        chain_fits(width, height, format, if mips == 0 { 1nat } else { mips as nat }, layers as nat),
    ensures
        ({
            let m: nat = if mips == 0 { 1nat } else { mips as nat };
            &&& r@.len() == m * layers
            &&& forall|l: nat, k: nat| l < layers && k < m ==> #[trigger] r@[(l * m + k) as int] == region_at(width, height, format, m, l, k)
        }),
{
    let m: u32 = if mips == 0 { 1 } else { mips };
    let ghost mn = m as nat;
    let mut out: Vec<CopyRegion> = Vec::new();
    let mut layer: u32 = 0;
    let mut offset: u64 = 0;
    proof {
        lemma_levels_monotone(width, height, format, 0, mn);
    }
    while layer < layers
        invariant
            layer <= layers,
            m >= 1,
            mn == m,
            chain_fits(width, height, format, mn, layers as nat),
            levels_size(width, height, format, mn) >= 0,
            offset == levels_size(width, height, format, mn) * layer,
            out@.len() == mn * layer,
            forall|l: nat, k: nat| l < layer && k < mn ==> #[trigger] out@[(l * mn + k) as int] == region_at(width, height, format, mn, l, k),
        decreases layers - layer,
    {
        let mut w = width;
        let mut h = height;
        let mut k: u32 = 0;
        let ghost base = out@;
        let ghost layer_start = offset;
        while k < m
            invariant
                layer < layers,
                k <= m,
                mn == m,
                chain_fits(width, height, format, mn, layers as nat),
                w == dim_at(width, k as nat),
                h == dim_at(height, k as nat),
                layer_start == levels_size(width, height, format, mn) * layer,
                offset == layer_start + levels_size(width, height, format, k as nat),
                out@.len() == base.len() + k,
                base.len() == mn * layer,
                levels_size(width, height, format, mn) >= 0,
                forall|l: nat, j: nat| l < layer && j < mn ==> #[trigger] base[(l * mn + j) as int] == region_at(width, height, format, mn, l, j),
                forall|i: int| 0 <= i < base.len() ==> out@[i] == base[i],
                forall|j: nat| j < k ==> #[trigger] out@[(base.len() + j) as int] == region_at(width, height, format, mn, layer as nat, j),
            decreases m - k,
        {
            proof {
                assert(level_fits(dim_at(width, k as nat), dim_at(height, k as nat), format));
                lemma_levels_monotone(width, height, format, (k + 1) as nat, mn);
                assert(levels_size(width, height, format, mn) * layer + levels_size(width, height, format, mn) <= u64::MAX) by (nonlinear_arith)
                    requires
                        levels_size(width, height, format, mn) * layers <= u64::MAX,
                        layer < layers,
                        levels_size(width, height, format, mn) >= 0,
                ;
            }
            let size = mip_bytes(w, h, format) as u64;
            out.push(
                CopyRegion {
                    offset,
                    mip_level: k,
                    layer,
                    width: if w == 0 { 1 } else { w },
                    height: if h == 0 { 1 } else { h },
                },
            );
            offset = offset + size;
            w = if w / 2 == 0 { 1 } else { w / 2 };
            h = if h / 2 == 0 { 1 } else { h / 2 };
            k += 1;
        }
        proof {
            assert forall|l: nat, j: nat| l < layer + 1 && j < mn implies #[trigger] out@[(l * mn + j) as int] == region_at(width, height, format, mn, l, j) by {
                if l < layer {
                    assert(l * mn + j < mn * layer) by (nonlinear_arith)
                        requires
                            l < layer,
                            j < mn,
                    ;
                    assert(out@[(l * mn + j) as int] == base[(l * mn + j) as int]);
                } else {
                    assert(l * mn + j == base.len() + j) by (nonlinear_arith)
                        requires
                            l == layer,
                            base.len() == mn * layer,
                    ;
                }
            }
            assert(offset == levels_size(width, height, format, mn) * (layer + 1)) by (nonlinear_arith)
                requires
                    offset == levels_size(width, height, format, mn) * layer + levels_size(width, height, format, mn),
            ;
            assert(out@.len() == mn * (layer + 1)) by (nonlinear_arith)
                requires
                    out@.len() == mn * layer + mn,
            ;
        }
        layer += 1;
    }
    out
}

/// A mip level of an upload takes 4 bytes per pixel for RGBA8 and BGRA8, and for the
/// block formats its 4x4 blocks (each side rounded up, a side of 0 counted as 1) at 8
/// bytes each for BC1 and 16 bytes each for BC2 and BC3 alike.
pub proof fn law_level_bytes(width: u32, height: u32)
    ensures
        ({
            let w: int = if width == 0 { 1 } else { width as int };
            let h: int = if height == 0 { 1 } else { height as int };
            &&& level_size(width, height, TextureFormat::Rgba8) == width * height * 4
            &&& level_size(width, height, TextureFormat::Bgra8) == width * height * 4
            &&& level_size(width, height, TextureFormat::Bc1) == ((w + 3) / 4) * ((h + 3) / 4) * 8
            &&& level_size(width, height, TextureFormat::Bc2) == ((w + 3) / 4) * ((h + 3) / 4) * 16
            &&& level_size(width, height, TextureFormat::Bc3) == ((w + 3) / 4) * ((h + 3) / 4) * 16
        }),
{
}

/// Each DDS pixel format is uploaded in a format of its own, and a level of a texture
/// takes as many bytes in the upload as in the DDS file.
pub proof fn law_upload_keeps_dds_levels(f: DdsFormat, g: DdsFormat, width: u32, height: u32)
    ensures
        f != g ==> format_of_dds(f) != format_of_dds(g),
        width > 0 && height > 0 ==> level_size(width, height, format_of_dds(f)) == mip_size(width, height, f),
{
}

/// The copies of an upload lie back to back from byte 0: the first level of the first
/// layer starts the bytes, each further level starts where the one before it ends, and
/// each layer starts where the last level of the layer before it ends.
pub proof fn law_regions_back_to_back(
    width: u32,
    height: u32,
    format: TextureFormat,
    mips: nat,
    layers: nat,
    layer: nat,
    k: nat,
)
    requires
        chain_fits(width, height, format, mips, layers),
        layer < layers,
        k < mips,
    ensures
        region_at(width, height, format, mips, 0, 0).offset == 0,
        k + 1 < mips ==> region_at(width, height, format, mips, layer, k + 1).offset == region_at(
            width,
            height,
            format,
            mips,
            layer,
            k,
        ).offset + level_size(dim_at(width, k), dim_at(height, k), format),
        k + 1 == mips && layer + 1 < layers ==> region_at(width, height, format, mips, layer + 1, 0).offset
            == region_at(width, height, format, mips, layer, k).offset + level_size(
            dim_at(width, k),
            dim_at(height, k),
            format,
        ),
{
    let total = levels_size(width, height, format, mips);
    lemma_levels_monotone(width, height, format, 0, k);
    lemma_levels_monotone(width, height, format, k, (k + 1) as nat);
    lemma_levels_monotone(width, height, format, (k + 1) as nat, mips);
    let a = levels_size(width, height, format, k);
    let b = levels_size(width, height, format, (k + 1) as nat);
    assert(total * layer + b <= total * layers) by (nonlinear_arith)
        requires
            0 <= b <= total,
            layer < layers,
    ;
    assert(0 <= total * layer) by (nonlinear_arith)
        requires
            0 <= total,
    ;
    assert(total * (layer + 1) == total * layer + total) by (nonlinear_arith);
    assert(total * 0 == 0);
}

} // verus!
