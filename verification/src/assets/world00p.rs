//! Packed Jupiter EX world (`World00p`). F.E.A.R. version 113, XOR magic 399.
//!
//! Floating-point fields are kept as their IEEE-754 bit patterns (`f32::to_bits`), exactly
//! as the file stores them.
use vstd::prelude::*;
use vstd::string::StringSliceAdditionalSpecFns;

use super::bytes::{after_read, get_u16, get_u32, le_u16, le_u32, read_bytes, read_u16, read_u32, slice_subrange, slice_to_vec};
use crate::text::{chars_of, contains, contains_chars, lower_chars, lower_seq, utf8_string};
use super::error::AssetError;

verus! {

pub const FEAR_WORLD_VERSION: u32 = 113;

/// 113 + b'F' + b'E' + b'A' + b'R'.
pub const FEAR_WORLD_MAGIC: u32 = 399;

/// Bits of 1.0f32.
pub const ONE_BITS: u32 = 0x3F80_0000;

/// Bits of -1.0f32.
pub const MINUS_ONE_BITS: u32 = 0xBF80_0000;

#[derive(Debug, Clone, Copy)]
pub struct WorldHeader {
    pub version: u32,
    pub render_section_offset: u32,
    pub sector_section_offset: u32,
    pub object_section_offset: u32,
    pub blinddata_section_offset: u32,
    /// Bits of the three `f32` of the bounding box's low corner.
    pub min: [u32; 3],
    /// Bits of the three `f32` of the bounding box's high corner.
    pub max: [u32; 3],
    /// Bits of the three `f32` of the world offset.
    pub offset: [u32; 3],
}

/// The three little-endian words at `p`.
pub open spec fn vec3_at(b: Seq<u8>, p: int) -> Seq<u32> {
    seq![le_u32(b, p), le_u32(b, p + 4), le_u32(b, p + 8)]
}

/// The two little-endian words at `p`.
pub open spec fn vec2_at(b: Seq<u8>, p: int) -> Seq<u32> {
    seq![le_u32(b, p), le_u32(b, p + 4)]
}

pub open spec fn header_ok(b: Seq<u8>, h: WorldHeader) -> bool {
    &&& h.version == le_u32(b, 0)
    &&& h.render_section_offset == le_u32(b, 4)
    &&& h.sector_section_offset == le_u32(b, 8)
    &&& h.object_section_offset == le_u32(b, 12)
    &&& h.blinddata_section_offset == le_u32(b, 16)
    &&& h.min@ == vec3_at(b, 20)
    &&& h.max@ == vec3_at(b, 32)
    &&& h.offset@ == vec3_at(b, 44)
}

fn get_vec3(b: &[u8], p: usize) -> (r: [u32; 3])
    requires
        p + 12 <= b@.len(),
    ensures
        r@ == vec3_at(b@, p as int),
{
    let _len = b.len();
    let r = [get_u32(b, p), get_u32(b, p + 4), get_u32(b, p + 8)];
    assert(r@ =~= vec3_at(b@, p as int));
    r
}

fn get_vec2(b: &[u8], p: usize) -> (r: [u32; 2])
    requires
        p + 8 <= b@.len(),
    ensures
        r@ == vec2_at(b@, p as int),
{
    let _len = b.len();
    let r = [get_u32(b, p), get_u32(b, p + 4)];
    assert(r@ =~= vec2_at(b@, p as int));
    r
}

impl WorldHeader {
    /// The 56-byte header of a F.E.A.R. world.
    pub fn parse(bytes: &[u8]) -> (r: Result<Self, AssetError>)
        ensures
            bytes@.len() < 56 ==> r == Err::<WorldHeader, AssetError>(
                AssetError::Truncated("World00p header"),
            ),
            bytes@.len() >= 56 && le_u32(bytes@, 0) != FEAR_WORLD_VERSION ==> r == Err::<
                WorldHeader,
                AssetError,
            >(AssetError::WorldVersion(le_u32(bytes@, 0))),
            bytes@.len() >= 56 && le_u32(bytes@, 0) == FEAR_WORLD_VERSION ==> (r matches Ok(h)
                && header_ok(bytes@, h)),
    {
        if bytes.len() < 56 {
            return Err(AssetError::Truncated("World00p header"));
        }
        let version = get_u32(bytes, 0);
        if version != FEAR_WORLD_VERSION {
            return Err(AssetError::WorldVersion(version));
        }
        Ok(
            WorldHeader {
                version,
                render_section_offset: get_u32(bytes, 4),
                sector_section_offset: get_u32(bytes, 8),
                object_section_offset: get_u32(bytes, 12),
                blinddata_section_offset: get_u32(bytes, 16),
                min: get_vec3(bytes, 20),
                max: get_vec3(bytes, 32),
                offset: get_vec3(bytes, 44),
            },
        )
    }

    /// Counts in the file are XORed with the world magic.
    pub fn decode_count(raw: u32) -> (r: u32)
        ensures
            r == raw ^ FEAR_WORLD_MAGIC,
    {
        raw ^ FEAR_WORLD_MAGIC
    }
}

/// One attribute of a vertex pack type.
#[derive(Debug, Clone, Copy, PartialEq, Eq, Structural)]
pub struct VertexProp {
    /// Byte offset inside the vertex (`b` in the Jupiter EX pack type).
    pub offset: u16,
    pub format: u8,
    pub location: u8,
    pub id: u8,
}

/// A world vertex; every component is the bit pattern of an `f32`.
#[derive(Debug, Clone, Copy)]
pub struct WorldVertex {
    pub position: [u32; 3],
    pub normal: [u32; 3],
    pub uv: [u32; 2],
    pub tangent: [u32; 3],
    pub binormal: [u32; 3],
}

pub ghost struct VertexView {
    pub position: Seq<u32>,
    pub normal: Seq<u32>,
    pub uv: Seq<u32>,
    pub tangent: Seq<u32>,
    pub binormal: Seq<u32>,
}

impl View for WorldVertex {
    type V = VertexView;

    open spec fn view(&self) -> VertexView {
        VertexView {
            position: self.position@,
            normal: self.normal@,
            uv: self.uv@,
            tangent: self.tangent@,
            binormal: self.binormal@,
        }
    }
}

/// Bytes an attribute of this format takes; `None` for format 17, which is skipped, and
/// for formats the pack type does not know.
pub open spec fn format_size(format: u8) -> int {
    if format == 1 {
        8
    } else if format == 2 {
        12
    } else if format == 3 {
        16
    } else if format == 4 || format == 5 {
        4
    } else {
        0
    }
}

pub open spec fn known_format(format: u8) -> bool {
    format == 1 || format == 2 || format == 3 || format == 4 || format == 5 || format == 17
}

/// The vertex before any attribute is read: normal +Y, tangent +X, binormal -Z.
pub open spec fn vertex_default() -> VertexView {
    VertexView {
        position: seq![0u32, 0u32, 0u32],
        normal: seq![0u32, ONE_BITS, 0u32],
        uv: seq![0u32, 0u32],
        tangent: seq![ONE_BITS, 0u32, 0u32],
        binormal: seq![0u32, 0u32, MINUS_ONE_BITS],
    }
}

/// The vertex and whether a position was read, after the first `n` attributes.
pub open spec fn vertex_fold(b: Seq<u8>, def: Seq<VertexProp>, n: nat) -> Result<(VertexView, bool), AssetError>
    decreases n,
{
    if n == 0 {
        Ok((vertex_default(), false))
    } else {
        match vertex_fold(b, def, (n - 1) as nat) {
            Err(e) => Err(e),
            Ok((v, have)) => {
                let p = def[n - 1];
                if !known_format(p.format) {
                    Err(AssetError::Invalid("vertex format"))
                } else if p.format == 17 || p.offset + format_size(p.format) > b.len() || p.id > 0 {
                    Ok((v, have))
                } else {
                    let o = p.offset as int;
                    if p.location == 0 && p.format == 2 {
                        Ok((VertexView { position: vec3_at(b, o), ..v }, true))
                    } else if p.location == 3 && p.format == 2 {
                        Ok((VertexView { normal: vec3_at(b, o), ..v }, have))
                    } else if p.location == 5 && p.format == 1 {
                        Ok((VertexView { uv: vec2_at(b, o), ..v }, have))
                    } else if p.location == 6 && p.format == 2 {
                        Ok((VertexView { tangent: vec3_at(b, o), ..v }, have))
                    } else if p.location == 7 && p.format == 2 {
                        Ok((VertexView { binormal: vec3_at(b, o), ..v }, have))
                    } else {
                        Ok((v, have))
                    }
                }
            },
        }
    }
}

proof fn lemma_vertex_fold_err(b: Seq<u8>, def: Seq<VertexProp>, k: nat, n: nat)
    requires
        k <= n,
        vertex_fold(b, def, k) is Err,
    ensures
        vertex_fold(b, def, n) == vertex_fold(b, def, k),
    decreases n - k,
{
    if n > k {
        lemma_vertex_fold_err(b, def, k, (n - 1) as nat);
    }
}

/// A vertex decoded by its pack type; it must carry a position.
pub open spec fn vertex_of(b: Seq<u8>, def: Seq<VertexProp>) -> Result<VertexView, AssetError> {
    match vertex_fold(b, def, def.len()) {
        Err(e) => Err(e),
        Ok((v, have)) => if have {
            Ok(v)
        } else {
            Err(AssetError::Invalid("vertex missing position"))
        },
    }
}

/// Decode one vertex by its pack type. Later attributes override earlier ones; attributes
/// that do not fit in the vertex, or that are a second set (`id > 0`), are skipped.
pub fn decode_vertex(bytes: &[u8], def: &[VertexProp]) -> (r: Result<WorldVertex, AssetError>)
    ensures
        match r {
            Ok(v) => vertex_of(bytes@, def@) == Ok::<VertexView, AssetError>(v@),
            Err(e) => vertex_of(bytes@, def@) == Err::<VertexView, AssetError>(e),
        },
{
    let mut v = WorldVertex {
        position: [0, 0, 0],
        normal: [0, ONE_BITS, 0],
        uv: [0, 0],
        tangent: [ONE_BITS, 0, 0],
        binormal: [0, 0, MINUS_ONE_BITS],
    };
    let mut have_pos = false;
    assert(v@ =~= vertex_default());
    let len = bytes.len();
    let mut k: usize = 0;
    while k < def.len()
        invariant
            k <= def@.len(),
            len == bytes@.len(),
            vertex_fold(bytes@, def@, k as nat) == Ok::<(VertexView, bool), AssetError>(
                (v@, have_pos),
            ),
        decreases def@.len() - k,
    {
        let p = def[k];
        let size: usize = if p.format == 1 {
            8
        } else if p.format == 2 {
            12
        } else if p.format == 3 {
            16
        } else if p.format == 4 || p.format == 5 {
            4
        } else if p.format == 17 {
            0
        } else {
            proof {
                lemma_vertex_fold_err(bytes@, def@, (k + 1) as nat, def@.len());
            }
            return Err(AssetError::Invalid("vertex format"));
        };
        let off = p.offset as usize;
        let ghost before = v@;
        if p.format != 17 && off + size <= len && p.id == 0 {
            if p.location == 0 && p.format == 2 {
                v.position = get_vec3(bytes, off);
                have_pos = true;
            } else if p.location == 3 && p.format == 2 {
                v.normal = get_vec3(bytes, off);
            } else if p.location == 5 && p.format == 1 {
                v.uv = get_vec2(bytes, off);
            } else if p.location == 6 && p.format == 2 {
                v.tangent = get_vec3(bytes, off);
            } else if p.location == 7 && p.format == 2 {
                v.binormal = get_vec3(bytes, off);
            }
        }
        proof {
            let o = p.offset as int;
            if p.format != 17 && off + size <= len && p.id == 0 {
                if p.location == 0 && p.format == 2 {
                    assert(v@ =~= VertexView { position: vec3_at(bytes@, o), ..before });
                } else if p.location == 3 && p.format == 2 {
                    assert(v@ =~= VertexView { normal: vec3_at(bytes@, o), ..before });
                } else if p.location == 5 && p.format == 1 {
                    assert(v@ =~= VertexView { uv: vec2_at(bytes@, o), ..before });
                } else if p.location == 6 && p.format == 2 {
                    assert(v@ =~= VertexView { tangent: vec3_at(bytes@, o), ..before });
                } else if p.location == 7 && p.format == 2 {
                    assert(v@ =~= VertexView { binormal: vec3_at(bytes@, o), ..before });
                }
            }
        }
        k += 1;
    }
    if !have_pos {
        return Err(AssetError::Invalid("vertex missing position"));
    }
    Ok(v)
}

/// A little-endian `u32` read at cursor position `p`: the value and the next position.
pub open spec fn cur_u32(b: Seq<u8>, p: int) -> Result<(u32, int), AssetError> {
    if 0 <= p && p + 4 <= b.len() {
        Ok((le_u32(b, p), p + 4))
    } else {
        Err(AssetError::UnexpectedEof)
    }
}

/// `n` bytes read at cursor position `p`. Reading nothing always succeeds, even past the
/// end.
pub open spec fn cur_bytes(b: Seq<u8>, p: int, n: int) -> Result<(Seq<u8>, int), AssetError> {
    if 0 <= p && p + n <= b.len() {
        Ok((b.subrange(p, p + n), p + n))
    } else if n == 0 {
        Ok((Seq::empty(), p))
    } else {
        Err(AssetError::UnexpectedEof)
    }
}

/// Read a `u32` at the cursor; on a short read the cursor moves to the end.
pub(crate) fn cursor_u32(b: &[u8], pos: &mut u64) -> (r: Result<u32, AssetError>)
    ensures
        match r {
            Ok(v) => cur_u32(b@, *old(pos) as int) == Ok::<(u32, int), AssetError>(
                (v, *final(pos) as int),
            ),
            Err(e) => cur_u32(b@, *old(pos) as int) == Err::<(u32, int), AssetError>(e)
                && *final(pos) == b@.len(),
        },
{
    let len = b.len() as u64;
    if *pos <= len && len - *pos >= 4 {
        let v = get_u32(b, *pos as usize);
        *pos = *pos + 4;
        Ok(v)
    } else {
        *pos = len;
        Err(AssetError::UnexpectedEof)
    }
}

/// Read `n` bytes at the cursor; on a short read the cursor moves to the end.
pub(crate) fn cursor_bytes(b: &[u8], pos: &mut u64, n: u64) -> (r: Result<Vec<u8>, AssetError>)
    ensures
        match r {
            Ok(v) => cur_bytes(b@, *old(pos) as int, n as int) == Ok::<(Seq<u8>, int), AssetError>(
                (v@, *final(pos) as int),
            ),
            Err(e) => cur_bytes(b@, *old(pos) as int, n as int) == Err::<(Seq<u8>, int), AssetError>(
                e,
            ) && *final(pos) == b@.len(),
        },
{
    let len = b.len() as u64;
    if *pos <= len && len - *pos >= n {
        let v = slice_to_vec(slice_subrange(b, *pos as usize, (*pos + n) as usize));
        *pos = *pos + n;
        Ok(v)
    } else if n == 0 {
        Ok(Vec::new())
    } else {
        *pos = len;
        Err(AssetError::UnexpectedEof)
    }
}

/// The attribute slot at `q`: type word, byte offset, then format, usage and index bytes.
pub open spec fn prop_at(b: Seq<u8>, q: int) -> VertexProp {
    VertexProp { offset: le_u16(b, q + 2), format: b[q + 4], location: b[q + 6], id: b[q + 7] }
}

/// The attribute slots of a pack type from slot `j` on, up to `slots` or a slot of type 255.
pub open spec fn def_slots(b: Seq<u8>, start: int, slots: int, j: int) -> Result<Seq<VertexProp>, AssetError>
    decreases slots - j,
{
    if j >= slots {
        Ok(Seq::empty())
    } else if start + 8 * j + 8 > b.len() {
        Err(AssetError::UnexpectedEof)
    } else if le_u16(b, start + 8 * j) == 255 {
        Ok(Seq::empty())
    } else {
        match def_slots(b, start, slots, j + 1) {
            Err(e) => Err(e),
            Ok(rest) => Ok(seq![prop_at(b, start + 8 * j)] + rest),
        }
    }
}

/// A pack type at `p`: its byte size, then 8-byte slots; the next one starts after `size`.
pub open spec fn vertex_def_at(b: Seq<u8>, p: int) -> Result<(Seq<VertexProp>, int), AssetError> {
    match cur_u32(b, p) {
        Err(e) => Err(e),
        Ok((size, start)) => match def_slots(b, start, size as int / 8, 0) {
            Err(e) => Err(e),
            Ok(props) => Ok((props, start + size)),
        },
    }
}

fn read_vertex_def(b: &[u8], pos: &mut u64) -> (r: Result<Vec<VertexProp>, AssetError>)
    requires
        b@.len() < 0x8000_0000_0000_0000,
    ensures
        match r {
            Ok(v) => vertex_def_at(b@, *old(pos) as int) == Ok::<(Seq<VertexProp>, int), AssetError>(
                (v@, *final(pos) as int),
            ),
            Err(e) => vertex_def_at(b@, *old(pos) as int) == Err::<
                (Seq<VertexProp>, int),
                AssetError,
            >(e),
        },
{
    let len = b.len();
    let size = match cursor_u32(b, pos) {
        Ok(s) => s,
        Err(e) => {
            return Err(e);
        },
    };
    assert(*pos <= len);
    let start = *pos as usize;
    assert(start as int == *pos as int);
    let slots = (size / 8) as usize;
    let mut props: Vec<VertexProp> = Vec::new();
    let mut j: usize = 0;
    let ghost sp = start as int;
    proof {
        match def_slots(b@, sp, slots as int, 0) {
            Ok(rest) => {
                assert(props@ + rest == rest);
            },
            Err(_) => {},
        }
    }
    while j < slots
        invariant
            len == b@.len(),
            start <= len,
            sp == start,
            cur_u32(b@, *old(pos) as int) == Ok::<(u32, int), AssetError>((size, sp)),
            len < 0x8000_0000_0000_0000,
            j <= slots,
            slots == size as int / 8,
            def_slots(b@, sp, slots as int, 0) == match def_slots(b@, sp, slots as int, j as int) {
                Err(e) => Err(e),
                Ok(rest) => Ok(props@ + rest),
            },
        decreases slots - j,
    {
        if len - start < 8 || j > (len - start - 8) / 8 {
            proof {
                if len - start >= 8 {
                    let l = (len - start - 8) as int;
                    assert(8 * j > l) by (nonlinear_arith)
                        requires
                            j > l / 8,
                            l >= 0,
                    ;
                }
                assert(sp + 8 * j + 8 > b@.len());
            }
            return Err(AssetError::UnexpectedEof);
        }
        proof {
            let l = (len - start - 8) as int;
            assert(8 * j <= l) by (nonlinear_arith)
                requires
                    j <= l / 8,
                    l >= 0,
            ;
        }
        let q = start + 8 * j;
        if get_u16(b, q) == 255 {
            proof {
                assert(props@ + Seq::<VertexProp>::empty() == props@);
            }
            *pos = start as u64 + size as u64;
            return Ok(props);
        }
        let p = VertexProp {
            offset: get_u16(b, q + 2),
            format: b[q + 4],
            location: b[q + 6],
            id: b[q + 7],
        };
        proof {
            match def_slots(b@, sp, slots as int, j + 1) {
                Ok(rest) => {
                    assert(props@ + (seq![p] + rest) == props@.push(p) + rest);
                },
                Err(_) => {},
            }
        }
        props.push(p);
        j += 1;
    }
    proof {
        assert(props@ + Seq::<VertexProp>::empty() == props@);
    }
    *pos = start as u64 + size as u64;
    Ok(props)
}

/// One surface record: nine words, the eighth unused.
#[derive(Debug, Clone, Copy, PartialEq, Eq, Structural)]
pub struct RawSurface {
    pub vertices_start: u32,
    pub vertices_count: u32,
    pub vertex_stride: u32,
    pub indices_start: u32,
    pub indices_base: u32,
    pub triangle_count: u32,
    pub material_id: u32,
    pub pack_type_id: u32,
}

/// The surface record at `p` and the position after it.
pub open spec fn surface_rec_at(b: Seq<u8>, p: int) -> Result<(RawSurface, int), AssetError> {
    if 0 <= p && p + 36 <= b.len() {
        Ok(
            (
                RawSurface {
                    vertices_start: le_u32(b, p),
                    vertices_count: le_u32(b, p + 4),
                    vertex_stride: le_u32(b, p + 8),
                    indices_start: le_u32(b, p + 12),
                    indices_base: le_u32(b, p + 16),
                    triangle_count: le_u32(b, p + 20),
                    material_id: le_u32(b, p + 24),
                    pack_type_id: le_u32(b, p + 32),
                },
                p + 36,
            ),
        )
    } else {
        Err(AssetError::UnexpectedEof)
    }
}

fn read_surface_header(b: &[u8], pos: &mut u64) -> (r: Result<RawSurface, AssetError>)
    ensures
        match r {
            Ok(s) => surface_rec_at(b@, *old(pos) as int) == Ok::<(RawSurface, int), AssetError>(
                (s, *final(pos) as int),
            ),
            Err(e) => surface_rec_at(b@, *old(pos) as int) == Err::<(RawSurface, int), AssetError>(
                e,
            ) && *final(pos) == b@.len(),
        },
{
    let len = b.len() as u64;
    if *pos > len || len - *pos < 36 {
        *pos = len;
        return Err(AssetError::UnexpectedEof);
    }
    let p = *pos as usize;
    *pos = *pos + 36;
    Ok(
        RawSurface {
            vertices_start: get_u32(b, p),
            vertices_count: get_u32(b, p + 4),
            vertex_stride: get_u32(b, p + 8),
            indices_start: get_u32(b, p + 12),
            indices_base: get_u32(b, p + 16),
            triangle_count: get_u32(b, p + 20),
            material_id: get_u32(b, p + 24),
            pack_type_id: get_u32(b, p + 32),
        },
    )
}

/// A length-prefixed UTF-8 string at `p`: empty when it cannot be read, in which case a
/// short read leaves the cursor at the end of the bytes.
pub open spec fn lt_string_at(b: Seq<u8>, p: int) -> (Seq<char>, int) {
    if !(0 <= p && p + 2 <= b.len()) {
        (Seq::empty(), b.len() as int)
    } else {
        let n = le_u16(b, p) as int;
        if p + 2 + n > b.len() {
            (Seq::empty(), b.len() as int)
        } else if vstd::utf8::valid_utf8(b.subrange(p + 2, p + 2 + n)) {
            (vstd::utf8::decode_utf8(b.subrange(p + 2, p + 2 + n)), p + 2 + n)
        } else {
            (Seq::empty(), p + 2 + n)
        }
    }
}

fn read_lt_string(b: &[u8], pos: &mut u64) -> (r: String)
    ensures
        (r@, *final(pos) as int) == lt_string_at(b@, *old(pos) as int),
{
    let len = b.len() as u64;
    if *pos > len || len - *pos < 2 {
        *pos = len;
        return String::new();
    }
    let p = *pos as usize;
    let n = get_u16(b, p) as u64;
    if len - *pos - 2 < n {
        *pos = len;
        return String::new();
    }
    let bytes = slice_subrange(b, p + 2, p + 2 + n as usize);
    *pos = *pos + 2 + n;
    match utf8_string(bytes) {
        Some(s) => s,
        None => String::new(),
    }
}

/// The vertices of a surface, `vertex_stride` bytes each from vertex `vertices_start` on.
pub open spec fn surface_verts(blob: Seq<u8>, raw: RawSurface, def: Seq<VertexProp>, n: nat) -> Result<Seq<VertexView>, AssetError>
    decreases n,
{
    if n == 0 {
        Ok(Seq::empty())
    } else {
        match surface_verts(blob, raw, def, (n - 1) as nat) {
            Err(e) => Err(e),
            Ok(vs) => {
                let stride = raw.vertex_stride as int;
                let off = raw.vertices_start as int * stride + (n - 1) * stride;
                if off + stride > blob.len() {
                    Err(AssetError::Truncated("vertex block"))
                } else {
                    match vertex_of(blob.subrange(off, off + stride), def) {
                        Err(e) => Err(e),
                        Ok(v) => Ok(vs.push(v)),
                    }
                }
            },
        }
    }
}

pub open spec fn vertex_views(v: Seq<WorldVertex>) -> Seq<VertexView> {
    v.map_values(|x: WorldVertex| x@)
}

proof fn lemma_surface_verts_err(blob: Seq<u8>, raw: RawSurface, def: Seq<VertexProp>, k: nat, n: nat)
    requires
        k <= n,
        surface_verts(blob, raw, def, k) is Err,
    ensures
        surface_verts(blob, raw, def, n) == surface_verts(blob, raw, def, k),
    decreases n - k,
{
    if n > k {
        lemma_surface_verts_err(blob, raw, def, k, (n - 1) as nat);
    }
}

/// Decode the vertices of one surface.
pub fn decode_surface_vertices(blob: &[u8], raw: &RawSurface, def: &[VertexProp]) -> (r: Result<
    Vec<WorldVertex>,
    AssetError,
>)
    ensures
        match r {
            Ok(v) => surface_verts(blob@, *raw, def@, raw.vertices_count as nat) == Ok::<
                Seq<VertexView>,
                AssetError,
            >(vertex_views(v@)),
            Err(e) => surface_verts(blob@, *raw, def@, raw.vertices_count as nat) == Err::<
                Seq<VertexView>,
                AssetError,
            >(e),
        },
{
    let blen = blob.len();
    let len = blen as u64;
    let stride = raw.vertex_stride as u64;
    assert(raw.vertices_start as int * raw.vertex_stride as int <= 0xFFFF_FFFE_0000_0001)
        by (nonlinear_arith)
        requires
            raw.vertices_start <= u32::MAX,
            raw.vertex_stride <= u32::MAX,
    ;
    let start = raw.vertices_start as u64 * stride;
    let count = raw.vertices_count as u64;
    let mut out: Vec<WorldVertex> = Vec::new();
    let mut i: u64 = 0;
    assert(vertex_views(out@) =~= Seq::<VertexView>::empty());
    while i < count
        invariant
            i <= count,
            count == raw.vertices_count,
            len == blob@.len(),
            len == blen,
            stride == raw.vertex_stride,
            start == raw.vertices_start as int * raw.vertex_stride as int,
            surface_verts(blob@, *raw, def@, i as nat) == Ok::<Seq<VertexView>, AssetError>(
                vertex_views(out@),
            ),
        decreases count - i,
    {
        assert(i as int * stride as int <= 0xFFFF_FFFE_0000_0001) by (nonlinear_arith)
            requires
                i <= u32::MAX,
                stride <= u32::MAX,
        ;
        let step = i * stride;
        if start > len || step > len - start || stride > len - start - step {
            proof {
                lemma_surface_verts_err(blob@, *raw, def@, (i + 1) as nat, raw.vertices_count as nat);
            }
            return Err(AssetError::Truncated("vertex block"));
        }
        let off = (start + step) as usize;
        let vb = slice_subrange(blob, off, off + stride as usize);
        match decode_vertex(vb, def) {
            Err(e) => {
                proof {
                    lemma_surface_verts_err(blob@, *raw, def@, (i + 1) as nat, raw.vertices_count as nat);
                }
                return Err(e);
            },
            Ok(v) => {
                proof {
                    assert(vertex_views(out@.push(v)) =~= vertex_views(out@).push(v@));
                }
                out.push(v);
            },
        }
        i += 1;
    }
    Ok(out)
}

/// What a surface's indices are shifted by: `vertices_start - indices_base`, wrapped to
/// 32 bits and read as signed.
pub open spec fn index_shift(raw: RawSurface) -> int {
    let d = raw.vertices_start as int - raw.indices_base as int;
    let w = if d < 0 {
        d + 0x1_0000_0000
    } else {
        d
    };
    if w >= 0x8000_0000 {
        w - 0x1_0000_0000
    } else {
        w
    }
}

/// The indices of the first `n` triangles, remapped to the surface's vertices and with
/// the winding flipped (0, 2, 1).
pub open spec fn surface_tris(blob: Seq<u8>, raw: RawSurface, vc: int, n: nat) -> Result<Seq<u32>, AssetError>
    decreases n,
{
    if n == 0 {
        Ok(Seq::empty())
    } else {
        match surface_tris(blob, raw, vc, (n - 1) as nat) {
            Err(e) => Err(e),
            Ok(out) => {
                let off = raw.indices_start as int * 2 + (n - 1) * 6;
                if off + 6 > blob.len() {
                    Err(AssetError::Truncated("index block"))
                } else {
                    let i0 = le_u16(blob, off) - index_shift(raw);
                    let i1 = le_u16(blob, off + 2) - index_shift(raw);
                    let i2 = le_u16(blob, off + 4) - index_shift(raw);
                    if !(0 <= i0 < vc && 0 <= i2 < vc && 0 <= i1 < vc) {
                        Err(AssetError::Invalid("index remap"))
                    } else {
                        Ok(out + seq![i0 as u32, i2 as u32, i1 as u32])
                    }
                }
            },
        }
    }
}

proof fn lemma_surface_tris_err(blob: Seq<u8>, raw: RawSurface, vc: int, k: nat, n: nat)
    requires
        k <= n,
        surface_tris(blob, raw, vc, k) is Err,
    ensures
        surface_tris(blob, raw, vc, n) == surface_tris(blob, raw, vc, k),
    decreases n - k,
{
    if n > k {
        lemma_surface_tris_err(blob, raw, vc, k, (n - 1) as nat);
    }
}

/// Decode the triangle indices of one surface against its `vert_count` vertices.
pub fn decode_surface_indices(blob: &[u8], raw: &RawSurface, vert_count: usize) -> (r: Result<
    Vec<u32>,
    AssetError,
>)
    ensures
        match r {
            Ok(v) => surface_tris(blob@, *raw, vert_count as int, raw.triangle_count as nat) == Ok::<
                Seq<u32>,
                AssetError,
            >(v@),
            Err(e) => surface_tris(blob@, *raw, vert_count as int, raw.triangle_count as nat)
                == Err::<Seq<u32>, AssetError>(e),
        },
{
    let d: i64 = raw.vertices_start as i64 - raw.indices_base as i64;
    let w: i64 = if d < 0 {
        d + 0x1_0000_0000
    } else {
        d
    };
    let shift: i64 = if w >= 0x8000_0000 {
        w - 0x1_0000_0000
    } else {
        w
    };
    let blen = blob.len();
    let len = blen as u64;
    let base = raw.indices_start as u64 * 2;
    let count = raw.triangle_count as u64;
    let vc = vert_count as u64;
    let mut out: Vec<u32> = Vec::new();
    let mut t: u64 = 0;
    while t < count
        invariant
            t <= count,
            count == raw.triangle_count,
            len == blob@.len(),
            len == blen,
            base == raw.indices_start as int * 2,
            shift == index_shift(*raw),
            vc == vert_count,
            surface_tris(blob@, *raw, vert_count as int, t as nat) == Ok::<Seq<u32>, AssetError>(
                out@,
            ),
        decreases count - t,
    {
        let off = base + t * 6;
        if off > len || len - off < 6 {
            proof {
                lemma_surface_tris_err(blob@, *raw, vert_count as int, (t + 1) as nat, raw.triangle_count as nat);
            }
            return Err(AssetError::Truncated("index block"));
        }
        let o = off as usize;
        let i0 = get_u16(blob, o) as i64 - shift;
        let i1 = get_u16(blob, o + 2) as i64 - shift;
        let i2 = get_u16(blob, o + 4) as i64 - shift;
        if i0 < 0 || i0 as u64 >= vc || i2 < 0 || i2 as u64 >= vc || i1 < 0 || i1 as u64 >= vc {
            proof {
                lemma_surface_tris_err(blob@, *raw, vert_count as int, (t + 1) as nat, raw.triangle_count as nat);
            }
            return Err(AssetError::Invalid("index remap"));
        }
        let ghost before = out@;
        out.push(i0 as u32);
        out.push(i2 as u32);
        out.push(i1 as u32);
        assert(out@ == before + seq![i0 as u32, i2 as u32, i1 as u32]);
        t += 1;
    }
    Ok(out)
}

#[derive(Debug)]
pub struct WorldSurface {
    pub vertices: Vec<WorldVertex>,
    pub indices: Vec<u32>,
    pub material: String,
}

pub ghost struct SurfaceView {
    pub vertices: Seq<VertexView>,
    pub indices: Seq<u32>,
    pub material: Seq<char>,
}

impl View for WorldSurface {
    type V = SurfaceView;

    open spec fn view(&self) -> SurfaceView {
        SurfaceView {
            vertices: vertex_views(self.vertices@),
            indices: self.indices@,
            material: self.material@,
        }
    }
}

pub open spec fn surface_views(v: Seq<WorldSurface>) -> Seq<SurfaceView> {
    v.map_values(|x: WorldSurface| x@)
}

#[derive(Debug)]
pub struct WorldRender {
    pub header: WorldHeader,
    pub surfaces: Vec<WorldSurface>,
}

/// The first `n` pack types from `p` on, and the position after them.
pub open spec fn defs_at(b: Seq<u8>, p: int, n: nat) -> Result<(Seq<Seq<VertexProp>>, int), AssetError>
    decreases n,
{
    if n == 0 {
        Ok((Seq::empty(), p))
    } else {
        match defs_at(b, p, (n - 1) as nat) {
            Err(e) => Err(e),
            Ok((ds, q)) => match vertex_def_at(b, q) {
                Err(e) => Err(e),
                Ok((d, q2)) => Ok((ds.push(d), q2)),
            },
        }
    }
}

/// The first `n` surface records from `p` on, and the position after them.
pub open spec fn surface_recs_at(b: Seq<u8>, p: int, n: nat) -> Result<(Seq<RawSurface>, int), AssetError>
    decreases n,
{
    if n == 0 {
        Ok((Seq::empty(), p))
    } else {
        match surface_recs_at(b, p, (n - 1) as nat) {
            Err(e) => Err(e),
            Ok((rs, q)) => match surface_rec_at(b, q) {
                Err(e) => Err(e),
                Ok((r, q2)) => Ok((rs.push(r), q2)),
            },
        }
    }
}

/// The first `n` material names from `p` on, and the position after them.
pub open spec fn materials_at(b: Seq<u8>, p: int, n: nat) -> (Seq<Seq<char>>, int)
    decreases n,
{
    if n == 0 {
        (Seq::empty(), p)
    } else {
        let (ms, q) = materials_at(b, p, (n - 1) as nat);
        let (m, q2) = lt_string_at(b, q);
        (ms.push(m), q2)
    }
}

/// The material a surface names; empty when the id is out of range.
pub open spec fn material_of(mats: Seq<Seq<char>>, id: u32) -> Seq<char> {
    if id < mats.len() {
        mats[id as int]
    } else {
        Seq::empty()
    }
}

/// The drawable surfaces among the first `n` records. Shadow volumes are dropped, and so
/// are surfaces whose vertices or indices do not decode or come out empty; a record whose
/// pack type does not exist fails the whole world.
pub open spec fn assemble(
    vblob: Seq<u8>,
    iblob: Seq<u8>,
    defs: Seq<Seq<VertexProp>>,
    raws: Seq<RawSurface>,
    mats: Seq<Seq<char>>,
    n: nat,
) -> Result<Seq<SurfaceView>, AssetError>
    decreases n,
{
    if n == 0 {
        Ok(Seq::empty())
    } else {
        match assemble(vblob, iblob, defs, raws, mats, (n - 1) as nat) {
            Err(e) => Err(e),
            Ok(out) => {
                let raw = raws[n - 1];
                let name = material_of(mats, raw.material_id);
                if contains(lower_seq(name), "shadowvolume"@) {
                    Ok(out)
                } else if raw.pack_type_id >= defs.len() {
                    Err(AssetError::Invalid("pack_type_id"))
                } else {
                    match surface_verts(vblob, raw, defs[raw.pack_type_id as int], raw.vertices_count as nat) {
                        Err(_) => Ok(out),
                        Ok(vs) => match surface_tris(iblob, raw, vs.len() as int, raw.triangle_count as nat) {
                            Err(_) => Ok(out),
                            Ok(is) => if vs.len() == 0 || is.len() == 0 {
                                Ok(out)
                            } else {
                                Ok(out.push(SurfaceView { vertices: vs, indices: is, material: name }))
                            },
                        },
                    }
                }
            },
        }
    }
}

/// The render section of a world: ten words (the fourth, the render mesh count, must be 1),
/// a zero mesh id, surface and material counts, the vertex and index blobs, the pack types,
/// the surface records and the material names.
pub open spec fn render_surfaces(b: Seq<u8>) -> Result<Seq<SurfaceView>, AssetError> {
    if b.len() < 56 {
        Err(AssetError::Truncated("World00p header"))
    } else if le_u32(b, 0) != FEAR_WORLD_VERSION {
        Err(AssetError::WorldVersion(le_u32(b, 0)))
    } else {
        let p0 = le_u32(b, 4) as int;
        if p0 + 40 > b.len() {
            Err(AssetError::UnexpectedEof)
        } else if le_u32(b, p0 + 12) != 1 {
            Err(AssetError::Invalid("render_mesh_count"))
        } else {
            match cur_u32(b, p0 + 40) {
                Err(e) => Err(e),
                Ok((id, p1)) => if id != 0 {
                    Err(AssetError::Invalid("render mesh id"))
                } else if p1 + 16 > b.len() {
                    Err(AssetError::UnexpectedEof)
                } else {
                    let mc = le_u32(b, p1 + 4);
                    let vbs = le_u32(b, p1 + 8) as int;
                    let tbs = le_u32(b, p1 + 12) as int;
                    match cur_bytes(b, p1 + 16, vbs) {
                        Err(e) => Err(e),
                        Ok((vblob, p3)) => match cur_bytes(b, p3, tbs) {
                            Err(e) => Err(e),
                            Ok((iblob, p4)) => match cur_u32(b, p4) {
                                Err(e) => Err(e),
                                Ok((dc, p5)) => match defs_at(b, p5, dc as nat) {
                                    Err(e) => Err(e),
                                    Ok((defs, p6)) => match cur_u32(b, p6) {
                                        Err(e) => Err(e),
                                        Ok((sc, p7)) => match surface_recs_at(b, p7, sc as nat) {
                                            Err(e) => Err(e),
                                            Ok((raws, p8)) => assemble(
                                                vblob,
                                                iblob,
                                                defs,
                                                raws,
                                                materials_at(b, p8, mc as nat).0,
                                                raws.len(),
                                            ),
                                        },
                                    },
                                },
                            },
                        },
                    }
                },
            }
        }
    }
}

pub open spec fn def_views(v: Seq<Vec<VertexProp>>) -> Seq<Seq<VertexProp>> {
    v.map_values(|d: Vec<VertexProp>| d@)
}

pub open spec fn string_views(v: Seq<String>) -> Seq<Seq<char>> {
    v.map_values(|s: String| s@)
}

proof fn lemma_defs_err(b: Seq<u8>, p: int, k: nat, n: nat)
    requires
        k <= n,
        defs_at(b, p, k) is Err,
    ensures
        defs_at(b, p, n) == defs_at(b, p, k),
    decreases n - k,
{
    if n > k {
        lemma_defs_err(b, p, k, (n - 1) as nat);
    }
}

proof fn lemma_recs_err(b: Seq<u8>, p: int, k: nat, n: nat)
    requires
        k <= n,
        surface_recs_at(b, p, k) is Err,
    ensures
        surface_recs_at(b, p, n) == surface_recs_at(b, p, k),
    decreases n - k,
{
    if n > k {
        lemma_recs_err(b, p, k, (n - 1) as nat);
    }
}

proof fn lemma_assemble_err(
    vblob: Seq<u8>,
    iblob: Seq<u8>,
    defs: Seq<Seq<VertexProp>>,
    raws: Seq<RawSurface>,
    mats: Seq<Seq<char>>,
    k: nat,
    n: nat,
)
    requires
        k <= n,
        assemble(vblob, iblob, defs, raws, mats, k) is Err,
    ensures
        assemble(vblob, iblob, defs, raws, mats, n) == assemble(vblob, iblob, defs, raws, mats, k),
    decreases n - k,
{
    if n > k {
        lemma_assemble_err(vblob, iblob, defs, raws, mats, k, (n - 1) as nat);
    }
}

fn is_shadow_volume(name: &String) -> (r: bool)
    ensures
        r == contains(lower_seq(name@), "shadowvolume"@),
{
    contains_chars(&lower_chars(&chars_of(name.as_str())), &chars_of("shadowvolume"))
}

fn read_defs(b: &[u8], pos: &mut u64, count: u32) -> (r: Result<Vec<Vec<VertexProp>>, AssetError>)
    requires
        b@.len() < 0x8000_0000_0000_0000,
        *old(pos) <= b@.len() + 0x1_0000_0000,
    ensures
        match r {
            Ok(d) => defs_at(b@, *old(pos) as int, count as nat) == Ok::<
                (Seq<Seq<VertexProp>>, int),
                AssetError,
            >((def_views(d@), *final(pos) as int)) && *final(pos) <= b@.len() + 0x1_0000_0000,
            Err(e) => defs_at(b@, *old(pos) as int, count as nat) == Err::<
                (Seq<Seq<VertexProp>>, int),
                AssetError,
            >(e),
        },
{
    let ghost p5 = *pos as int;
    let len = b.len() as u64;
    let mut defs: Vec<Vec<VertexProp>> = Vec::new();
    let mut k: u32 = 0;
    assert(def_views(defs@) =~= Seq::<Seq<VertexProp>>::empty());
    while k < count
        invariant
            k <= count,
            len == b@.len(),
            len < 0x8000_0000_0000_0000,
            *pos <= len + 0x1_0000_0000,
            p5 == *old(pos) as int,
            defs_at(b@, p5, k as nat) == Ok::<(Seq<Seq<VertexProp>>, int), AssetError>(
                (def_views(defs@), *pos as int),
            ),
        decreases count - k,
    {
        match read_vertex_def(b, pos) {
            Ok(d) => {
                proof {
                    assert(def_views(defs@.push(d)) =~= def_views(defs@).push(d@));
                }
                defs.push(d);
            },
            Err(e) => {
                proof {
                    lemma_defs_err(b@, p5, (k + 1) as nat, count as nat);
                }
                return Err(e);
            },
        }
        k += 1;
    }
    Ok(defs)
}

fn read_surface_records(b: &[u8], pos: &mut u64, count: u32) -> (r: Result<Vec<RawSurface>, AssetError>)
    requires
        b@.len() < 0x8000_0000_0000_0000,
    ensures
        match r {
            Ok(v) => surface_recs_at(b@, *old(pos) as int, count as nat) == Ok::<
                (Seq<RawSurface>, int),
                AssetError,
            >((v@, *final(pos) as int)),
            Err(e) => surface_recs_at(b@, *old(pos) as int, count as nat) == Err::<
                (Seq<RawSurface>, int),
                AssetError,
            >(e),
        },
{
    let ghost p7 = *pos as int;
    let mut raws: Vec<RawSurface> = Vec::new();
    let mut k: u32 = 0;
    while k < count
        invariant
            k <= count,
            p7 == *old(pos) as int,
            surface_recs_at(b@, p7, k as nat) == Ok::<(Seq<RawSurface>, int), AssetError>(
                (raws@, *pos as int),
            ),
        decreases count - k,
    {
        match read_surface_header(b, pos) {
            Ok(r) => {
                raws.push(r);
            },
            Err(e) => {
                proof {
                    lemma_recs_err(b@, p7, (k + 1) as nat, count as nat);
                }
                return Err(e);
            },
        }
        k += 1;
    }
    Ok(raws)
}

fn read_materials(b: &[u8], pos: &mut u64, count: u32) -> (r: Vec<String>)
    ensures
        materials_at(b@, *old(pos) as int, count as nat) == (string_views(r@), *final(pos) as int),
{
    let ghost p8 = *pos as int;
    let mut materials: Vec<String> = Vec::new();
    let mut k: u32 = 0;
    assert(string_views(materials@) =~= Seq::<Seq<char>>::empty());
    while k < count
        invariant
            k <= count,
            materials_at(b@, p8, k as nat) == (string_views(materials@), *pos as int),
        decreases count - k,
    {
        let m = read_lt_string(b, pos);
        proof {
            assert(string_views(materials@.push(m)) =~= string_views(materials@).push(m@));
        }
        materials.push(m);
        k += 1;
    }
    materials
}

fn assemble_surfaces(
    vertex_blob: &[u8],
    index_blob: &[u8],
    defs: &Vec<Vec<VertexProp>>,
    raws: &Vec<RawSurface>,
    materials: &Vec<String>,
) -> (r: Result<Vec<WorldSurface>, AssetError>)
    ensures
        match r {
            Ok(v) => assemble(
                vertex_blob@,
                index_blob@,
                def_views(defs@),
                raws@,
                string_views(materials@),
                raws@.len(),
            ) == Ok::<Seq<SurfaceView>, AssetError>(surface_views(v@)),
            Err(e) => assemble(
                vertex_blob@,
                index_blob@,
                def_views(defs@),
                raws@,
                string_views(materials@),
                raws@.len(),
            ) == Err::<Seq<SurfaceView>, AssetError>(e),
        },
{
    let ghost mats = string_views(materials@);
    let ghost dv = def_views(defs@);
    let mut surfaces: Vec<WorldSurface> = Vec::new();
    let mut n: usize = 0;
    assert(surface_views(surfaces@) =~= Seq::<SurfaceView>::empty());
    while n < raws.len()
        invariant
            n <= raws@.len(),
            mats == string_views(materials@),
            dv == def_views(defs@),
            assemble(vertex_blob@, index_blob@, dv, raws@, mats, n as nat) == Ok::<
                Seq<SurfaceView>,
                AssetError,
            >(surface_views(surfaces@)),
        decreases raws@.len() - n,
    {
        let raw = raws[n];
        let name = if (raw.material_id as usize) < materials.len() {
            materials[raw.material_id as usize].clone()
        } else {
            String::new()
        };
        assert(name@ == material_of(mats, raw.material_id));
        if is_shadow_volume(&name) {
            n += 1;
            continue;
        }
        if raw.pack_type_id as usize >= defs.len() {
            proof {
                lemma_assemble_err(vertex_blob@, index_blob@, dv, raws@, mats, (n + 1) as nat, raws@.len());
            }
            return Err(AssetError::Invalid("pack_type_id"));
        }
        let def = &defs[raw.pack_type_id as usize];
        assert(dv[raw.pack_type_id as int] == def@);
        let verts = match decode_surface_vertices(vertex_blob, &raw, def.as_slice()) {
            Ok(v) => v,
            Err(_) => {
                n += 1;
                continue;
            },
        };
        let indices = match decode_surface_indices(index_blob, &raw, verts.len()) {
            Ok(i) => i,
            Err(_) => {
                n += 1;
                continue;
            },
        };
        if verts.len() == 0 || indices.len() == 0 {
            n += 1;
            continue;
        }
        let s = WorldSurface { vertices: verts, indices, material: name };
        proof {
            assert(surface_views(surfaces@.push(s)) =~= surface_views(surfaces@).push(s@));
        }
        surfaces.push(s);
        n += 1;
    }
    Ok(surfaces)
}

impl WorldRender {
    /// Parse the header and the render section of a packed world.
    pub fn parse(bytes: &[u8]) -> (r: Result<Self, AssetError>)
        requires
            bytes@.len() < 0x8000_0000_0000_0000,
        ensures
            match r {
                Ok(w) => render_surfaces(bytes@) == Ok::<Seq<SurfaceView>, AssetError>(
                    surface_views(w.surfaces@),
                ) && header_ok(bytes@, w.header),
                Err(e) => render_surfaces(bytes@) == Err::<Seq<SurfaceView>, AssetError>(e),
            },
    {
        let b = bytes;
        let header = match WorldHeader::parse(b) {
            Ok(h) => h,
            Err(e) => {
                return Err(e);
            },
        };
        let len = b.len() as u64;
        let p0 = header.render_section_offset as u64;
        if p0 > len || len - p0 < 40 {
            return Err(AssetError::UnexpectedEof);
        }
        if get_u32(b, (p0 + 12) as usize) != 1 {
            return Err(AssetError::Invalid("render_mesh_count"));
        }
        let mut pos: u64 = p0 + 40;
        let id = match cursor_u32(b, &mut pos) {
            Ok(v) => v,
            Err(e) => {
                return Err(e);
            },
        };
        if id != 0 {
            return Err(AssetError::Invalid("render mesh id"));
        }
        if pos > len || len - pos < 16 {
            return Err(AssetError::UnexpectedEof);
        }
        let p1 = pos as usize;
        let material_count = get_u32(b, p1 + 4);
        let vertex_block_size = get_u32(b, p1 + 8) as u64;
        let triangles_block_size = get_u32(b, p1 + 12) as u64;
        pos = pos + 16;
        let vertex_blob = match cursor_bytes(b, &mut pos, vertex_block_size) {
            Ok(v) => v,
            Err(e) => {
                return Err(e);
            },
        };
        let index_blob = match cursor_bytes(b, &mut pos, triangles_block_size) {
            Ok(v) => v,
            Err(e) => {
                return Err(e);
            },
        };
        let def_count = match cursor_u32(b, &mut pos) {
            Ok(v) => v,
            Err(e) => {
                return Err(e);
            },
        };
        let defs = match read_defs(b, &mut pos, def_count) {
            Ok(d) => d,
            Err(e) => {
                return Err(e);
            },
        };
        let listed_surfaces = match cursor_u32(b, &mut pos) {
            Ok(v) => v,
            Err(e) => {
                return Err(e);
            },
        };
        let raws = match read_surface_records(b, &mut pos, listed_surfaces) {
            Ok(v) => v,
            Err(e) => {
                return Err(e);
            },
        };
        let materials = read_materials(b, &mut pos, material_count);
        match assemble_surfaces(vertex_blob.as_slice(), index_blob.as_slice(), &defs, &raws, &materials) {
            Ok(surfaces) => Ok(WorldRender { header, surfaces }),
            Err(e) => Err(e),
        }
    }
}
/// The 32-bit FNV-style hash of a material name's bytes that picks its debug colour:
/// start at 2166136261, then for each byte multiply by 16777619 (wrapping) and XOR it in.
pub open spec fn name_hash(b: Seq<u8>) -> u32
    decreases b.len(),
{
    if b.len() == 0 {
        2166136261
    } else {
        (((name_hash(b.drop_last()) as nat * 16777619) % 0x1_0000_0000) as u32) ^ (b.last() as u32)
    }
}

/// The hash of a material name that its debug colour is made from.
pub fn material_hash(name: &str) -> (r: u32)
    ensures
        r == name_hash(name.spec_bytes()),
{
    let b = name.as_bytes();
    let mut h: u32 = 2166136261;
    let mut i: usize = 0;
    while i < b.len()
        invariant
            i <= b@.len(),
            h == name_hash(b@.take(i as int)),
        decreases b@.len() - i,
    {
        assert(b@.take(i + 1).drop_last() == b@.take(i as int));
        h = h.wrapping_mul(16777619) ^ (b[i] as u32);
        i += 1;
    }
    assert(b@.take(b@.len() as int) == b@);
    h
}

/// One draw of a flattened world: a run of indices and the material it uses.
#[derive(Debug)]
pub struct SurfaceDraw {
    pub first_index: u32,
    pub index_count: u32,
    /// `material_hash` of the material, from which the debug colour is made.
    pub color_hash: u32,
    pub material: String,
}

/// The vertices of the first `n` surfaces, one after another.
pub open spec fn flat_verts(ss: Seq<SurfaceView>, n: nat) -> Seq<VertexView>
    decreases n,
{
    if n == 0 {
        Seq::empty()
    } else {
        flat_verts(ss, (n - 1) as nat) + ss[n - 1].vertices
    }
}

/// The indices of the first `n` surfaces, each moved past the vertices before its surface.
pub open spec fn flat_idx(ss: Seq<SurfaceView>, n: nat) -> Seq<u32>
    decreases n,
{
    if n == 0 {
        Seq::empty()
    } else {
        flat_idx(ss, (n - 1) as nat) + ss[n - 1].indices.map_values(
            |i: u32| (i + flat_verts(ss, (n - 1) as nat).len()) as u32,
        )
    }
}

/// The flattened world fits 32-bit vertex and index numbers.
pub open spec fn flatten_fits(ss: Seq<SurfaceView>) -> bool {
    &&& flat_verts(ss, ss.len()).len() <= u32::MAX
    &&& flat_idx(ss, ss.len()).len() <= u32::MAX
    &&& forall|k: int, i: int|
        0 <= k < ss.len() && 0 <= i < ss[k].indices.len() ==> flat_verts(ss, k as nat).len()
            + #[trigger] ss[k].indices[i] <= u32::MAX
}

proof fn lemma_flat_monotone(ss: Seq<SurfaceView>, k: nat, n: nat)
    requires
        k <= n,
    ensures
        flat_verts(ss, k).len() <= flat_verts(ss, n).len(),
        flat_idx(ss, k).len() <= flat_idx(ss, n).len(),
    decreases n - k,
{
    if n > k {
        lemma_flat_monotone(ss, k, (n - 1) as nat);
    }
}

impl WorldRender {
    /// Whether `flatten` can number this world's vertices and indices in 32 bits.
    pub fn flatten_fits_u32(&self) -> (r: bool)
        ensures
            r == flatten_fits(surface_views(self.surfaces@)),
    {
        let ghost ss = surface_views(self.surfaces@);
        let max: u64 = 0xFFFF_FFFF;
        let mut verts: u64 = 0;
        let mut idx: u64 = 0;
        let mut k: usize = 0;
        while k < self.surfaces.len()
            invariant
                k <= self.surfaces@.len(),
                ss == surface_views(self.surfaces@),
                max == u32::MAX,
                verts == flat_verts(ss, k as nat).len(),
                idx == flat_idx(ss, k as nat).len(),
                verts <= max,
                idx <= max,
                forall|k2: int, i: int|
                    0 <= k2 < k && 0 <= i < ss[k2].indices.len() ==> flat_verts(ss, k2 as nat).len()
                        + #[trigger] ss[k2].indices[i] <= u32::MAX,
            decreases self.surfaces@.len() - k,
        {
            let s = &self.surfaces[k];
            assert(ss[k as int] == s@);
            let mut i: usize = 0;
            while i < s.indices.len()
                invariant
                    i <= s.indices@.len(),
                    ss == surface_views(self.surfaces@),
                    ss[k as int] == s@,
                    k < ss.len(),
                    max == u32::MAX,
                    verts == flat_verts(ss, k as nat).len(),
                    verts <= max,
                    forall|i2: int| 0 <= i2 < i ==> verts + #[trigger] s.indices@[i2] <= u32::MAX,
                decreases s.indices@.len() - i,
            {
                if s.indices[i] as u64 > max - verts {
                    proof {
                        assert(ss[k as int].indices[i as int] == s.indices@[i as int]);
                        assert(flat_verts(ss, k as nat).len() + ss[k as int].indices[i as int] > u32::MAX);
                        assert(!flatten_fits(ss));
                    }
                    return false;
                }
                i += 1;
            }
            let nv = s.vertices.len() as u64;
            let ni = s.indices.len() as u64;
            proof {
                assert(flat_verts(ss, (k + 1) as nat).len() == verts + nv);
                lemma_flat_monotone(ss, (k + 1) as nat, ss.len());
                assert(flat_idx(ss, (k + 1) as nat).len() == idx + ni);
            }
            if nv > max - verts || ni > max - idx {
                return false;
            }
            verts = verts + nv;
            idx = idx + ni;
            proof {
                assert forall|k2: int, i2: int|
                    0 <= k2 < k + 1 && 0 <= i2 < ss[k2].indices.len() implies flat_verts(ss, k2 as nat).len()
                        + #[trigger] ss[k2].indices[i2] <= u32::MAX by {
                    if k2 == k {
                        assert(ss[k2].indices[i2] == s.indices@[i2]);
                    }
                }
            }
            k += 1;
        }
        assert(ss.len() == self.surfaces@.len());
        true
    }
}

impl WorldRender {
    /// One vertex buffer, one index buffer and one draw per surface.
    pub fn flatten(&self) -> (r: (Vec<WorldVertex>, Vec<u32>, Vec<SurfaceDraw>))
        requires
            flatten_fits(surface_views(self.surfaces@)),
        ensures
            vertex_views(r.0@) == flat_verts(surface_views(self.surfaces@), self.surfaces@.len()),
            r.1@ == flat_idx(surface_views(self.surfaces@), self.surfaces@.len()),
            r.2@.len() == self.surfaces@.len(),
            forall|k: int|
                0 <= k < self.surfaces@.len() ==> {
                    let d = #[trigger] r.2@[k];
                    &&& d.first_index == flat_idx(surface_views(self.surfaces@), k as nat).len()
                    &&& d.index_count == self.surfaces@[k].indices@.len()
                    &&& d.material@ == self.surfaces@[k].material@
                    &&& d.color_hash == name_hash(vstd::utf8::encode_utf8(self.surfaces@[k].material@))
                },
    {
        let ghost ss = surface_views(self.surfaces@);
        let mut vertices: Vec<WorldVertex> = Vec::new();
        let mut indices: Vec<u32> = Vec::new();
        let mut draws: Vec<SurfaceDraw> = Vec::new();
        let mut k: usize = 0;
        assert(vertex_views(vertices@) =~= Seq::<VertexView>::empty());
        while k < self.surfaces.len()
            invariant
                k <= self.surfaces@.len(),
                ss == surface_views(self.surfaces@),
                flatten_fits(ss),
                vertex_views(vertices@) == flat_verts(ss, k as nat),
                indices@ == flat_idx(ss, k as nat),
                draws@.len() == k,
                forall|j: int|
                    0 <= j < k ==> {
                        let d = #[trigger] draws@[j];
                        &&& d.first_index == flat_idx(ss, j as nat).len()
                        &&& d.index_count == self.surfaces@[j].indices@.len()
                        &&& d.material@ == self.surfaces@[j].material@
                        &&& d.color_hash == name_hash(
                            vstd::utf8::encode_utf8(self.surfaces@[j].material@),
                        )
                    },
            decreases self.surfaces@.len() - k,
        {
            let s = &self.surfaces[k];
            proof {
                lemma_flat_monotone(ss, k as nat, ss.len());
                lemma_flat_monotone(ss, (k + 1) as nat, ss.len());
                assert(ss[k as int] == s@);
            }
            let base = vertices.len() as u32;
            let first_index = indices.len() as u32;
            let ghost v0 = vertex_views(vertices@);
            let mut i: usize = 0;
            while i < s.vertices.len()
                invariant
                    i <= s.vertices@.len(),
                    vertex_views(vertices@) == v0 + vertex_views(s.vertices@).take(i as int),
                decreases s.vertices@.len() - i,
            {
                let v = s.vertices[i];
                proof {
                    assert(vertex_views(vertices@.push(v)) =~= vertex_views(vertices@).push(v@));
                    assert(vertex_views(s.vertices@).take(i + 1) =~= vertex_views(s.vertices@).take(
                        i as int,
                    ).push(v@));
                }
                vertices.push(v);
                i += 1;
            }
            assert(vertex_views(s.vertices@).take(s.vertices@.len() as int) == vertex_views(
                s.vertices@,
            ));
            let ghost i0 = indices@;
            let mut j: usize = 0;
            while j < s.indices.len()
                invariant
                    j <= s.indices@.len(),
                    k < ss.len(),
                    ss[k as int] == s@,
                    flatten_fits(ss),
                    base == flat_verts(ss, k as nat).len(),
                    indices@ == i0 + s.indices@.take(j as int).map_values(
                        |x: u32| (x + flat_verts(ss, k as nat).len()) as u32,
                    ),
                decreases s.indices@.len() - j,
            {
                let x = s.indices[j];
                assert(flat_verts(ss, k as nat).len() + ss[k as int].indices[j as int] <= u32::MAX);
                indices.push(x + base);
                assert(s.indices@.take(j + 1).map_values(
                    |x: u32| (x + flat_verts(ss, k as nat).len()) as u32,
                ) =~= s.indices@.take(j as int).map_values(
                    |x: u32| (x + flat_verts(ss, k as nat).len()) as u32,
                ).push((x + base) as u32));
                j += 1;
            }
            assert(s.indices@.take(s.indices@.len() as int) == s.indices@);
            let d = SurfaceDraw {
                first_index,
                index_count: s.indices.len() as u32,
                color_hash: material_hash(s.material.as_str()),
                material: s.material.clone(),
            };
            draws.push(d);
            k += 1;
        }
        (vertices, indices, draws)
    }
}


/// Decoding a count twice gives it back: the world magic is an XOR.
pub proof fn law_decode_count_involution(raw: u32)
    ensures
        (raw ^ FEAR_WORLD_MAGIC) ^ FEAR_WORLD_MAGIC == raw,
{
    assert((raw ^ 399u32) ^ 399u32 == raw) by (bit_vector);
}

/// Consecutive draws of a flattened world tile its index buffer: each starts where the
/// one before it ends.
pub proof fn law_draws_tile_indices(ss: Seq<SurfaceView>, k: nat)
    requires
        k < ss.len(),
    ensures
        flat_idx(ss, k + 1).len() == flat_idx(ss, k).len() + ss[k as int].indices.len(),
        flat_verts(ss, k + 1).len() == flat_verts(ss, k).len() + ss[k as int].vertices.len(),
{
}

/// Where every surface's indices point at its own vertices, every index of the flattened
/// buffer points at a vertex of the flattened vertex buffer, within the fit limits.
pub proof fn law_flatten_indices_in_range(ss: Seq<SurfaceView>, n: nat)
    requires
        n <= ss.len(),
        flatten_fits(ss),
        forall|k: int, i: int|
            0 <= k < ss.len() && 0 <= i < ss[k].indices.len() ==> #[trigger] ss[k].indices[i]
                < ss[k].vertices.len(),
    ensures
        forall|i: int| 0 <= i < flat_idx(ss, n).len() ==> #[trigger] flat_idx(ss, n)[i] < flat_verts(ss, n).len(),
    decreases n,
{
    if n > 0 {
        let m = (n - 1) as nat;
        law_flatten_indices_in_range(ss, m);
        let base = flat_verts(ss, m).len();
        let prev = flat_idx(ss, m);
        let cur = ss[m as int].indices.map_values(|i: u32| (i + base) as u32);
        assert(flat_idx(ss, n) == prev + cur);
        assert forall|i: int| 0 <= i < flat_idx(ss, n).len() implies #[trigger] flat_idx(ss, n)[i] < flat_verts(ss, n).len() by {
            if i < prev.len() {
                assert(flat_idx(ss, n)[i] == prev[i]);
            } else {
                let j = i - prev.len();
                assert(flat_idx(ss, n)[i] == cur[j]);
                assert(base + ss[m as int].indices[j] <= u32::MAX);
            }
        }
    }
}


proof fn lemma_tris_in_range(blob: Seq<u8>, raw: RawSurface, vc: int, n: nat)
    requires
        surface_tris(blob, raw, vc, n) is Ok,
    ensures
        forall|i: int|
            0 <= i < surface_tris(blob, raw, vc, n)->Ok_0.len() ==> #[trigger] surface_tris(
                blob,
                raw,
                vc,
                n,
            )->Ok_0[i] < vc,
    decreases n,
{
    if n > 0 {
        lemma_tris_in_range(blob, raw, vc, (n - 1) as nat);
        let prev = surface_tris(blob, raw, vc, (n - 1) as nat)->Ok_0;
        let all = surface_tris(blob, raw, vc, n)->Ok_0;
        assert forall|i: int| 0 <= i < all.len() implies #[trigger] all[i] < vc by {
            if i < prev.len() {
                assert(all[i] == prev[i]);
            }
        }
    }
}

proof fn lemma_assemble_in_range(
    vblob: Seq<u8>,
    iblob: Seq<u8>,
    defs: Seq<Seq<VertexProp>>,
    raws: Seq<RawSurface>,
    mats: Seq<Seq<char>>,
    n: nat,
)
    requires
        n <= raws.len(),
        assemble(vblob, iblob, defs, raws, mats, n) is Ok,
    ensures
        ({
            let ss = assemble(vblob, iblob, defs, raws, mats, n)->Ok_0;
            forall|k: int, i: int|
                0 <= k < ss.len() && 0 <= i < ss[k].indices.len() ==> #[trigger] ss[k].indices[i]
                    < ss[k].vertices.len()
        }),
    decreases n,
{
    if n > 0 {
        lemma_assemble_in_range(vblob, iblob, defs, raws, mats, (n - 1) as nat);
        let raw = raws[n - 1];
        let name = material_of(mats, raw.material_id);
        if !contains(lower_seq(name), "shadowvolume"@) && raw.pack_type_id < defs.len() {
            match surface_verts(vblob, raw, defs[raw.pack_type_id as int], raw.vertices_count as nat) {
                Ok(vs) => match surface_tris(iblob, raw, vs.len() as int, raw.triangle_count as nat) {
                    Ok(is) => {
                        lemma_tris_in_range(iblob, raw, vs.len() as int, raw.triangle_count as nat);
                    },
                    Err(_) => {},
                },
                Err(_) => {},
            }
        }
    }
}

/// Every surface that parsing a world yields indexes its own vertices only, so the
/// flattened world's indices are all in range (see `law_flatten_indices_in_range`).
pub proof fn law_parsed_surfaces_index_own_vertices(b: Seq<u8>)
    requires
        render_surfaces(b) is Ok,
    ensures
        ({
            let ss = render_surfaces(b)->Ok_0;
            forall|k: int, i: int|
                0 <= k < ss.len() && 0 <= i < ss[k].indices.len() ==> #[trigger] ss[k].indices[i]
                    < ss[k].vertices.len()
        }),
{
    let p0 = le_u32(b, 4) as int;
    let p1 = cur_u32(b, p0 + 40)->Ok_0.1;
    let mc = le_u32(b, p1 + 4);
    let vbs = le_u32(b, p1 + 8) as int;
    let tbs = le_u32(b, p1 + 12) as int;
    let (vblob, p3) = cur_bytes(b, p1 + 16, vbs)->Ok_0;
    let (iblob, p4) = cur_bytes(b, p3, tbs)->Ok_0;
    let (dc, p5) = cur_u32(b, p4)->Ok_0;
    let (defs, p6) = defs_at(b, p5, dc as nat)->Ok_0;
    let (sc, p7) = cur_u32(b, p6)->Ok_0;
    let (raws, p8) = surface_recs_at(b, p7, sc as nat)->Ok_0;
    lemma_assemble_in_range(vblob, iblob, defs, raws, materials_at(b, p8, mc as nat).0, raws.len());
}

/// The stored index that a surface's `k`-th triangle index comes from: triangles are three
/// little-endian 16-bit words each, from word `indices_start` on, and each is taken first
/// word, third word, second word.
pub open spec fn stored_index(blob: Seq<u8>, raw: RawSurface, k: int) -> int {
    let word: int = if k % 3 == 0 {
        0
    } else if k % 3 == 1 {
        2
    } else {
        1
    };
    le_u16(blob, raw.indices_start as int * 2 + (k / 3) * 6 + word * 2) as int
}

proof fn lemma_shift_unique(raw: RawSurface, s: int)
    requires
        -0x8000_0000 <= s < 0x8000_0000,
        (raw.vertices_start as int - raw.indices_base as int - s) % 0x1_0000_0000 == 0,
    ensures
        index_shift(raw) == s,
{
    let d: int = raw.vertices_start as int - raw.indices_base as int;
    let q: int = (d - s) / 0x1_0000_0000;
    assert(d - s == 0x1_0000_0000 * q + (d - s) % 0x1_0000_0000) by {
        vstd::arithmetic::div_mod::lemma_fundamental_div_mod(d - s, 0x1_0000_0000);
    }
    assert(-2 <= q <= 1) by (nonlinear_arith)
        requires
            d - s == 0x1_0000_0000 * q,
            -0x1_0000_0000 < d < 0x1_0000_0000,
            -0x8000_0000 <= s < 0x8000_0000,
    ;
}

/// A surface's triangle indices are its stored indices moved by the shift `s`, which is
/// `vertices_start - indices_base` taken modulo 2^32 as a signed 32-bit number: a stored
/// index `v` becomes `v - s`. The `n` triangles are read exactly when their words are all
/// there and every moved index names one of the surface's `vc` vertices; then there are
/// three indices a triangle, with each triangle's winding flipped.
pub proof fn law_surface_index_shift(blob: Seq<u8>, raw: RawSurface, vc: int, n: nat, s: int)
    requires
        -0x8000_0000 <= s < 0x8000_0000,
        (raw.vertices_start as int - raw.indices_base as int - s) % 0x1_0000_0000 == 0,
    ensures
        surface_tris(blob, raw, vc, n) is Ok <==> ((n == 0 || raw.indices_start as int * 2 + 6 * n
            <= blob.len()) && forall|k: int|
            0 <= k < 3 * n ==> 0 <= #[trigger] stored_index(blob, raw, k) - s < vc),
        surface_tris(blob, raw, vc, n) matches Ok(v) ==> v.len() == 3 * n && forall|k: int|
            0 <= k < 3 * n ==> v[k] == #[trigger] stored_index(blob, raw, k) - s,
    decreases n,
{
    lemma_shift_unique(raw, s);
    if n > 0 {
        let m: int = n - 1;
        law_surface_index_shift(blob, raw, vc, m as nat, s);
        let base: int = raw.indices_start as int * 2 + m * 6;
        assert((3 * m) / 3 == m && (3 * m) % 3 == 0);
        assert((3 * m + 1) / 3 == m && (3 * m + 1) % 3 == 1);
        assert((3 * m + 2) / 3 == m && (3 * m + 2) % 3 == 2);
        assert(stored_index(blob, raw, 3 * m) == le_u16(blob, base));
        assert(stored_index(blob, raw, 3 * m + 1) == le_u16(blob, base + 4));
        assert(stored_index(blob, raw, 3 * m + 2) == le_u16(blob, base + 2));
        match surface_tris(blob, raw, vc, m as nat) {
            Ok(out) => {
                if let Ok(v) = surface_tris(blob, raw, vc, n) {
                    assert(v == out + seq![
                        (le_u16(blob, base) - s) as u32,
                        (le_u16(blob, base + 4) - s) as u32,
                        (le_u16(blob, base + 2) - s) as u32,
                    ]);
                    assert forall|k: int| 0 <= k < 3 * n implies v[k] == #[trigger] stored_index(
                        blob,
                        raw,
                        k,
                    ) - s by {
                        if k >= 3 * m {
                            assert(k == 3 * m || k == 3 * m + 1 || k == 3 * m + 2);
                        }
                    }
                }
                if !(surface_tris(blob, raw, vc, n) is Ok) && base + 6 <= blob.len() {
                    assert(!(0 <= stored_index(blob, raw, 3 * m) - s < vc && 0 <= stored_index(
                        blob,
                        raw,
                        3 * m + 1,
                    ) - s < vc && 0 <= stored_index(blob, raw, 3 * m + 2) - s < vc));
                }
            },
            Err(_) => {
                if m > 0 && raw.indices_start as int * 2 + 6 * m <= blob.len() {
                    let k = choose|k: int|
                        0 <= k < 3 * m && !(0 <= #[trigger] stored_index(blob, raw, k) - s < vc);
                    assert(0 <= k < 3 * n);
                }
            },
        }
    }
}

proof fn lemma_fold_without_position(b: Seq<u8>, def: Seq<VertexProp>, n: nat)
    requires
        n <= def.len(),
        forall|i: int| 0 <= i < def.len() ==> !((#[trigger] def[i]).location == 0 && def[i].format == 2),
    ensures
        vertex_fold(b, def, n) matches Ok((_, have)) ==> !have,
    decreases n,
{
    if n > 0 {
        lemma_fold_without_position(b, def, (n - 1) as nat);
        assert(!(def[n - 1].location == 0 && def[n - 1].format == 2));
    }
}

/// A vertex needs a position: a pack type with no three-float attribute at location 0
/// decodes no vertex, whatever the bytes.
pub proof fn law_vertex_needs_position(b: Seq<u8>, def: Seq<VertexProp>)
    requires
        forall|i: int| 0 <= i < def.len() ==> !((#[trigger] def[i]).location == 0 && def[i].format == 2),
    ensures
        vertex_of(b, def) is Err,
{
    lemma_fold_without_position(b, def, def.len());
}

/// A pack type of one three-float position attribute at byte `o` decodes the three
/// little-endian words at `o`, `o + 4` and `o + 8` as the position, with normal +Y, no
/// texture coordinates, tangent +X and binormal -Z.
pub proof fn law_position_only_vertex(b: Seq<u8>, p: VertexProp)
    requires
        p.location == 0,
        p.format == 2,
        p.id == 0,
        p.offset + 12 <= b.len(),
    ensures
        vertex_of(b, seq![p]) == Ok::<VertexView, AssetError>(
            VertexView {
                position: seq![le_u32(b, p.offset as int), le_u32(b, p.offset + 4), le_u32(b, p.offset + 8)],
                normal: seq![0u32, 0x3F80_0000u32, 0u32],
                uv: seq![0u32, 0u32],
                tangent: seq![0x3F80_0000u32, 0u32, 0u32],
                binormal: seq![0u32, 0u32, 0xBF80_0000u32],
            },
        ),
{
    assert(seq![p][0] == p);
    assert(vertex_fold(b, seq![p], 0) == Ok::<(VertexView, bool), AssetError>((vertex_default(), false)));
}

} // verus!
