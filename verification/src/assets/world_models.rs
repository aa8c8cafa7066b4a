//! World-model / PhysicsBSP section of a packed World00p (starts at byte 56).
//!
//! Points are kept as the bit patterns of their `f32` coordinates.
use vstd::prelude::*;

use super::bytes::{cstring_at, get_u16, get_u32, le_u16, le_u32, read_cstring};
use super::error::AssetError;
use super::world00p::{cur_bytes, cur_u32, cursor_bytes, cursor_u32, FEAR_WORLD_MAGIC};
use crate::text::{eq_ignore_ascii_case, lower_seq};

verus! {

/// The bit patterns of the three `f32` coordinates of a point.
#[derive(Debug, Clone, Copy, PartialEq, Eq, Structural)]
pub struct Vec3Bits {
    pub x: u32,
    pub y: u32,
    pub z: u32,
}

pub open spec fn v3_at(b: Seq<u8>, p: int) -> Vec3Bits {
    Vec3Bits { x: le_u32(b, p), y: le_u32(b, p + 4), z: le_u32(b, p + 8) }
}

/// `n` words from cursor position `p`.
pub open spec fn u32s_at(b: Seq<u8>, p: int, n: int) -> Result<(Seq<u32>, int), AssetError> {
    if 0 <= p && p + 4 * n <= b.len() {
        Ok((Seq::new(n as nat, |i: int| le_u32(b, p + 4 * i)), p + 4 * n))
    } else if n == 0 {
        Ok((Seq::empty(), p))
    } else {
        Err(AssetError::UnexpectedEof)
    }
}

/// `n` points from cursor position `p`.
pub open spec fn v3s_at(b: Seq<u8>, p: int, n: int) -> Result<(Seq<Vec3Bits>, int), AssetError> {
    if 0 <= p && p + 12 * n <= b.len() {
        Ok((Seq::new(n as nat, |i: int| v3_at(b, p + 12 * i)), p + 12 * n))
    } else if n == 0 {
        Ok((Seq::empty(), p))
    } else {
        Err(AssetError::UnexpectedEof)
    }
}

#[derive(Debug)]
pub struct BspPoly {
    pub flags: u16,
    pub plane_id: u32,
    pub verts: Vec<u32>,
}

pub ghost struct BspPolyView {
    pub flags: u16,
    pub plane_id: u32,
    pub verts: Seq<u32>,
}

impl View for BspPoly {
    type V = BspPolyView;

    open spec fn view(&self) -> BspPolyView {
        BspPolyView { flags: self.flags, plane_id: self.plane_id, verts: self.verts@ }
    }
}

#[derive(Debug)]
pub struct WorldBsp {
    pub names: Vec<String>,
    pub center: Vec3Bits,
    pub half_extents: Vec3Bits,
    pub points: Vec<Vec3Bits>,
    pub polygons: Vec<BspPoly>,
}

pub ghost struct BspView {
    pub names: Seq<Seq<char>>,
    pub center: Vec3Bits,
    pub half_extents: Vec3Bits,
    pub points: Seq<Vec3Bits>,
    pub polygons: Seq<BspPolyView>,
}

pub open spec fn poly_views(v: Seq<BspPoly>) -> Seq<BspPolyView> {
    v.map_values(|p: BspPoly| p@)
}

pub open spec fn name_views(v: Seq<String>) -> Seq<Seq<char>> {
    v.map_values(|s: String| s@)
}

impl View for WorldBsp {
    type V = BspView;

    open spec fn view(&self) -> BspView {
        BspView {
            names: name_views(self.names@),
            center: self.center,
            half_extents: self.half_extents,
            points: self.points@,
            polygons: poly_views(self.polygons@),
        }
    }
}

pub open spec fn bsp_views(v: Seq<WorldBsp>) -> Seq<BspView> {
    v.map_values(|m: WorldBsp| m@)
}

#[derive(Debug)]
pub struct WorldModels {
    pub min: Vec3Bits,
    pub max: Vec3Bits,
    pub planes: Vec<Vec3Bits>,
    pub models: Vec<WorldBsp>,
    pub blockers: Vec<(Vec3Bits, Vec3Bits, Vec3Bits)>,
}

pub ghost struct ModelsView {
    pub min: Vec3Bits,
    pub max: Vec3Bits,
    pub planes: Seq<Vec3Bits>,
    pub models: Seq<BspView>,
    pub blockers: Seq<(Vec3Bits, Vec3Bits, Vec3Bits)>,
}

impl View for WorldModels {
    type V = ModelsView;

    open spec fn view(&self) -> ModelsView {
        ModelsView {
            min: self.min,
            max: self.max,
            planes: self.planes@,
            models: bsp_views(self.models@),
            blockers: self.blockers@,
        }
    }
}

/// One polygon record at `q`: two skipped bytes, flags, plane id, distance, then `count`
/// point indices.
pub open spec fn poly_at(b: Seq<u8>, q: int, count: u8) -> Result<(BspPolyView, int), AssetError> {
    if !(0 <= q && q + 12 <= b.len()) {
        Err(AssetError::UnexpectedEof)
    } else {
        match u32s_at(b, q + 12, count as int) {
            Err(e) => Err(e),
            Ok((vs, q2)) => Ok(
                (BspPolyView { flags: le_u16(b, q + 2), plane_id: le_u32(b, q + 4), verts: vs }, q2),
            ),
        }
    }
}

/// The first `n` polygons from `p` on, with point counts `counts`.
pub open spec fn polys_at(b: Seq<u8>, p: int, counts: Seq<u8>, n: nat) -> Result<(Seq<BspPolyView>, int), AssetError>
    decreases n,
{
    if n == 0 {
        Ok((Seq::empty(), p))
    } else {
        match polys_at(b, p, counts, (n - 1) as nat) {
            Err(e) => Err(e),
            Ok((ps, q)) => match poly_at(b, q, counts[n - 1]) {
                Err(e) => Err(e),
                Ok((poly, q2)) => Ok((ps.push(poly), q2)),
            },
        }
    }
}

/// One BSP at `p`: id, point, polygon, unknown and node counts, half extents, centre, a
/// zero word, one point count per polygon, the polygons, 12 bytes per node (skipped) and
/// the points. Its names come from the name index.
pub open spec fn bsp_at(b: Seq<u8>, p: int) -> Result<(BspView, int), AssetError> {
    if !(0 <= p && p + 48 <= b.len()) {
        Err(AssetError::UnexpectedEof)
    } else {
        let point_count = le_u32(b, p + 4) as int;
        let polygon_count = le_u32(b, p + 8) as int;
        let node_count = le_u32(b, p + 16) as int;
        match cur_bytes(b, p + 48, polygon_count) {
            Err(e) => Err(e),
            Ok((counts, q)) => match polys_at(b, q, counts, counts.len()) {
                Err(e) => Err(e),
                Ok((polys, q2)) => match v3s_at(b, q2 + node_count * 12, point_count) {
                    Err(e) => Err(e),
                    Ok((pts, q3)) => Ok(
                        (
                            BspView {
                                names: Seq::empty(),
                                center: v3_at(b, p + 32),
                                half_extents: v3_at(b, p + 20),
                                points: pts,
                                polygons: polys,
                            },
                            q3,
                        ),
                    ),
                },
            },
        }
    }
}

/// The first `n` BSPs from `p` on.
pub open spec fn bsps_at(b: Seq<u8>, p: int, n: nat) -> Result<(Seq<BspView>, int), AssetError>
    decreases n,
{
    if n == 0 {
        Ok((Seq::empty(), p))
    } else {
        match bsps_at(b, p, (n - 1) as nat) {
            Err(e) => Err(e),
            Ok((bs, q)) => match bsp_at(b, q) {
                Err(e) => Err(e),
                Ok((bsp, q2)) => Ok((bs.push(bsp), q2)),
            },
        }
    }
}

/// `n` (name offset, BSP index) pairs from `p` on.
pub open spec fn pairs_at(b: Seq<u8>, p: int, n: int) -> Result<(Seq<(u32, u32)>, int), AssetError> {
    if 0 <= p && p + 8 * n <= b.len() {
        Ok((Seq::new(n as nat, |i: int| (le_u32(b, p + 8 * i), le_u32(b, p + 8 * i + 4))), p + 8 * n))
    } else if n == 0 {
        Ok((Seq::empty(), p))
    } else {
        Err(AssetError::UnexpectedEof)
    }
}

/// A BSP name at `off` of the name blob.
pub open spec fn bsp_name(blob: Seq<u8>, off: int) -> Result<Seq<char>, AssetError> {
    if off >= blob.len() {
        Err(AssetError::Truncated("bsp name"))
    } else {
        cstring_at(blob, off)
    }
}

/// The names of each of `count` BSPs after the first `n` index entries; entries naming a
/// BSP that does not exist are ignored.
pub open spec fn names_for(blob: Seq<u8>, index: Seq<(u32, u32)>, count: int, n: nat) -> Result<Seq<Seq<Seq<char>>>, AssetError>
    decreases n,
{
    if n == 0 {
        Ok(Seq::new(count as nat, |i: int| Seq::<Seq<char>>::empty()))
    } else {
        match names_for(blob, index, count, (n - 1) as nat) {
            Err(e) => Err(e),
            Ok(names) => {
                let (off, bi) = index[n - 1];
                if bi >= count {
                    Ok(names)
                } else {
                    match bsp_name(blob, off as int) {
                        Err(e) => Err(e),
                        Ok(name) => Ok(names.update(bi as int, names[bi as int].push(name))),
                    }
                }
            },
        }
    }
}

/// The fan of a convex polygon: (v0, v_k, v_k+1) for each k from 1.
pub open spec fn fan_of(vs: Seq<Vec3Bits>) -> Seq<(Vec3Bits, Vec3Bits, Vec3Bits)> {
    if vs.len() < 3 {
        Seq::empty()
    } else {
        Seq::new((vs.len() - 2) as nat, |k: int| (vs[0], vs[k + 1], vs[k + 2]))
    }
}

/// The blocker polygons after the first `n`, each a normal, a distance, a point count (at
/// most 256) and the points.
pub open spec fn blocker_polys(b: Seq<u8>, p: int, n: nat) -> Result<(Seq<(Vec3Bits, Vec3Bits, Vec3Bits)>, int), AssetError>
    decreases n,
{
    if n == 0 {
        Ok((Seq::empty(), p))
    } else {
        match blocker_polys(b, p, (n - 1) as nat) {
            Err(e) => Err(e),
            Ok((tris, q)) => if !(0 <= q && q + 16 <= b.len()) {
                Err(AssetError::UnexpectedEof)
            } else {
                match cur_u32(b, q + 16) {
                    Err(e) => Err(e),
                    Ok((nv, q2)) => if nv > 256 {
                        Err(AssetError::Truncated("blocker verts"))
                    } else {
                        match v3s_at(b, q2, nv as int) {
                            Err(e) => Err(e),
                            Ok((vs, q3)) => Ok((tris + fan_of(vs), q3)),
                        }
                    },
                }
            },
        }
    }
}

/// The world-space blockers at `p`: a polygon count (at most 10000), an unknown word and
/// the polygons, fanned into triangles.
pub open spec fn blockers_at(b: Seq<u8>, p: int) -> Result<Seq<(Vec3Bits, Vec3Bits, Vec3Bits)>, AssetError> {
    match cur_u32(b, p) {
        Err(e) => Err(e),
        Ok((pc, p1)) => match cur_u32(b, p1) {
            Err(e) => Err(e),
            Ok((_, p2)) => if pc > 10_000 {
                Err(AssetError::Truncated("blocker count"))
            } else {
                match blocker_polys(b, p2, pc as nat) {
                    Err(e) => Err(e),
                    Ok((tris, _)) => Ok(tris),
                }
            },
        },
    }
}

/// The BSP with its names filled in.
pub open spec fn named(bsp: BspView, names: Seq<Seq<char>>) -> BspView {
    BspView { names: names, ..bsp }
}

/// The world-model section: bounds, a flag bitmap, eight counts XORed with the world magic
/// (names, name bytes, planes, BSPs, ...), the name blob and index, the planes, the BSPs,
/// and the blockers (none when they do not read).
pub open spec fn models_of(b: Seq<u8>) -> Result<ModelsView, AssetError> {
    if b.len() < 56 {
        Err(AssetError::Truncated("World00p header"))
    } else if b.len() < 88 {
        Err(AssetError::UnexpectedEof)
    } else {
        let count = le_u32(b, 80) as int;
        match cur_bytes(b, 88, (count + 7) / 8) {
            Err(e) => Err(e),
            Ok((_, q)) => if q + 32 > b.len() {
                Err(AssetError::UnexpectedEof)
            } else {
                let name_count = (le_u32(b, q) ^ FEAR_WORLD_MAGIC) as int;
                let names_len = (le_u32(b, q + 4) ^ FEAR_WORLD_MAGIC) as int;
                let plane_count = (le_u32(b, q + 8) ^ FEAR_WORLD_MAGIC) as int;
                let bsp_count = (le_u32(b, q + 12) ^ FEAR_WORLD_MAGIC) as int;
                match cur_bytes(b, q + 32, names_len) {
                    Err(e) => Err(e),
                    Ok((blob, q2)) => match pairs_at(b, q2, name_count) {
                        Err(e) => Err(e),
                        Ok((index, q3)) => match names_for(blob, index, bsp_count, index.len()) {
                            Err(e) => Err(e),
                            Ok(names) => match v3s_at(b, q3, plane_count) {
                                Err(e) => Err(e),
                                Ok((planes, q4)) => match bsps_at(b, q4, bsp_count as nat) {
                                    Err(e) => Err(e),
                                    Ok((bsps, q5)) => Ok(
                                        ModelsView {
                                            min: v3_at(b, 56),
                                            max: v3_at(b, 68),
                                            planes: planes,
                                            models: Seq::new(
                                                bsp_count as nat,
                                                |i: int| named(bsps[i], names[i]),
                                            ),
                                            blockers: match blockers_at(b, q5) {
                                                Ok(t) => t,
                                                Err(_) => Seq::empty(),
                                            },
                                        },
                                    ),
                                },
                            },
                        },
                    },
                }
            },
        }
    }
}

fn cursor_u32s(b: &[u8], pos: &mut u64, n: u64) -> (r: Result<Vec<u32>, AssetError>)
    ensures
        match r {
            Ok(v) => u32s_at(b@, *old(pos) as int, n as int) == Ok::<(Seq<u32>, int), AssetError>(
                (v@, *final(pos) as int),
            ),
            Err(e) => u32s_at(b@, *old(pos) as int, n as int) == Err::<(Seq<u32>, int), AssetError>(e),
        },
{
    let len = b.len() as u64;
    if n == 0 {
        let v: Vec<u32> = Vec::new();
        assert(v@ =~= Seq::new(0, |k: int| le_u32(b@, *pos + 4 * k)));
        return Ok(v);
    }
    if *pos > len || (len - *pos) / 4 < n {
        proof {
            let p0 = *old(pos);
            if p0 <= len {
                assert(p0 + 4 * n > len) by (nonlinear_arith)
                    requires
                        (len - p0) / 4 < n,
                        p0 <= len,
                ;
            }
        }
        *pos = len;
        return Err(AssetError::UnexpectedEof);
    }
    assert(*pos + 4 * n <= len) by (nonlinear_arith)
        requires
            (len - *pos) / 4 >= n,
            *pos <= len,
    ;
    let start = *pos as usize;
    let bl = b.len();
    let nn = n as usize;
    let mut v: Vec<u32> = Vec::new();
    let mut i: usize = 0;
    while i < nn
        invariant
            i <= nn,
            nn == n,
            bl == b@.len(),
            start + 4 * nn <= bl,
            v@ == Seq::new(i as nat, |k: int| le_u32(b@, start + 4 * k)),
        decreases nn - i,
    {
        v.push(get_u32(b, start + 4 * i));
        assert(v@ =~= Seq::new((i + 1) as nat, |k: int| le_u32(b@, start + 4 * k)));
        i += 1;
    }
    *pos = *pos + 4 * n;
    Ok(v)
}

fn cursor_v3s(b: &[u8], pos: &mut u64, n: u64) -> (r: Result<Vec<Vec3Bits>, AssetError>)
    ensures
        match r {
            Ok(v) => v3s_at(b@, *old(pos) as int, n as int) == Ok::<(Seq<Vec3Bits>, int), AssetError>(
                (v@, *final(pos) as int),
            ),
            Err(e) => v3s_at(b@, *old(pos) as int, n as int) == Err::<(Seq<Vec3Bits>, int), AssetError>(
                e,
            ),
        },
{
    let len = b.len() as u64;
    if n == 0 {
        let v: Vec<Vec3Bits> = Vec::new();
        assert(v@ =~= Seq::new(0, |k: int| v3_at(b@, *pos + 12 * k)));
        return Ok(v);
    }
    if *pos > len || (len - *pos) / 12 < n {
        proof {
            let p0 = *old(pos);
            if p0 <= len {
                assert(p0 + 12 * n > len) by (nonlinear_arith)
                    requires
                        (len - p0) / 12 < n,
                        p0 <= len,
                ;
            }
        }
        *pos = len;
        return Err(AssetError::UnexpectedEof);
    }
    assert(*pos + 12 * n <= len) by (nonlinear_arith)
        requires
            (len - *pos) / 12 >= n,
            *pos <= len,
    ;
    let start = *pos as usize;
    let bl = b.len();
    let nn = n as usize;
    let mut v: Vec<Vec3Bits> = Vec::new();
    let mut i: usize = 0;
    while i < nn
        invariant
            i <= nn,
            nn == n,
            bl == b@.len(),
            start + 12 * nn <= bl,
            v@ == Seq::new(i as nat, |k: int| v3_at(b@, start + 12 * k)),
        decreases nn - i,
    {
        let o = start + 12 * i;
        v.push(Vec3Bits { x: get_u32(b, o), y: get_u32(b, o + 4), z: get_u32(b, o + 8) });
        assert(v@ =~= Seq::new((i + 1) as nat, |k: int| v3_at(b@, start + 12 * k)));
        i += 1;
    }
    *pos = *pos + 12 * n;
    Ok(v)
}

fn read_poly(b: &[u8], pos: &mut u64, count: u8) -> (r: Result<BspPoly, AssetError>)
    ensures
        match r {
            Ok(p) => poly_at(b@, *old(pos) as int, count) == Ok::<(BspPolyView, int), AssetError>(
                (p@, *final(pos) as int),
            ),
            Err(e) => poly_at(b@, *old(pos) as int, count) == Err::<(BspPolyView, int), AssetError>(e),
        },
{
    let len = b.len() as u64;
    if *pos > len || len - *pos < 12 {
        *pos = len;
        return Err(AssetError::UnexpectedEof);
    }
    let q = *pos as usize;
    let flags = get_u16(b, q + 2);
    let plane_id = get_u32(b, q + 4);
    *pos = *pos + 12;
    match cursor_u32s(b, pos, count as u64) {
        Ok(verts) => Ok(BspPoly { flags, plane_id, verts }),
        Err(e) => Err(e),
    }
}

proof fn lemma_polys_err(b: Seq<u8>, p: int, counts: Seq<u8>, k: nat, n: nat)
    requires
        k <= n,
        polys_at(b, p, counts, k) is Err,
    ensures
        polys_at(b, p, counts, n) == polys_at(b, p, counts, k),
    decreases n - k,
{
    if n > k {
        lemma_polys_err(b, p, counts, k, (n - 1) as nat);
    }
}

fn read_polys(b: &[u8], pos: &mut u64, counts: &Vec<u8>) -> (r: Result<Vec<BspPoly>, AssetError>)
    requires
        *old(pos) <= b@.len(),
    ensures
        match r {
            Ok(v) => polys_at(b@, *old(pos) as int, counts@, counts@.len()) == Ok::<
                (Seq<BspPolyView>, int),
                AssetError,
            >((poly_views(v@), *final(pos) as int)) && *final(pos) <= b@.len(),
            Err(e) => polys_at(b@, *old(pos) as int, counts@, counts@.len()) == Err::<
                (Seq<BspPolyView>, int),
                AssetError,
            >(e),
        },
{
    let ghost q = *pos as int;
    let mut polygons: Vec<BspPoly> = Vec::new();
    let mut k: usize = 0;
    assert(poly_views(polygons@) =~= Seq::<BspPolyView>::empty());
    while k < counts.len()
        invariant
            k <= counts@.len(),
            q == *old(pos) as int,
            *pos <= b@.len(),
            polys_at(b@, q, counts@, k as nat) == Ok::<(Seq<BspPolyView>, int), AssetError>(
                (poly_views(polygons@), *pos as int),
            ),
        decreases counts@.len() - k,
    {
        match read_poly(b, pos, counts[k]) {
            Ok(poly) => {
                proof {
                    assert(poly_views(polygons@.push(poly)) =~= poly_views(polygons@).push(poly@));
                }
                polygons.push(poly);
            },
            Err(e) => {
                proof {
                    lemma_polys_err(b@, q, counts@, (k + 1) as nat, counts@.len());
                }
                return Err(e);
            },
        }
        k += 1;
    }
    Ok(polygons)
}

/// Read one BSP at the cursor; its names are left empty.
pub fn read_bsp(b: &[u8], pos: &mut u64) -> (r: Result<WorldBsp, AssetError>)
    requires
        b@.len() < 0x8000_0000_0000_0000,
        *old(pos) <= b@.len() + 0x10_0000_0000,
    ensures
        match r {
            Ok(m) => bsp_at(b@, *old(pos) as int) == Ok::<(BspView, int), AssetError>(
                (m@, *final(pos) as int),
            ) && *final(pos) <= b@.len() + 0x10_0000_0000,
            Err(e) => bsp_at(b@, *old(pos) as int) == Err::<(BspView, int), AssetError>(e),
        },
{
    let len = b.len() as u64;
    if *pos > len || len - *pos < 48 {
        *pos = len;
        return Err(AssetError::UnexpectedEof);
    }
    let p = *pos as usize;
    let point_count = get_u32(b, p + 4) as u64;
    let polygon_count = get_u32(b, p + 8) as u64;
    let node_count = get_u32(b, p + 16) as u64;
    let half_extents = Vec3Bits { x: get_u32(b, p + 20), y: get_u32(b, p + 24), z: get_u32(b, p + 28) };
    let center = Vec3Bits { x: get_u32(b, p + 32), y: get_u32(b, p + 36), z: get_u32(b, p + 40) };
    *pos = *pos + 48;
    let counts = match cursor_bytes(b, pos, polygon_count) {
        Ok(c) => c,
        Err(e) => {
            return Err(e);
        },
    };
    let polygons = match read_polys(b, pos, &counts) {
        Ok(v) => v,
        Err(e) => {
            return Err(e);
        },
    };
    *pos = *pos + node_count * 12;
    let points = match cursor_v3s(b, pos, point_count) {
        Ok(v) => v,
        Err(e) => {
            return Err(e);
        },
    };
    let m = WorldBsp { names: Vec::new(), center, half_extents, points, polygons };
    assert(name_views(m.names@) =~= Seq::<Seq<char>>::empty());
    Ok(m)
}

fn cursor_pairs(b: &[u8], pos: &mut u64, n: u64) -> (r: Result<Vec<(u32, u32)>, AssetError>)
    ensures
        match r {
            Ok(v) => pairs_at(b@, *old(pos) as int, n as int) == Ok::<(Seq<(u32, u32)>, int), AssetError>(
                (v@, *final(pos) as int),
            ),
            Err(e) => pairs_at(b@, *old(pos) as int, n as int) == Err::<
                (Seq<(u32, u32)>, int),
                AssetError,
            >(e),
        },
{
    let len = b.len() as u64;
    if n == 0 {
        let v: Vec<(u32, u32)> = Vec::new();
        assert(v@ =~= Seq::new(0, |i: int| (le_u32(b@, *pos + 8 * i), le_u32(b@, *pos + 8 * i + 4))));
        return Ok(v);
    }
    if *pos > len || (len - *pos) / 8 < n {
        proof {
            let p0 = *old(pos);
            if p0 <= len {
                assert(p0 + 8 * n > len) by (nonlinear_arith)
                    requires
                        (len - p0) / 8 < n,
                        p0 <= len,
                ;
            }
        }
        *pos = len;
        return Err(AssetError::UnexpectedEof);
    }
    assert(*pos + 8 * n <= len) by (nonlinear_arith)
        requires
            (len - *pos) / 8 >= n,
            *pos <= len,
    ;
    let start = *pos as usize;
    let bl = b.len();
    let nn = n as usize;
    let mut v: Vec<(u32, u32)> = Vec::new();
    let mut i: usize = 0;
    while i < nn
        invariant
            i <= nn,
            nn == n,
            bl == b@.len(),
            start + 8 * nn <= bl,
            v@ == Seq::new(i as nat, |k: int| (le_u32(b@, start + 8 * k), le_u32(b@, start + 8 * k + 4))),
        decreases nn - i,
    {
        let o = start + 8 * i;
        v.push((get_u32(b, o), get_u32(b, o + 4)));
        assert(v@ =~= Seq::new((i + 1) as nat, |k: int| (le_u32(b@, start + 8 * k), le_u32(b@, start + 8 * k + 4))));
        i += 1;
    }
    *pos = *pos + 8 * n;
    Ok(v)
}

pub open spec fn names_views(v: Seq<Vec<String>>) -> Seq<Seq<Seq<char>>> {
    v.map_values(|n: Vec<String>| name_views(n@))
}

proof fn lemma_names_err(blob: Seq<u8>, index: Seq<(u32, u32)>, count: int, k: nat, n: nat)
    requires
        k <= n,
        names_for(blob, index, count, k) is Err,
    ensures
        names_for(blob, index, count, n) == names_for(blob, index, count, k),
    decreases n - k,
{
    if n > k {
        lemma_names_err(blob, index, count, k, (n - 1) as nat);
    }
}

/// File each indexed name under its BSP.
fn assign_names(blob: &[u8], index: &Vec<(u32, u32)>, count: u32) -> (r: Result<Vec<Vec<String>>, AssetError>)
    ensures
        match r {
            Ok(v) => names_for(blob@, index@, count as int, index@.len()) == Ok::<
                Seq<Seq<Seq<char>>>,
                AssetError,
            >(names_views(v@)) && v@.len() == count,
            Err(e) => names_for(blob@, index@, count as int, index@.len()) == Err::<
                Seq<Seq<Seq<char>>>,
                AssetError,
            >(e),
        },
{
    let mut names: Vec<Vec<String>> = Vec::new();
    let mut i: u32 = 0;
    while i < count
        invariant
            i <= count,
            names@.len() == i,
            forall|j: int| 0 <= j < i ==> (#[trigger] names@[j])@.len() == 0,
        decreases count - i,
    {
        names.push(Vec::new());
        i += 1;
    }
    assert forall|j: int| 0 <= j < count implies #[trigger] names_views(names@)[j] == Seq::<
        Seq<char>,
    >::empty() by {
        assert(name_views(names@[j]@) =~= Seq::<Seq<char>>::empty());
    }
    assert(names_views(names@) =~= Seq::new(count as nat, |i: int| Seq::<Seq<char>>::empty()));
    let mut k: usize = 0;
    while k < index.len()
        invariant
            k <= index@.len(),
            names@.len() == count,
            names_for(blob@, index@, count as int, k as nat) == Ok::<Seq<Seq<Seq<char>>>, AssetError>(
                names_views(names@),
            ),
        decreases index@.len() - k,
    {
        let (off, bi) = index[k];
        if bi < count {
            if off as usize >= blob.len() {
                proof {
                    lemma_names_err(blob@, index@, count as int, (k + 1) as nat, index@.len());
                }
                return Err(AssetError::Truncated("bsp name"));
            }
            let name = match read_cstring(blob, off as usize) {
                Ok(s) => s.to_owned(),
                Err(e) => {
                    proof {
                        lemma_names_err(blob@, index@, count as int, (k + 1) as nat, index@.len());
                    }
                    return Err(e);
                },
            };
            let ghost before = names_views(names@);
            let ghost old_names = names@;
            let ghost nv = name@;
            names[bi as usize].push(name);
            proof {
                assert forall|j: int| 0 <= j < names@.len() implies #[trigger] names_views(names@)[j]
                    == before.update(bi as int, before[bi as int].push(nv))[j] by {
                    if j == bi as int {
                        assert(name_views(names@[j]@) =~= name_views(old_names[j]@).push(nv));
                    }
                }
                assert(names_views(names@) =~= before.update(bi as int, before[bi as int].push(nv)));
            }
        }
        k += 1;
    }
    Ok(names)
}

proof fn lemma_bsps_err(b: Seq<u8>, p: int, k: nat, n: nat)
    requires
        k <= n,
        bsps_at(b, p, k) is Err,
    ensures
        bsps_at(b, p, n) == bsps_at(b, p, k),
    decreases n - k,
{
    if n > k {
        lemma_bsps_err(b, p, k, (n - 1) as nat);
    }
}

/// Each BSP with the names filed under it.
pub open spec fn named_all(bs: Seq<BspView>, ns: Seq<Seq<Seq<char>>>) -> Seq<BspView> {
    Seq::new(bs.len(), |i: int| named(bs[i], ns[i]))
}

fn clone_names(v: &Vec<String>) -> (r: Vec<String>)
    ensures
        name_views(r@) == name_views(v@),
{
    let mut r: Vec<String> = Vec::new();
    let mut i: usize = 0;
    while i < v.len()
        invariant
            i <= v@.len(),
            name_views(r@) == name_views(v@).take(i as int),
        decreases v@.len() - i,
    {
        let s = v[i].clone();
        proof {
            assert(s@ == v@[i as int]@);
            assert(name_views(r@.push(s)) =~= name_views(r@).push(s@));
            assert(name_views(v@).take(i + 1) =~= name_views(v@).take(i as int).push(s@));
        }
        r.push(s);
        i += 1;
    }
    assert(name_views(v@).take(v@.len() as int) =~= name_views(v@));
    r
}

fn read_bsps(b: &[u8], pos: &mut u64, count: u32, names: &Vec<Vec<String>>) -> (r: Result<
    Vec<WorldBsp>,
    AssetError,
>)
    requires
        b@.len() < 0x8000_0000_0000_0000,
        *old(pos) <= b@.len() + 0x10_0000_0000,
        names@.len() == count,
    ensures
        match r {
            Ok(v) => bsps_at(b@, *old(pos) as int, count as nat) matches Ok((bs, q)) && q
                == *final(pos) && bsp_views(v@) == named_all(bs, names_views(names@)) && bs.len()
                == count,
            Err(e) => bsps_at(b@, *old(pos) as int, count as nat) == Err::<(Seq<BspView>, int), AssetError>(
                e,
            ),
        },
{
    let ghost p0 = *pos as int;
    let ghost nv = names_views(names@);
    let mut out: Vec<WorldBsp> = Vec::new();
    let mut i: u32 = 0;
    proof {
        assert(bsp_views(out@) =~= named_all(Seq::<BspView>::empty(), nv));
    }
    while i < count
        invariant
            i <= count,
            p0 == *old(pos) as int,
            names@.len() == count,
            nv == names_views(names@),
            b@.len() < 0x8000_0000_0000_0000,
            *pos <= b@.len() + 0x10_0000_0000,
            bsps_at(b@, p0, i as nat) matches Ok((bs, q)) && q == *pos && bsp_views(out@)
                == named_all(bs, nv) && bs.len() == i,
            out@.len() == i,
        decreases count - i,
    {
        let ghost bs = bsps_at(b@, p0, i as nat)->Ok_0.0;
        match read_bsp(b, pos) {
            Ok(m) => {
                let mut m = m;
                let ghost mv = m@;
                m.names = clone_names(&names[i as usize]);
                proof {
                    assert(m@ == named(mv, nv[i as int]));
                    assert(bsp_views(out@.push(m)) =~= bsp_views(out@).push(m@));
                    assert(named_all(bs.push(mv), nv) =~= named_all(bs, nv).push(named(mv, nv[i as int])));
                }
                out.push(m);
            },
            Err(e) => {
                proof {
                    lemma_bsps_err(b@, p0, (i + 1) as nat, count as nat);
                }
                return Err(e);
            },
        }
        i += 1;
    }
    Ok(out)
}

fn fan_points(vs: &Vec<Vec3Bits>, out: &mut Vec<(Vec3Bits, Vec3Bits, Vec3Bits)>)
    ensures
        final(out)@ == old(out)@ + fan_of(vs@),
{
    if vs.len() < 3 {
        assert(old(out)@ + fan_of(vs@) =~= old(out)@);
        return;
    }
    let p0 = vs[0];
    let ghost before = out@;
    let mut k: usize = 1;
    while k < vs.len() - 1
        invariant
            1 <= k < vs@.len(),
            vs@.len() >= 3,
            p0 == vs@[0],
            out@ == before + Seq::new((k - 1) as nat, |j: int| (vs@[0], vs@[j + 1], vs@[j + 2])),
        decreases vs@.len() - k,
    {
        out.push((p0, vs[k], vs[k + 1]));
        assert(out@ =~= before + Seq::new(k as nat, |j: int| (vs@[0], vs@[j + 1], vs@[j + 2])));
        k += 1;
    }
    assert(out@ =~= before + fan_of(vs@));
}

proof fn lemma_blockers_err(b: Seq<u8>, p: int, k: nat, n: nat)
    requires
        k <= n,
        blocker_polys(b, p, k) is Err,
    ensures
        blocker_polys(b, p, n) == blocker_polys(b, p, k),
    decreases n - k,
{
    if n > k {
        lemma_blockers_err(b, p, k, (n - 1) as nat);
    }
}

/// The world-space blockers at the cursor, fanned into triangles.
pub fn read_blockers(b: &[u8], pos: &mut u64) -> (r: Result<Vec<(Vec3Bits, Vec3Bits, Vec3Bits)>, AssetError>)
    requires
        b@.len() < 0x8000_0000_0000_0000,
    ensures
        match r {
            Ok(v) => blockers_at(b@, *old(pos) as int) == Ok::<
                Seq<(Vec3Bits, Vec3Bits, Vec3Bits)>,
                AssetError,
            >(v@),
            Err(e) => blockers_at(b@, *old(pos) as int) == Err::<
                Seq<(Vec3Bits, Vec3Bits, Vec3Bits)>,
                AssetError,
            >(e),
        },
{
    let poly_count = match cursor_u32(b, pos) {
        Ok(v) => v,
        Err(e) => {
            return Err(e);
        },
    };
    match cursor_u32(b, pos) {
        Ok(_) => {},
        Err(e) => {
            return Err(e);
        },
    }
    if poly_count > 10_000 {
        return Err(AssetError::Truncated("blocker count"));
    }
    let ghost p2 = *pos as int;
    let len = b.len() as u64;
    let mut tris: Vec<(Vec3Bits, Vec3Bits, Vec3Bits)> = Vec::new();
    let mut i: u32 = 0;
    while i < poly_count
        invariant
            i <= poly_count,
            len == b@.len(),
            len < 0x8000_0000_0000_0000,
            *pos <= len,
            blockers_at(b@, *old(pos) as int) == match blocker_polys(b@, p2, poly_count as nat) {
                Err(e) => Err(e),
                Ok((t, _)) => Ok(t),
            },
            blocker_polys(b@, p2, i as nat) == Ok::<(Seq<(Vec3Bits, Vec3Bits, Vec3Bits)>, int), AssetError>(
                (tris@, *pos as int),
            ),
        decreases poly_count - i,
    {
        if len - *pos < 16 {
            proof {
                lemma_blockers_err(b@, p2, (i + 1) as nat, poly_count as nat);
            }
            return Err(AssetError::UnexpectedEof);
        }
        *pos = *pos + 16;
        let nverts = match cursor_u32(b, pos) {
            Ok(v) => v,
            Err(e) => {
                proof {
                    lemma_blockers_err(b@, p2, (i + 1) as nat, poly_count as nat);
                }
                return Err(e);
            },
        };
        if nverts > 256 {
            proof {
                lemma_blockers_err(b@, p2, (i + 1) as nat, poly_count as nat);
            }
            return Err(AssetError::Truncated("blocker verts"));
        }
        let verts = match cursor_v3s(b, pos, nverts as u64) {
            Ok(v) => v,
            Err(e) => {
                proof {
                    lemma_blockers_err(b@, p2, (i + 1) as nat, poly_count as nat);
                }
                return Err(e);
            },
        };
        fan_points(&verts, &mut tris);
        i += 1;
    }
    Ok(tris)
}

/// `bsp` carries `name` among its names, compared without ASCII case.
pub open spec fn has_name(bsp: BspView, name: Seq<char>) -> bool {
    exists|j: int| 0 <= j < bsp.names.len() && lower_seq(#[trigger] bsp.names[j]) == lower_seq(name)
}

/// The first model that carries `name` is at `k`.
pub open spec fn first_named(models: Seq<BspView>, name: Seq<char>, k: int) -> bool {
    &&& 0 <= k < models.len()
    &&& has_name(models[k], name)
    &&& forall|j: int| 0 <= j < k ==> !has_name(#[trigger] models[j], name)
}

/// The fan triangles of a polygon's consecutive point pairs after the first, up to the
/// pair ending at `verts[m]`; pairs with a point out of range are skipped.
pub open spec fn pair_tris(pts: Seq<Vec3Bits>, p0: Vec3Bits, verts: Seq<u32>, m: int) -> Seq<(Vec3Bits, Vec3Bits, Vec3Bits)>
    decreases m,
{
    if m <= 1 {
        Seq::empty()
    } else {
        pair_tris(pts, p0, verts, m - 1) + if verts[m - 1] < pts.len() && verts[m] < pts.len() {
            seq![(p0, pts[verts[m - 1] as int], pts[verts[m] as int])]
        } else {
            Seq::empty()
        }
    }
}

/// A polygon's fan: none for fewer than three points or a first point out of range.
pub open spec fn poly_tris(pts: Seq<Vec3Bits>, verts: Seq<u32>) -> Seq<(Vec3Bits, Vec3Bits, Vec3Bits)> {
    if verts.len() < 3 || verts[0] >= pts.len() {
        Seq::empty()
    } else {
        pair_tris(pts, pts[verts[0] as int], verts, verts.len() - 1)
    }
}

/// The fans of the first `n` polygons.
pub open spec fn fan_all(pts: Seq<Vec3Bits>, polys: Seq<BspPolyView>, n: nat) -> Seq<(Vec3Bits, Vec3Bits, Vec3Bits)>
    decreases n,
{
    if n == 0 {
        Seq::empty()
    } else {
        fan_all(pts, polys, (n - 1) as nat) + poly_tris(pts, polys[n - 1].verts)
    }
}

/// Append the fan triangles of each polygon.
pub fn fan_polys(points: &[Vec3Bits], polygons: &[BspPoly], out: &mut Vec<(Vec3Bits, Vec3Bits, Vec3Bits)>)
    ensures
        final(out)@ == old(out)@ + fan_all(points@, poly_views(polygons@), polygons@.len()),
{
    let ghost pv = poly_views(polygons@);
    let ghost start = out@;
    let mut k: usize = 0;
    assert(start + fan_all(points@, pv, 0) =~= start);
    while k < polygons.len()
        invariant
            k <= polygons@.len(),
            pv == poly_views(polygons@),
            out@ == start + fan_all(points@, pv, k as nat),
        decreases polygons@.len() - k,
    {
        let poly = &polygons[k];
        let ghost before = out@;
        assert(pv[k as int].verts == poly.verts@);
        if poly.verts.len() >= 3 && (poly.verts[0] as usize) < points.len() {
            let p0 = points[poly.verts[0] as usize];
            let mut m: usize = 1;
            while m < poly.verts.len() - 1
                invariant
                    1 <= m <= poly.verts@.len() - 1,
                    poly.verts@.len() >= 3,
                    poly.verts@[0] < points@.len(),
                    p0 == points@[poly.verts@[0] as int],
                    out@ == before + pair_tris(points@, p0, poly.verts@, m as int),
                decreases poly.verts@.len() - m,
            {
                let a = poly.verts[m] as usize;
                let c = poly.verts[m + 1] as usize;
                if a < points.len() && c < points.len() {
                    out.push((p0, points[a], points[c]));
                }
                assert(out@ =~= before + pair_tris(points@, p0, poly.verts@, m + 1));
                m += 1;
            }
        }
        assert(out@ =~= start + fan_all(points@, pv, (k + 1) as nat));
        k += 1;
    }
}

fn bsp_has_name(m: &WorldBsp, name: &str) -> (r: bool)
    ensures
        r == has_name(m@, name@),
{
    let mut j: usize = 0;
    while j < m.names.len()
        invariant
            j <= m.names@.len(),
            forall|i: int| 0 <= i < j ==> lower_seq(#[trigger] m@.names[i]) != lower_seq(name@),
        decreases m.names@.len() - j,
    {
        assert(m@.names[j as int] == m.names@[j as int]@);
        if eq_ignore_ascii_case(m.names[j].as_str(), name) {
            return true;
        }
        j += 1;
    }
    false
}

impl WorldBsp {
    /// Whether this is the PhysicsBSP, by any of its names.
    pub fn is_physics(&self) -> (r: bool)
        ensures
            r == has_name(self@, "PhysicsBSP"@),
    {
        bsp_has_name(self, "PhysicsBSP")
    }

    /// The fan triangles of all polygons.
    pub fn triangles(&self) -> (r: Vec<(Vec3Bits, Vec3Bits, Vec3Bits)>)
        ensures
            r@ == fan_all(self.points@, poly_views(self.polygons@), self.polygons@.len()),
    {
        let mut out: Vec<(Vec3Bits, Vec3Bits, Vec3Bits)> = Vec::new();
        fan_polys(self.points.as_slice(), self.polygons.as_slice(), &mut out);
        assert(out@ =~= fan_all(self.points@, poly_views(self.polygons@), self.polygons@.len()));
        out
    }
}

impl WorldModels {
    /// Parse the world-model section of a packed world.
    pub fn parse(bytes: &[u8]) -> (r: Result<Self, AssetError>)
        requires
            bytes@.len() < 0x8000_0000_0000_0000,
        ensures
            match r {
                Ok(m) => models_of(bytes@) == Ok::<ModelsView, AssetError>(m@),
                Err(e) => models_of(bytes@) == Err::<ModelsView, AssetError>(e),
            },
    {
        let b = bytes;
        let len = b.len() as u64;
        if b.len() < 56 {
            return Err(AssetError::Truncated("World00p header"));
        }
        if b.len() < 88 {
            return Err(AssetError::UnexpectedEof);
        }
        let min = Vec3Bits { x: get_u32(b, 56), y: get_u32(b, 60), z: get_u32(b, 64) };
        let max = Vec3Bits { x: get_u32(b, 68), y: get_u32(b, 72), z: get_u32(b, 76) };
        let count = get_u32(b, 80) as u64;
        let mut pos: u64 = 88;
        match cursor_bytes(b, &mut pos, (count + 7) / 8) {
            Ok(_) => {},
            Err(e) => {
                return Err(e);
            },
        }
        if pos > len || len - pos < 32 {
            return Err(AssetError::UnexpectedEof);
        }
        let q = pos as usize;
        let name_count = get_u32(b, q) ^ FEAR_WORLD_MAGIC;
        let names_len = get_u32(b, q + 4) ^ FEAR_WORLD_MAGIC;
        let plane_count = get_u32(b, q + 8) ^ FEAR_WORLD_MAGIC;
        let bsp_count = get_u32(b, q + 12) ^ FEAR_WORLD_MAGIC;
        pos = pos + 32;
        let blob = match cursor_bytes(b, &mut pos, names_len as u64) {
            Ok(v) => v,
            Err(e) => {
                return Err(e);
            },
        };
        let index = match cursor_pairs(b, &mut pos, name_count as u64) {
            Ok(v) => v,
            Err(e) => {
                return Err(e);
            },
        };
        let names = match assign_names(blob.as_slice(), &index, bsp_count) {
            Ok(v) => v,
            Err(e) => {
                return Err(e);
            },
        };
        let planes = match cursor_v3s(b, &mut pos, plane_count as u64) {
            Ok(v) => v,
            Err(e) => {
                return Err(e);
            },
        };
        assert(names@.len() == bsp_count);
        let ghost q4 = pos as int;
        let models = match read_bsps(b, &mut pos, bsp_count, &names) {
            Ok(v) => v,
            Err(e) => {
                return Err(e);
            },
        };
        let ghost q5 = pos as int;
        let blockers = match read_blockers(b, &mut pos) {
            Ok(v) => v,
            Err(_) => Vec::new(),
        };
        let r = WorldModels { min, max, planes, models, blockers };
        proof {
            let bs = bsps_at(b@, q4, bsp_count as nat)->Ok_0.0;
            assert(r@.models =~= Seq::new(
                bsp_count as nat,
                |i: int| named(bs[i], names_views(names@)[i]),
            ));
            assert(r@.blockers == match blockers_at(b@, q5) {
                Ok(t) => t,
                Err(_) => Seq::<(Vec3Bits, Vec3Bits, Vec3Bits)>::empty(),
            });
        }
        Ok(r)
    }

    /// The BSP named `PhysicsBSP`, the first one where several are.
    pub fn physics(&self) -> (r: Option<&WorldBsp>)
        ensures
            match r {
                Some(m) => exists|k: int|
                    first_named(bsp_views(self.models@), "PhysicsBSP"@, k) && m@ == bsp_views(
                        self.models@,
                    )[k],
                None => forall|k: int|
                    0 <= k < self.models@.len() ==> !has_name(
                        #[trigger] bsp_views(self.models@)[k],
                        "PhysicsBSP"@,
                    ),
            },
    {
        self.mesh_named("PhysicsBSP")
    }

    /// The first BSP that carries `name` among its names, compared without ASCII case.
    pub fn mesh_named(&self, name: &str) -> (r: Option<&WorldBsp>)
        ensures
            match r {
                Some(m) => exists|k: int|
                    first_named(bsp_views(self.models@), name@, k) && m@ == bsp_views(
                        self.models@,
                    )[k],
                None => forall|k: int|
                    0 <= k < self.models@.len() ==> !has_name(
                        #[trigger] bsp_views(self.models@)[k],
                        name@,
                    ),
            },
    {
        let ghost ms = bsp_views(self.models@);
        let mut k: usize = 0;
        while k < self.models.len()
            invariant
                k <= self.models@.len(),
                ms == bsp_views(self.models@),
                forall|j: int| 0 <= j < k ==> !has_name(#[trigger] ms[j], name@),
            decreases self.models@.len() - k,
        {
            if bsp_has_name(&self.models[k], name) {
                assert(first_named(ms, name@, k as int));
                return Some(&self.models[k]);
            }
            k += 1;
        }
        None
    }

    /// The clip triangles: the PhysicsBSP's fans, then the world-space blockers. Doors and
    /// other world models are not part of it.
    pub fn triangles(&self) -> (r: Vec<(Vec3Bits, Vec3Bits, Vec3Bits)>)
        ensures
            (forall|k: int|
                0 <= k < self.models@.len() ==> !has_name(
                    #[trigger] bsp_views(self.models@)[k],
                    "PhysicsBSP"@,
                )) ==> r@ == self.blockers@,
            forall|k: int|
                first_named(bsp_views(self.models@), "PhysicsBSP"@, k) ==> r@ == fan_all(
                    self.models@[k].points@,
                    poly_views(self.models@[k].polygons@),
                    self.models@[k].polygons@.len(),
                ) + self.blockers@,
    {
        let mut out: Vec<(Vec3Bits, Vec3Bits, Vec3Bits)> = Vec::new();
        let ghost ms = bsp_views(self.models@);
        match self.physics() {
            Some(bsp) => {
                fan_polys(bsp.points.as_slice(), bsp.polygons.as_slice(), &mut out);
                proof {
                    let k = choose|k: int| first_named(ms, "PhysicsBSP"@, k) && bsp@ == ms[k];
                    assert forall|k2: int| first_named(ms, "PhysicsBSP"@, k2) implies out@ == fan_all(
                        self.models@[k2].points@,
                        poly_views(self.models@[k2].polygons@),
                        self.models@[k2].polygons@.len(),
                    ) by {
                        if k2 < k {
                            assert(!has_name(ms[k2], "PhysicsBSP"@));
                        } else if k < k2 {
                            assert(!has_name(ms[k], "PhysicsBSP"@));
                        }
                        assert(ms[k] == self.models@[k]@);
                        assert(bsp.polygons@.len() == poly_views(bsp.polygons@).len());
                        assert(self.models@[k].polygons@.len() == poly_views(self.models@[k].polygons@).len());
                        assert(out@ =~= fan_all(bsp.points@, poly_views(bsp.polygons@), bsp.polygons@.len()));
                    }
                }
            },
            None => {},
        }
        let ghost mid = out@;
        proof {
            if forall|k: int|
                0 <= k < self.models@.len() ==> !has_name(#[trigger] ms[k], "PhysicsBSP"@) {
                assert(mid =~= Seq::<(Vec3Bits, Vec3Bits, Vec3Bits)>::empty());
            }
        }
        let mut i: usize = 0;
        while i < self.blockers.len()
            invariant
                i <= self.blockers@.len(),
                out@ == mid + self.blockers@.take(i as int),
            decreases self.blockers@.len() - i,
        {
            out.push(self.blockers[i]);
            assert(self.blockers@.take(i + 1) == self.blockers@.take(i as int).push(self.blockers@[i as int]));
            i += 1;
        }
        assert(self.blockers@.take(self.blockers@.len() as int) == self.blockers@);
        out
    }
}

proof fn lemma_pair_tris_all(pts: Seq<Vec3Bits>, p0: Vec3Bits, verts: Seq<u32>, m: int)
    requires
        1 <= m < verts.len(),
        forall|i: int| 0 <= i < verts.len() ==> #[trigger] verts[i] < pts.len(),
    ensures
        pair_tris(pts, p0, verts, m).len() == m - 1,
        forall|j: int|
            0 <= j < m - 1 ==> #[trigger] pair_tris(pts, p0, verts, m)[j] == (
                p0,
                pts[verts[j + 1] as int],
                pts[verts[j + 2] as int],
            ),
    decreases m,
{
    if m > 1 {
        lemma_pair_tris_all(pts, p0, verts, m - 1);
        assert(verts[m - 1] < pts.len() && verts[m] < pts.len());
        let prev = pair_tris(pts, p0, verts, m - 1);
        assert forall|j: int| 0 <= j < m - 1 implies #[trigger] pair_tris(pts, p0, verts, m)[j] == (
            p0,
            pts[verts[j + 1] as int],
            pts[verts[j + 2] as int],
        ) by {
            if j < m - 2 {
                assert(pair_tris(pts, p0, verts, m)[j] == prev[j]);
            }
        }
    }
}

/// A polygon of `n` points, all of them in range, at least three, is fanned from its first
/// point into `n - 2` triangles: triangle `j` is the first point, point `j + 1` and point
/// `j + 2`.
pub proof fn law_polygon_fan(pts: Seq<Vec3Bits>, verts: Seq<u32>)
    requires
        verts.len() >= 3,
        forall|i: int| 0 <= i < verts.len() ==> #[trigger] verts[i] < pts.len(),
    ensures
        poly_tris(pts, verts).len() == verts.len() - 2,
        forall|j: int|
            0 <= j < verts.len() - 2 ==> #[trigger] poly_tris(pts, verts)[j] == (
                pts[verts[0] as int],
                pts[verts[j + 1] as int],
                pts[verts[j + 2] as int],
            ),
{
    assert(verts[0] < pts.len());
    lemma_pair_tris_all(pts, pts[verts[0] as int], verts, verts.len() - 1);
}

} // verus!
