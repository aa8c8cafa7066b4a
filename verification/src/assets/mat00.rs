//! Packed Jupiter EX material (`Mat00`). Magic `LTMI`; the first FX supplies the texture
//! slots. Floating-point values are kept as their bit patterns.
use vstd::prelude::*;

use super::bytes::{get_u32, le_u32};
use super::error::AssetError;
use super::world00p::{cur_u32, cursor_u32};
use super::world_models::{v3_at, Vec3Bits};
use super::world_objects::{as_signed, obj_string_at, read_obj_string, QuatBits};
use crate::text::{chars_of, contains, contains_chars, eq_ignore_ascii_case, lower_chars, lower_seq};

verus! {

/// Bits of 64.0f32, the specular power used when a material names none.
pub const DEFAULT_SPECULAR_POWER_BITS: u32 = 0x4280_0000;

/// A material definition's value; floats by their bits.
#[derive(Debug)]
pub enum MatValue {
    String(String),
    Vec3(Vec3Bits),
    Vec4(QuatBits),
    Int(i32),
    Float(u32),
}

pub ghost enum MatView {
    String(Seq<char>),
    Vec3(Vec3Bits),
    Vec4(QuatBits),
    Int(i32),
    Float(u32),
}

impl View for MatValue {
    type V = MatView;

    open spec fn view(&self) -> MatView {
        match self {
            MatValue::String(s) => MatView::String(s@),
            MatValue::Vec3(v) => MatView::Vec3(*v),
            MatValue::Vec4(v) => MatView::Vec4(*v),
            MatValue::Int(v) => MatView::Int(*v),
            MatValue::Float(v) => MatView::Float(*v),
        }
    }
}

#[derive(Debug)]
pub struct MatFx {
    pub shader: String,
    pub defs: Vec<(String, MatValue)>,
}

pub ghost struct FxView {
    pub shader: Seq<char>,
    pub defs: Seq<(Seq<char>, MatView)>,
}

pub open spec fn def_views(v: Seq<(String, MatValue)>) -> Seq<(Seq<char>, MatView)> {
    v.map_values(|d: (String, MatValue)| (d.0@, d.1@))
}

impl View for MatFx {
    type V = FxView;

    open spec fn view(&self) -> FxView {
        FxView { shader: self.shader@, defs: def_views(self.defs@) }
    }
}

pub open spec fn fx_views(v: Seq<MatFx>) -> Seq<FxView> {
    v.map_values(|f: MatFx| f@)
}

#[derive(Debug)]
pub struct Material {
    pub fx: Vec<MatFx>,
}

/// A definition's value of type `kind` at `p`.
pub open spec fn mat_value_at(b: Seq<u8>, p: int, kind: u32) -> Result<(MatView, int), AssetError> {
    if kind == 1 {
        match obj_string_at(b, p) {
            Err(e) => Err(e),
            Ok((s, q)) => Ok((MatView::String(s), q)),
        }
    } else if kind == 2 || kind == 3 || kind == 4 || kind == 5 {
        let n: int = if kind == 2 {
            12
        } else if kind == 3 {
            16
        } else {
            4
        };
        if !(0 <= p && p + n <= b.len()) {
            Err(AssetError::UnexpectedEof)
        } else if kind == 2 {
            Ok((MatView::Vec3(v3_at(b, p)), p + n))
        } else if kind == 3 {
            Ok(
                (
                    MatView::Vec4(
                        QuatBits {
                            x: le_u32(b, p),
                            y: le_u32(b, p + 4),
                            z: le_u32(b, p + 8),
                            w: le_u32(b, p + 12),
                        },
                    ),
                    p + n,
                ),
            )
        } else if kind == 4 {
            Ok((MatView::Int(as_signed(le_u32(b, p))), p + n))
        } else {
            Ok((MatView::Float(le_u32(b, p)), p + n))
        }
    } else {
        Err(AssetError::Invalid("Mat00 def type"))
    }
}

/// One definition at `p`: its type, its name, then its value.
pub open spec fn mat_def_at(b: Seq<u8>, p: int) -> Result<((Seq<char>, MatView), int), AssetError> {
    match cur_u32(b, p) {
        Err(e) => Err(e),
        Ok((kind, p1)) => match obj_string_at(b, p1) {
            Err(e) => Err(e),
            Ok((name, p2)) => match mat_value_at(b, p2, kind) {
                Err(e) => Err(e),
                Ok((v, p3)) => Ok(((name, v), p3)),
            },
        },
    }
}

/// The first `n` definitions from `p` on.
pub open spec fn mat_defs_at(b: Seq<u8>, p: int, n: nat) -> Result<(Seq<(Seq<char>, MatView)>, int), AssetError>
    decreases n,
{
    if n == 0 {
        Ok((Seq::empty(), p))
    } else {
        match mat_defs_at(b, p, (n - 1) as nat) {
            Err(e) => Err(e),
            Ok((ds, q)) => match mat_def_at(b, q) {
                Err(e) => Err(e),
                Ok((d, q2)) => Ok((ds.push(d), q2)),
            },
        }
    }
}

/// One FX at `p`: its shader path, a definition count and the definitions.
pub open spec fn fx_at(b: Seq<u8>, p: int) -> Result<(FxView, int), AssetError> {
    match obj_string_at(b, p) {
        Err(e) => Err(e),
        Ok((shader, p1)) => match cur_u32(b, p1) {
            Err(e) => Err(e),
            Ok((n, p2)) => match mat_defs_at(b, p2, n as nat) {
                Err(e) => Err(e),
                Ok((defs, p3)) => Ok((FxView { shader, defs }, p3)),
            },
        },
    }
}

/// The first `n` FX from `p` on.
pub open spec fn fxs_at(b: Seq<u8>, p: int, n: nat) -> Result<(Seq<FxView>, int), AssetError>
    decreases n,
{
    if n == 0 {
        Ok((Seq::empty(), p))
    } else {
        match fxs_at(b, p, (n - 1) as nat) {
            Err(e) => Err(e),
            Ok((fs, q)) => match fx_at(b, q) {
                Err(e) => Err(e),
                Ok((f, q2)) => Ok((fs.push(f), q2)),
            },
        }
    }
}

/// A material file: `LTMI`, an FX count, the FX.
pub open spec fn material_of(b: Seq<u8>) -> Result<Seq<FxView>, AssetError> {
    if b.len() < 8 {
        Err(AssetError::Truncated("Mat00 header"))
    } else if !(b[0] == 0x4c && b[1] == 0x54 && b[2] == 0x4d && b[3] == 0x49) {
        Err(AssetError::Invalid("Mat00 magic"))
    } else {
        match fxs_at(b, 8, le_u32(b, 4) as nat) {
            Err(e) => Err(e),
            Ok((fs, _)) => Ok(fs),
        }
    }
}

/// The definitions of the first `n` FX, one FX after another.
pub open spec fn all_defs(fs: Seq<FxView>, n: nat) -> Seq<(Seq<char>, MatView)>
    decreases n,
{
    if n == 0 {
        Seq::empty()
    } else {
        all_defs(fs, (n - 1) as nat) + fs[n - 1].defs
    }
}

/// The definition at `k` is the first named `name` (without ASCII case) whose value is a
/// string.
pub open spec fn first_string_def(ds: Seq<(Seq<char>, MatView)>, name: Seq<char>, k: int) -> bool {
    &&& 0 <= k < ds.len()
    &&& lower_seq(ds[k].0) == lower_seq(name) && ds[k].1 is String
    &&& forall|j: int| 0 <= j < k ==> !(lower_seq(#[trigger] ds[j].0) == lower_seq(name) && ds[j].1 is String)
}

/// As `first_string_def`, for a float value.
pub open spec fn first_float_def(ds: Seq<(Seq<char>, MatView)>, name: Seq<char>, k: int) -> bool {
    &&& 0 <= k < ds.len()
    &&& lower_seq(ds[k].0) == lower_seq(name) && ds[k].1 is Float
    &&& forall|j: int| 0 <= j < k ==> !(lower_seq(#[trigger] ds[j].0) == lower_seq(name) && ds[j].1 is Float)
}

/// What `string_def(name)` finds among definitions `ds`.
pub open spec fn string_def_of(ds: Seq<(Seq<char>, MatView)>, name: Seq<char>) -> Option<Seq<char>> {
    if exists|k: int| first_string_def(ds, name, k) {
        Some(ds[choose|k: int| first_string_def(ds, name, k)].1->String_0)
    } else {
        None
    }
}

/// What `float_def(name)` finds among definitions `ds`.
pub open spec fn float_def_of(ds: Seq<(Seq<char>, MatView)>, name: Seq<char>) -> Option<u32> {
    if exists|k: int| first_float_def(ds, name, k) {
        Some(ds[choose|k: int| first_float_def(ds, name, k)].1->Float_0)
    } else {
        None
    }
}

fn signed(w: u32) -> (r: i32)
    ensures
        r == as_signed(w),
{
    if w >= 0x8000_0000 {
        (w as i64 - 0x1_0000_0000) as i32
    } else {
        w as i32
    }
}

fn read_mat_value(b: &[u8], pos: &mut u64, kind: u32) -> (r: Result<MatValue, AssetError>)
    ensures
        match r {
            Ok(v) => mat_value_at(b@, *old(pos) as int, kind) == Ok::<(MatView, int), AssetError>(
                (v@, *final(pos) as int),
            ),
            Err(e) => mat_value_at(b@, *old(pos) as int, kind) == Err::<(MatView, int), AssetError>(e),
        },
{
    if kind == 1 {
        return match read_obj_string(b, pos) {
            Ok(s) => Ok(MatValue::String(s)),
            Err(e) => Err(e),
        };
    }
    if !(kind == 2 || kind == 3 || kind == 4 || kind == 5) {
        return Err(AssetError::Invalid("Mat00 def type"));
    }
    let n: u64 = if kind == 2 {
        12
    } else if kind == 3 {
        16
    } else {
        4
    };
    let len = b.len() as u64;
    if *pos > len || len - *pos < n {
        *pos = len;
        return Err(AssetError::UnexpectedEof);
    }
    let p = *pos as usize;
    *pos = *pos + n;
    if kind == 2 {
        Ok(MatValue::Vec3(Vec3Bits { x: get_u32(b, p), y: get_u32(b, p + 4), z: get_u32(b, p + 8) }))
    } else if kind == 3 {
        Ok(
            MatValue::Vec4(
                QuatBits {
                    x: get_u32(b, p),
                    y: get_u32(b, p + 4),
                    z: get_u32(b, p + 8),
                    w: get_u32(b, p + 12),
                },
            ),
        )
    } else if kind == 4 {
        Ok(MatValue::Int(signed(get_u32(b, p))))
    } else {
        Ok(MatValue::Float(get_u32(b, p)))
    }
}

proof fn lemma_mat_defs_err(b: Seq<u8>, p: int, k: nat, n: nat)
    requires
        k <= n,
        mat_defs_at(b, p, k) is Err,
    ensures
        mat_defs_at(b, p, n) == mat_defs_at(b, p, k),
    decreases n - k,
{
    if n > k {
        lemma_mat_defs_err(b, p, k, (n - 1) as nat);
    }
}

fn read_fx(b: &[u8], pos: &mut u64) -> (r: Result<MatFx, AssetError>)
    ensures
        match r {
            Ok(f) => fx_at(b@, *old(pos) as int) == Ok::<(FxView, int), AssetError>(
                (f@, *final(pos) as int),
            ),
            Err(e) => fx_at(b@, *old(pos) as int) == Err::<(FxView, int), AssetError>(e),
        },
{
    let shader = match read_obj_string(b, pos) {
        Ok(s) => s,
        Err(e) => {
            return Err(e);
        },
    };
    let count = match cursor_u32(b, pos) {
        Ok(v) => v,
        Err(e) => {
            return Err(e);
        },
    };
    let ghost p2 = *pos as int;
    let ghost p0 = *old(pos) as int;
    let ghost sv = shader@;
    let mut defs: Vec<(String, MatValue)> = Vec::new();
    let mut i: u32 = 0;
    assert(def_views(defs@) =~= Seq::<(Seq<char>, MatView)>::empty());
    while i < count
        invariant
            i <= count,
            p0 == *old(pos) as int,
            sv == shader@,
            fx_at(b@, p0) == match mat_defs_at(b@, p2, count as nat) {
                Err(e) => Err(e),
                Ok((defs, p3)) => Ok((FxView { shader: sv, defs }, p3)),
            },
            mat_defs_at(b@, p2, i as nat) == Ok::<(Seq<(Seq<char>, MatView)>, int), AssetError>(
                (def_views(defs@), *pos as int),
            ),
        decreases count - i,
    {
        let ghost q = *pos as int;
        let kind = match cursor_u32(b, pos) {
            Ok(v) => v,
            Err(e) => {
                proof {
                    lemma_mat_defs_err(b@, p2, (i + 1) as nat, count as nat);
                }
                return Err(e);
            },
        };
        let name = match read_obj_string(b, pos) {
            Ok(s) => s,
            Err(e) => {
                proof {
                    lemma_mat_defs_err(b@, p2, (i + 1) as nat, count as nat);
                }
                return Err(e);
            },
        };
        let value = match read_mat_value(b, pos, kind) {
            Ok(v) => v,
            Err(e) => {
                proof {
                    lemma_mat_defs_err(b@, p2, (i + 1) as nat, count as nat);
                }
                return Err(e);
            },
        };
        let d = (name, value);
        proof {
            assert(def_views(defs@.push(d)) =~= def_views(defs@).push((d.0@, d.1@)));
        }
        defs.push(d);
        i += 1;
    }
    Ok(MatFx { shader, defs })
}

proof fn lemma_fxs_err(b: Seq<u8>, p: int, k: nat, n: nat)
    requires
        k <= n,
        fxs_at(b, p, k) is Err,
    ensures
        fxs_at(b, p, n) == fxs_at(b, p, k),
    decreases n - k,
{
    if n > k {
        lemma_fxs_err(b, p, k, (n - 1) as nat);
    }
}

impl Material {
    /// The FX of a material, in order.
    pub closed spec fn fx_list(&self) -> Seq<FxView> {
        fx_views(self.fx@)
    }

    /// Parse a `Mat00` file.
    pub fn parse(bytes: &[u8]) -> (r: Result<Self, AssetError>)
        ensures
            match r {
                Ok(m) => material_of(bytes@) == Ok::<Seq<FxView>, AssetError>(m.fx_list()),
                Err(e) => material_of(bytes@) == Err::<Seq<FxView>, AssetError>(e),
            },
    {
        if bytes.len() < 8 {
            return Err(AssetError::Truncated("Mat00 header"));
        }
        if !(bytes[0] == 0x4c && bytes[1] == 0x54 && bytes[2] == 0x4d && bytes[3] == 0x49) {
            return Err(AssetError::Invalid("Mat00 magic"));
        }
        let count = get_u32(bytes, 4);
        let mut pos: u64 = 8;
        let mut fx: Vec<MatFx> = Vec::new();
        let mut i: u32 = 0;
        assert(fx_views(fx@) =~= Seq::<FxView>::empty());
        while i < count
            invariant
                i <= count,
                count == le_u32(bytes@, 4),
                material_of(bytes@) == match fxs_at(bytes@, 8, count as nat) {
                    Err(e) => Err(e),
                    Ok((fs, _)) => Ok(fs),
                },
                fxs_at(bytes@, 8, i as nat) == Ok::<(Seq<FxView>, int), AssetError>(
                    (fx_views(fx@), pos as int),
                ),
            decreases count - i,
        {
            match read_fx(bytes, &mut pos) {
                Ok(f) => {
                    proof {
                        assert(fx_views(fx@.push(f)) =~= fx_views(fx@).push(f@));
                    }
                    fx.push(f);
                },
                Err(e) => {
                    proof {
                        lemma_fxs_err(bytes@, 8, (i + 1) as nat, count as nat);
                    }
                    return Err(e);
                },
            }
            i += 1;
        }
        Ok(Material { fx })
    }

    /// The first string definition named `name`, compared without ASCII case, over all FX.
    pub fn string_def(&self, name: &str) -> (r: Option<&str>)
        ensures
            match r {
                Some(s) => string_def_of(all_defs(self.fx_list(), self.fx_list().len()), name@)
                    == Some(s@),
                None => string_def_of(all_defs(self.fx_list(), self.fx_list().len()), name@)
                    is None,
            },
    {
        let ghost fs = self.fx_list();
        let mut i: usize = 0;
        while i < self.fx.len()
            invariant
                i <= self.fx@.len(),
                fs == fx_views(self.fx@),
                forall|j: int|
                    0 <= j < all_defs(fs, i as nat).len() ==> !(lower_seq(
                        #[trigger] all_defs(fs, i as nat)[j].0,
                    ) == lower_seq(name@) && all_defs(fs, i as nat)[j].1 is String),
            decreases self.fx@.len() - i,
        {
            let layer = &self.fx[i];
            let ghost before = all_defs(fs, i as nat);
            assert(fs[i as int] == layer@);
            assert(all_defs(fs, (i + 1) as nat) == before + def_views(layer.defs@));
            let mut k: usize = 0;
            while k < layer.defs.len()
                invariant
                    k <= layer.defs@.len(),
                    i < fs.len(),
                    fs == fx_views(self.fx@),
                    before == all_defs(fs, i as nat),
                    all_defs(fs, (i + 1) as nat) == before + def_views(layer.defs@),
                    forall|j: int|
                        0 <= j < before.len() + k ==> !(lower_seq(
                            #[trigger] (before + def_views(layer.defs@))[j].0,
                        ) == lower_seq(name@) && (before + def_views(layer.defs@))[j].1 is String),
                decreases layer.defs@.len() - k,
            {
                let ghost all = before + def_views(layer.defs@);
                assert(all[before.len() + k] == (layer.defs@[k as int].0@, layer.defs@[k as int].1@));
                if eq_ignore_ascii_case(layer.defs[k].0.as_str(), name) {
                    match &layer.defs[k].1 {
                        MatValue::String(s) => {
                            proof {
                                lemma_all_defs_prefix(fs, (i + 1) as nat, fs.len());
                                let whole = all_defs(fs, fs.len());
                                let kk = before.len() + k;
                                assert(whole.subrange(0, all.len() as int) == all);
                                assert(whole[kk] == all[kk]);
                                assert(first_string_def(whole, name@, kk)) by {
                                    assert forall|j: int| 0 <= j < kk implies !(lower_seq(
                                        #[trigger] whole[j].0,
                                    ) == lower_seq(name@) && whole[j].1 is String) by {
                                        assert(whole[j] == all[j]);
                                    }
                                }
                                lemma_first_string_unique(whole, name@, kk);
                            }
                            return Some(s.as_str());
                        },
                        _ => {},
                    }
                }
                k += 1;
            }
            i += 1;
        }
        proof {
            let whole = all_defs(fs, fs.len());
            assert(!exists|k: int| first_string_def(whole, name@, k));
        }
        None
    }

    /// The first string definition `tDiffuseMap`.
    pub fn diffuse_map(&self) -> (r: Option<&str>)
        ensures
            match r {
                Some(s) => string_def_of(all_defs(self.fx_list(), self.fx_list().len()), "tDiffuseMap"@)
                    == Some(s@),
                None => string_def_of(all_defs(self.fx_list(), self.fx_list().len()), "tDiffuseMap"@)
                    is None,
            },
    {
        self.string_def("tDiffuseMap")
    }

    /// The first string definition `tNormalMap`.
    pub fn normal_map(&self) -> (r: Option<&str>)
        ensures
            match r {
                Some(s) => string_def_of(all_defs(self.fx_list(), self.fx_list().len()), "tNormalMap"@)
                    == Some(s@),
                None => string_def_of(all_defs(self.fx_list(), self.fx_list().len()), "tNormalMap"@)
                    is None,
            },
    {
        self.string_def("tNormalMap")
    }

    /// The first string definition `tSpecularMap`.
    pub fn specular_map(&self) -> (r: Option<&str>)
        ensures
            match r {
                Some(s) => string_def_of(all_defs(self.fx_list(), self.fx_list().len()), "tSpecularMap"@)
                    == Some(s@),
                None => string_def_of(all_defs(self.fx_list(), self.fx_list().len()), "tSpecularMap"@)
                    is None,
            },
    {
        self.string_def("tSpecularMap")
    }

    /// The shader path of the first FX; it tells a skybox from an ordinary wall.
    pub fn shader(&self) -> (r: Option<&str>)
        ensures
            self.fx_list().len() == 0 ==> r is None,
            self.fx_list().len() > 0 ==> (r matches Some(s) && s@ == self.fx_list()[0].shader),
    {
        if self.fx.len() == 0 {
            None
        } else {
            assert(self.fx_list()[0] == self.fx@[0]@);
            Some(self.fx[0].shader.as_str())
        }
    }

    /// `skybox.fx` samples a cubemap through the cube's normal: it is no flat wall.
    pub fn is_skybox(&self) -> (r: bool)
        ensures
            r == (self.fx_list().len() > 0 && contains(
                lower_seq(self.fx_list()[0].shader),
                "skybox"@,
            )),
    {
        match self.shader() {
            None => false,
            Some(s) => contains_chars(&lower_chars(&chars_of(s)), &chars_of("skybox")),
        }
    }

    /// The bits of the first float definition named `name`, compared without ASCII case.
    pub fn float_def(&self, name: &str) -> (r: Option<u32>)
        ensures
            r == float_def_of(all_defs(self.fx_list(), self.fx_list().len()), name@),
    {
        let ghost fs = self.fx_list();
        let mut i: usize = 0;
        while i < self.fx.len()
            invariant
                i <= self.fx@.len(),
                fs == fx_views(self.fx@),
                forall|j: int|
                    0 <= j < all_defs(fs, i as nat).len() ==> !(lower_seq(
                        #[trigger] all_defs(fs, i as nat)[j].0,
                    ) == lower_seq(name@) && all_defs(fs, i as nat)[j].1 is Float),
            decreases self.fx@.len() - i,
        {
            let layer = &self.fx[i];
            let ghost before = all_defs(fs, i as nat);
            assert(fs[i as int] == layer@);
            assert(all_defs(fs, (i + 1) as nat) == before + def_views(layer.defs@));
            let mut k: usize = 0;
            while k < layer.defs.len()
                invariant
                    k <= layer.defs@.len(),
                    i < fs.len(),
                    fs == fx_views(self.fx@),
                    before == all_defs(fs, i as nat),
                    all_defs(fs, (i + 1) as nat) == before + def_views(layer.defs@),
                    forall|j: int|
                        0 <= j < before.len() + k ==> !(lower_seq(
                            #[trigger] (before + def_views(layer.defs@))[j].0,
                        ) == lower_seq(name@) && (before + def_views(layer.defs@))[j].1 is Float),
                decreases layer.defs@.len() - k,
            {
                let ghost all = before + def_views(layer.defs@);
                assert(all[before.len() + k] == (layer.defs@[k as int].0@, layer.defs@[k as int].1@));
                if eq_ignore_ascii_case(layer.defs[k].0.as_str(), name) {
                    match &layer.defs[k].1 {
                        MatValue::Float(v) => {
                            proof {
                                lemma_all_defs_prefix(fs, (i + 1) as nat, fs.len());
                                let whole = all_defs(fs, fs.len());
                                let kk = before.len() + k;
                                assert(whole.subrange(0, all.len() as int) == all);
                                assert(whole[kk] == all[kk]);
                                assert(first_float_def(whole, name@, kk)) by {
                                    assert forall|j: int| 0 <= j < kk implies !(lower_seq(
                                        #[trigger] whole[j].0,
                                    ) == lower_seq(name@) && whole[j].1 is Float) by {
                                        assert(whole[j] == all[j]);
                                    }
                                }
                                lemma_first_float_unique(whole, name@, kk);
                            }
                            return Some(*v);
                        },
                        _ => {},
                    }
                }
                k += 1;
            }
            i += 1;
        }
        proof {
            let whole = all_defs(fs, fs.len());
            assert(!exists|k: int| first_float_def(whole, name@, k));
        }
        None
    }

    /// The bits of `fMaxSpecularPower`, or of 64.0 when the material names none.
    pub fn max_specular_power(&self) -> (r: u32)
        ensures
            r == match float_def_of(all_defs(self.fx_list(), self.fx_list().len()), "fMaxSpecularPower"@) {
                Some(v) => v,
                None => DEFAULT_SPECULAR_POWER_BITS,
            },
    {
        match self.float_def("fMaxSpecularPower") {
            Some(v) => v,
            None => DEFAULT_SPECULAR_POWER_BITS,
        }
    }
}

proof fn lemma_all_defs_prefix(fs: Seq<FxView>, k: nat, n: nat)
    requires
        k <= n <= fs.len(),
    ensures
        all_defs(fs, n).len() >= all_defs(fs, k).len(),
        all_defs(fs, n).subrange(0, all_defs(fs, k).len() as int) == all_defs(fs, k),
    decreases n - k,
{
    if n > k {
        lemma_all_defs_prefix(fs, k, (n - 1) as nat);
        let a = all_defs(fs, (n - 1) as nat);
        assert(all_defs(fs, n).subrange(0, a.len() as int) == a);
        assert(all_defs(fs, n).subrange(0, all_defs(fs, k).len() as int) =~= a.subrange(
            0,
            all_defs(fs, k).len() as int,
        ));
    }
}

proof fn lemma_first_string_unique(ds: Seq<(Seq<char>, MatView)>, name: Seq<char>, k: int)
    requires
        first_string_def(ds, name, k),
    ensures
        string_def_of(ds, name) == Some(ds[k].1->String_0),
{
    let c = choose|c: int| first_string_def(ds, name, c);
    if c < k {
        assert(!(lower_seq(ds[c].0) == lower_seq(name) && ds[c].1 is String));
    } else if k < c {
        assert(!(lower_seq(ds[k].0) == lower_seq(name) && ds[k].1 is String));
    }
}

proof fn lemma_first_float_unique(ds: Seq<(Seq<char>, MatView)>, name: Seq<char>, k: int)
    requires
        first_float_def(ds, name, k),
    ensures
        float_def_of(ds, name) == Some(ds[k].1->Float_0),
{
    let c = choose|c: int| first_float_def(ds, name, c);
    if c < k {
        assert(!(lower_seq(ds[c].0) == lower_seq(name) && ds[c].1 is Float));
    } else if k < c {
        assert(!(lower_seq(ds[k].0) == lower_seq(name) && ds[k].1 is Float));
    }
}


/// Looking up a definition does not depend on the ASCII case of its name.
pub proof fn law_string_def_ignores_case(ds: Seq<(Seq<char>, MatView)>, a: Seq<char>, b: Seq<char>)
    requires
        lower_seq(a) == lower_seq(b),
    ensures
        string_def_of(ds, a) == string_def_of(ds, b),
{
    if exists|k: int| first_string_def(ds, a, k) {
        let k = choose|k: int| first_string_def(ds, a, k);
        assert(first_string_def(ds, b, k));
        lemma_first_string_unique(ds, a, k);
        lemma_first_string_unique(ds, b, k);
    } else {
        assert forall|k: int| !first_string_def(ds, b, k) by {
            if first_string_def(ds, b, k) {
                assert(first_string_def(ds, a, k));
            }
        }
    }
}

/// A definition value of a fixed-size type is little-endian 32-bit words right at `p`:
/// a Vec3 is 3 words (12 bytes), a Vec4 4 words (16 bytes), an Int or a Float one word
/// (4 bytes). The value is read exactly when those bytes are there, else the read runs
/// out; the next definition starts right after the value's last word.
pub proof fn law_mat_value_words(b: Seq<u8>, p: int)
    ensures
        mat_value_at(b, p, 2) == (if 0 <= p && p + 12 <= b.len() {
            Ok::<(MatView, int), AssetError>(
                (MatView::Vec3(Vec3Bits { x: le_u32(b, p), y: le_u32(b, p + 4), z: le_u32(b, p + 8) }), p + 12),
            )
        } else {
            Err::<(MatView, int), AssetError>(AssetError::UnexpectedEof)
        }),
        mat_value_at(b, p, 3) == (if 0 <= p && p + 16 <= b.len() {
            Ok::<(MatView, int), AssetError>(
                (
                    MatView::Vec4(
                        QuatBits {
                            x: le_u32(b, p),
                            y: le_u32(b, p + 4),
                            z: le_u32(b, p + 8),
                            w: le_u32(b, p + 12),
                        },
                    ),
                    p + 16,
                ),
            )
        } else {
            Err::<(MatView, int), AssetError>(AssetError::UnexpectedEof)
        }),
        mat_value_at(b, p, 4) == (if 0 <= p && p + 4 <= b.len() {
            Ok::<(MatView, int), AssetError>((MatView::Int(as_signed(le_u32(b, p))), p + 4))
        } else {
            Err::<(MatView, int), AssetError>(AssetError::UnexpectedEof)
        }),
        mat_value_at(b, p, 5) == (if 0 <= p && p + 4 <= b.len() {
            Ok::<(MatView, int), AssetError>((MatView::Float(le_u32(b, p)), p + 4))
        } else {
            Err::<(MatView, int), AssetError>(AssetError::UnexpectedEof)
        }),
{
}

} // verus!
