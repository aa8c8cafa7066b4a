//! Telling sky surfaces from walls: by the material's shader, or by its name.
use vstd::prelude::*;

use crate::assets::arch00::arch_read;
use crate::assets::archive::GameArchive;
use crate::assets::error::AssetError;
use crate::assets::keys::{material_key, replace_all, slashes};
use crate::assets::mat00::{material_of, FxView, Material};
use crate::assets::rez::rez_read;
use crate::text::{chars_of, contains, contains_chars, lower_chars, lower_seq};

verus! {

/// The sky material of Intro.
pub const INTRO_SKY_MAT: &'static str = "Prefabs\\Systemic\\Sky\\Sky_Day.Mat00";

/// A material name that is a sky even without its folder, such as `Sky_Day.Mat00`.
pub open spec fn sky_name(material: Seq<char>) -> bool {
    let n = lower_seq(material);
    contains(n, "sky_day"@) || contains(n, "sky_night"@) || contains(n, "skybox"@) || contains(
        n,
        "cloudplane"@,
    )
}

/// Whether a material's name alone says it is sky.
pub fn looks_like_sky_surface(material: &str) -> (r: bool)
    ensures
        r == sky_name(material@),
{
    let n = lower_chars(&chars_of(material));
    contains_chars(&n, &chars_of("sky_day")) || contains_chars(&n, &chars_of("sky_night"))
        || contains_chars(&n, &chars_of("skybox")) || contains_chars(&n, &chars_of("cloudplane"))
}

/// The material's first FX uses a skybox shader.
pub open spec fn skybox_fx(fs: Seq<FxView>) -> bool {
    fs.len() > 0 && contains(lower_seq(fs[0].shader), "skybox"@)
}

/// Whether a surface's material is sky: its bytes parse to a skybox material, or its name
/// says so. `material_bytes` is what reading the material from the archives gave, if
/// anything.
pub fn is_skybox_material(material: &str, material_bytes: Option<&[u8]>) -> (r: bool)
    ensures
        r == (match material_bytes {
            Some(b) => material_of(b@) matches Ok(fs) && skybox_fx(fs),
            None => false,
        } || sky_name(material@)),
{
    let by_shader = match material_bytes {
        Some(b) => match Material::parse(b) {
            Ok(m) => m.is_skybox(),
            Err(_) => false,
        },
        None => false,
    };
    by_shader || looks_like_sky_surface(material)
}

/// What reading `path` from `archive` may give.
pub open spec fn archive_reads(archive: GameArchive, path: Seq<char>, r: Result<Vec<u8>, AssetError>) -> bool {
    match archive {
        GameArchive::Arch00(a) => arch_read(a.entries(), a.bytes(), path, r),
        GameArchive::Rez(z) => rez_read(z.entry_list(), z.bytes(), path, r),
    }
}

/// Whether a surface's material is sky, reading the material from `archive` under its
/// archive key: a material that reads and parses to a skybox material, or a sky name.
pub fn is_skybox_in(archive: &GameArchive, material: &str) -> (r: bool)
    ensures
        exists|rd: Result<Vec<u8>, AssetError>|
            archive_reads(*archive, slashes(replace_all(material@, "Tile_MIrrow02"@, "Tile_Mirror02"@)), rd)
                && r == (match rd {
                Ok(b) => material_of(b@) matches Ok(fs) && skybox_fx(fs),
                Err(_) => false,
            } || sky_name(material@)),
{
    let key = material_key(material);
    let rd = archive.read(key.as_str());
    let r = match &rd {
        Ok(b) => is_skybox_material(material, Some(b.as_slice())),
        Err(_) => is_skybox_material(material, None),
    };
    assert(archive_reads(*archive, slashes(replace_all(material@, "Tile_MIrrow02"@, "Tile_Mirror02"@)), rd));
    r
}

} // verus!
