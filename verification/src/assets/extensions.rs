//! Resource extensions from the public F.E.A.R. SDK 1.08 (`resourceextensions.h`).
use vstd::prelude::*;

use crate::text::{chars_of, lower_chars, lower_seq, same_chars};

verus! {

#[derive(Debug, Clone, Copy, PartialEq, Eq, Structural)]
pub enum ResourceKind {
    WorldPacked,
    WorldCompressed,
    WorldAscii,
    MeshPacked,
    ObjectsPacked,
    ModelPacked,
    ModelCompressed,
    ModelAscii,
    EffectPacked,
    TextureDds,
    TexturePacked,
    MaterialPacked,
    Material,
    GameDatabasePacked,
    StringDatabasePacked,
    AnimTreePacked,
    SoundWav,
    ArchiveArch00,
    ArchiveRez,
    Other,
}

/// A character that ends a path's extension from the left: a dot or either slash.
pub open spec fn is_ext_sep(c: char) -> bool {
    c == '.' || c == '/' || c == '\\'
}

/// What follows the last dot or slash of `s` (all of `s` when there is none).
pub open spec fn last_segment(s: Seq<char>) -> Seq<char>
    decreases s.len(),
{
    if s.len() == 0 {
        s
    } else if is_ext_sep(s.last()) {
        Seq::empty()
    } else {
        last_segment(s.drop_last()).push(s.last())
    }
}

/// The kind that a lowercase extension names.
pub open spec fn kind_of_ext(e: Seq<char>) -> ResourceKind {
    if e == "world00p"@ {
        ResourceKind::WorldPacked
    } else if e == "world00c"@ {
        ResourceKind::WorldCompressed
    } else if e == "world00a"@ {
        ResourceKind::WorldAscii
    } else if e == "mesh00p"@ {
        ResourceKind::MeshPacked
    } else if e == "objects00p"@ {
        ResourceKind::ObjectsPacked
    } else if e == "model00p"@ {
        ResourceKind::ModelPacked
    } else if e == "model00c"@ {
        ResourceKind::ModelCompressed
    } else if e == "model00a"@ {
        ResourceKind::ModelAscii
    } else if e == "fx00p"@ {
        ResourceKind::EffectPacked
    } else if e == "dds"@ {
        ResourceKind::TextureDds
    } else if e == "texture00p"@ {
        ResourceKind::TexturePacked
    } else if e == "mat00p"@ {
        ResourceKind::MaterialPacked
    } else if e == "mat00"@ {
        ResourceKind::Material
    } else if e == "gamdb00p"@ {
        ResourceKind::GameDatabasePacked
    } else if e == "strdb00p"@ {
        ResourceKind::StringDatabasePacked
    } else if e == "anmtree00p"@ {
        ResourceKind::AnimTreePacked
    } else if e == "wav"@ {
        ResourceKind::SoundWav
    } else if e == "arch00"@ || e == "arch01"@ {
        ResourceKind::ArchiveArch00
    } else if e == "rez"@ {
        ResourceKind::ArchiveRez
    } else {
        ResourceKind::Other
    }
}

/// The characters after the last dot or slash.
fn last_segment_chars(s: &Vec<char>) -> (r: Vec<char>)
    ensures
        r@ == last_segment(s@),
{
    let mut seg: Vec<char> = Vec::new();
    let mut i: usize = 0;
    while i < s.len()
        invariant
            i <= s@.len(),
            seg@ == last_segment(s@.take(i as int)),
        decreases s@.len() - i,
    {
        let c = s[i];
        assert(s@.take(i + 1).drop_last() == s@.take(i as int));
        if c == '.' || c == '/' || c == '\\' {
            seg = Vec::new();
        } else {
            seg.push(c);
        }
        i += 1;
    }
    assert(s@.take(s@.len() as int) == s@);
    seg
}

fn is_ext(e: &Vec<char>, name: &str) -> (r: bool)
    ensures
        r == (e@ == name@),
{
    same_chars(e, &chars_of(name))
}

/// The kind of resource a path names, from its extension, compared without ASCII case.
pub fn kind_from_path(path: &str) -> (r: ResourceKind)
    ensures
        r == kind_of_ext(lower_seq(last_segment(path@))),
{
    let e = lower_chars(&last_segment_chars(&chars_of(path)));
    if is_ext(&e, "world00p") {
        ResourceKind::WorldPacked
    } else if is_ext(&e, "world00c") {
        ResourceKind::WorldCompressed
    } else if is_ext(&e, "world00a") {
        ResourceKind::WorldAscii
    } else if is_ext(&e, "mesh00p") {
        ResourceKind::MeshPacked
    } else if is_ext(&e, "objects00p") {
        ResourceKind::ObjectsPacked
    } else if is_ext(&e, "model00p") {
        ResourceKind::ModelPacked
    } else if is_ext(&e, "model00c") {
        ResourceKind::ModelCompressed
    } else if is_ext(&e, "model00a") {
        ResourceKind::ModelAscii
    } else if is_ext(&e, "fx00p") {
        ResourceKind::EffectPacked
    } else if is_ext(&e, "dds") {
        ResourceKind::TextureDds
    } else if is_ext(&e, "texture00p") {
        ResourceKind::TexturePacked
    } else if is_ext(&e, "mat00p") {
        ResourceKind::MaterialPacked
    } else if is_ext(&e, "mat00") {
        ResourceKind::Material
    } else if is_ext(&e, "gamdb00p") {
        ResourceKind::GameDatabasePacked
    } else if is_ext(&e, "strdb00p") {
        ResourceKind::StringDatabasePacked
    } else if is_ext(&e, "anmtree00p") {
        ResourceKind::AnimTreePacked
    } else if is_ext(&e, "wav") {
        ResourceKind::SoundWav
    } else if is_ext(&e, "arch00") || is_ext(&e, "arch01") {
        ResourceKind::ArchiveArch00
    } else if is_ext(&e, "rez") {
        ResourceKind::ArchiveRez
    } else {
        ResourceKind::Other
    }
}

/// The extensions of the SDK and the kinds they name: a path whose last segment reads
/// one of them, in any ASCII case, is of that kind.
pub proof fn law_extension_kinds(path: Seq<char>)
    ensures
        ({
            let e = lower_seq(last_segment(path));
            &&& e == "world00p"@ ==> kind_of_ext(e) == ResourceKind::WorldPacked
            &&& e == "world00c"@ ==> kind_of_ext(e) == ResourceKind::WorldCompressed
            &&& e == "world00a"@ ==> kind_of_ext(e) == ResourceKind::WorldAscii
            &&& e == "mesh00p"@ ==> kind_of_ext(e) == ResourceKind::MeshPacked
            &&& e == "objects00p"@ ==> kind_of_ext(e) == ResourceKind::ObjectsPacked
            &&& e == "model00p"@ ==> kind_of_ext(e) == ResourceKind::ModelPacked
            &&& e == "model00c"@ ==> kind_of_ext(e) == ResourceKind::ModelCompressed
            &&& e == "model00a"@ ==> kind_of_ext(e) == ResourceKind::ModelAscii
            &&& e == "fx00p"@ ==> kind_of_ext(e) == ResourceKind::EffectPacked
            &&& e == "dds"@ ==> kind_of_ext(e) == ResourceKind::TextureDds
            &&& e == "texture00p"@ ==> kind_of_ext(e) == ResourceKind::TexturePacked
            &&& e == "mat00p"@ ==> kind_of_ext(e) == ResourceKind::MaterialPacked
            &&& e == "mat00"@ ==> kind_of_ext(e) == ResourceKind::Material
            &&& e == "gamdb00p"@ ==> kind_of_ext(e) == ResourceKind::GameDatabasePacked
            &&& e == "strdb00p"@ ==> kind_of_ext(e) == ResourceKind::StringDatabasePacked
            &&& e == "anmtree00p"@ ==> kind_of_ext(e) == ResourceKind::AnimTreePacked
            &&& e == "wav"@ ==> kind_of_ext(e) == ResourceKind::SoundWav
            &&& e == "arch00"@ ==> kind_of_ext(e) == ResourceKind::ArchiveArch00
            &&& e == "arch01"@ ==> kind_of_ext(e) == ResourceKind::ArchiveArch00
            &&& e == "rez"@ ==> kind_of_ext(e) == ResourceKind::ArchiveRez
        }),
{
    reveal_strlit("world00p");
    reveal_strlit("world00c");
    reveal_strlit("world00a");
    reveal_strlit("mesh00p");
    reveal_strlit("objects00p");
    reveal_strlit("model00p");
    reveal_strlit("model00c");
    reveal_strlit("model00a");
    reveal_strlit("fx00p");
    reveal_strlit("dds");
    reveal_strlit("texture00p");
    reveal_strlit("mat00p");
    reveal_strlit("mat00");
    reveal_strlit("gamdb00p");
    reveal_strlit("strdb00p");
    reveal_strlit("anmtree00p");
    reveal_strlit("wav");
    reveal_strlit("arch00");
    reveal_strlit("arch01");
    reveal_strlit("rez");
    assert("world00p"@.len() == 8 && "world00p"@[0] == 'w' && "world00p"@[7] == 'p');
    assert("world00c"@.len() == 8 && "world00c"@[0] == 'w' && "world00c"@[7] == 'c');
    assert("world00a"@.len() == 8 && "world00a"@[0] == 'w' && "world00a"@[7] == 'a');
    assert("mesh00p"@.len() == 7 && "mesh00p"@[0] == 'm');
    assert("objects00p"@.len() == 10 && "objects00p"@[0] == 'o');
    assert("model00p"@.len() == 8 && "model00p"@[0] == 'm' && "model00p"@[7] == 'p');
    assert("model00c"@.len() == 8 && "model00c"@[0] == 'm' && "model00c"@[7] == 'c');
    assert("model00a"@.len() == 8 && "model00a"@[0] == 'm' && "model00a"@[7] == 'a');
    assert("fx00p"@.len() == 5 && "fx00p"@[0] == 'f');
    assert("dds"@.len() == 3 && "dds"@[0] == 'd');
    assert("texture00p"@.len() == 10 && "texture00p"@[0] == 't');
    assert("mat00p"@.len() == 6 && "mat00p"@[0] == 'm' && "mat00p"@[5] == 'p');
    assert("mat00"@.len() == 5 && "mat00"@[0] == 'm');
    assert("gamdb00p"@.len() == 8 && "gamdb00p"@[0] == 'g' && "gamdb00p"@[7] == 'p');
    assert("strdb00p"@.len() == 8 && "strdb00p"@[0] == 's' && "strdb00p"@[7] == 'p');
    assert("anmtree00p"@.len() == 10 && "anmtree00p"@[0] == 'a');
    assert("wav"@.len() == 3 && "wav"@[0] == 'w');
    assert("arch00"@.len() == 6 && "arch00"@[0] == 'a' && "arch00"@[5] == '0');
    assert("arch01"@.len() == 6 && "arch01"@[0] == 'a' && "arch01"@[5] == '1');
    assert("rez"@.len() == 3 && "rez"@[0] == 'r');
    assert(kind_of_ext("world00p"@) == ResourceKind::WorldPacked);
    assert(kind_of_ext("world00c"@) == ResourceKind::WorldCompressed);
    assert(kind_of_ext("world00a"@) == ResourceKind::WorldAscii);
    assert(kind_of_ext("mesh00p"@) == ResourceKind::MeshPacked);
    assert(kind_of_ext("objects00p"@) == ResourceKind::ObjectsPacked);
    assert(kind_of_ext("model00p"@) == ResourceKind::ModelPacked);
    assert(kind_of_ext("model00c"@) == ResourceKind::ModelCompressed);
    assert(kind_of_ext("model00a"@) == ResourceKind::ModelAscii);
    assert(kind_of_ext("fx00p"@) == ResourceKind::EffectPacked);
    assert(kind_of_ext("dds"@) == ResourceKind::TextureDds);
    assert(kind_of_ext("texture00p"@) == ResourceKind::TexturePacked);
    assert(kind_of_ext("mat00p"@) == ResourceKind::MaterialPacked);
    assert(kind_of_ext("mat00"@) == ResourceKind::Material);
    assert(kind_of_ext("gamdb00p"@) == ResourceKind::GameDatabasePacked);
    assert(kind_of_ext("strdb00p"@) == ResourceKind::StringDatabasePacked);
    assert(kind_of_ext("anmtree00p"@) == ResourceKind::AnimTreePacked);
    assert(kind_of_ext("wav"@) == ResourceKind::SoundWav);
    assert(kind_of_ext("arch00"@) == ResourceKind::ArchiveArch00);
    assert(kind_of_ext("arch01"@) == ResourceKind::ArchiveArch00);
    assert(kind_of_ext("rez"@) == ResourceKind::ArchiveRez);
}

/// Each kind but `Other` is named by one extension only (`arch00` and `arch01` both
/// name an archive), so two different extensions never give the same known kind.
pub proof fn law_extension_kinds_distinct(e1: Seq<char>, e2: Seq<char>)
    requires
        e1 != e2,
        kind_of_ext(e1) == kind_of_ext(e2),
    ensures
        kind_of_ext(e1) == ResourceKind::Other || (kind_of_ext(e1) == ResourceKind::ArchiveArch00
            && (e1 == "arch00"@ || e1 == "arch01"@) && (e2 == "arch00"@ || e2 == "arch01"@)),
{
}

/// The extension of a path is what follows its last dot: a path `prefix.ext`, where `ext`
/// holds no dot or slash, has the kind that `ext` names without ASCII case.
pub proof fn law_kind_after_last_dot(prefix: Seq<char>, ext: Seq<char>)
    requires
        forall|i: int| 0 <= i < ext.len() ==> !is_ext_sep(#[trigger] ext[i]),
    ensures
        last_segment(prefix.push('.') + ext) == ext,
        kind_of_ext(lower_seq(last_segment(prefix.push('.') + ext))) == kind_of_ext(lower_seq(ext)),
    decreases ext.len(),
{
    let p = prefix.push('.') + ext;
    if ext.len() == 0 {
        assert(p == prefix.push('.'));
        assert(p.last() == '.');
    } else {
        law_kind_after_last_dot(prefix, ext.drop_last());
        assert(p.drop_last() == prefix.push('.') + ext.drop_last());
        assert(p.last() == ext.last());
        assert(ext.drop_last().push(ext.last()) == ext);
    }
}

} // verus!
