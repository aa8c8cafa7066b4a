//! A retail archive of either kind: F.E.A.R. 1 uses Arch00 (`LTAR`); older LithTech titles
//! use REZ.
use vstd::prelude::*;

use super::arch00::{arch_index, arch_read, has_ltar_magic, Arch00, ArchFileView};
use super::error::AssetError;
use super::rez::{rez_index, rez_read, RezArchive, RezEntryView};

verus! {

pub enum GameArchive {
    Arch00(Arch00),
    Rez(RezArchive),
}

/// REZ files open with CR LF.
pub open spec fn has_rez_magic(d: Seq<u8>) -> bool {
    d.len() >= 2 && d[0] == 13 && d[1] == 10
}

/// What opening the file `path` with bytes `d` gives, by its first four bytes.
pub open spec fn opens_as(path: Seq<char>, d: Seq<u8>, r: Result<GameArchive, AssetError>) -> bool {
    if d.len() < 4 {
        r matches Err(AssetError::UnexpectedEof)
    } else if has_ltar_magic(d) {
        match arch_index(d) {
            Ok(fs) => r matches Ok(GameArchive::Arch00(a)) && a.entries() == fs && a.bytes() == d,
            Err(e) => r == Err::<GameArchive, AssetError>(e),
        }
    } else if has_rez_magic(d) {
        match rez_index(d) {
            Some(Ok(es)) => r matches Ok(GameArchive::Rez(z)) && z.entry_list() == es && z.bytes()
                == d,
            Some(Err(e)) => r == Err::<GameArchive, AssetError>(e),
            None => false,
        }
    } else {
        r matches Err(AssetError::UnknownArchive(p, m)) && p@ == path && m@ == d.take(4)
    }
}

impl GameArchive {
    /// Open the archive file `path` from its bytes. A REZ file must be one whose directory
    /// can be listed within its bytes (`RezArchive::in_bounds`).
    pub fn from_bytes(path: &str, data: Vec<u8>) -> (r: Result<Self, AssetError>)
        requires
            data@.len() >= 4 && !has_ltar_magic(data@) && has_rez_magic(data@) ==> rez_index(
                data@,
            ) is Some,
        ensures
            opens_as(path@, data@, r),
    {
        if data.len() < 4 {
            return Err(AssetError::UnexpectedEof);
        }
        let magic: [u8; 4] = [data[0], data[1], data[2], data[3]];
        if magic[0] == 0x4c && magic[1] == 0x54 && magic[2] == 0x41 && magic[3] == 0x52 {
            match Arch00::from_reader(data) {
                Ok(a) => Ok(GameArchive::Arch00(a)),
                Err(e) => Err(e),
            }
        } else if magic[0] == 13 && magic[1] == 10 {
            match RezArchive::from_reader(data) {
                Ok(z) => Ok(GameArchive::Rez(z)),
                Err(e) => Err(e),
            }
        } else {
            let r = Err(AssetError::UnknownArchive(path.to_owned(), magic));
            assert(magic@ == data@.take(4));
            r
        }
    }

    /// The paths of all entries, in archive order.
    pub fn list(&self) -> (r: Vec<String>)
        ensures
            r@.map_values(|s: String| s@) == match *self {
                GameArchive::Arch00(a) => a.entries().map_values(|f: ArchFileView| f.path),
                GameArchive::Rez(z) => z.entry_list().map_values(|e: RezEntryView| e.path),
            },
    {
        let mut out: Vec<String> = Vec::new();
        match self {
            GameArchive::Arch00(a) => {
                let files = a.files();
                let mut i: usize = 0;
                while i < files.len()
                    invariant
                        i <= files@.len(),
                        super::arch00::views(files@) == a.entries(),
                        out@.map_values(|s: String| s@) == a.entries().take(i as int).map_values(
                            |f: ArchFileView| f.path,
                        ),
                    decreases files@.len() - i,
                {
                    assert(super::arch00::views(files@)[i as int] == files@[i as int]@);
                    let ghost before = out@;
                    out.push(files[i].path.clone());
                    assert(out@.map_values(|s: String| s@) =~= before.map_values(|s: String| s@).push(
                        a.entries()[i as int].path,
                    ));
                    assert(out@.map_values(|s: String| s@) =~= a.entries().take(i + 1).map_values(
                        |f: ArchFileView| f.path,
                    ));
                    i += 1;
                }
                assert(a.entries().take(files@.len() as int) == a.entries());
            },
            GameArchive::Rez(z) => {
                let entries = z.entries();
                let mut i: usize = 0;
                while i < entries.len()
                    invariant
                        i <= entries@.len(),
                        super::rez::entry_views(entries@) == z.entry_list(),
                        out@.map_values(|s: String| s@) == z.entry_list().take(
                            i as int,
                        ).map_values(|e: RezEntryView| e.path),
                    decreases entries@.len() - i,
                {
                    assert(super::rez::entry_views(entries@)[i as int] == entries@[i as int]@);
                    let ghost before = out@;
                    out.push(entries[i].path.clone());
                    assert(out@.map_values(|s: String| s@) =~= before.map_values(|s: String| s@).push(
                        z.entry_list()[i as int].path,
                    ));
                    assert(out@.map_values(|s: String| s@) =~= z.entry_list().take(
                        i + 1,
                    ).map_values(|e: RezEntryView| e.path));
                    i += 1;
                }
                assert(z.entry_list().take(entries@.len() as int) == z.entry_list());
            },
        }
        out
    }

    /// The bytes of the entry at `path`.
    pub fn read(&self, path: &str) -> (r: Result<Vec<u8>, AssetError>)
        ensures
            match *self {
                GameArchive::Arch00(a) => arch_read(a.entries(), a.bytes(), path@, r),
                GameArchive::Rez(z) => rez_read(z.entry_list(), z.bytes(), path@, r),
            },
    {
        match self {
            GameArchive::Arch00(a) => a.read(path),
            GameArchive::Rez(z) => z.read(path),
        }
    }
}

} // verus!
