//! Jupiter EX Arch00 (`LTAR`) used by retail F.E.A.R.
//!
//! Layout (little-endian), documented by community extractors:
//! header 48 bytes, name table, file entries (32 B), folder entries (16 B), payloads.
use vstd::prelude::*;

use super::bytes::{cstring_at, get_u32, le_u32, read_cstring, slice_subrange, slice_to_vec};
use super::error::AssetError;
use super::inflate::{bytes_result, decompress_payload, payload_bytes};
use super::keys::{archive_key, slashes};
use crate::text::{chars_of, eq_ignore_ascii_case, lower_seq, string_of};

verus! {

pub const LTAR_MAGIC: [u8; 4] = [0x4c, 0x54, 0x41, 0x52];

pub const COMP_RAW: u32 = 0;

pub const COMP_ZLIB: u32 = 9;

/// Bytes of the archive header.
pub const ARCH_HEADER_SIZE: usize = 48;

#[derive(Debug, Clone, Copy, PartialEq, Eq, Structural)]
pub struct ArchHeader {
    pub version: u32,
    pub name_table_size: u32,
    pub folder_count: u32,
    pub file_count: u32,
}

/// The first four bytes spell `LTAR`.
pub open spec fn has_ltar_magic(b: Seq<u8>) -> bool {
    b.len() >= 4 && b[0] == 0x4c && b[1] == 0x54 && b[2] == 0x41 && b[3] == 0x52
}

pub open spec fn header_fields(b: Seq<u8>) -> ArchHeader {
    ArchHeader {
        version: le_u32(b, 4),
        name_table_size: le_u32(b, 8),
        folder_count: le_u32(b, 12),
        file_count: le_u32(b, 16),
    }
}

fn ltar_magic(b: &[u8]) -> (r: bool)
    requires
        b@.len() >= 4,
    ensures
        r == has_ltar_magic(b@),
{
    b[0] == LTAR_MAGIC[0] && b[1] == LTAR_MAGIC[1] && b[2] == LTAR_MAGIC[2] && b[3]
        == LTAR_MAGIC[3]
}

impl ArchHeader {
    /// The header fields; the 48 bytes must be there and start with `LTAR`.
    pub fn parse(bytes: &[u8]) -> (r: Result<Self, AssetError>)
        ensures
            bytes@.len() < 48 ==> r == Err::<ArchHeader, AssetError>(
                AssetError::Truncated("Arch00 header"),
            ),
            bytes@.len() >= 48 && !has_ltar_magic(bytes@) ==> r == Err::<ArchHeader, AssetError>(
                AssetError::Invalid("LTAR magic"),
            ),
            bytes@.len() >= 48 && has_ltar_magic(bytes@) ==> r == Ok::<ArchHeader, AssetError>(
                header_fields(bytes@),
            ),
    {
        if bytes.len() < ARCH_HEADER_SIZE {
            return Err(AssetError::Truncated("Arch00 header"));
        }
        if !ltar_magic(bytes) {
            return Err(AssetError::Invalid("LTAR magic"));
        }
        Ok(ArchHeader {
            version: get_u32(bytes, 4),
            name_table_size: get_u32(bytes, 8),
            folder_count: get_u32(bytes, 12),
            file_count: get_u32(bytes, 16),
        })
    }
}

#[derive(Debug, Clone, Copy, PartialEq, Eq, Structural)]
pub enum Compression {
    Raw,
    Zlib,
}

#[derive(Debug)]
pub struct ArchFile {
    pub path: String,
    pub offset: u64,
    pub compressed_size: u32,
    pub raw_size: u32,
    pub compression: Compression,
}

pub ghost struct ArchFileView {
    pub path: Seq<char>,
    pub offset: u64,
    pub compressed_size: u32,
    pub raw_size: u32,
    pub compression: Compression,
}

impl View for ArchFile {
    type V = ArchFileView;

    open spec fn view(&self) -> ArchFileView {
        ArchFileView {
            path: self.path@,
            offset: self.offset,
            compressed_size: self.compressed_size,
            raw_size: self.raw_size,
            compression: self.compression,
        }
    }
}

impl Clone for ArchFile {
    fn clone(&self) -> (r: Self)
        ensures
            r@ == self@,
    {
        ArchFile {
            path: self.path.clone(),
            offset: self.offset,
            compressed_size: self.compressed_size,
            raw_size: self.raw_size,
            compression: self.compression,
        }
    }
}

pub open spec fn views(v: Seq<ArchFile>) -> Seq<ArchFileView> {
    v.map_values(|f: ArchFile| f@)
}

proof fn lemma_views_push(v: Seq<ArchFile>, x: ArchFile)
    ensures
        views(v.push(x)) == views(v).push(x@),
{
    assert(views(v.push(x)) =~= views(v).push(x@));
}

/// File entry `i`: name offset, data offset, compressed size, raw size, method.
pub open spec fn file_entry(fb: Seq<u8>, table: Seq<u8>, i: int) -> Result<ArchFileView, AssetError> {
    let e = i * 32;
    match cstring_at(table, le_u32(fb, e) as int) {
        Err(err) => Err(err),
        Ok(name) => {
            let method = le_u32(fb, e + 28);
            if method == COMP_RAW || method == COMP_ZLIB {
                Ok(
                    ArchFileView {
                        path: slashes(name),
                        offset: le_u32(fb, e + 4) as u64,
                        compressed_size: le_u32(fb, e + 12),
                        raw_size: le_u32(fb, e + 20),
                        compression: if method == COMP_RAW {
                            Compression::Raw
                        } else {
                            Compression::Zlib
                        },
                    },
                )
            } else {
                Err(AssetError::Compression(method))
            }
        },
    }
}

/// The first `n` file entries, in order; the first bad one stops the list.
pub open spec fn raw_files(fb: Seq<u8>, table: Seq<u8>, n: nat) -> Result<Seq<ArchFileView>, AssetError>
    decreases n,
{
    if n == 0 {
        Ok(Seq::empty())
    } else {
        match raw_files(fb, table, (n - 1) as nat) {
            Err(e) => Err(e),
            Ok(fs) => match file_entry(fb, table, n - 1) {
                Err(e) => Err(e),
                Ok(f) => Ok(fs.push(f)),
            },
        }
    }
}

/// `f` filed under `folder`: `folder/path`, or the path alone for the unnamed folder.
pub open spec fn in_folder(folder: Seq<char>, f: ArchFileView) -> ArchFileView {
    ArchFileView {
        path: if folder.len() == 0 {
            f.path
        } else {
            folder + seq!['/'] + f.path
        },
        offset: f.offset,
        compressed_size: f.compressed_size,
        raw_size: f.raw_size,
        compression: f.compression,
    }
}

/// The first `n` folder entries (name offset, file count) claim the raw files in order:
/// the files listed so far and how many raw files they used.
pub open spec fn folder_files(fd: Seq<u8>, table: Seq<u8>, raw: Seq<ArchFileView>, n: nat) -> Result<
    (Seq<ArchFileView>, int),
    AssetError,
>
    decreases n,
{
    if n == 0 {
        Ok((Seq::empty(), 0))
    } else {
        match folder_files(fd, table, raw, (n - 1) as nat) {
            Err(e) => Err(e),
            Ok((out, idx)) => {
                let e = (n - 1) * 16;
                match cstring_at(table, le_u32(fd, e) as int) {
                    Err(err) => Err(err),
                    Ok(name) => {
                        let count = le_u32(fd, e + 12) as int;
                        if idx + count > raw.len() {
                            Err(AssetError::Truncated("folder file list"))
                        } else {
                            Ok(
                                (
                                    out + raw.subrange(idx, idx + count).map_values(
                                        |f: ArchFileView| in_folder(slashes(name), f),
                                    ),
                                    idx + count,
                                ),
                            )
                        }
                    },
                }
            },
        }
    }
}

/// The file list of an archive: files under their folders, then files no folder claims.
pub open spec fn arch_index(d: Seq<u8>) -> Result<Seq<ArchFileView>, AssetError> {
    if d.len() < 48 {
        Err(AssetError::UnexpectedEof)
    } else if !has_ltar_magic(d) {
        Err(AssetError::Invalid("LTAR magic"))
    } else {
        let h = header_fields(d);
        let f0 = 48 + h.name_table_size as int;
        let d0 = f0 + h.file_count as int * 32;
        let end = d0 + h.folder_count as int * 16;
        if end > d.len() {
            Err(AssetError::UnexpectedEof)
        } else {
            let table = d.subrange(48, f0);
            match raw_files(d.subrange(f0, d0), table, h.file_count as nat) {
                Err(e) => Err(e),
                Ok(raw) => match folder_files(
                    d.subrange(d0, end),
                    table,
                    raw,
                    h.folder_count as nat,
                ) {
                    Err(e) => Err(e),
                    Ok((out, idx)) => Ok(out + raw.skip(idx)),
                },
            }
        }
    }
}

/// The first file whose path equals `want` without ASCII case is at `k`.
pub open spec fn first_match(fs: Seq<ArchFileView>, want: Seq<char>, k: int) -> bool {
    &&& 0 <= k < fs.len()
    &&& lower_seq(fs[k].path) == lower_seq(want)
    &&& forall|j: int| 0 <= j < k ==> lower_seq(#[trigger] fs[j].path) != lower_seq(want)
}

pub open spec fn has_match(fs: Seq<ArchFileView>, want: Seq<char>) -> bool {
    exists|k: int| 0 <= k < fs.len() && lower_seq(#[trigger] fs[k].path) == lower_seq(want)
}

/// The bytes an entry reads to: its stored bytes, or its payload decompressed.
pub open spec fn entry_bytes(d: Seq<u8>, f: ArchFileView) -> Result<Seq<u8>, AssetError> {
    match f.compression {
        Compression::Raw => if f.offset + f.raw_size <= d.len() {
            Ok(d.subrange(f.offset as int, f.offset + f.raw_size))
        } else {
            Err(AssetError::UnexpectedEof)
        },
        Compression::Zlib => if f.offset + f.compressed_size <= d.len() {
            payload_bytes(d.subrange(f.offset as int, f.offset + f.compressed_size), f.raw_size)
        } else {
            Err(AssetError::UnexpectedEof)
        },
    }
}

/// What reading `path` from an archive with files `fs` and bytes `d` gives: the first
/// file that matches without ASCII case, or `NotFound` with the path as asked.
pub open spec fn arch_read(
    fs: Seq<ArchFileView>,
    d: Seq<u8>,
    path: Seq<char>,
    r: Result<Vec<u8>, AssetError>,
) -> bool {
    &&& !has_match(fs, slashes(path)) ==> (r matches Err(AssetError::NotFound(s)) && s@ == path)
    &&& has_match(fs, slashes(path)) ==> bytes_result(r) == entry_bytes(
        d,
        fs[choose|k: int| first_match(fs, slashes(path), k)],
    )
}

/// `p` is already in archive-key form: it holds no backslash.
pub open spec fn is_key(p: Seq<char>) -> bool {
    slashes(p) == p
}

proof fn lemma_slashes_key(s: Seq<char>)
    ensures
        is_key(slashes(s)),
{
    assert(slashes(slashes(s)) =~= slashes(s));
}

proof fn lemma_key_concat(a: Seq<char>, b: Seq<char>)
    requires
        is_key(a),
        is_key(b),
    ensures
        is_key(a + b),
{
    assert(slashes(a + b) =~= slashes(a) + slashes(b));
}

proof fn lemma_raw_files_keys(fb: Seq<u8>, table: Seq<u8>, n: nat)
    ensures
        raw_files(fb, table, n) matches Ok(fs) ==> forall|i: int|
            0 <= i < fs.len() ==> is_key(#[trigger] fs[i].path),
    decreases n,
{
    if n > 0 {
        lemma_raw_files_keys(fb, table, (n - 1) as nat);
        let e = (n - 1) * 32;
        if let Ok(name) = cstring_at(table, le_u32(fb, e) as int) {
            lemma_slashes_key(name);
        }
    }
}

proof fn lemma_folder_files_keys(fd: Seq<u8>, table: Seq<u8>, raw: Seq<ArchFileView>, n: nat)
    requires
        forall|i: int| 0 <= i < raw.len() ==> is_key(#[trigger] raw[i].path),
    ensures
        folder_files(fd, table, raw, n) matches Ok((out, idx)) ==> 0 <= idx <= raw.len() && forall|
            i: int,
        | 0 <= i < out.len() ==> is_key(#[trigger] out[i].path),
    decreases n,
{
    if n > 0 {
        lemma_folder_files_keys(fd, table, raw, (n - 1) as nat);
        if let Ok((out, idx)) = folder_files(fd, table, raw, (n - 1) as nat) {
            let e = (n - 1) * 16;
            if let Ok(name) = cstring_at(table, le_u32(fd, e) as int) {
                let count = le_u32(fd, e + 12) as int;
                if idx + count <= raw.len() {
                    let folder = slashes(name);
                    lemma_slashes_key(name);
                    assert(is_key(seq!['/'])) by {
                        assert(slashes(seq!['/']) =~= seq!['/']);
                    }
                    let added = raw.subrange(idx, idx + count).map_values(
                        |f: ArchFileView| in_folder(folder, f),
                    );
                    assert forall|i: int| 0 <= i < added.len() implies is_key(
                        #[trigger] added[i].path,
                    ) by {
                        let f = raw[idx + i];
                        assert(is_key(f.path));
                        if folder.len() > 0 {
                            lemma_key_concat(folder, seq!['/']);
                            lemma_key_concat(folder + seq!['/'], f.path);
                        }
                    }
                    let all = out + added;
                    assert forall|i: int| 0 <= i < all.len() implies is_key(#[trigger] all[i].path) by {
                        if i >= out.len() {
                            assert(all[i] == added[i - out.len()]);
                        }
                    }
                }
            }
        }
    }
}

/// Every path an archive lists is found again when read: the listed paths are in
/// archive-key form, so a read of one goes to an entry with that path (the first one,
/// without ASCII case) and never answers `NotFound`.
pub proof fn law_listed_paths_are_found(d: Seq<u8>, k: int)
    requires
        arch_index(d) matches Ok(fs) && 0 <= k < fs.len(),
    ensures
        arch_index(d) matches Ok(fs) && is_key(fs[k].path) && has_match(fs, slashes(fs[k].path)),
{
    let h = header_fields(d);
    let f0 = 48 + h.name_table_size as int;
    let d0 = f0 + h.file_count as int * 32;
    let end = d0 + h.folder_count as int * 16;
    let table = d.subrange(48, f0);
    let fb = d.subrange(f0, d0);
    let fd = d.subrange(d0, end);
    lemma_raw_files_keys(fb, table, h.file_count as nat);
    let raw = raw_files(fb, table, h.file_count as nat)->Ok_0;
    lemma_folder_files_keys(fd, table, raw, h.folder_count as nat);
    let (out, idx) = folder_files(fd, table, raw, h.folder_count as nat)->Ok_0;
    let fs = out + raw.skip(idx);
    assert(arch_index(d) == Ok::<Seq<ArchFileView>, AssetError>(fs));
    if k >= out.len() {
        assert(fs[k] == raw[idx + (k - out.len())]);
    }
    assert(is_key(fs[k].path));
    assert(lower_seq(fs[k].path) == lower_seq(slashes(fs[k].path)));
}

pub proof fn lemma_first_match_unique(fs: Seq<ArchFileView>, want: Seq<char>, a: int, b: int)
    requires
        first_match(fs, want, a),
        first_match(fs, want, b),
    ensures
        a == b,
{
    if a < b {
        assert(lower_seq(fs[a].path) != lower_seq(want));
    } else if b < a {
        assert(lower_seq(fs[b].path) != lower_seq(want));
    }
}

/// An Arch00 archive held in memory with its file list.
#[derive(Debug)]
pub struct Arch00 {
    data: Vec<u8>,
    files: Vec<ArchFile>,
}

fn parse_file_entry(fb: &[u8], table: &[u8], i: usize) -> (r: Result<ArchFile, AssetError>)
    requires
        i * 32 + 32 <= fb@.len(),
    ensures
        match r {
            Ok(f) => file_entry(fb@, table@, i as int) == Ok::<ArchFileView, AssetError>(f@),
            Err(e) => file_entry(fb@, table@, i as int) == Err::<ArchFileView, AssetError>(e),
        },
{
    let _len = fb.len();
    let e = i * 32;
    let name_off = get_u32(fb, e) as usize;
    let name = match read_cstring(table, name_off) {
        Ok(s) => s,
        Err(err) => {
            return Err(err);
        },
    };
    let path = archive_key(name);
    let method = get_u32(fb, e + 28);
    let compression = if method == COMP_RAW {
        Compression::Raw
    } else if method == COMP_ZLIB {
        Compression::Zlib
    } else {
        return Err(AssetError::Compression(method));
    };
    Ok(
        ArchFile {
            path,
            offset: get_u32(fb, e + 4) as u64,
            compressed_size: get_u32(fb, e + 12),
            raw_size: get_u32(fb, e + 20),
            compression,
        },
    )
}

fn file_in_folder(folder: &String, f: &ArchFile) -> (r: ArchFile)
    ensures
        r@ == in_folder(folder@, f@),
{
    let dir = chars_of(folder.as_str());
    let path = if dir.len() == 0 {
        f.path.clone()
    } else {
        let mut v = dir;
        v.push('/');
        assert(v@ == folder@ + seq!['/']);
        let p = chars_of(f.path.as_str());
        let mut i: usize = 0;
        let ghost start = v@;
        while i < p.len()
            invariant
                i <= p@.len(),
                v@ == start + p@.take(i as int),
            decreases p@.len() - i,
        {
            v.push(p[i]);
            assert(p@.take(i + 1) == p@.take(i as int).push(p@[i as int]));
            i += 1;
        }
        assert(p@.take(p@.len() as int) == p@);
        assert(v@ == folder@ + seq!['/'] + f.path@);
        string_of(&v)
    };
    ArchFile {
        path,
        offset: f.offset,
        compressed_size: f.compressed_size,
        raw_size: f.raw_size,
        compression: f.compression,
    }
}

impl Arch00 {
    /// The file list, in archive order.
    pub closed spec fn entries(&self) -> Seq<ArchFileView> {
        views(self.files@)
    }

    /// The archive's bytes.
    pub closed spec fn bytes(&self) -> Seq<u8> {
        self.data@
    }

    /// Read the header, the name table and the file and folder entries of an archive.
    pub fn from_reader(data: Vec<u8>) -> (r: Result<Self, AssetError>)
        ensures
            match r {
                Ok(a) => arch_index(data@) == Ok::<Seq<ArchFileView>, AssetError>(a.entries())
                    && a.bytes() == data@,
                Err(e) => arch_index(data@) == Err::<Seq<ArchFileView>, AssetError>(e),
            },
    {
        let ghost d = data@;
        if data.len() < ARCH_HEADER_SIZE {
            return Err(AssetError::UnexpectedEof);
        }
        if !ltar_magic(data.as_slice()) {
            return Err(AssetError::Invalid("LTAR magic"));
        }
        let name_table_size = get_u32(data.as_slice(), 8) as u64;
        let folder_count = get_u32(data.as_slice(), 12) as u64;
        let file_count = get_u32(data.as_slice(), 16) as u64;
        let f0 = 48 + name_table_size;
        let d0 = f0 + file_count * 32;
        let end = d0 + folder_count * 16;
        if end > data.len() as u64 {
            return Err(AssetError::UnexpectedEof);
        }
        let table = slice_subrange(data.as_slice(), 48, f0 as usize);
        let fb = slice_subrange(data.as_slice(), f0 as usize, d0 as usize);
        let fd = slice_subrange(data.as_slice(), d0 as usize, end as usize);
        let fc = file_count as usize;
        let dc = folder_count as usize;

        let _fdl = fd.len();
        proof {
            assert(table@ == d.subrange(48, f0 as int));
            assert(fb@ == d.subrange(f0 as int, d0 as int));
            assert(fd@ == d.subrange(d0 as int, end as int));
            assert(arch_index(d) == match raw_files(fb@, table@, fc as nat) {
                Err(e) => Err(e),
                Ok(raw) => match folder_files(fd@, table@, raw, dc as nat) {
                    Err(e) => Err(e),
                    Ok((out, idx)) => Ok(out + raw.skip(idx)),
                },
            });
        }
        let mut raw: Vec<ArchFile> = Vec::new();
        assert(views(raw@) =~= Seq::<ArchFileView>::empty());
        let mut i: usize = 0;
        while i < fc
            invariant
                i <= fc,
                fc * 32 == fb@.len(),
                d == data@,
                arch_index(d) == match raw_files(fb@, table@, fc as nat) {
                    Err(e) => Err(e),
                    Ok(raw) => match folder_files(fd@, table@, raw, dc as nat) {
                        Err(e) => Err(e),
                        Ok((out, idx)) => Ok(out + raw.skip(idx)),
                    },
                },
                raw_files(fb@, table@, i as nat) == Ok::<Seq<ArchFileView>, AssetError>(
                    views(raw@),
                ),
            decreases fc - i,
        {
            assert(i * 32 + 32 <= fc * 32) by (nonlinear_arith)
                requires
                    i < fc,
            ;
            match parse_file_entry(fb, table, i) {
                Err(e) => {
                    proof {
                        lemma_raw_files_err(fb@, table@, i as nat, fc as nat);
                    }
                    return Err(e);
                },
                Ok(f) => {
                    proof {
                        lemma_views_push(raw@, f);
                    }
                    raw.push(f);
                },
            }
            i += 1;
        }
        let ghost rawv = views(raw@);

        let mut files: Vec<ArchFile> = Vec::new();
        assert(views(files@) =~= Seq::<ArchFileView>::empty());
        let mut idx: usize = 0;
        let mut k: usize = 0;
        while k < dc
            invariant
                k <= dc,
                dc * 16 == fd@.len(),
                raw_files(fb@, table@, fc as nat) == Ok::<Seq<ArchFileView>, AssetError>(rawv),
                d == data@,
                arch_index(d) == match raw_files(fb@, table@, fc as nat) {
                    Err(e) => Err(e),
                    Ok(raw) => match folder_files(fd@, table@, raw, dc as nat) {
                        Err(e) => Err(e),
                        Ok((out, idx)) => Ok(out + raw.skip(idx)),
                    },
                },
                fd@.len() <= usize::MAX,
                rawv == views(raw@),
                idx <= raw@.len(),
                folder_files(fd@, table@, rawv, k as nat) == Ok::<
                    (Seq<ArchFileView>, int),
                    AssetError,
                >((views(files@), idx as int)),
            decreases dc - k,
        {
            assert(k * 16 + 16 <= dc * 16) by (nonlinear_arith)
                requires
                    k < dc,
            ;
            let name = match read_cstring(table, get_u32(fd, k * 16) as usize) {
                Ok(s) => s,
                Err(e) => {
                    proof {
                        lemma_folder_files_err(fd@, table@, rawv, k as nat, dc as nat);
                    }
                    return Err(e);
                },
            };
            let folder = archive_key(name);
            let count = get_u32(fd, k * 16 + 12) as usize;
            if count > raw.len() - idx {
                proof {
                    lemma_folder_files_err(fd@, table@, rawv, k as nat, dc as nat);
                }
                return Err(AssetError::Truncated("folder file list"));
            }
            let ghost before = views(files@);
            let rl = raw.len();
            let mut j: usize = 0;
            while j < count
                invariant
                    j <= count,
                    rl == raw@.len(),
                    idx + count <= raw@.len(),
                    rawv == views(raw@),
                    views(files@) == before + rawv.subrange(idx as int, idx + j).map_values(
                        |f: ArchFileView| in_folder(folder@, f),
                    ),
                decreases count - j,
            {
                assert(idx + j < raw@.len());
                let f = file_in_folder(&folder, &raw[idx + j]);
                proof {
                    lemma_views_push(files@, f);
                    assert(rawv[idx + j] == raw@[idx + j]@);
                }
                files.push(f);
                assert(rawv.subrange(idx as int, idx + j + 1).map_values(
                    |f: ArchFileView| in_folder(folder@, f),
                ) == rawv.subrange(idx as int, idx + j).map_values(
                    |f: ArchFileView| in_folder(folder@, f),
                ).push(in_folder(folder@, rawv[idx + j])));
                j += 1;
            }
            idx = idx + count;
            k += 1;
        }
        let ghost claimed = views(files@);
        let ghost start = idx;
        while idx < raw.len()
            invariant
                start <= idx <= raw@.len(),
                raw_files(fb@, table@, fc as nat) == Ok::<Seq<ArchFileView>, AssetError>(rawv),
                folder_files(fd@, table@, rawv, dc as nat) == Ok::<
                    (Seq<ArchFileView>, int),
                    AssetError,
                >((claimed, start as int)),
                d == data@,
                arch_index(d) == match raw_files(fb@, table@, fc as nat) {
                    Err(e) => Err(e),
                    Ok(raw) => match folder_files(fd@, table@, raw, dc as nat) {
                        Err(e) => Err(e),
                        Ok((out, idx)) => Ok(out + raw.skip(idx)),
                    },
                },
                rawv == views(raw@),
                views(files@) == claimed + rawv.subrange(start as int, idx as int),
            decreases raw@.len() - idx,
        {
            let f = raw[idx].clone();
            proof {
                lemma_views_push(files@, f);
                assert(rawv[idx as int] == raw@[idx as int]@);
            }
            files.push(f);
            assert(rawv.subrange(start as int, idx + 1) == rawv.subrange(start as int, idx as int).push(rawv[idx as int]));
            idx += 1;
        }
        assert(rawv.subrange(start as int, raw@.len() as int) == rawv.skip(start as int));
        Ok(Arch00 { data, files })
    }

    /// The files, in archive order.
    pub fn files(&self) -> (r: &[ArchFile])
        ensures
            views(r@) == self.entries(),
    {
        self.files.as_slice()
    }

    /// The bytes of the entry at `path` (backslashes or slashes, any ASCII case).
    pub fn read(&self, path: &str) -> (r: Result<Vec<u8>, AssetError>)
        ensures
            arch_read(self.entries(), self.bytes(), path@, r),
    {
        let want = archive_key(path);
        let ghost fs = self.entries();
        let mut i: usize = 0;
        while i < self.files.len()
            invariant
                i <= fs.len(),
                fs == views(self.files@),
                want@ == slashes(path@),
                forall|j: int| 0 <= j < i ==> lower_seq(#[trigger] fs[j].path) != lower_seq(want@),
            decreases fs.len() - i,
        {
            if eq_ignore_ascii_case(self.files[i].path.as_str(), want.as_str()) {
                proof {
                    assert(first_match(fs, want@, i as int));
                    assert(has_match(fs, want@));
                    lemma_first_match_unique(
                        fs,
                        want@,
                        i as int,
                        choose|k: int| first_match(fs, want@, k),
                    );
                }
                return self.read_entry(i);
            }
            i += 1;
        }
        Err(AssetError::NotFound(path.to_owned()))
    }

    fn read_entry(&self, i: usize) -> (r: Result<Vec<u8>, AssetError>)
        requires
            i < self.entries().len(),
        ensures
            bytes_result(r) == entry_bytes(self.bytes(), self.entries()[i as int]),
    {
        let f = &self.files[i];
        let len = self.data.len() as u64;
        match f.compression {
            Compression::Raw => {
                if f.offset > len || len - f.offset < f.raw_size as u64 {
                    return Err(AssetError::UnexpectedEof);
                }
                let s = slice_subrange(
                    self.data.as_slice(),
                    f.offset as usize,
                    (f.offset + f.raw_size as u64) as usize,
                );
                Ok(slice_to_vec(s))
            },
            Compression::Zlib => {
                if f.offset > len || len - f.offset < f.compressed_size as u64 {
                    return Err(AssetError::UnexpectedEof);
                }
                let s = slice_subrange(
                    self.data.as_slice(),
                    f.offset as usize,
                    (f.offset + f.compressed_size as u64) as usize,
                );
                decompress_payload(s, f.raw_size)
            },
        }
    }
}

proof fn lemma_raw_files_err(fb: Seq<u8>, table: Seq<u8>, i: nat, n: nat)
    requires
        i < n,
        raw_files(fb, table, i) is Ok,
        file_entry(fb, table, i as int) is Err,
    ensures
        raw_files(fb, table, n) == Err::<Seq<ArchFileView>, AssetError>(
            file_entry(fb, table, i as int)->Err_0,
        ),
    decreases n - i,
{
    if n > i + 1 {
        lemma_raw_files_err(fb, table, i, (n - 1) as nat);
    }
}

proof fn lemma_folder_files_err(
    fd: Seq<u8>,
    table: Seq<u8>,
    raw: Seq<ArchFileView>,
    k: nat,
    n: nat,
)
    requires
        k < n,
        folder_files(fd, table, raw, k) is Ok,
        folder_files(fd, table, raw, (k + 1) as nat) is Err,
    ensures
        folder_files(fd, table, raw, n) == folder_files(fd, table, raw, (k + 1) as nat),
    decreases n - k,
{
    if n > k + 1 {
        lemma_folder_files_err(fd, table, raw, k, (n - 1) as nat);
    }
}

} // verus!
