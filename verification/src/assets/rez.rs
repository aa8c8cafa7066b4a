//! Classic LithTech REZ (RezMgr Version 1). Used by older titles and some F.E.A.R. packs.
//! Little-endian throughout.
use vstd::prelude::*;
use vstd::string::StringSliceAdditionalSpecFns;

use super::bytes::{cstr, get_u32, le_u32, lemma_nul_end_unique, nul_end, slice_subrange, slice_to_vec};
use super::error::AssetError;
use super::keys::{archive_key, slashes};
use crate::text::{chars_of, eq_ignore_ascii_case, lossy_utf8, lower_seq, string_of, utf8_lossy, utf8_str};

verus! {

/// The text block that opens a REZ file.
pub const TEXT_HEADER_LEN: usize = 127;

/// What the text block says after its leading CR LF.
pub const SIG: &'static str = "RezMgr Version 1 Copyright (C) 1995 MONOLITH INC.";

#[derive(Debug)]
pub struct RezEntry {
    pub path: String,
    pub offset: u64,
    pub size: u32,
    pub id: u32,
    pub kind: String,
}

pub ghost struct RezEntryView {
    pub path: Seq<char>,
    pub offset: u64,
    pub size: u32,
    pub id: u32,
    pub kind: Seq<char>,
}

impl View for RezEntry {
    type V = RezEntryView;

    open spec fn view(&self) -> RezEntryView {
        RezEntryView {
            path: self.path@,
            offset: self.offset,
            size: self.size,
            id: self.id,
            kind: self.kind@,
        }
    }
}

impl Clone for RezEntry {
    fn clone(&self) -> (r: Self)
        ensures
            r@ == self@,
    {
        RezEntry {
            path: self.path.clone(),
            offset: self.offset,
            size: self.size,
            id: self.id,
            kind: self.kind.clone(),
        }
    }
}

pub open spec fn entry_views(v: Seq<RezEntry>) -> Seq<RezEntryView> {
    v.map_values(|e: RezEntry| e@)
}

proof fn lemma_entry_views_push(v: Seq<RezEntry>, x: RezEntry)
    ensures
        entry_views(v.push(x)) == entry_views(v).push(x@),
{
    assert(entry_views(v.push(x)) =~= entry_views(v).push(x@));
}

/// A NUL-terminated UTF-8 name at `i` followed by `nulls` bytes of terminator: the name
/// and where the next field starts. `None` where `i` is past the end, which the format
/// reader does not guard against.
pub open spec fn z_name(buf: Seq<u8>, i: int, nulls: int) -> Option<Result<(Seq<char>, int), AssetError>> {
    if i < 0 || i > buf.len() {
        None
    } else {
        let b = cstr(buf.skip(i));
        if !vstd::utf8::valid_utf8(b) {
            Some(Err(AssetError::Utf8))
        } else if i + b.len() + nulls > buf.len() {
            Some(Err(AssetError::Truncated("REZ name")))
        } else {
            Some(Ok((vstd::utf8::decode_utf8(b), i + b.len() + nulls)))
        }
    }
}

/// The bytes of `s` other than NUL.
pub open spec fn ext_kept(s: Seq<u8>) -> Seq<u8> {
    s.filter(|b: u8| b != 0)
}

/// `d` opens with CR LF and the RezMgr signature.
pub open spec fn has_rez_sig(d: Seq<u8>) -> bool {
    &&& d.len() >= 2 && d[0] == 13 && d[1] == 10
    &&& 2 + SIG.spec_bytes().len() <= d.len()
    &&& forall|m: int| 0 <= m < SIG.spec_bytes().len() ==> d[2 + m] == SIG.spec_bytes()[m]
}

/// The four extension bytes at `i`, stored reversed and NUL-padded.
pub open spec fn fixed_ext(buf: Seq<u8>, i: int) -> Result<(Seq<char>, int), AssetError> {
    if i + 4 > buf.len() {
        Err(AssetError::Truncated("REZ ext"))
    } else {
        Ok((lossy_utf8(ext_kept(buf.subrange(i, i + 4)).reverse()), i + 4))
    }
}

/// An entry's path: `prefix/` when there is a prefix, the name, and `.ext` when there
/// is an extension.
pub open spec fn rez_path(prefix: Seq<char>, name: Seq<char>, ext: Seq<char>) -> Seq<char> {
    let base = if ext.len() == 0 {
        name
    } else {
        name + seq!['.'] + ext
    };
    if prefix.len() == 0 {
        base
    } else {
        prefix + seq!['/'] + base
    }
}

/// The entries of a directory blob from byte `i` on: files (type 0) are listed, nested
/// directory records (type 1) are stepped over. `None` where the reader would index past
/// the end of the blob.
pub open spec fn rez_dir(dir: Seq<u8>, prefix: Seq<char>, i: int) -> Option<
    Result<Seq<RezEntryView>, AssetError>,
>
    decreases dir.len() - i,
{
    if i < 0 || i + 4 > dir.len() {
        Some(Ok(Seq::empty()))
    } else {
        let kind = le_u32(dir, i);
        let i = i + 4;
        if kind == 1 {
            if i + 12 > dir.len() {
                Some(Err(AssetError::Truncated("REZ dir")))
            } else {
                match z_name(dir, i + 12, 1) {
                    None => None,
                    Some(Err(e)) => Some(Err(e)),
                    Some(Ok((_, j))) => if j > i {
                        rez_dir(dir, prefix, j)
                    } else {
                        None
                    },
                }
            }
        } else if kind == 0 {
            if i + 16 > dir.len() {
                Some(Err(AssetError::Truncated("REZ file")))
            } else {
                match fixed_ext(dir, i + 16) {
                    Err(e) => Some(Err(e)),
                    Ok((ext, j)) => match z_name(dir, j + 4, 2) {
                        None => None,
                        Some(Err(e)) => Some(Err(e)),
                        Some(Ok((name, k))) => {
                            let entry = RezEntryView {
                                path: rez_path(prefix, name, ext),
                                offset: le_u32(dir, i) as u64,
                                size: le_u32(dir, i + 4),
                                id: le_u32(dir, i + 12),
                                kind: ext,
                            };
                            if k > i {
                                match rez_dir(dir, prefix, k) {
                                    None => None,
                                    Some(Err(e)) => Some(Err(e)),
                                    Some(Ok(rest)) => Some(Ok(seq![entry] + rest)),
                                }
                            } else {
                                None
                            }
                        },
                    },
                }
            }
        } else {
            Some(Err(AssetError::Invalid("REZ entry type")))
        }
    }
}

/// The header checks and the directory of a REZ file: `None` where reading it would
/// index past the end of the directory blob.
pub open spec fn rez_index(d: Seq<u8>) -> Option<Result<Seq<RezEntryView>, AssetError>> {
    if d.len() < 127 {
        Some(Err(AssetError::UnexpectedEof))
    } else if !has_rez_sig(d) {
        Some(Err(AssetError::Invalid("REZ signature")))
    } else if d.len() < 131 {
        Some(Err(AssetError::UnexpectedEof))
    } else if le_u32(d, 127) != 1 {
        Some(Err(AssetError::Invalid("REZ version")))
    } else if d.len() < 139 {
        Some(Err(AssetError::UnexpectedEof))
    } else {
        let off = le_u32(d, 131) as int;
        let size = le_u32(d, 135) as int;
        if off + size > d.len() {
            Some(Err(AssetError::UnexpectedEof))
        } else {
            rez_dir(d.subrange(off, off + size), Seq::empty(), 0)
        }
    }
}

/// The NUL-terminated name at `*i`, then `nulls` terminator bytes.
fn read_z(buf: &[u8], i: &mut usize, nulls: usize) -> (r: Result<String, AssetError>)
    requires
        *old(i) <= buf@.len(),
    ensures
        match r {
            Ok(s) => z_name(buf@, *old(i) as int, nulls as int) == Some(
                Ok::<(Seq<char>, int), AssetError>((s@, *final(i) as int)),
            ),
            Err(e) => z_name(buf@, *old(i) as int, nulls as int) == Some(
                Err::<(Seq<char>, int), AssetError>(e),
            ),
        },
{
    let start = *i;
    let mut end = start;
    while end < buf.len() && buf[end] != 0
        invariant
            start <= end <= buf@.len(),
            forall|m: int| start <= m < end ==> buf@[m] != 0,
        decreases buf@.len() - end,
    {
        end += 1;
    }
    let ghost rest = buf@.skip(start as int);
    proof {
        assert(nul_end(rest, end - start));
        lemma_nul_end_unique(rest, end - start, choose|k: int| nul_end(rest, k));
        assert(cstr(rest) == buf@.subrange(start as int, end as int));
    }
    let s = match utf8_str(slice_subrange(buf, start, end)) {
        Some(s) => s,
        None => {
            return Err(AssetError::Utf8);
        },
    };
    if buf.len() - end < nulls {
        return Err(AssetError::Truncated("REZ name"));
    }
    *i = end + nulls;
    Ok(s.to_owned())
}

/// The four reversed, NUL-padded extension bytes at `*i`.
fn read_fixed_ext(buf: &[u8], i: &mut usize) -> (r: Result<String, AssetError>)
    ensures
        match r {
            Ok(s) => fixed_ext(buf@, *old(i) as int) == Ok::<(Seq<char>, int), AssetError>(
                (s@, *final(i) as int),
            ),
            Err(e) => fixed_ext(buf@, *old(i) as int) == Err::<(Seq<char>, int), AssetError>(e),
        },
{
    if *i > buf.len() || buf.len() - *i < 4 {
        return Err(AssetError::Truncated("REZ ext"));
    }
    let raw = slice_subrange(buf, *i, *i + 4);
    *i = *i + 4;
    let mut kept: Vec<u8> = Vec::new();
    let mut k: usize = 0;
    while k < 4
        invariant
            k <= 4,
            raw@.len() == 4,
            kept@ == ext_kept(raw@.take(k as int)),
        decreases 4 - k,
    {
        let ghost t = raw@.take(k + 1);
        assert(t.drop_last() == raw@.take(k as int));
        assert(t.last() == raw@[k as int]);
        assert(ext_kept(t) == if raw@[k as int] != 0 {
            ext_kept(raw@.take(k as int)).push(raw@[k as int])
        } else {
            ext_kept(raw@.take(k as int))
        }) by {
            reveal_with_fuel(Seq::<u8>::filter, 1);
        }
        if raw[k] != 0 {
            kept.push(raw[k]);
        }
        k += 1;
    }
    assert(raw@.take(4) == raw@);
    let mut rev: Vec<u8> = Vec::new();
    let mut m: usize = kept.len();
    while m > 0
        invariant
            m <= kept@.len(),
            rev@.len() == kept@.len() - m,
            forall|t: int| 0 <= t < rev@.len() ==> rev@[t] == kept@[kept@.len() - 1 - t],
        decreases m,
    {
        m -= 1;
        rev.push(kept[m]);
    }
    assert(rev@ == kept@.reverse());
    Ok(utf8_lossy(rev.as_slice()))
}

fn rez_join(prefix: &str, name: &String, ext: &String) -> (r: String)
    ensures
        r@ == rez_path(prefix@, name@, ext@),
{
    let mut v: Vec<char> = Vec::new();
    let p = chars_of(prefix);
    if p.len() > 0 {
        v = p;
        v.push('/');
    }
    let ghost v0 = v@;
    append_chars(&mut v, &chars_of(name.as_str()));
    let e = chars_of(ext.as_str());
    if e.len() > 0 {
        v.push('.');
        append_chars(&mut v, &e);
    }
    proof {
        if p@.len() > 0 {
            assert(v0 == prefix@ + seq!['/']);
        } else {
            assert(v0 == Seq::<char>::empty());
        }
        let base = if ext@.len() == 0 {
            name@
        } else {
            name@ + seq!['.'] + ext@
        };
        assert(v@ == v0 + base);
    }
    string_of(&v)
}

fn append_chars(v: &mut Vec<char>, s: &Vec<char>)
    ensures
        final(v)@ == old(v)@ + s@,
{
    let mut i: usize = 0;
    while i < s.len()
        invariant
            i <= s@.len(),
            v@ == old(v)@ + s@.take(i as int),
        decreases s@.len() - i,
    {
        v.push(s[i]);
        assert(s@.take(i + 1) == s@.take(i as int).push(s@[i as int]));
        i += 1;
    }
    assert(s@.take(s@.len() as int) == s@);
}

pub open spec fn prepend_entries(
    done: Seq<RezEntryView>,
    r: Option<Result<Seq<RezEntryView>, AssetError>>,
) -> Option<Result<Seq<RezEntryView>, AssetError>> {
    match r {
        None => None,
        Some(Err(e)) => Some(Err(e)),
        Some(Ok(rest)) => Some(Ok(done + rest)),
    }
}

/// The file entries of a directory blob, named under `prefix`.
pub fn parse_dir(dir: &[u8], prefix: &str) -> (r: Result<Vec<RezEntry>, AssetError>)
    requires
        rez_dir(dir@, prefix@, 0) is Some,
    ensures
        match r {
            Ok(v) => rez_dir(dir@, prefix@, 0) == Some(
                Ok::<Seq<RezEntryView>, AssetError>(entry_views(v@)),
            ),
            Err(e) => rez_dir(dir@, prefix@, 0) == Some(Err::<Seq<RezEntryView>, AssetError>(e)),
        },
{
    let len = dir.len();
    let mut out: Vec<RezEntry> = Vec::new();
    let mut i: usize = 0;
    proof {
        assert(entry_views(out@) =~= Seq::<RezEntryView>::empty());
        match rez_dir(dir@, prefix@, 0) {
            Some(Ok(rest)) => {
                assert(Seq::<RezEntryView>::empty() + rest == rest);
            },
            _ => {},
        }
    }
    while i <= len && len - i >= 4
        invariant
            len == dir@.len(),
            i <= len,
            rez_dir(dir@, prefix@, i as int) is Some,
            rez_dir(dir@, prefix@, 0) == prepend_entries(
                entry_views(out@),
                rez_dir(dir@, prefix@, i as int),
            ),
        decreases len - i,
    {
        let ghost i0 = i as int;
        let kind = get_u32(dir, i);
        i += 4;
        if kind == 1 {
            if len - i < 12 {
                return Err(AssetError::Truncated("REZ dir"));
            }
            i += 12;
            match read_z(dir, &mut i, 1) {
                Err(e) => {
                    return Err(e);
                },
                Ok(_) => {},
            }
        } else if kind == 0 {
            if len - i < 16 {
                return Err(AssetError::Truncated("REZ file"));
            }
            let offset = get_u32(dir, i) as u64;
            let size = get_u32(dir, i + 4);
            let id = get_u32(dir, i + 12);
            let ghost at = i as int;
            i += 16;
            let ext = match read_fixed_ext(dir, &mut i) {
                Ok(e) => e,
                Err(e) => {
                    return Err(e);
                },
            };
            if len - i < 4 {
                proof {
                    assert(rez_dir(dir@, prefix@, i0) is None);
                }
                return Err(AssetError::Truncated("REZ name"));
            }
            i += 4;
            let name = match read_z(dir, &mut i, 2) {
                Ok(n) => n,
                Err(e) => {
                    return Err(e);
                },
            };
            let path = rez_join(prefix, &name, &ext);
            let entry = RezEntry { path, offset, size, id, kind: ext };
            proof {
                lemma_entry_views_push(out@, entry);
                let ev = entry@;
                match rez_dir(dir@, prefix@, i as int) {
                    Some(Ok(rest)) => {
                        assert(entry_views(out@) + (seq![ev] + rest) == entry_views(out@).push(ev)
                            + rest);
                    },
                    _ => {},
                }
            }
            out.push(entry);
        } else {
            return Err(AssetError::Invalid("REZ entry type"));
        }
    }
    proof {
        assert(entry_views(out@) + Seq::<RezEntryView>::empty() == entry_views(out@));
    }
    Ok(out)
}

/// Whether listing the directory blob stays within it; where it does not, reading a name
/// would index past the end of the blob.
pub fn dir_in_bounds(dir: &[u8], prefix: &str) -> (r: bool)
    ensures
        r == (rez_dir(dir@, prefix@, 0) is Some),
{
    let len = dir.len();
    let mut i: usize = 0;
    while i <= len && len - i >= 4
        invariant
            len == dir@.len(),
            i <= len,
            (rez_dir(dir@, prefix@, 0) is Some) == (rez_dir(dir@, prefix@, i as int) is Some),
        decreases len - i,
    {
        let kind = get_u32(dir, i);
        i += 4;
        if kind == 1 {
            if len - i < 12 {
                return true;
            }
            i += 12;
            if read_z(dir, &mut i, 1).is_err() {
                return true;
            }
        } else if kind == 0 {
            if len - i < 16 {
                return true;
            }
            i += 16;
            if read_fixed_ext(dir, &mut i).is_err() {
                return true;
            }
            if len - i < 4 {
                return false;
            }
            i += 4;
            if read_z(dir, &mut i, 2).is_err() {
                return true;
            }
        } else {
            return true;
        }
    }
    true
}

/// A REZ archive held in memory with its entries.
#[derive(Debug)]
pub struct RezArchive {
    data: Vec<u8>,
    entries: Vec<RezEntry>,
}

fn has_signature(d: &[u8]) -> (r: bool)
    requires
        d@.len() >= 127,
    ensures
        r == has_rez_sig(d@),
{
    let sig = SIG.as_bytes();
    if d[0] != 13 || d[1] != 10 || sig.len() > d.len() - 2 {
        return false;
    }
    let dl = d.len();
    let mut k: usize = 0;
    while k < sig.len()
        invariant
            dl == d@.len(),
            k <= sig@.len(),
            sig@ == SIG.spec_bytes(),
            2 + sig@.len() <= d@.len(),
            forall|m: int| 0 <= m < k ==> d@[2 + m] == sig@[m],
        decreases sig@.len() - k,
    {
        if d[2 + k] != sig[k] {
            return false;
        }
        k += 1;
    }
    true
}

impl RezArchive {
    /// The entries, in directory order.
    pub closed spec fn entry_list(&self) -> Seq<RezEntryView> {
        entry_views(self.entries@)
    }

    /// The archive's bytes.
    pub closed spec fn bytes(&self) -> Seq<u8> {
        self.data@
    }

    /// Whether `from_reader` stays within the bytes it is given: false where listing the
    /// directory would read a name past the end of the directory blob.
    pub fn in_bounds(data: &[u8]) -> (r: bool)
        ensures
            r == (rez_index(data@) is Some),
    {
        if data.len() < 139 || !has_signature(data) || get_u32(data, 127) != 1 {
            return true;
        }
        let off = get_u32(data, 131) as usize;
        let size = get_u32(data, 135) as usize;
        if off > data.len() || data.len() - off < size {
            return true;
        }
        let dir = slice_subrange(data, off, off + size);
        assert(""@ == Seq::<char>::empty()) by {
            reveal_strlit("");
        }
        dir_in_bounds(dir, "")
    }

    /// Check the text header and version, then list the root directory blob.
    pub fn from_reader(data: Vec<u8>) -> (r: Result<Self, AssetError>)
        requires
            rez_index(data@) is Some,
        ensures
            match r {
                Ok(a) => rez_index(data@) == Some(
                    Ok::<Seq<RezEntryView>, AssetError>(a.entry_list()),
                ) && a.bytes() == data@,
                Err(e) => rez_index(data@) == Some(Err::<Seq<RezEntryView>, AssetError>(e)),
            },
    {
        let d = data.as_slice();
        if d.len() < TEXT_HEADER_LEN {
            return Err(AssetError::UnexpectedEof);
        }
        if !has_signature(d) {
            return Err(AssetError::Invalid("REZ signature"));
        }
        if d.len() < 131 {
            return Err(AssetError::UnexpectedEof);
        }
        if get_u32(d, 127) != 1 {
            return Err(AssetError::Invalid("REZ version"));
        }
        if d.len() < 139 {
            return Err(AssetError::UnexpectedEof);
        }
        let off = get_u32(d, 131) as usize;
        let size = get_u32(d, 135) as usize;
        if off > d.len() || d.len() - off < size {
            return Err(AssetError::UnexpectedEof);
        }
        let dir = slice_subrange(d, off, off + size);
        assert(rez_index(data@) == rez_dir(dir@, Seq::<char>::empty(), 0));
        assert(""@ == Seq::<char>::empty()) by {
            reveal_strlit("");
        }
        let entries = match parse_dir(dir, "") {
            Ok(v) => v,
            Err(e) => {
                return Err(e);
            },
        };
        Ok(RezArchive { data, entries })
    }

    /// The entries, in directory order.
    pub fn entries(&self) -> (r: &[RezEntry])
        ensures
            entry_views(r@) == self.entry_list(),
    {
        self.entries.as_slice()
    }

    /// The bytes of the entry at `path` (backslashes or slashes, any ASCII case).
    pub fn read(&self, path: &str) -> (r: Result<Vec<u8>, AssetError>)
        ensures
            rez_read(self.entry_list(), self.bytes(), path@, r),
    {
        let want = archive_key(path);
        let ghost es = self.entry_list();
        let mut i: usize = 0;
        while i < self.entries.len()
            invariant
                i <= es.len(),
                es == entry_views(self.entries@),
                want@ == slashes(path@),
                forall|j: int| 0 <= j < i ==> lower_seq(#[trigger] es[j].path) != lower_seq(want@),
            decreases es.len() - i,
        {
            if eq_ignore_ascii_case(self.entries[i].path.as_str(), want.as_str()) {
                proof {
                    assert(rez_first_match(es, want@, i as int));
                    assert(rez_has_match(es, want@));
                    lemma_rez_first_match_unique(
                        es,
                        want@,
                        i as int,
                        choose|k: int| rez_first_match(es, want@, k),
                    );
                }
                let e = &self.entries[i];
                let len = self.data.len() as u64;
                if e.offset > len || len - e.offset < e.size as u64 {
                    return Err(AssetError::UnexpectedEof);
                }
                let s = slice_subrange(
                    self.data.as_slice(),
                    e.offset as usize,
                    (e.offset + e.size as u64) as usize,
                );
                return Ok(slice_to_vec(s));
            }
            i += 1;
        }
        Err(AssetError::NotFound(path.to_owned()))
    }
}

pub open spec fn rez_first_match(es: Seq<RezEntryView>, want: Seq<char>, k: int) -> bool {
    &&& 0 <= k < es.len()
    &&& lower_seq(es[k].path) == lower_seq(want)
    &&& forall|j: int| 0 <= j < k ==> lower_seq(#[trigger] es[j].path) != lower_seq(want)
}

pub open spec fn rez_has_match(es: Seq<RezEntryView>, want: Seq<char>) -> bool {
    exists|k: int| 0 <= k < es.len() && lower_seq(#[trigger] es[k].path) == lower_seq(want)
}

/// What reading `path` from a REZ archive with entries `es` and bytes `d` gives: the
/// stored bytes of the first entry that matches without ASCII case, or `NotFound` with
/// the path as asked.
pub open spec fn rez_read(
    es: Seq<RezEntryView>,
    d: Seq<u8>,
    path: Seq<char>,
    r: Result<Vec<u8>, AssetError>,
) -> bool {
    &&& !rez_has_match(es, slashes(path)) ==> (r matches Err(AssetError::NotFound(s)) && s@
        == path)
    &&& rez_has_match(es, slashes(path)) ==> ({
        let e = es[choose|k: int| rez_first_match(es, slashes(path), k)];
        if e.offset + e.size <= d.len() {
            r matches Ok(v) && v@ == d.subrange(e.offset as int, e.offset + e.size)
        } else {
            r matches Err(AssetError::UnexpectedEof)
        }
    })
}

proof fn lemma_rez_first_match_unique(es: Seq<RezEntryView>, want: Seq<char>, a: int, b: int)
    requires
        rez_first_match(es, want, a),
        rez_first_match(es, want, b),
    ensures
        a == b,
{
    if a < b {
        assert(lower_seq(es[a].path) != lower_seq(want));
    } else if b < a {
        assert(lower_seq(es[b].path) != lower_seq(want));
    }
}

} // verus!
