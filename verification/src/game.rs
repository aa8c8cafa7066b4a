//! The retail mount of F.E.A.R. Ultimate Shooter Edition (Steam app 21090): where the
//! install may be, which archives `Default.archcfg` lists, and which archive files a
//! directory holds. Paths are Unix paths held as strings.
use vstd::prelude::*;

use crate::assets::extensions::{is_ext_sep, kind_from_path, kind_of_ext, last_segment, ResourceKind};
use crate::text::{chars_of, lemma_lex_refl, lemma_lex_total, lemma_lex_trans, lex_le, lex_le_str, lower_seq, string_of};

verus! {

pub const STEAM_APP_ID: u32 = 21090;

pub const STEAM_FOLDER: &'static str = "FEAR Ultimate Shooter Edition";

pub const DEFAULT_ARCHCFG: &'static str = "Default.archcfg";

/// `a` joined with `b` as `Path::join` does on Unix: `b` alone when it is absolute, else
/// `a`, a slash unless `a` is empty or already ends with one, and `b`.
pub open spec fn join_path(a: Seq<char>, b: Seq<char>) -> Seq<char> {
    if b.len() > 0 && b[0] == '/' {
        b
    } else if a.len() > 0 && a.last() != '/' {
        a + seq!['/'] + b
    } else {
        a + b
    }
}

fn append(v: &mut Vec<char>, s: &Vec<char>)
    ensures
        final(v)@ == old(v)@ + s@,
{
    let mut i: usize = 0;
    while i < s.len()
        invariant
            i <= s@.len(),
            v@ == old(v)@ + s@.take(i as int),
        decreases s@.len() - i,
    {
        v.push(s[i]);
        assert(s@.take(i + 1) == s@.take(i as int).push(s@[i as int]));
        i += 1;
    }
    assert(s@.take(s@.len() as int) == s@);
}

/// `a` joined with `b`, as `Path::join` does on Unix.
pub fn join_path_str(a: &str, b: &str) -> (r: String)
    ensures
        r@ == join_path(a@, b@),
{
    let av = chars_of(a);
    let bv = chars_of(b);
    if bv.len() > 0 && bv[0] == '/' {
        return string_of(&bv);
    }
    let mut v = av;
    if v.len() > 0 && v[v.len() - 1] != '/' {
        v.push('/');
    }
    append(&mut v, &bv);
    string_of(&v)
}

/// Where a retail install may be, in the order they are tried: `POINTMAN_GAME_ROOT`, the
/// Steam libraries under `HOME`, then `game-data` under the working directory.
pub open spec fn candidate_roots(root_env: Option<Seq<char>>, home: Option<Seq<char>>, cwd: Option<Seq<char>>) -> Seq<Seq<char>> {
    let from_env = match root_env {
        Some(r) => seq![r],
        None => Seq::empty(),
    };
    let from_home = match home {
        Some(h) => seq![
            join_path(join_path(h, ".local/share/Steam/steamapps/common"@), STEAM_FOLDER@),
            join_path(join_path(h, ".steam/steam/steamapps/common"@), STEAM_FOLDER@),
            join_path(join_path(h, ".steam/root/steamapps/common"@), STEAM_FOLDER@),
            join_path(join_path(h, ".steam/debian-installation/steamapps/common"@), STEAM_FOLDER@),
        ],
        None => Seq::empty(),
    };
    let from_cwd = match cwd {
        Some(c) => seq![join_path(c, "game-data"@)],
        None => Seq::empty(),
    };
    from_env + from_home + from_cwd
}

pub open spec fn string_views(v: Seq<String>) -> Seq<Seq<char>> {
    v.map_values(|s: String| s@)
}

fn push_string(out: &mut Vec<String>, s: String)
    ensures
        string_views(final(out)@) == string_views(old(out)@).push(s@),
{
    proof {
        assert(string_views(out@.push(s)) =~= string_views(out@).push(s@));
    }
    out.push(s);
}

/// The install candidates from the values of `POINTMAN_GAME_ROOT`, `HOME` and the working
/// directory, where each is known.
pub fn steam_candidates(root_env: Option<&str>, home: Option<&str>, cwd: Option<&str>) -> (r: Vec<String>)
    ensures
        string_views(r@) == candidate_roots(
            match root_env {
                Some(s) => Some(s@),
                None => None,
            },
            match home {
                Some(s) => Some(s@),
                None => None,
            },
            match cwd {
                Some(s) => Some(s@),
                None => None,
            },
        ),
{
    let mut out: Vec<String> = Vec::new();
    assert(string_views(out@) =~= Seq::<Seq<char>>::empty());
    if let Some(r) = root_env {
        push_string(&mut out, r.to_owned());
    }
    if let Some(h) = home {
        let a = join_path_str(h, ".local/share/Steam/steamapps/common");
        push_string(&mut out, join_path_str(a.as_str(), STEAM_FOLDER));
        let b = join_path_str(h, ".steam/steam/steamapps/common");
        push_string(&mut out, join_path_str(b.as_str(), STEAM_FOLDER));
        let c = join_path_str(h, ".steam/root/steamapps/common");
        push_string(&mut out, join_path_str(c.as_str(), STEAM_FOLDER));
        let d = join_path_str(h, ".steam/debian-installation/steamapps/common");
        push_string(&mut out, join_path_str(d.as_str(), STEAM_FOLDER));
    }
    if let Some(c) = cwd {
        push_string(&mut out, join_path_str(c, "game-data"));
    }
    assert(string_views(out@) =~= candidate_roots(
        match root_env {
            Some(s) => Some(s@),
            None => None,
        },
        match home {
            Some(s) => Some(s@),
            None => None,
        },
        match cwd {
            Some(s) => Some(s@),
            None => None,
        },
    ));
    out
}

/// The two files whose presence marks a retail install: `FEAR.exe` and `Default.archcfg`.
pub fn fear_root_markers(root: &str) -> (r: (String, String))
    ensures
        r.0@ == join_path(root@, "FEAR.exe"@),
        r.1@ == join_path(root@, DEFAULT_ARCHCFG@),
{
    (join_path_str(root, "FEAR.exe"), join_path_str(root, DEFAULT_ARCHCFG))
}

/// A directory is a retail install when both marker files are there.
pub fn looks_like_fear_root(has_exe: bool, has_archcfg: bool) -> (r: bool)
    ensures
        r == (has_exe && has_archcfg),
{
    has_exe && has_archcfg
}

/// The first candidate that looks like a retail install, given for each whether it does.
pub fn detect_game_root(candidates: &Vec<String>, is_root: &Vec<bool>) -> (r: Option<String>)
    requires
        candidates@.len() == is_root@.len(),
    ensures
        match r {
            Some(s) => exists|k: int|
                0 <= k < candidates@.len() && is_root@[k] && s@ == candidates@[k]@ && forall|j: int|
                    0 <= j < k ==> !is_root@[j],
            None => forall|k: int| 0 <= k < is_root@.len() ==> !is_root@[k],
        },
{
    let mut k: usize = 0;
    while k < candidates.len()
        invariant
            k <= candidates@.len(),
            candidates@.len() == is_root@.len(),
            forall|j: int| 0 <= j < k ==> !is_root@[j],
        decreases candidates@.len() - k,
    {
        if is_root[k] {
            let s = candidates[k].clone();
            return Some(s);
        }
        k += 1;
    }
    None
}

#[derive(Debug)]
pub struct GameConfig {
    pub root: Option<String>,
    pub archcfg: String,
}

#[derive(Debug)]
pub struct Config {
    pub game: GameConfig,
}

impl Default for GameConfig {
    fn default() -> (r: Self)
        ensures
            r.root is None,
            r.archcfg@ == Seq::<char>::empty(),
    {
        GameConfig { root: None, archcfg: String::new() }
    }
}

impl Default for Config {
    fn default() -> (r: Self)
        ensures
            r.game.root is None,
            r.game.archcfg@ == Seq::<char>::empty(),
    {
        Config { game: GameConfig::default() }
    }
}

impl Config {
    /// The configured root when it is a directory, else the detected install.
    pub fn game_root(&self, root_is_dir: bool, detected: Option<String>) -> (r: Option<String>)
        ensures
            match self.game.root {
                Some(p) => if root_is_dir {
                    r matches Some(s) && s@ == p@
                } else {
                    r == detected
                },
                None => r == detected,
            },
    {
        match &self.game.root {
            Some(p) => {
                if root_is_dir {
                    Some(p.clone())
                } else {
                    detected
                }
            },
            None => detected,
        }
    }
}

/// Unicode `White_Space`, as `char::is_whitespace` tests it.
pub open spec fn is_ws(c: char) -> bool {
    ||| ('\u{9}' <= c && c <= '\u{d}')
    ||| c == ' '
    ||| c == '\u{85}'
    ||| c == '\u{a0}'
    ||| c == '\u{1680}'
    ||| ('\u{2000}' <= c && c <= '\u{200a}')
    ||| c == '\u{2028}'
    ||| c == '\u{2029}'
    ||| c == '\u{202f}'
    ||| c == '\u{205f}'
    ||| c == '\u{3000}'
}

fn is_whitespace(c: char) -> (r: bool)
    ensures
        r == is_ws(c),
{
    ('\u{9}' <= c && c <= '\u{d}') || c == ' ' || c == '\u{85}' || c == '\u{a0}' || c == '\u{1680}'
        || ('\u{2000}' <= c && c <= '\u{200a}') || c == '\u{2028}' || c == '\u{2029}' || c
        == '\u{202f}' || c == '\u{205f}' || c == '\u{3000}'
}

/// `s` without leading white space.
pub open spec fn trim_start(s: Seq<char>) -> Seq<char>
    decreases s.len(),
{
    if s.len() > 0 && is_ws(s[0]) {
        trim_start(s.skip(1))
    } else {
        s
    }
}

/// `s` without trailing white space.
pub open spec fn trim_end(s: Seq<char>) -> Seq<char>
    decreases s.len(),
{
    if s.len() > 0 && is_ws(s.last()) {
        trim_end(s.drop_last())
    } else {
        s
    }
}

/// `s` without white space at either end, as `str::trim` gives it.
pub open spec fn trim(s: Seq<char>) -> Seq<char> {
    trim_end(trim_start(s))
}

/// The pieces of `s` between newlines: one more than there are newlines.
pub open spec fn segments(s: Seq<char>) -> Seq<Seq<char>>
    decreases s.len(),
{
    if s.len() == 0 {
        seq![Seq::empty()]
    } else if s.last() == '\n' {
        segments(s.drop_last()).push(Seq::empty())
    } else {
        let p = segments(s.drop_last());
        p.update(p.len() - 1, p.last().push(s.last()))
    }
}

/// An archcfg line names an archive unless it is blank or a `;` or `#` comment.
pub open spec fn names_archive(line: Seq<char>) -> bool {
    line.len() > 0 && line[0] != ';' && line[0] != '#'
}

/// The archive names of an archcfg, trimmed, in order.
pub open spec fn archcfg_entries(text: Seq<char>) -> Seq<Seq<char>> {
    segments(text).map_values(|l: Seq<char>| trim(l)).filter(|l: Seq<char>| names_archive(l))
}

proof fn lemma_segments_nonempty(s: Seq<char>)
    ensures
        segments(s).len() >= 1,
    decreases s.len(),
{
    if s.len() > 0 {
        lemma_segments_nonempty(s.drop_last());
    }
}

fn trim_chars(v: &Vec<char>) -> (r: Vec<char>)
    ensures
        r@ == trim(v@),
{
    let mut a: usize = 0;
    assert(v@.skip(0) == v@);
    while a < v.len() && is_whitespace(v[a])
        invariant
            a <= v@.len(),
            trim_start(v@) == trim_start(v@.skip(a as int)),
        decreases v@.len() - a,
    {
        assert(v@.skip(a as int).skip(1) == v@.skip(a + 1));
        a += 1;
    }
    let ghost ts = v@.skip(a as int);
    assert(trim_start(v@) == ts);
    let mut b: usize = v.len();
    while b > a && is_whitespace(v[b - 1])
        invariant
            a <= b <= v@.len(),
            ts == v@.skip(a as int),
            trim_end(ts) == trim_end(v@.subrange(a as int, b as int)),
        decreases b,
    {
        assert(v@.subrange(a as int, b as int).drop_last() == v@.subrange(a as int, b - 1));
        b -= 1;
    }
    assert(v@.subrange(a as int, v@.len() as int) == ts);
    let mut r: Vec<char> = Vec::new();
    let mut i: usize = a;
    while i < b
        invariant
            a <= i <= b,
            b <= v@.len(),
            r@ == v@.subrange(a as int, i as int),
        decreases b - i,
    {
        r.push(v[i]);
        assert(v@.subrange(a as int, i + 1) == v@.subrange(a as int, i as int).push(v@[i as int]));
        i += 1;
    }
    r
}

/// The archive names an archcfg lists, trimmed, without blank lines and comments.
pub fn archcfg_lines(text: &str) -> (r: Vec<String>)
    ensures
        string_views(r@) == archcfg_entries(text@),
{
    let t = chars_of(text);
    let ghost keep = |l: Seq<char>| names_archive(l);
    let ghost tr = |l: Seq<char>| trim(l);
    let mut out: Vec<String> = Vec::new();
    let mut cur: Vec<char> = Vec::new();
    let mut i: usize = 0;
    proof {
        assert(segments(t@.take(0)) =~= seq![Seq::<char>::empty()]);
        assert(string_views(out@) =~= Seq::<Seq<char>>::empty());
        assert(seq![Seq::<char>::empty()].drop_last().map_values(tr).filter(keep) =~= Seq::<Seq<char>>::empty()) by {
            reveal_with_fuel(Seq::<Seq<char>>::filter, 1);
        }
    }
    while i < t.len()
        invariant
            i <= t@.len(),
            segments(t@.take(i as int)).last() == cur@,
            segments(t@.take(i as int)).len() >= 1,
            string_views(out@) == segments(t@.take(i as int)).drop_last().map_values(tr).filter(keep),
            keep == (|l: Seq<char>| names_archive(l)),
            tr == (|l: Seq<char>| trim(l)),
        decreases t@.len() - i,
    {
        let ghost before = segments(t@.take(i as int));
        let c = t[i];
        assert(t@.take(i + 1).drop_last() == t@.take(i as int));
        assert(t@.take(i + 1).last() == c);
        if c == '\n' {
            let line = trim_chars(&cur);
            let ghost done = before.drop_last().map_values(tr).filter(keep);
            let ghost next = segments(t@.take(i + 1));
            assert(next == before.push(Seq::<char>::empty()));
            assert(next.drop_last() == before);
            assert(before == before.drop_last().push(cur@));
            proof {
                assert(before.map_values(tr) =~= before.drop_last().map_values(tr).push(trim(cur@)));
                assert(before.map_values(tr).filter(keep) == if names_archive(trim(cur@)) {
                    done.push(trim(cur@))
                } else {
                    done
                }) by {
                    reveal_with_fuel(Seq::<Seq<char>>::filter, 1);
                    assert(before.map_values(tr).drop_last() =~= before.drop_last().map_values(tr));
                }
            }
            if line.len() > 0 && line[0] != ';' && line[0] != '#' {
                push_string(&mut out, string_of(&line));
            }
            cur = Vec::new();
            proof {
                lemma_segments_nonempty(t@.take(i + 1));
            }
        } else {
            let ghost next = segments(t@.take(i + 1));
            assert(next == before.update(before.len() - 1, before.last().push(c)));
            assert(next.drop_last() =~= before.drop_last());
            cur.push(c);
        }
        i += 1;
    }
    let line = trim_chars(&cur);
    let ghost all = segments(t@);
    let ghost done = all.drop_last().map_values(tr).filter(keep);
    assert(t@.take(t@.len() as int) == t@);
    proof {
        assert(all == all.drop_last().push(cur@));
        assert(all.map_values(tr) =~= all.drop_last().map_values(tr).push(trim(cur@)));
        assert(all.map_values(tr).filter(keep) == if names_archive(trim(cur@)) {
            done.push(trim(cur@))
        } else {
            done
        }) by {
            reveal_with_fuel(Seq::<Seq<char>>::filter, 1);
            assert(all.map_values(tr).drop_last() =~= all.drop_last().map_values(tr));
        }
    }
    if line.len() > 0 && line[0] != ';' && line[0] != '#' {
        push_string(&mut out, string_of(&line));
    }
    out
}

/// The archives an archcfg under `root` lists, each joined to `root`, in order. Those that
/// are not files are then left out by the caller, which can look at the disk.
pub fn archcfg_paths(root: &str, text: &str) -> (r: Vec<String>)
    ensures
        string_views(r@) == archcfg_entries(text@).map_values(|l: Seq<char>| join_path(root@, l)),
{
    let lines = archcfg_lines(text);
    let mut out: Vec<String> = Vec::new();
    let mut i: usize = 0;
    assert(string_views(out@) =~= Seq::<Seq<char>>::empty());
    while i < lines.len()
        invariant
            i <= lines@.len(),
            string_views(lines@) == archcfg_entries(text@),
            string_views(out@) == string_views(lines@).take(i as int).map_values(
                |l: Seq<char>| join_path(root@, l),
            ),
        decreases lines@.len() - i,
    {
        let p = join_path_str(root, lines[i].as_str());
        push_string(&mut out, p);
        assert(string_views(lines@).take(i + 1).map_values(|l: Seq<char>| join_path(root@, l))
            =~= string_views(lines@).take(i as int).map_values(|l: Seq<char>| join_path(root@, l)).push(
            join_path(root@, lines@[i as int]@),
        ));
        i += 1;
    }
    assert(string_views(lines@).take(lines@.len() as int) == string_views(lines@));
    out
}

/// A path names an archive when its extension says Arch00 (or Arch01) or REZ.
pub open spec fn is_archive_path(p: Seq<char>) -> bool {
    let k = kind_of_ext(lower_seq(last_segment(p)));
    k == ResourceKind::ArchiveArch00 || k == ResourceKind::ArchiveRez
}

pub open spec fn sorted_paths(v: Seq<Seq<char>>) -> bool {
    forall|i: int, j: int| 0 <= i < j < v.len() ==> lex_le(v[i], v[j])
}

/// Insert `s` after every entry that comes no later than it.
fn insert_sorted(out: &mut Vec<String>, s: String)
    requires
        sorted_paths(string_views(old(out)@)),
    ensures
        sorted_paths(string_views(final(out)@)),
        string_views(final(out)@).to_multiset() == string_views(old(out)@).to_multiset().insert(s@),
{
    let ghost v = string_views(out@);
    let mut j: usize = 0;
    while j < out.len() && lex_le_str(out[j].as_str(), s.as_str())
        invariant
            j <= out@.len(),
            v == string_views(out@),
            forall|k: int| 0 <= k < j ==> lex_le(v[k], s@),
        decreases out@.len() - j,
    {
        j += 1;
    }
    proof {
        if j < v.len() {
            lemma_lex_total(v[j as int], s@);
        }
    }
    let ghost sv = s@;
    out.insert(j, s);
    proof {
        let w = string_views(out@);
        assert(w =~= v.insert(j as int, sv));
        vstd::seq_lib::to_multiset_insert(v, j as int, sv);
        assert forall|a: int, b: int| 0 <= a < b < w.len() implies lex_le(w[a], w[b]) by {
            if b < j {
            } else if a < j && b == j {
            } else if a < j && b > j {
                lemma_lex_total(v[j as int], sv);
                lemma_lex_refl(v[j as int]);
                if b - 1 > j {
                    assert(lex_le(v[j as int], v[b - 1]));
                }
                lemma_lex_trans(sv, v[j as int], v[b - 1]);
                lemma_lex_trans(v[a], sv, v[b - 1]);
            } else if a == j {
                lemma_lex_total(v[j as int], sv);
                lemma_lex_refl(v[j as int]);
                if b - 1 > j {
                    assert(lex_le(v[j as int], v[b - 1]));
                }
                lemma_lex_trans(sv, v[j as int], v[b - 1]);
            } else {
            }
        }
    }
}

/// The archive files among the entries of a directory, sorted.
pub fn scan_archives(entries: &Vec<String>) -> (r: Vec<String>)
    ensures
        sorted_paths(string_views(r@)),
        string_views(r@).to_multiset() == string_views(entries@).filter(
            |p: Seq<char>| is_archive_path(p),
        ).to_multiset(),
{
    let ghost keep = |p: Seq<char>| is_archive_path(p);
    let mut out: Vec<String> = Vec::new();
    let mut i: usize = 0;
    proof {
        assert(string_views(entries@).take(0).filter(keep) =~= Seq::<Seq<char>>::empty()) by {
            reveal_with_fuel(Seq::<Seq<char>>::filter, 1);
        }
        assert(string_views(out@) =~= Seq::<Seq<char>>::empty());
    }
    while i < entries.len()
        invariant
            i <= entries@.len(),
            keep == (|p: Seq<char>| is_archive_path(p)),
            sorted_paths(string_views(out@)),
            string_views(out@).to_multiset() == string_views(entries@).take(i as int).filter(
                keep,
            ).to_multiset(),
        decreases entries@.len() - i,
    {
        let e = &entries[i];
        let ghost t = string_views(entries@).take(i + 1);
        proof {
            assert(t.drop_last() == string_views(entries@).take(i as int));
            assert(t.last() == e@);
            reveal_with_fuel(Seq::<Seq<char>>::filter, 1);
            vstd::seq_lib::to_multiset_build(string_views(entries@).take(i as int).filter(keep), e@);
        }
        let k = kind_from_path(e.as_str());
        if k == ResourceKind::ArchiveArch00 || k == ResourceKind::ArchiveRez {
            insert_sorted(&mut out, e.clone());
        }
        i += 1;
    }
    assert(string_views(entries@).take(entries@.len() as int) == string_views(entries@));
    out
}

/// What probing one archive found: its size and its header's file and folder counts.
#[derive(Debug)]
pub struct ArchiveProbe {
    pub path: String,
    pub bytes: u64,
    pub files: u32,
    pub folders: u32,
}

/// The retail mount: the install root, its archcfg and the archives it mounts, in order.
#[derive(Debug)]
pub struct GameMount {
    pub root: String,
    pub archcfg: String,
    pub archives: Vec<String>,
}

/// Files and bytes of the probes that succeeded, among the first `n`.
pub open spec fn probe_totals(ps: Seq<Result<ArchiveProbe, String>>, n: nat) -> (int, int)
    decreases n,
{
    if n == 0 {
        (0, 0)
    } else {
        let t = probe_totals(ps, (n - 1) as nat);
        match ps[n - 1] {
            Ok(p) => (t.0 + p.files, t.1 + p.bytes),
            Err(_) => t,
        }
    }
}

proof fn lemma_totals_monotone(ps: Seq<Result<ArchiveProbe, String>>, a: nat, b: nat)
    requires
        a <= b,
    ensures
        probe_totals(ps, a).0 <= probe_totals(ps, b).0,
        probe_totals(ps, a).1 <= probe_totals(ps, b).1,
        probe_totals(ps, a).0 >= 0,
        probe_totals(ps, a).1 >= 0,
    decreases b,
{
    if b > a {
        lemma_totals_monotone(ps, a, (b - 1) as nat);
    } else if a > 0 {
        lemma_totals_monotone(ps, (a - 1) as nat, (a - 1) as nat);
    }
}

impl GameMount {
    /// The archcfg of an install root.
    pub fn archcfg_of(root: &str) -> (r: String)
        ensures
            r@ == join_path(root@, DEFAULT_ARCHCFG@),
    {
        join_path_str(root, DEFAULT_ARCHCFG)
    }

    /// The archive files and bytes that the inventory reports over the probes that
    /// succeeded.
    pub fn inventory_totals(probes: &Vec<Result<ArchiveProbe, String>>) -> (r: (u64, u64))
        requires
            probe_totals(probes@, probes@.len()).0 <= u64::MAX,
            probe_totals(probes@, probes@.len()).1 <= u64::MAX,
        ensures
            r.0 == probe_totals(probes@, probes@.len()).0,
            r.1 == probe_totals(probes@, probes@.len()).1,
    {
        let mut files: u64 = 0;
        let mut bytes: u64 = 0;
        let mut i: usize = 0;
        while i < probes.len()
            invariant
                i <= probes@.len(),
                probe_totals(probes@, probes@.len()).0 <= u64::MAX,
                probe_totals(probes@, probes@.len()).1 <= u64::MAX,
                files == probe_totals(probes@, i as nat).0,
                bytes == probe_totals(probes@, i as nat).1,
            decreases probes@.len() - i,
        {
            proof {
                lemma_totals_monotone(probes@, (i + 1) as nat, probes@.len());
            }
            match &probes[i] {
                Ok(p) => {
                    files = files + p.files as u64;
                    bytes = bytes + p.bytes;
                },
                Err(_) => {},
            }
            i += 1;
        }
        (files, bytes)
    }
}

/// The archives that an archcfg names are its lines, trimmed, in order, without the blank
/// lines and the lines that start with `;` or `#` (comments).
pub proof fn law_archcfg_skips_blanks_and_comments(text: Seq<char>)
    ensures
        archcfg_entries(text) == segments(text).map_values(|l: Seq<char>| trim(l)).filter(
            |l: Seq<char>| l.len() > 0 && l[0] != ';' && l[0] != '#',
        ),
        forall|i: int|
            0 <= i < archcfg_entries(text).len() ==> (#[trigger] archcfg_entries(text)[i]).len() > 0
                && archcfg_entries(text)[i][0] != ';' && archcfg_entries(text)[i][0] != '#',
{
    let f = |l: Seq<char>| names_archive(l);
    let g = |l: Seq<char>| l.len() > 0 && l[0] != ';' && l[0] != '#';
    assert(f =~= g);
    let t = segments(text).map_values(|l: Seq<char>| trim(l));
    assert forall|i: int| 0 <= i < t.filter(g).len() implies g(#[trigger] t.filter(g)[i]) by {
        t.filter_lemma(g);
    }
}

} // verus!
