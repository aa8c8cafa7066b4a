//! Archive keys: the forward-slash form of the backslash paths that game data uses.
use vstd::prelude::*;

use crate::text::{chars_of, string_of};

verus! {

/// `c` with a backslash turned into a forward slash.
pub open spec fn slash(c: char) -> char {
    if c == '\\' {
        '/'
    } else {
        c
    }
}

/// Every backslash of `s` turned into a forward slash.
pub open spec fn slashes(s: Seq<char>) -> Seq<char> {
    s.map_values(|c: char| slash(c))
}

/// `s` with each occurrence of `from`, scanned left to right without overlap, replaced
/// by `to`, as `str::replace` does for a nonempty pattern.
pub open spec fn replace_all(s: Seq<char>, from: Seq<char>, to: Seq<char>) -> Seq<char>
    decreases s.len(),
{
    if from.len() == 0 || s.len() < from.len() {
        s
    } else if s.take(from.len() as int) == from {
        to + replace_all(s.skip(from.len() as int), from, to)
    } else {
        seq![s[0]] + replace_all(s.skip(1), from, to)
    }
}

/// Characters of `s` with every backslash turned into a forward slash.
pub fn slash_chars(s: &Vec<char>) -> (r: Vec<char>)
    ensures
        r@ == slashes(s@),
{
    let mut r: Vec<char> = Vec::new();
    let mut i: usize = 0;
    while i < s.len()
        invariant
            i <= s@.len(),
            r@ == slashes(s@.take(i as int)),
        decreases s@.len() - i,
    {
        let c = s[i];
        r.push(if c == '\\' { '/' } else { c });
        assert(slashes(s@.take(i + 1)) == slashes(s@.take(i as int)).push(slash(s@[i as int])));
        i += 1;
    }
    assert(s@.take(s@.len() as int) == s@);
    r
}

/// The archive key of a logical asset path: backslashes become forward slashes.
pub fn archive_key(logical: &str) -> (r: String)
    ensures
        r@ == slashes(logical@),
{
    string_of(&slash_chars(&chars_of(logical)))
}

/// Replace each occurrence of `from` in `s` by `to`.
pub fn replace_chars(s: &Vec<char>, from: &Vec<char>, to: &Vec<char>) -> (r: Vec<char>)
    requires
        from@.len() > 0,
    ensures
        r@ == replace_all(s@, from@, to@),
{
    let mut out: Vec<char> = Vec::new();
    let mut i: usize = 0;
    let n = from.len();
    assert(s@.skip(0) == s@);
    assert(out@ + s@ == s@) by {
        assert(out@ + s@ =~= s@);
    }
    while i < s.len()
        invariant
            i <= s@.len(),
            n == from@.len(),
            n > 0,
            out@ + replace_all(s@.skip(i as int), from@, to@) == replace_all(s@, from@, to@),
        decreases s@.len() - i,
    {
        let ghost rest = s@.skip(i as int);
        let mut matched = s.len() - i >= n;
        if matched {
            let mut j: usize = 0;
            while j < n
                invariant
                    j <= n,
                    n == from@.len(),
                    i + n <= s@.len(),
                    s@.len() == s.len(),
                    s.len() <= usize::MAX,
                    matched == (forall|m: int| 0 <= m < j ==> s@[i + m] == from@[m]),
                decreases n - j,
            {
                if s[i + j] != from[j] {
                    matched = false;
                }
                j += 1;
            }
            proof {
                if matched {
                    assert(rest.take(n as int) =~= from@);
                } else {
                    if rest.take(n as int) == from@ {
                        assert forall|m: int| 0 <= m < n implies s@[i + m] == from@[m] by {
                            assert(rest.take(n as int)[m] == s@[i + m]);
                        }
                    }
                }
            }
        }
        if matched {
            let mut j: usize = 0;
            let ghost before = out@;
            while j < to.len()
                invariant
                    j <= to@.len(),
                    out@ == before + to@.take(j as int),
                decreases to@.len() - j,
            {
                out.push(to[j]);
                assert(to@.take(j + 1) == to@.take(j as int).push(to@[j as int]));
                j += 1;
            }
            proof {
                assert(to@.take(to@.len() as int) == to@);
                assert(rest.skip(n as int) == s@.skip(i + n));
                assert(out@ + replace_all(s@.skip(i + n), from@, to@) == before + replace_all(rest, from@, to@));
            }
            i = i + n;
        } else {
            out.push(s[i]);
            proof {
                assert(rest.skip(1) == s@.skip(i + 1));
                assert(rest[0] == s@[i as int]);
                assert(out@ + replace_all(s@.skip(i + 1), from@, to@) == (out@.drop_last() + replace_all(rest, from@, to@)));
            }
            i = i + 1;
        }
    }
    proof {
        assert(s@.skip(s@.len() as int) =~= Seq::<char>::empty());
        assert(out@ + Seq::<char>::empty() == out@);
    }
    out
}

/// The archive key of a material path. Intro spells one material `Tile_MIrrow02`,
/// while the pack holds `Tile_Mirror02`, so that name is corrected first.
pub fn material_key(logical: &str) -> (r: String)
    ensures
        r@ == slashes(replace_all(logical@, "Tile_MIrrow02"@, "Tile_Mirror02"@)),
{
    let from = chars_of("Tile_MIrrow02");
    let to = chars_of("Tile_Mirror02");
    proof {
        reveal_strlit("Tile_MIrrow02");
    }
    let fixed = replace_chars(&chars_of(logical), &from, &to);
    string_of(&slash_chars(&fixed))
}


/// An archive key holds no backslash.
pub proof fn law_archive_key_has_no_backslash(logical: Seq<char>)
    ensures
        forall|i: int| 0 <= i < slashes(logical).len() ==> slashes(logical)[i] != '\\',
{
}

/// Taking the archive key of an archive key changes nothing.
pub proof fn law_archive_key_idempotent(logical: Seq<char>)
    ensures
        slashes(slashes(logical)) == slashes(logical),
{
    assert(slashes(slashes(logical)) =~= slashes(logical));
}

} // verus!
