//! Filename parsing for change-set files.
//!
//! A change-set file is named `<id>_<name>_up.sql` or `<id>_<name>_down.sql`.
//! The id is the text before the first underscore; the name is the remainder
//! with one trailing forward or reverse suffix stripped, and the remainder
//! unchanged where neither suffix ends it. A filename without an underscore
//! does not parse and is skipped by the callers.

use vstd::prelude::*;

verus! {

/// Index of the first `'_'` in `s`, or `s.len()` if there is none.
pub open spec fn sep_index(s: Seq<char>) -> int
    decreases s.len(),
{
    if s.len() == 0 {
        0
    } else if s[0] == '_' {
        0
    } else {
        1 + sep_index(s.skip(1))
    }
}

pub proof fn lemma_sep_index(s: Seq<char>)
    ensures
        0 <= sep_index(s) <= s.len(),
        sep_index(s) < s.len() ==> s[sep_index(s)] == '_',
        forall|j: int| 0 <= j < sep_index(s) ==> s[j] != '_',
    decreases s.len(),
{
    if s.len() == 0 {
    } else if s[0] == '_' {
    } else {
        lemma_sep_index(s.skip(1));
        assert forall|j: int| 0 <= j < sep_index(s) implies s[j] != '_' by {
            if j > 0 {
                assert(s.skip(1)[j - 1] == s[j]);
            }
        }
    }
}

/// The forward suffix, as a character sequence.
pub open spec fn up_suffix() -> Seq<char> {
    "_up.sql"@
}

/// The reverse suffix, as a character sequence.
pub open spec fn down_suffix() -> Seq<char> {
    "_down.sql"@
}

/// Whether `s` ends in `suf`.
pub open spec fn ends_with(s: Seq<char>, suf: Seq<char>) -> bool {
    s.len() >= suf.len() && s.skip(s.len() - suf.len()) == suf
}

/// The name part parsed out of everything after the first underscore: one
/// trailing suffix is stripped — the forward one, or else the reverse one —
/// and text that ends in neither is kept whole.
pub open spec fn parse_name(rest: Seq<char>) -> Seq<char> {
    if ends_with(rest, up_suffix()) {
        rest.take(rest.len() - up_suffix().len())
    } else if ends_with(rest, down_suffix()) {
        rest.take(rest.len() - down_suffix().len())
    } else {
        rest
    }
}

/// What a filename parses to: `None` when it holds no underscore, otherwise
/// the id before the first underscore and the name after it.
pub open spec fn parse_spec(f: Seq<char>) -> Option<(Seq<char>, Seq<char>)> {
    let k = sep_index(f);
    if k == f.len() {
        None
    } else {
        Some((f.take(k), parse_name(f.skip(k + 1))))
    }
}

/// Decides whether `s@` and `t@` are the same character sequence.
pub fn str_eq(s: &str, t: &str) -> (r: bool)
    ensures
        r == (s@ == t@),
{
    let sn: usize = s.unicode_len();
    let tn: usize = t.unicode_len();
    if sn != tn {
        return false;
    }
    let mut i: usize = 0;
    while i < sn
        invariant
            i <= sn,
            sn == s@.len(),
            sn == t@.len(),
            forall|j: int| 0 <= j < i ==> s@[j] == t@[j],
        decreases sn - i,
    {
        if s.get_char(i) != t.get_char(i) {
            return false;
        }
        i = i + 1;
    }
    proof {
        assert(s@ =~= t@);
    }
    true
}

/// Decides whether `pat@` occurs in `s@` starting at position `i`.
pub(crate) fn match_at(s: &str, pat: &str, i: usize) -> (r: bool)
    requires
        i + pat@.len() <= s@.len(),
    ensures
        r == (s@.subrange(i as int, i + pat@.len()) == pat@),
{
    let n: usize = s.unicode_len();
    let m: usize = pat.unicode_len();
    let mut j: usize = 0;
    while j < m
        invariant
            j <= m,
            m == pat@.len(),
            n == s@.len(),
            i + m <= n,
            forall|k: int| 0 <= k < j ==> s@[i + k] == pat@[k],
        decreases m - j,
    {
        if s.get_char(i + j) != pat.get_char(j) {
            proof {
                assert(s@.subrange(i as int, i + pat@.len())[j as int] == s@[i + j]);
            }
            return false;
        }
        j = j + 1;
    }
    proof {
        assert(s@.subrange(i as int, i + pat@.len()) =~= pat@);
    }
    true
}

/// Decides whether a filename carries the given suffix.
pub fn file_has_suffix(s: &str, suf: &str) -> (r: bool)
    ensures
        r == ends_with(s@, suf@),
{
    let n: usize = s.unicode_len();
    let m: usize = suf.unicode_len();
    if n < m {
        return false;
    }
    let r = match_at(s, suf, n - m);
    proof {
        assert(s@.skip(n - m) =~= s@.subrange(n - m, (n - m) + m));
    }
    r
}

/// Strips one trailing suffix where present, as `parse_name` reads the text
/// after the separator.
fn strip_one_suffix(rest: &str) -> (r: String)
    ensures
        r@ == parse_name(rest@),
{
    let n: usize = rest.unicode_len();
    proof {
        reveal_strlit("_up.sql");
        reveal_strlit("_down.sql");
    }
    if file_has_suffix(rest, "_up.sql") {
        let m: usize = "_up.sql".unicode_len();
        let kept = rest.substring_char(0, n - m);
        proof {
            assert(rest@.subrange(0, n - m) =~= rest@.take(n - m));
        }
        String::from_str(kept)
    } else if file_has_suffix(rest, "_down.sql") {
        let m: usize = "_down.sql".unicode_len();
        let kept = rest.substring_char(0, n - m);
        proof {
            assert(rest@.subrange(0, n - m) =~= rest@.take(n - m));
        }
        String::from_str(kept)
    } else {
        rest.to_owned()
    }
}

/// Parses a change-set filename into its id and name, as the surrounding
/// process does for each directory entry. Returns `None` for a filename
/// without an underscore, which the callers skip silently.
pub fn parse_id_name_from_file(filename: &str) -> (r: Option<(String, String)>)
    ensures
        match r {
            Some(p) => parse_spec(filename@) == Some((p.0@, p.1@)),
            None => parse_spec(filename@) is None,
        },
{
    let n: usize = filename.unicode_len();
    let mut k: usize = 0;
    proof {
        lemma_sep_index(filename@);
    }
    while k < n && filename.get_char(k) != '_'
        invariant
            k <= n,
            n == filename@.len(),
            forall|j: int| 0 <= j < k ==> filename@[j] != '_',
        decreases n - k,
    {
        k = k + 1;
    }
    proof {
        // The scan stops exactly at the first separator, so `k` is `sep_index`.
        if k < n {
            assert(sep_index(filename@) == k) by {
                if sep_index(filename@) < k {
                    assert(filename@[sep_index(filename@)] != '_');
                }
            }
        } else {
            assert(sep_index(filename@) == n) by {
                if sep_index(filename@) < n {
                    assert(filename@[sep_index(filename@)] != '_');
                }
            }
        }
    }
    if k >= n {
        return None;
    }
    let id_part = filename.substring_char(0, k);
    let rest = filename.substring_char(k + 1, n);
    let id = id_part.to_owned();
    proof {
        assert(filename@.take(k as int) =~= filename@.subrange(0, k as int));
        assert(filename@.skip(k + 1) =~= filename@.subrange(k + 1, n as int));
    }
    let name = strip_one_suffix(rest);
    Some((id, name))
}

} // verus!
