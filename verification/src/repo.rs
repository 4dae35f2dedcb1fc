//! The compute half of the change-set repository: deciding which discovered
//! filenames belong to a run and in what order. Filenames are compared
//! lexicographically by code point, which matches how the surrounding process
//! sorts directory listings; ids are fixed-width timestamps, so this orders by
//! id first. Forward runs take the files ascending; reverse runs take them
//! descending.

use vstd::prelude::*;
use vstd::multiset::Multiset;
use vstd::seq_lib::group_to_multiset_ensures;

use crate::names::ends_with;

verus! {

/// Lexicographic order on character sequences by code point: the order in
/// which filenames are applied.
pub open spec fn lex_le(a: Seq<char>, b: Seq<char>) -> bool
    decreases a.len(),
{
    if a.len() == 0 {
        true
    } else if b.len() == 0 {
        false
    } else if a[0] != b[0] {
        (a[0] as u32) < (b[0] as u32)
    } else {
        lex_le(a.skip(1), b.skip(1))
    }
}

/// Distinct characters have distinct code points.
proof fn lemma_char_code_points(c1: char, c2: char)
    ensures
        (c1 as u32) == (c2 as u32) ==> c1 == c2,
{
}

/// `lex_le` relates every pair of filenames one way or the other.
pub proof fn lemma_lex_le_total(a: Seq<char>, b: Seq<char>)
    ensures
        lex_le(a, b) || lex_le(b, a),
    decreases a.len(),
{
    if a.len() == 0 {
    } else if b.len() == 0 {
    } else if a[0] != b[0] {
        lemma_char_code_points(a[0], b[0]);
    } else {
        lemma_lex_le_total(a.skip(1), b.skip(1));
    }
}

/// `lex_le` is transitive.
pub proof fn lemma_lex_le_trans(a: Seq<char>, b: Seq<char>, c: Seq<char>)
    requires
        lex_le(a, b),
        lex_le(b, c),
    ensures
        lex_le(a, c),
    decreases a.len(),
{
    if a.len() == 0 {
    } else if b.len() == 0 {
    } else if c.len() == 0 {
    } else if a[0] == b[0] && b[0] == c[0] {
        lemma_lex_le_trans(a.skip(1), b.skip(1), c.skip(1));
    }
}

/// Decides `lex_le` on two filenames.
pub fn lex_le_files(a: &str, b: &str) -> (r: bool)
    ensures
        r == lex_le(a@, b@),
{
    let an: usize = a.unicode_len();
    let bn: usize = b.unicode_len();
    let mut i: usize = 0;
    proof {
        assert(a@.skip(0) =~= a@);
        assert(b@.skip(0) =~= b@);
    }
    loop
        invariant
            i <= an,
            i <= bn,
            an == a@.len(),
            bn == b@.len(),
            lex_le(a@, b@) == lex_le(a@.skip(i as int), b@.skip(i as int)),
        decreases an - i,
    {
        if i >= an {
            return true;
        }
        if i >= bn {
            return false;
        }
        let ca = a.get_char(i);
        let cb = b.get_char(i);
        if ca != cb {
            return (ca as u32) < (cb as u32);
        }
        proof {
            assert(a@.skip(i as int).skip(1) =~= a@.skip(i + 1));
            assert(b@.skip(i as int).skip(1) =~= b@.skip(i + 1));
        }
        i = i + 1;
    }
}

/// The discovered filenames that carry the given suffix, in discovery order.
pub open spec fn with_suffix(files: Seq<String>, suf: Seq<char>) -> Seq<String> {
    files.filter(|f: String| ends_with(f@, suf))
}

pub proof fn lemma_filter_push(s: Seq<String>, pred: spec_fn(String) -> bool, x: String)
    ensures
        s.push(x).filter(pred) == if pred(x) {
            s.filter(pred).push(x)
        } else {
            s.filter(pred)
        },
{
    reveal_with_fuel(Seq::<String>::filter, 2);
    assert(s.push(x).drop_last() =~= s);
    assert(s.push(x).last() == x);
}

/// Keeps exactly the filenames that end in `suffix`, in their given order.
pub fn filter_by_suffix(files: &Vec<String>, suffix: &str) -> (r: Vec<String>)
    ensures
        r@ == with_suffix(files@, suffix@),
{
    let mut out: Vec<String> = Vec::new();
    let mut i: usize = 0;
    proof {
        reveal_with_fuel(Seq::<String>::filter, 2);
        assert(files@.take(0) =~= Seq::<String>::empty());
        assert(Seq::<String>::empty().filter(|f: String| ends_with(f@, suffix@))
            =~= Seq::<String>::empty());
    }
    while i < files.len()
        invariant
            i <= files@.len(),
            out@ == with_suffix(files@.take(i as int), suffix@),
        decreases files@.len() - i,
    {
        proof {
            assert(files@.take(i as int).push(files@[i as int]) =~= files@.take(i + 1));
            lemma_filter_push(
                files@.take(i as int),
                |f: String| ends_with(f@, suffix@),
                files@[i as int],
            );
        }
        if crate::names::file_has_suffix(&files[i], suffix) {
            out.push(files[i].clone());
        }
        i = i + 1;
    }
    proof {
        assert(files@.take(files@.len() as int) =~= files@);
    }
    out
}

/// Whether the filenames stand in ascending lexicographic order.
pub open spec fn sorted_asc(files: Seq<String>) -> bool {
    forall|i: int, j: int| 0 <= i < j < files.len() ==> lex_le(files[i]@, files[j]@)
}

/// Whether the filenames stand in descending lexicographic order.
pub open spec fn sorted_desc(files: Seq<String>) -> bool {
    forall|i: int, j: int| 0 <= i < j < files.len() ==> lex_le(files[j]@, files[i]@)
}

/// Reversing an ascending file list yields the descending order in which a
/// reverse run visits the files: newest-looking id first.
pub proof fn lemma_reverse_sorted(files: Seq<String>)
    requires
        sorted_asc(files),
    ensures
        sorted_desc(files.reverse()),
{
    let r = files.reverse();
    assert forall|i: int, j: int| 0 <= i < j < r.len() implies lex_le(r[j]@, r[i]@) by {
        assert(r[i] == files[files.len() - 1 - i]);
        assert(r[j] == files[files.len() - 1 - j]);
    }
}

/// Sorts filenames ascending: the order in which a forward run applies them.
/// The result holds exactly the given filenames.
pub fn sort_files(files: Vec<String>) -> (r: Vec<String>)
    ensures
        sorted_asc(r@),
        r@.to_multiset() == files@.to_multiset(),
{
    broadcast use group_to_multiset_ensures;
    broadcast use vstd::multiset::group_multiset_axioms;

    let mut rest = files;
    let mut out: Vec<String> = Vec::new();
    proof {
        assert(out@.to_multiset().add(rest@.to_multiset()) =~= files@.to_multiset()) by {
            assert(out@.to_multiset() =~= Multiset::<String>::empty());
        }
    }
    while rest.len() > 0
        invariant
            sorted_asc(out@),
            out@.to_multiset().add(rest@.to_multiset()) == files@.to_multiset(),
            forall|i: int, j: int|
                0 <= i < out@.len() && 0 <= j < rest@.len() ==> lex_le(out@[i]@, rest@[j]@),
        decreases rest@.len(),
    {
        // Find the least remaining filename.
        proof {
            lemma_lex_le_total(rest@[0]@, rest@[0]@);
        }
        let mut mi: usize = 0;
        let mut j: usize = 1;
        while j < rest.len()
            invariant
                mi < j <= rest@.len(),
                rest@.len() > 0,
                forall|k: int| 0 <= k < j ==> lex_le(rest@[mi as int]@, rest@[k]@),
            decreases rest@.len() - j,
        {
            proof {
                lemma_lex_le_total(rest@[mi as int]@, rest@[j as int]@);
            }
            if !lex_le_files(rest[mi].as_str(), rest[j].as_str()) {
                proof {
                    let old_mi = mi as int;
                    assert forall|k: int| 0 <= k < j + 1 implies lex_le(
                        rest@[j as int]@,
                        rest@[k]@,
                    ) by {
                        if k < j {
                            lemma_lex_le_trans(rest@[j as int]@, rest@[old_mi]@, rest@[k]@);
                        } else {
                            lemma_lex_le_total(rest@[j as int]@, rest@[j as int]@);
                        }
                    }
                }
                mi = j;
            }
            j = j + 1;
        }
        proof {
            lemma_lex_le_total(rest@[mi as int]@, rest@[mi as int]@);
        }
        let ghost old_rest = rest@;
        let e = rest.remove(mi);
        let ghost old_out = out@;
        out.push(e);
        proof {
            broadcast use group_to_multiset_ensures;
            broadcast use vstd::multiset::group_multiset_axioms;

            assert(out@ == old_out.push(e));
            assert(rest@ == old_rest.remove(mi as int));
            assert(out@.to_multiset().add(rest@.to_multiset()) =~= files@.to_multiset()) by {
                assert(old_out.push(e).to_multiset() =~= old_out.to_multiset().insert(e));
                assert(old_rest.remove(mi as int).to_multiset() =~= old_rest.to_multiset().remove(
                    e,
                ));
                assert(old_rest.to_multiset().count(e) >= 1) by {
                    assert(old_rest.contains(e));
                }
            }
            assert forall|i: int, j2: int|
                0 <= i < out@.len() && 0 <= j2 < rest@.len() implies lex_le(
                out@[i]@,
                rest@[j2]@,
            ) by {
                if i < out@.len() - 1 {
                    // Old entries were below everything that remained.
                } else {
                    // The new entry was the least of what remained.
                }
            }
        }
    }
    proof {
        assert(rest@.to_multiset() =~= Multiset::<String>::empty());
        assert(out@.to_multiset() =~= files@.to_multiset());
    }
    out
}

/// Reverses an ordered file list: a reverse run visits the newest-looking
/// filename first.
pub fn reverse_files(files: Vec<String>) -> (r: Vec<String>)
    ensures
        r@ == files@.reverse(),
{
    let mut rest = files;
    let mut out: Vec<String> = Vec::new();
    proof {
        assert(files@.take(files@.len() as int) =~= files@);
    }
    while rest.len() > 0
        invariant
            rest@.len() <= files@.len(),
            out@ == files@.skip(rest@.len() as int).reverse(),
            rest@ == files@.take(rest@.len() as int),
        decreases rest@.len(),
    {
        let ghost k = rest@.len() as int;
        let e = rest.pop().unwrap();
        out.push(e);
        proof {
            assert(files@.take(k)[k - 1] == files@[k - 1]);
            assert(e == files@[k - 1]);
            assert(rest@ =~= files@.take(k - 1));
            assert(out@ =~= files@.skip(k - 1).reverse()) by {
                assert(files@.skip(k - 1).len() == files@.len() - (k - 1));
                assert forall|i: int| 0 <= i < out@.len() implies out@[i] == files@.skip(
                    k - 1,
                ).reverse()[i] by {
                    assert(files@.skip(k - 1).reverse()[i] == files@.skip(k - 1)[files@.len() - (k
                        - 1) - 1 - i]);
                    assert(files@.skip(k - 1)[files@.len() - (k - 1) - 1 - i] == files@[files@.len()
                        - 1 - i]);
                    if i < out@.len() - 1 {
                        assert(out@[i] == files@.skip(k).reverse()[i]);
                        assert(files@.skip(k).reverse()[i] == files@.skip(k)[files@.len() - k - 1
                            - i]);
                    }
                }
            }
        }
    }
    proof {
        assert(rest@.len() == 0);
        assert(files@.skip(0) =~= files@);
    }
    out
}

/// The compute half of listing the change-set directory for one suffix:
/// keeps the filenames with the suffix and orders them ascending, as a
/// forward run visits them. The caller reverses the order for a reverse run.
pub fn select_sql_files(files: &Vec<String>, suffix: &str) -> (r: Vec<String>)
    ensures
        sorted_asc(r@),
        r@.to_multiset() == with_suffix(files@, suffix@).to_multiset(),
{
    let kept = filter_by_suffix(files, suffix);
    sort_files(kept)
}

} // verus!
