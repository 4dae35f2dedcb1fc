//! The orchestration engine's decision logic.
//!
//! A forward run applies every discovered change-set whose id is not yet in
//! the ledger, in the given (ascending) file order; a reverse run reverts
//! exactly the first entry of the given (descending) file list whose id is in
//! the ledger, or nothing. The surrounding process reads the ledger and the
//! directory, hands the plain values in, executes the chosen bodies, and
//! records the outcome back in the ledger.

use vstd::prelude::*;
use vstd::seq_lib::group_filter_ensures;

use crate::names::{parse_id_name_from_file, parse_spec, str_eq};

verus! {

/// One discovered change-set: its filename, and the id and name parsed from
/// it.
pub struct ChangeSet {
    pub file: String,
    pub id: String,
    pub name: String,
}

/// Whether `f` parses as a change-set filename whose id is `x`.
pub open spec fn is_id(f: Seq<char>, x: Seq<char>) -> bool {
    match parse_spec(f) {
        Some(p) => p.0 == x,
        None => false,
    }
}

/// The ids a ledger snapshot records, as a set.
pub open spec fn id_set(ids: Seq<String>) -> Set<Seq<char>> {
    Set::new(|x: Seq<char>| exists|k: int| 0 <= k < ids.len() && (#[trigger] ids[k])@ == x)
}

/// Whether the file named `f` parses and its id has not been applied.
pub open spec fn is_pending(f: Seq<char>, applied: Set<Seq<char>>) -> bool {
    match parse_spec(f) {
        Some(p) => !applied.contains(p.0),
        None => false,
    }
}

/// Whether the file named `f` parses and its id has been applied: a reverse
/// run reverts the first such file.
pub open spec fn is_applied_file(f: Seq<char>, applied: Set<Seq<char>>) -> bool {
    match parse_spec(f) {
        Some(p) => applied.contains(p.0),
        None => false,
    }
}

/// The files of a forward run that are still to be applied, in their given
/// order: the discovered set minus the applied set.
pub open spec fn pending_files(files: Seq<String>, applied: Set<Seq<char>>) -> Seq<String> {
    files.filter(|f: String| is_pending(f@, applied))
}

/// The file a reverse run reverts: the first of `files` that parses to an
/// applied id, if any.
pub open spec fn undo_choice(files: Seq<String>, applied: Set<Seq<char>>) -> Option<Seq<char>>
    decreases files.len(),
{
    if files.len() == 0 {
        None
    } else if is_applied_file(files[0]@, applied) {
        Some(files[0]@)
    } else {
        undo_choice(files.skip(1), applied)
    }
}

/// Decides membership of an id in a ledger snapshot.
pub fn contains_id(ids: &Vec<String>, id: &str) -> (r: bool)
    ensures
        r == id_set(ids@).contains(id@),
{
    let mut i: usize = 0;
    while i < ids.len()
        invariant
            i <= ids@.len(),
            forall|j: int| 0 <= j < i ==> (#[trigger] ids@[j])@ != id@,
        decreases ids@.len() - i,
    {
        if str_eq(ids[i].as_str(), id) {
            return true;
        }
        i = i + 1;
    }
    false
}

/// Plans a forward run: the change-sets to execute and record, in order.
/// The plan holds exactly the pending files — those that parse and whose id
/// is not in `applied` — in the order given, each with its parsed id and
/// name.
pub fn plan_apply(files: &Vec<String>, applied: &Vec<String>) -> (plan: Vec<ChangeSet>)
    ensures
        ({
            let pend = pending_files(files@, id_set(applied@));
            &&& plan@.len() == pend.len()
            &&& forall|k: int|
                0 <= k < pend.len() ==> (#[trigger] plan@[k]).file == pend[k] && parse_spec(
                    pend[k]@,
                ) == Some((plan@[k].id@, plan@[k].name@))
        }),
{
    let ghost aset = id_set(applied@);
    let mut plan: Vec<ChangeSet> = Vec::new();
    let mut i: usize = 0;
    proof {
        reveal_with_fuel(Seq::<String>::filter, 2);
        assert(files@.take(0) =~= Seq::<String>::empty());
        assert(pending_files(files@.take(0), aset) =~= Seq::<String>::empty());
    }
    while i < files.len()
        invariant
            i <= files@.len(),
            aset == id_set(applied@),
            ({
                let pend = pending_files(files@.take(i as int), aset);
                &&& plan@.len() == pend.len()
                &&& forall|k: int|
                    0 <= k < pend.len() ==> (#[trigger] plan@[k]).file == pend[k] && parse_spec(
                        pend[k]@,
                    ) == Some((plan@[k].id@, plan@[k].name@))
            }),
        decreases files@.len() - i,
    {
        proof {
            assert(files@.take(i as int).push(files@[i as int]) =~= files@.take(i + 1));
            crate::repo::lemma_filter_push(
                files@.take(i as int),
                |f: String| is_pending(f@, aset),
                files@[i as int],
            );
        }
        let parsed = parse_id_name_from_file(files[i].as_str());
        match parsed {
            Some(p) => {
                let (id, name) = p;
                if !contains_id(applied, id.as_str()) {
                    let cs = ChangeSet { file: files[i].clone(), id, name };
                    plan.push(cs);
                }
            },
            None => {},
        }
        i = i + 1;
    }
    proof {
        assert(files@.take(files@.len() as int) =~= files@);
    }
    plan
}

/// Plans a reverse run: the single change-set to revert, or `None` when no
/// discovered reverse file has an applied id. At most one change-set is ever
/// reverted per run.
pub fn plan_undo(files: &Vec<String>, applied: &Vec<String>) -> (r: Option<ChangeSet>)
    ensures
        match r {
            None => undo_choice(files@, id_set(applied@)) is None,
            Some(cs) => {
                &&& undo_choice(files@, id_set(applied@)) == Some(cs.file@)
                &&& parse_spec(cs.file@) == Some((cs.id@, cs.name@))
            },
        },
{
    let ghost aset = id_set(applied@);
    let mut i: usize = 0;
    proof {
        assert(files@.skip(0) =~= files@);
    }
    while i < files.len()
        invariant
            i <= files@.len(),
            aset == id_set(applied@),
            undo_choice(files@, aset) == undo_choice(files@.skip(i as int), aset),
        decreases files@.len() - i,
    {
        proof {
            assert(files@.skip(i as int)[0] == files@[i as int]);
            assert(files@.skip(i as int).skip(1) =~= files@.skip(i + 1));
        }
        let parsed = parse_id_name_from_file(files[i].as_str());
        match parsed {
            Some(p) => {
                let (id, name) = p;
                if contains_id(applied, id.as_str()) {
                    return Some(ChangeSet { file: files[i].clone(), id, name });
                }
            },
            None => {},
        }
        i = i + 1;
    }
    proof {
        assert(files@.skip(files@.len() as int).len() == 0);
    }
    None
}

/// The ids that the given files parse to.
pub open spec fn parsed_ids(files: Seq<String>) -> Set<Seq<char>> {
    Set::new(|x: Seq<char>| exists|i: int| 0 <= i < files.len() && is_id((#[trigger] files[i])@, x))
}

proof fn lemma_filter_subset(s: Seq<String>, pred: spec_fn(String) -> bool)
    ensures
        forall|i: int| 0 <= i < s.filter(pred).len() ==> s.contains(#[trigger] s.filter(pred)[i]),
    decreases s.len(),
{
    reveal_with_fuel(Seq::<String>::filter, 2);
    if s.len() > 0 {
        lemma_filter_subset(s.drop_last(), pred);
        assert forall|i: int| 0 <= i < s.filter(pred).len() implies s.contains(
            #[trigger] s.filter(pred)[i],
        ) by {
            let x = s.filter(pred)[i];
            if i < s.drop_last().filter(pred).len() {
                assert(s.drop_last().contains(x));
                let j = choose|j: int| 0 <= j < s.drop_last().len() && s.drop_last()[j] == x;
                assert(s[j] == x);
            } else {
                assert(x == s.last());
            }
        }
    }
}

/// A forward run is idempotent: once every pending change-set has been
/// recorded as applied, planning the same directory again finds nothing
/// pending.
pub proof fn lemma_apply_idempotent(files: Seq<String>, applied: Set<Seq<char>>)
    ensures
        pending_files(files, applied.union(parsed_ids(pending_files(files, applied)))).len() == 0,
{
    broadcast use group_filter_ensures;

    let pend = pending_files(files, applied);
    let applied2 = applied.union(parsed_ids(pend));
    let pend2 = pending_files(files, applied2);
    if pend2.len() > 0 {
        let f = pend2[0];
        assert(is_pending(f@, applied2));
        lemma_filter_subset(files, |g: String| is_pending(g@, applied2));
        assert(files.contains(f));
        let j = choose|j: int| 0 <= j < files.len() && files[j] == f;
        assert(is_pending(f@, applied));
        assert(pend.contains(f));
        let k = choose|k: int| 0 <= k < pend.len() && pend[k] == f;
        let id = parse_spec(f@).unwrap().0;
        assert(is_id(pend[k]@, id));
        assert(parsed_ids(pend).contains(id));
        assert(applied2.contains(id));
        assert(false);
    }
}

/// A forward run preserves the discovery order: filtering the applied ids
/// out of an ascending file list leaves an ascending file list, so pending
/// change-sets are executed strictly in ascending order.
pub proof fn lemma_apply_ordered(files: Seq<String>, applied: Set<Seq<char>>)
    requires
        crate::repo::sorted_asc(files),
    ensures
        crate::repo::sorted_asc(pending_files(files, applied)),
    decreases files.len(),
{
    reveal_with_fuel(Seq::<String>::filter, 2);
    broadcast use group_filter_ensures;

    let pred = |f: String| is_pending(f@, applied);
    if files.len() > 0 {
        let head = files.drop_last();
        assert forall|i: int, j: int| 0 <= i < j < head.len() implies crate::repo::lex_le(
            head[i]@,
            head[j]@,
        ) by {
            assert(head[i] == files[i]);
            assert(head[j] == files[j]);
        }
        lemma_apply_ordered(head, applied);
        let ph = pending_files(head, applied);
        let pf = pending_files(files, applied);
        if pred(files.last()) {
            assert(pf == ph.push(files.last()));
            lemma_filter_subset(head, pred);
            assert forall|i: int, j: int| 0 <= i < j < pf.len() implies crate::repo::lex_le(
                pf[i]@,
                pf[j]@,
            ) by {
                if j < ph.len() {
                    assert(pf[i] == ph[i] && pf[j] == ph[j]);
                } else {
                    assert(pf[j] == files.last());
                    assert(head.contains(ph[i]));
                    let k = choose|k: int| 0 <= k < head.len() && head[k] == ph[i];
                    assert(files[k] == ph[i]);
                    assert(crate::repo::lex_le(files[k]@, files[files.len() - 1]@));
                }
            }
        } else {
            assert(pf == ph);
        }
    }
}

/// What a reverse run's choice means: the chosen file is a discovered file
/// whose id is applied.
pub proof fn lemma_undo_choice_some(files: Seq<String>, applied: Set<Seq<char>>, f: Seq<char>)
    requires
        undo_choice(files, applied) == Some(f),
    ensures
        is_applied_file(f, applied),
        exists|i: int| 0 <= i < files.len() && (#[trigger] files[i])@ == f,
    decreases files.len(),
{
    if files.len() == 0 {
    } else if is_applied_file(files[0]@, applied) {
        assert(files[0]@ == f);
    } else {
        lemma_undo_choice_some(files.skip(1), applied, f);
        let i = choose|i: int| 0 <= i < files.skip(1).len() && (#[trigger] files.skip(1)[i])@ == f;
        assert(files.skip(1)[i] == files[i + 1]);
        assert(files[i + 1]@ == f);
    }
}

/// A reverse run that chooses nothing found no discovered file with an
/// applied id.
pub proof fn lemma_undo_choice_none(files: Seq<String>, applied: Set<Seq<char>>)
    requires
        undo_choice(files, applied) is None,
    ensures
        forall|i: int| 0 <= i < files.len() ==> !is_applied_file((#[trigger] files[i])@, applied),
    decreases files.len(),
{
    if files.len() == 0 {
    } else {
        lemma_undo_choice_none(files.skip(1), applied);
        assert forall|i: int| 0 <= i < files.len() implies !is_applied_file(
            (#[trigger] files[i])@,
            applied,
        ) by {
            if i > 0 {
                assert(files.skip(1)[i - 1] == files[i]);
            }
        }
    }
}

/// A reverse run reverts exactly one change-set: the chosen id was applied,
/// unmarking it leaves every other id's standing untouched, and a second
/// reverse run can never choose the same id again.
pub proof fn lemma_undo_single_step(
    files: Seq<String>,
    applied: Set<Seq<char>>,
    f: Seq<char>,
    id: Seq<char>,
    name: Seq<char>,
)
    requires
        undo_choice(files, applied) == Some(f),
        parse_spec(f) == Some((id, name)),
    ensures
        applied.contains(id),
        forall|x: Seq<char>| x != id ==> applied.remove(id).contains(x) == applied.contains(x),
        forall|f2: Seq<char>|
            undo_choice(files, applied.remove(id)) == Some(f2) ==> !is_id(f2, id),
{
    lemma_undo_choice_some(files, applied, f);
    assert forall|f2: Seq<char>| undo_choice(files, applied.remove(id)) == Some(f2) implies !is_id(
        f2,
        id,
    ) by {
        lemma_undo_choice_some(files, applied.remove(id), f2);
        assert(is_applied_file(f2, applied.remove(id)));
    }
}

/// A reverse run over an empty ledger performs nothing and reports nothing.
pub proof fn lemma_undo_empty_noop(files: Seq<String>)
    ensures
        undo_choice(files, Set::empty()) is None,
    decreases files.len(),
{
    if files.len() > 0 {
        lemma_undo_empty_noop(files.skip(1));
    }
}

/// Forward and reverse files are independent: a forward file applies whether
/// or not a reverse file with its id exists, and when none exists, no
/// reverse run over any ledger state ever reverts that id.
pub proof fn lemma_pair_independence(
    fwd: Seq<String>,
    rev: Seq<String>,
    applied: Set<Seq<char>>,
    i: int,
    id: Seq<char>,
    name: Seq<char>,
)
    requires
        0 <= i < fwd.len(),
        parse_spec(fwd[i]@) == Some((id, name)),
        !applied.contains(id),
        forall|j: int| 0 <= j < rev.len() ==> !is_id((#[trigger] rev[j])@, id),
    ensures
        pending_files(fwd, applied).contains(fwd[i]),
        forall|a: Set<Seq<char>>|
            (#[trigger] undo_choice(rev, a)) is Some ==> !is_id(undo_choice(rev, a).unwrap(), id),
{
    broadcast use group_filter_ensures;

    assert(is_pending(fwd[i]@, applied));
    assert forall|a: Set<Seq<char>>| (#[trigger] undo_choice(rev, a)) is Some implies !is_id(
        undo_choice(rev, a).unwrap(),
        id,
    ) by {
        let f2 = undo_choice(rev, a).unwrap();
        assert(undo_choice(rev, a) == Some(f2));
        lemma_undo_choice_some(rev, a, f2);
        let j = choose|j: int| 0 <= j < rev.len() && (#[trigger] rev[j])@ == f2;
        assert(!is_id(rev[j]@, id));
    }
}

} // verus!
