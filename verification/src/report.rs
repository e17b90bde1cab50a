//! What a report prints once per kind of violation.
use vstd::prelude::*;

use crate::check::{FileResult, Finding, MetricViolation};

verus! {

/// A fix message under the name of the pattern or metric it is for.
pub struct FixNote {
    pub name: String,
    pub fix: String,
}

/// The name and message of a note, as text.
pub open spec fn note_view(n: FixNote) -> (Seq<char>, Seq<char>) {
    (n.name@, n.fix@)
}

/// The notes of a sequence, as text.
pub open spec fn notes_view(ns: Seq<FixNote>) -> Seq<(Seq<char>, Seq<char>)> {
    ns.map_values(|n: FixNote| note_view(n))
}

/// `name` is the name of one of `notes`.
pub open spec fn names_contain(notes: Seq<(Seq<char>, Seq<char>)>, name: Seq<char>) -> bool {
    exists|i: int| 0 <= i < notes.len() && (#[trigger] notes[i]).0 == name
}

/// The first note under each name, in the order the names first appear.
pub open spec fn first_per_name(notes: Seq<(Seq<char>, Seq<char>)>) -> Seq<(Seq<char>, Seq<char>)>
    decreases notes.len(),
{
    if notes.len() == 0 {
        seq![]
    } else {
        let kept = first_per_name(notes.drop_last());
        if names_contain(kept, notes.last().0) {
            kept
        } else {
            kept.push(notes.last())
        }
    }
}

/// Keep one fix message per name: the first one given under it, in the
/// order the names first appear.
pub fn unique_fixes(notes: &Vec<FixNote>) -> (r: Vec<FixNote>)
    ensures
        notes_view(r@) == first_per_name(notes_view(notes@)),
{
    let ghost all = notes_view(notes@);
    let mut out: Vec<FixNote> = Vec::new();
    let mut i: usize = 0;
    while i < notes.len()
        invariant
            all == notes_view(notes@),
            i <= notes@.len(),
            notes_view(out@) == first_per_name(all.take(i as int)),
        decreases notes@.len() - i,
    {
        let ghost kept = notes_view(out@);
        assert(all.take(i + 1).drop_last() =~= all.take(i as int));
        assert(all.take(i + 1).last() == note_view(notes@[i as int]));
        let mut seen = false;
        let mut j: usize = 0;
        while j < out.len()
            invariant
                kept == notes_view(out@),
                j <= out@.len(),
                i < notes@.len(),
                seen <==> exists|q: int| 0 <= q < j && (#[trigger] kept[q]).0 == notes@[i as int].name@,
            decreases out@.len() - j,
        {
            if out[j].name == notes[i].name {
                assert(kept[j as int].0 == notes@[i as int].name@);
                seen = true;
            }
            j = j + 1;
        }
        assert(seen == names_contain(kept, notes@[i as int].name@));
        if !seen {
            let note = FixNote { name: notes[i].name.clone(), fix: notes[i].fix.clone() };
            out.push(note);
            assert(notes_view(out@) =~= kept.push(note_view(notes@[i as int])));
        }
        i = i + 1;
    }
    assert(all.take(notes@.len() as int) =~= all);
    out
}


/// Each name occurs once among the kept notes, every name given occurs
/// among them, and each kept note is the first one given under its name.
pub proof fn lemma_first_per_name(notes: Seq<(Seq<char>, Seq<char>)>)
    ensures
        forall|i: int, j: int|
            0 <= i < j < first_per_name(notes).len() ==> (#[trigger] first_per_name(notes)[i]).0
                != (#[trigger] first_per_name(notes)[j]).0,
        forall|i: int|
            0 <= i < notes.len() ==> names_contain(first_per_name(notes), (#[trigger] notes[i]).0),
        forall|k: int|
            #![trigger first_per_name(notes)[k]]
            0 <= k < first_per_name(notes).len() ==> exists|i: int|
                0 <= i < notes.len() && #[trigger] notes[i] == first_per_name(notes)[k]
                    && !names_contain(notes.take(i), notes[i].0),
    decreases notes.len(),
{
    if notes.len() > 0 {
        let init = notes.drop_last();
        lemma_first_per_name(init);
        let kept = first_per_name(init);
        let last = notes.last();
        let n = notes.len() - 1;
        assert forall|i: int| 0 <= i < notes.len() implies names_contain(
            first_per_name(notes),
            (#[trigger] notes[i]).0,
        ) by {
            if i < n {
                assert(init[i] == notes[i]);
                let q = choose|q: int| 0 <= q < kept.len() && (#[trigger] kept[q]).0 == init[i].0;
                assert(first_per_name(notes)[q] == kept[q]);
            } else if !names_contain(kept, last.0) {
                assert(first_per_name(notes)[kept.len() as int] == last);
            }
        }
        assert forall|k: int|
            #![trigger first_per_name(notes)[k]]
            0 <= k < first_per_name(notes).len() implies exists|i: int|
            0 <= i < notes.len() && #[trigger] notes[i] == first_per_name(notes)[k]
                && !names_contain(notes.take(i), notes[i].0) by {
            if k < kept.len() {
                let i = choose|i: int|
                    0 <= i < init.len() && #[trigger] init[i] == kept[k] && !names_contain(
                        init.take(i),
                        init[i].0,
                    );
                assert(notes.take(i) =~= init.take(i));
                assert(notes[i] == init[i]);
            } else {
                assert(notes.take(n) =~= init);
                assert forall|q: int| 0 <= q < n implies (#[trigger] init[q]).0 != last.0 by {
                    if init[q].0 == last.0 {
                        assert(names_contain(kept, init[q].0));
                    }
                }
                assert(notes[n] == first_per_name(notes)[k]);
            }
        }
    }
}


// ---- totals and notes over file results ----

/// The number of matches over `findings`.
pub open spec fn finding_total(findings: Seq<Finding>) -> nat
    decreases findings.len(),
{
    if findings.len() == 0 {
        0
    } else {
        finding_total(findings.drop_last()) + findings.last().matches@.len()
    }
}

/// The number of violations over `results`: every match of every finding,
/// and every metric violation.
pub open spec fn violation_total_spec<T>(results: Seq<FileResult<T>>) -> nat
    decreases results.len(),
{
    if results.len() == 0 {
        0
    } else {
        violation_total_spec(results.drop_last()) + finding_total(results.last().findings@)
            + results.last().metric_violations@.len()
    }
}

pub proof fn lemma_finding_total_grows(findings: Seq<Finding>, i: int)
    requires
        0 <= i <= findings.len(),
    ensures
        finding_total(findings.take(i)) <= finding_total(findings),
    decreases findings.len(),
{
    if i < findings.len() {
        assert(findings.drop_last().take(i) =~= findings.take(i));
        lemma_finding_total_grows(findings.drop_last(), i);
    } else {
        assert(findings.take(i) =~= findings);
    }
}

pub proof fn lemma_violation_total_grows<T>(results: Seq<FileResult<T>>, i: int)
    requires
        0 <= i <= results.len(),
    ensures
        violation_total_spec(results.take(i)) <= violation_total_spec(results),
    decreases results.len(),
{
    if i < results.len() {
        assert(results.drop_last().take(i) =~= results.take(i));
        lemma_violation_total_grows(results.drop_last(), i);
    } else {
        assert(results.take(i) =~= results);
    }
}

/// Count the violations over `results`.
pub fn violation_total<T>(results: &Vec<FileResult<T>>) -> (r: usize)
    requires
        violation_total_spec(results@) <= usize::MAX,
    ensures
        r == violation_total_spec(results@),
{
    let mut total: usize = 0;
    let mut i: usize = 0;
    while i < results.len()
        invariant
            i <= results@.len(),
            violation_total_spec(results@) <= usize::MAX,
            total == violation_total_spec(results@.take(i as int)),
        decreases results@.len() - i,
    {
        let r = &results[i];
        assert(results@.take(i + 1).drop_last() =~= results@.take(i as int));
        proof {
            lemma_violation_total_grows(results@, i + 1);
        }
        let ghost base = total as int;
        let mut j: usize = 0;
        while j < r.findings.len()
            invariant
                j <= r.findings@.len(),
                total == base + finding_total(r.findings@.take(j as int)),
                base + finding_total(r.findings@) + r.metric_violations@.len() <= usize::MAX,
            decreases r.findings@.len() - j,
        {
            assert(r.findings@.take(j + 1).drop_last() =~= r.findings@.take(j as int));
            proof {
                lemma_finding_total_grows(r.findings@, j + 1);
            }
            total = total + r.findings[j].matches.len();
            j = j + 1;
        }
        assert(r.findings@.take(r.findings@.len() as int) =~= r.findings@);
        total = total + r.metric_violations.len();
        i = i + 1;
    }
    assert(results@.take(results@.len() as int) =~= results@);
    total
}

/// The notes of one result: its findings, then its metric violations.
pub open spec fn result_notes<T>(r: FileResult<T>) -> Seq<(Seq<char>, Seq<char>)> {
    r.findings@.map_values(|f: Finding| (f.pattern_name@, f.fix@)) + r.metric_violations@.map_values(
        |m: MetricViolation<T>| (m.metric_name@, m.fix@),
    )
}

/// The notes of all results, in order.
pub open spec fn all_notes<T>(results: Seq<FileResult<T>>) -> Seq<(Seq<char>, Seq<char>)>
    decreases results.len(),
{
    if results.len() == 0 {
        seq![]
    } else {
        all_notes(results.drop_last()) + result_notes(results.last())
    }
}

/// The fix advice a report prints: one line per kind of violation found,
/// in the order the kinds first occur.
pub fn report_fixes<T>(results: &Vec<FileResult<T>>) -> (r: Vec<FixNote>)
    ensures
        notes_view(r@) == first_per_name(all_notes(results@)),
{
    let mut notes: Vec<FixNote> = Vec::new();
    let mut i: usize = 0;
    while i < results.len()
        invariant
            i <= results@.len(),
            notes_view(notes@) == all_notes(results@.take(i as int)),
        decreases results@.len() - i,
    {
        let r = &results[i];
        assert(results@.take(i + 1).drop_last() =~= results@.take(i as int));
        let ghost base = notes_view(notes@);
        let mut j: usize = 0;
        while j < r.findings.len()
            invariant
                j <= r.findings@.len(),
                notes_view(notes@) == base + r.findings@.take(j as int).map_values(
                    |f: Finding| (f.pattern_name@, f.fix@),
                ),
            decreases r.findings@.len() - j,
        {
            let f = &r.findings[j];
            let ghost prev = notes@;
            let note = FixNote { name: String::from_str(f.pattern_name), fix: String::from_str(f.fix) };
            assert(note_view(note) == (f.pattern_name@, f.fix@));
            notes.push(note);
            assert(notes_view(notes@) =~= notes_view(prev).push(note_view(note)));
            assert(r.findings@.take(j + 1) =~= r.findings@.take(j as int).push(*f));
            assert(notes_view(notes@) =~= base + r.findings@.take(j + 1).map_values(
                |f: Finding| (f.pattern_name@, f.fix@),
            ));
            j = j + 1;
        }
        assert(r.findings@.take(r.findings@.len() as int) =~= r.findings@);
        let ghost mid = notes_view(notes@);
        let mut k: usize = 0;
        while k < r.metric_violations.len()
            invariant
                k <= r.metric_violations@.len(),
                notes_view(notes@) == mid + r.metric_violations@.take(k as int).map_values(
                    |m: MetricViolation<T>| (m.metric_name@, m.fix@),
                ),
            decreases r.metric_violations@.len() - k,
        {
            let m = &r.metric_violations[k];
            let ghost prev = notes@;
            let note = FixNote { name: String::from_str(m.metric_name), fix: String::from_str(m.fix) };
            assert(note_view(note) == (m.metric_name@, m.fix@));
            notes.push(note);
            assert(notes_view(notes@) =~= notes_view(prev).push(note_view(note)));
            assert(r.metric_violations@.take(k + 1) =~= r.metric_violations@.take(k as int).push(*m));
            assert(notes_view(notes@) =~= mid + r.metric_violations@.take(k + 1).map_values(
                |m: MetricViolation<T>| (m.metric_name@, m.fix@),
            ));
            k = k + 1;
        }
        assert(r.metric_violations@.take(r.metric_violations@.len() as int) =~= r.metric_violations@);
        assert(notes_view(notes@) =~= all_notes(results@.take(i + 1)));
        i = i + 1;
    }
    assert(results@.take(results@.len() as int) =~= results@);
    unique_fixes(&notes)
}

} // verus!
