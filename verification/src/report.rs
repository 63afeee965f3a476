//! Result grouping: organizes the benchmark results of one run into a
//! report structure, grouped by revision and indexed by workload, with both
//! dimensions in lexical byte order so that a report is deterministic
//! whatever order revisions were run in.

use vstd::prelude::*;

verus! {

use crate::stats::{BenchmarkResult, spec_best, spec_worst, spec_median, spec_average};
use crate::text::{
    key_of,
    lex_lt,
    name_lt,
    lemma_lex_total,
    lemma_lex_antisym,
    lemma_lex_trans,
    lemma_key_injective,
};

/// One report line: a workload and its four summary statistics.
pub struct ReportRow {
    pub workload: String,
    pub best: u128,
    pub worst: u128,
    pub median: u128,
    pub average: u128,
}

/// All report lines of one revision.
pub struct RevisionSection {
    pub revision: String,
    pub rows: Vec<ReportRow>,
}

/// The whole grouped report: one section per revision that has results.
pub struct Report {
    pub sections: Vec<RevisionSection>,
}

/// A name occurs in a list of names.
pub open spec fn name_present(names: Seq<String>, x: Seq<char>) -> bool {
    exists|i: int| 0 <= i < names.len() && names[i]@ == x
}

/// Names strictly ascending in byte order (in particular duplicate-free).
pub open spec fn strictly_ascending(names: Seq<String>) -> bool {
    forall|i: int, j: int|
        0 <= i < j < names.len() ==> lex_lt(key_of(names[i]@), key_of(names[j]@))
}

/// The recorded result for one (revision, workload) pair: the latest one,
/// if the same pair was ever recorded twice.
pub open spec fn last_match(
    results: Seq<BenchmarkResult>,
    rev: Seq<char>,
    wl: Seq<char>,
) -> Option<BenchmarkResult>
    decreases results.len(),
{
    if results.len() == 0 {
        None
    } else if results.last().commit@ == rev && results.last().benchmark@ == wl {
        Some(results.last())
    } else {
        last_match(results.drop_last(), rev, wl)
    }
}

/// Some result was recorded for the pair.
pub open spec fn has_result(results: Seq<BenchmarkResult>, rev: Seq<char>, wl: Seq<char>) -> bool {
    exists|k: int|
        0 <= k < results.len() && (#[trigger] results[k]).commit@ == rev
            && results[k].benchmark@ == wl
}

pub proof fn lemma_last_match(results: Seq<BenchmarkResult>, rev: Seq<char>, wl: Seq<char>)
    ensures
        has_result(results, rev, wl) == last_match(results, rev, wl).is_some(),
        match last_match(results, rev, wl) {
            Some(r) => r.commit@ == rev && r.benchmark@ == wl,
            None => true,
        },
    decreases results.len(),
{
    if results.len() == 0 {
    } else if results.last().commit@ == rev && results.last().benchmark@ == wl {
        assert(results[results.len() - 1].commit@ == rev);
    } else {
        lemma_last_match(results.drop_last(), rev, wl);
        let d = results.drop_last();
        if has_result(results, rev, wl) {
            let k = choose|k: int|
                0 <= k < results.len() && (#[trigger] results[k]).commit@ == rev
                    && results[k].benchmark@ == wl;
            assert(k < results.len() - 1);
            assert(d[k] == results[k]);
            assert(has_result(d, rev, wl));
        }
        if has_result(d, rev, wl) {
            let k = choose|k: int|
                0 <= k < d.len() && (#[trigger] d[k]).commit@ == rev && d[k].benchmark@ == wl;
            assert(results[k] == d[k]);
            assert(has_result(results, rev, wl));
        }
    }
}

/// A report row is right for a revision: the pair is recorded and the row
/// carries exactly its statistics.
pub open spec fn row_for(results: Seq<BenchmarkResult>, rev: Seq<char>, row: ReportRow) -> bool {
    match last_match(results, rev, row.workload@) {
        Some(r) => {
            &&& row.best == spec_best(r.times@)
            &&& row.worst == spec_worst(r.times@)
            &&& row.median == spec_median(r.times@)
            &&& row.average == spec_average(r.times@)
        },
        None => false,
    }
}

/// A section is right for a revision: the revision has results, its rows
/// are exactly the workloads recorded for it, in ascending byte order,
/// each carrying that pair's statistics.
pub open spec fn section_for(results: Seq<BenchmarkResult>, sec: RevisionSection) -> bool {
    &&& exists|k: int|
        0 <= k < results.len() && (#[trigger] results[k]).commit@ == sec.revision@
    &&& forall|i: int, j: int|
        0 <= i < j < sec.rows@.len() ==> lex_lt(
            key_of(sec.rows@[i].workload@),
            key_of(sec.rows@[j].workload@),
        )
    &&& forall|i: int| 0 <= i < sec.rows@.len() ==> row_for(results, sec.revision@, #[trigger] sec.rows@[i])
    &&& forall|k: int|
        0 <= k < results.len() && (#[trigger] results[k]).commit@ == sec.revision@ ==> exists|i: int|
            0 <= i < sec.rows@.len() && (#[trigger] sec.rows@[i]).workload@ == results[k].benchmark@
}

/// Some section of the report is for the given revision.
pub open spec fn revision_present(sections: Seq<RevisionSection>, rev: Seq<char>) -> bool {
    exists|i: int| 0 <= i < sections.len() && (#[trigger] sections[i]).revision@ == rev
}

/// The report a set of results yields: one section per distinct revision,
/// in ascending byte order, each section right for its revision. Empty
/// results give a report with no sections.
pub open spec fn report_for(results: Seq<BenchmarkResult>, rep: Report) -> bool {
    &&& forall|i: int, j: int|
        0 <= i < j < rep.sections@.len() ==> lex_lt(
            key_of(rep.sections@[i].revision@),
            key_of(rep.sections@[j].revision@),
        )
    &&& forall|i: int|
        0 <= i < rep.sections@.len() ==> section_for(results, #[trigger] rep.sections@[i])
    &&& forall|k: int|
        0 <= k < results.len() ==> revision_present(rep.sections@, (#[trigger] results[k]).commit@)
}

/// Inserts a name into an ascending list unless it is already there.
fn insert_name_sorted(names: &mut Vec<String>, name: &String)
    requires
        strictly_ascending(old(names)@),
    ensures
        strictly_ascending(final(names)@),
        forall|x: Seq<char>|
            name_present(final(names)@, x) <==> (name_present(old(names)@, x) || x == name@),
{
    let ghost orig = names@;
    let mut idx: usize = 0;
    while idx < names.len() && name_lt(&names[idx], name)
        invariant
            idx <= names@.len(),
            names@ == orig,
            forall|k: int| 0 <= k < idx ==> lex_lt(key_of(#[trigger] orig[k]@), key_of(name@)),
        decreases names@.len() - idx,
    {
        idx += 1;
    }
    if idx < names.len() {
        let same = names[idx] == *name;
        if same {
            proof {
                assert(orig[idx as int]@ == name@);
                assert(name_present(orig, name@));
                assert forall|x: Seq<char>|
                    name_present(names@, x) <==> (name_present(orig, x) || x == name@) by {}
            }
            return;
        }
    }
    proof {
        // the name goes strictly between its neighbours
        if idx < orig.len() {
            let kn = key_of(name@);
            let ki = key_of(orig[idx as int]@);
            assert(!lex_lt(ki, kn));
            if ki == kn {
                lemma_key_injective(orig[idx as int]@, name@);
                assert(false);
            }
            lemma_lex_total(ki, kn);
            assert(lex_lt(kn, ki));
        }
    }
    names.insert(idx, name.clone());
    proof {
        let ins = names@;
        let i = idx as int;
        assert(ins == orig.insert(i, ins[i]));
        assert(ins[i]@ == name@);
        assert forall|p: int, q: int|
            0 <= p < q < ins.len() implies lex_lt(key_of(ins[p]@), key_of(ins[q]@)) by {
            let kn = key_of(name@);
            if q < i {
                assert(ins[p] == orig[p] && ins[q] == orig[q]);
            } else if p > i {
                assert(ins[p] == orig[p - 1] && ins[q] == orig[q - 1]);
            } else if p < i && q == i {
                assert(ins[p] == orig[p]);
                assert(lex_lt(key_of(orig[p]@), kn));
            } else if p == i && q > i {
                assert(ins[q] == orig[q - 1]);
                assert(lex_lt(kn, key_of(orig[q - 1]@))) by {
                    if q - 1 == i {
                        assert(lex_lt(kn, key_of(orig[i]@)));
                    } else {
                        assert(lex_lt(key_of(orig[i]@), key_of(orig[q - 1]@)));
                        lemma_lex_trans(kn, key_of(orig[i]@), key_of(orig[q - 1]@));
                        if kn == key_of(orig[q - 1]@) {
                            lemma_lex_antisym(key_of(orig[i]@), kn);
                            assert(false);
                        }
                    }
                }
            } else if p < i && q > i {
                assert(ins[p] == orig[p] && ins[q] == orig[q - 1]);
                if q - 1 == p {
                    assert(lex_lt(key_of(orig[p]@), kn));
                    assert(false);
                }
            }
        }
        assert forall|x: Seq<char>|
            name_present(ins, x) <==> (name_present(orig, x) || x == name@) by {
            if name_present(ins, x) {
                let j = choose|j: int| 0 <= j < ins.len() && ins[j]@ == x;
                if j < i {
                    assert(orig[j]@ == x);
                } else if j > i {
                    assert(orig[j - 1]@ == x);
                }
            }
            if name_present(orig, x) {
                let j = choose|j: int| 0 <= j < orig.len() && orig[j]@ == x;
                if j < i {
                    assert(ins[j]@ == x);
                } else {
                    assert(ins[j + 1]@ == x);
                }
            }
            if x == name@ {
                assert(ins[i]@ == x);
            }
        }
    }
}

/// Finds the recorded result for one (revision, workload) pair: the latest
/// occurrence, as a map keyed by the pair would keep it.
fn find_last(results: &Vec<BenchmarkResult>, rev: &String, wl: &String) -> (r: Option<usize>)
    ensures
        match r {
            Some(i) => i < results@.len() && last_match(results@, rev@, wl@) == Some(
                results@[i as int],
            ),
            None => last_match(results@, rev@, wl@) is None,
        },
{
    let mut idx: usize = results.len();
    proof {
        assert(results@.take(results@.len() as int) =~= results@);
    }
    while idx > 0
        invariant
            idx <= results@.len(),
            last_match(results@, rev@, wl@) == last_match(
                results@.take(idx as int),
                rev@,
                wl@,
            ),
        decreases idx,
    {
        idx -= 1;
        let matches_rev = results[idx].commit == *rev;
        let matches_wl = results[idx].benchmark == *wl;
        proof {
            assert(results@.take(idx + 1 as int).drop_last() =~= results@.take(idx as int));
            assert(results@.take(idx + 1 as int).last() == results@[idx as int]);
        }
        if matches_rev && matches_wl {
            return Some(idx);
        }
    }
    proof {
        assert(results@.take(0) =~= Seq::<BenchmarkResult>::empty());
    }
    None
}

/// Groups results by revision and workload: one section per distinct
/// revision in ascending byte order; within a section one row per workload
/// recorded for that revision, ascending, each with the pair's statistics.
#[verifier::rlimit(50)]
pub fn build_report(results: &Vec<BenchmarkResult>) -> (rep: Report)
    ensures
        report_for(results@, rep),
{
    let ghost rs = results@;

    // the distinct workload names across all results, ascending
    let mut workloads: Vec<String> = Vec::new();
    let mut i: usize = 0;
    while i < results.len()
        invariant
            i <= rs.len(),
            rs == results@,
            strictly_ascending(workloads@),
            forall|x: Seq<char>|
                name_present(workloads@, x) <==> exists|k: int|
                    0 <= k < i && (#[trigger] rs[k]).benchmark@ == x,
        decreases rs.len() - i,
    {
        insert_name_sorted(&mut workloads, &results[i].benchmark);
        i += 1;
    }

    // the distinct revisions, ascending
    let mut commits: Vec<String> = Vec::new();
    let mut j: usize = 0;
    while j < results.len()
        invariant
            j <= rs.len(),
            rs == results@,
            strictly_ascending(commits@),
            forall|x: Seq<char>|
                name_present(commits@, x) <==> exists|k: int|
                    0 <= k < j && (#[trigger] rs[k]).commit@ == x,
        decreases rs.len() - j,
    {
        insert_name_sorted(&mut commits, &results[j].commit);
        j += 1;
    }

    let ghost all_workloads = workloads@;
    let ghost all_commits = commits@;

    let mut sections: Vec<RevisionSection> = Vec::new();
    let mut ci: usize = 0;
    while ci < commits.len()
        invariant
            ci <= all_commits.len(),
            rs == results@,
            commits@ == all_commits,
            workloads@ == all_workloads,
            strictly_ascending(all_commits),
            strictly_ascending(all_workloads),
            forall|x: Seq<char>|
                name_present(all_workloads, x) <==> exists|k: int|
                    0 <= k < rs.len() && (#[trigger] rs[k]).benchmark@ == x,
            forall|x: Seq<char>|
                name_present(all_commits, x) <==> exists|k: int|
                    0 <= k < rs.len() && (#[trigger] rs[k]).commit@ == x,
            sections@.len() == ci,
            forall|k: int| 0 <= k < ci ==> (#[trigger] sections@[k]).revision@ == all_commits[k]@,
            forall|k: int| 0 <= k < ci ==> section_for(rs, #[trigger] sections@[k]),
        decreases all_commits.len() - ci,
    {
        let mut rows: Vec<ReportRow> = Vec::new();
        let mut wi: usize = 0;
        let ghost rev = all_commits[ci as int]@;
        while wi < workloads.len()
            invariant
                wi <= all_workloads.len(),
                rs == results@,
                commits@ == all_commits,
                workloads@ == all_workloads,
                ci < all_commits.len(),
                rev == all_commits[ci as int]@,
                strictly_ascending(all_workloads),
                forall|r: int|
                    0 <= r < rows@.len() ==> exists|k: int|
                        0 <= k < wi && (#[trigger] rows@[r]).workload@ == all_workloads[k]@,
                forall|r1: int, r2: int|
                    0 <= r1 < r2 < rows@.len() ==> lex_lt(
                        key_of(rows@[r1].workload@),
                        key_of(rows@[r2].workload@),
                    ),
                forall|r: int| 0 <= r < rows@.len() ==> row_for(rs, rev, #[trigger] rows@[r]),
                forall|k: int|
                    0 <= k < wi && has_result(rs, rev, #[trigger] all_workloads[k]@) ==> exists|r: int|
                        0 <= r < rows@.len() && (#[trigger] rows@[r]).workload@ == all_workloads[k]@,
            decreases all_workloads.len() - wi,
        {
            proof {
                lemma_last_match(rs, rev, all_workloads[wi as int]@);
            }
            let ghost rows_before = rows@;
            let found = find_last(results, &commits[ci], &workloads[wi]);
            match found {
                Some(idx) => {
                    let r = &results[idx];
                    let row = ReportRow {
                        workload: workloads[wi].clone(),
                        best: r.best(),
                        worst: r.worst(),
                        median: r.median(),
                        average: r.average(),
                    };
                    rows.push(row);
                    proof {
                        let last = rows@.len() - 1;
                        assert(rows@ == rows_before.push(rows@[last]));
                        assert(rows@[last].workload@ == all_workloads[wi as int]@);
                        assert(row_for(rs, rev, rows@[last]));
                        // the new row sorts after every earlier one
                        assert forall|r1: int| 0 <= r1 < last implies lex_lt(
                            key_of(rows@[r1].workload@),
                            key_of(rows@[last].workload@),
                        ) by {
                            assert(rows@[r1] == rows_before[r1]);
                            let k = choose|k: int|
                                0 <= k < wi && rows_before[r1].workload@ == all_workloads[k]@;
                            assert(lex_lt(
                                key_of(all_workloads[k]@),
                                key_of(all_workloads[wi as int]@),
                            ));
                        }
                    }
                },
                None => {},
            }
            proof {
                assert forall|k: int|
                    0 <= k < wi + 1 && has_result(rs, rev, #[trigger] all_workloads[k]@)
                        implies exists|r: int|
                        0 <= r < rows@.len() && (#[trigger] rows@[r]).workload@
                            == all_workloads[k]@ by {
                    if k < wi {
                        let r = choose|r: int|
                            0 <= r < rows_before.len() && (#[trigger] rows_before[r]).workload@
                                == all_workloads[k]@;
                        assert(rows@[r].workload@ == all_workloads[k]@);
                    } else {
                        assert(last_match(rs, rev, all_workloads[wi as int]@).is_some());
                        assert(found.is_some());
                        assert(rows@[rows@.len() - 1].workload@ == all_workloads[k]@);
                    }
                }
            }
            wi += 1;
        }
        let ghost rows_view = rows@;
        let sec = RevisionSection { revision: commits[ci].clone(), rows };
        proof {
            assert(sec.revision@ == rev);
            assert(sec.rows@ == rows_view);
            // the revision has results
            assert(name_present(all_commits, rev));
            // every result of this revision has a row
            assert forall|k: int|
                0 <= k < rs.len() && (#[trigger] rs[k]).commit@ == sec.revision@ implies exists|r: int|
                    0 <= r < sec.rows@.len() && (#[trigger] sec.rows@[r]).workload@
                        == rs[k].benchmark@ by {
                assert(name_present(all_workloads, rs[k].benchmark@));
                let w = choose|w: int|
                    0 <= w < all_workloads.len() && all_workloads[w]@ == rs[k].benchmark@;
                assert(has_result(rs, rev, all_workloads[w]@));
                let r = choose|r: int|
                    0 <= r < rows_view.len() && (#[trigger] rows_view[r]).workload@
                        == all_workloads[w]@;
                assert(sec.rows@[r].workload@ == rs[k].benchmark@);
            }
            assert(section_for(rs, sec));
        }
        sections.push(sec);
        ci += 1;
    }
    let ghost sections_view = sections@;
    let rep = Report { sections };
    proof {
        assert(rep.sections@ == sections_view);
        assert forall|i2: int|
            0 <= i2 < rep.sections@.len() implies section_for(rs, #[trigger] rep.sections@[i2]) by {
            assert(section_for(rs, sections_view[i2]));
        }
        assert forall|i2: int, j2: int|
            0 <= i2 < j2 < rep.sections@.len() implies lex_lt(
                key_of(rep.sections@[i2].revision@),
                key_of(rep.sections@[j2].revision@),
            ) by {
            assert(lex_lt(key_of(all_commits[i2]@), key_of(all_commits[j2]@)));
        }
        assert forall|k: int|
            0 <= k < results@.len() implies revision_present(
                rep.sections@,
                (#[trigger] results@[k]).commit@,
            ) by {
            assert(name_present(all_commits, results@[k].commit@));
            let c = choose|c: int|
                0 <= c < all_commits.len() && all_commits[c]@ == results@[k].commit@;
            assert(0 <= c < rep.sections@.len());
            assert(rep.sections@[c].revision@ == results@[k].commit@);
        }
        assert forall|i2: int|
            0 <= i2 < rep.sections@.len() implies section_for(
                results@,
                #[trigger] rep.sections@[i2],
            ) by {
            assert(section_for(rs, sections_view[i2]));
        }
    }
    rep
}

/// What a report shows, as plain values: for each section its revision and,
/// per row, the workload and the four statistics.
pub open spec fn row_view(r: ReportRow) -> (Seq<char>, u128, u128, u128, u128) {
    (r.workload@, r.best, r.worst, r.median, r.average)
}

pub open spec fn section_view(s: RevisionSection) -> (
    Seq<char>,
    Seq<(Seq<char>, u128, u128, u128, u128)>,
) {
    (s.revision@, s.rows@.map_values(|r: ReportRow| row_view(r)))
}

pub open spec fn report_view(r: Report) -> Seq<
    (Seq<char>, Seq<(Seq<char>, u128, u128, u128, u128)>),
> {
    r.sections@.map_values(|s: RevisionSection| section_view(s))
}

spec fn names_ascending(names: Seq<Seq<char>>) -> bool {
    forall|i: int, j: int|
        0 <= i < j < names.len() ==> lex_lt(key_of(names[i]), key_of(names[j]))
}

spec fn names_contain(names: Seq<Seq<char>>, v: Seq<char>) -> bool {
    exists|i: int| 0 <= i < names.len() && names[i] == v
}

/// Two strictly ascending name lists with the same members are the same
/// list.
proof fn lemma_names_unique(x: Seq<Seq<char>>, y: Seq<Seq<char>>)
    requires
        names_ascending(x),
        names_ascending(y),
        forall|v: Seq<char>| names_contain(x, v) <==> names_contain(y, v),
    ensures
        x =~= y,
    decreases x.len(),
{
    if x.len() == 0 {
        if y.len() > 0 {
            assert(names_contain(y, y[0]));
            assert(false);
        }
    } else {
        assert(names_contain(x, x[0]));
        assert(names_contain(y, x[0]));
        if y.len() == 0 {
            assert(false);
        }
        assert(names_contain(y, y[0]));
        assert(names_contain(x, y[0]));
        // the heads are equal: each list contains the other's head
        let j = choose|j: int| 0 <= j < y.len() && y[j] == x[0];
        let i = choose|i: int| 0 <= i < x.len() && x[i] == y[0];
        if x[0] != y[0] {
            assert(j > 0 && i > 0);
            assert(lex_lt(key_of(y[0]), key_of(y[j])));
            assert(lex_lt(key_of(x[0]), key_of(x[i])));
            lemma_lex_antisym(key_of(x[0]), key_of(y[0]));
            assert(false);
        }
        // the tails have the same members
        let xt = x.drop_first();
        let yt = y.drop_first();
        assert forall|v: Seq<char>| names_contain(xt, v) implies names_contain(yt, v) by {
            let k = choose|k: int| 0 <= k < xt.len() && xt[k] == v;
            assert(x[k + 1] == v);
            assert(lex_lt(key_of(x[0]), key_of(v)));
            assert(names_contain(x, v));
            let m = choose|m: int| 0 <= m < y.len() && y[m] == v;
            if m == 0 {
                lemma_lex_antisym(key_of(x[0]), key_of(v));
                assert(false);
            }
            assert(yt[m - 1] == v);
        }
        assert forall|v: Seq<char>| names_contain(yt, v) implies names_contain(xt, v) by {
            let k = choose|k: int| 0 <= k < yt.len() && yt[k] == v;
            assert(y[k + 1] == v);
            assert(lex_lt(key_of(y[0]), key_of(v)));
            assert(names_contain(y, v));
            let m = choose|m: int| 0 <= m < x.len() && x[m] == v;
            if m == 0 {
                lemma_lex_antisym(key_of(y[0]), key_of(v));
                assert(false);
            }
            assert(xt[m - 1] == v);
        }
        assert(names_ascending(xt)) by {
            assert forall|p: int, q: int| 0 <= p < q < xt.len() implies lex_lt(
                key_of(xt[p]),
                key_of(xt[q]),
            ) by {
                assert(xt[p] == x[p + 1] && xt[q] == x[q + 1]);
            }
        }
        assert(names_ascending(yt)) by {
            assert forall|p: int, q: int| 0 <= p < q < yt.len() implies lex_lt(
                key_of(yt[p]),
                key_of(yt[q]),
            ) by {
                assert(yt[p] == y[p + 1] && yt[q] == y[q + 1]);
            }
        }
        lemma_names_unique(xt, yt);
        assert forall|k: int| 0 <= k < x.len() implies x[k] == y[k] by {
            if k > 0 {
                assert(xt[k - 1] == yt[k - 1]);
            }
        }
    }
}

/// Law: the report is a function of the results alone. Two reports built
/// from the same results show the same thing, whatever order the results
/// were produced in: re-running with identical inputs gives an identical
/// report.
pub proof fn lemma_report_deterministic(results: Seq<BenchmarkResult>, a: Report, b: Report)
    requires
        report_for(results, a),
        report_for(results, b),
    ensures
        report_view(a) == report_view(b),
{
    let sa = a.sections@;
    let sb = b.sections@;
    let xa = sa.map_values(|s: RevisionSection| s.revision@);
    let xb = sb.map_values(|s: RevisionSection| s.revision@);
    // the two reports list the same revisions
    assert forall|v: Seq<char>| names_contain(xa, v) implies names_contain(xb, v) by {
        let i = choose|i: int| 0 <= i < xa.len() && xa[i] == v;
        assert(section_for(results, sa[i]));
        let k = choose|k: int|
            0 <= k < results.len() && (#[trigger] results[k]).commit@ == sa[i].revision@;
        assert(revision_present(sb, results[k].commit@));
        let m = choose|m: int| 0 <= m < sb.len() && (#[trigger] sb[m]).revision@ == v;
        assert(xb[m] == v);
    }
    assert forall|v: Seq<char>| names_contain(xb, v) implies names_contain(xa, v) by {
        let i = choose|i: int| 0 <= i < xb.len() && xb[i] == v;
        assert(section_for(results, sb[i]));
        let k = choose|k: int|
            0 <= k < results.len() && (#[trigger] results[k]).commit@ == sb[i].revision@;
        assert(revision_present(sa, results[k].commit@));
        let m = choose|m: int| 0 <= m < sa.len() && (#[trigger] sa[m]).revision@ == v;
        assert(xa[m] == v);
    }
    assert(names_ascending(xa)) by {
        assert forall|p: int, q: int| 0 <= p < q < xa.len() implies lex_lt(
            key_of(xa[p]),
            key_of(xa[q]),
        ) by {
            assert(xa[p] == sa[p].revision@ && xa[q] == sa[q].revision@);
        }
    }
    assert(names_ascending(xb)) by {
        assert forall|p: int, q: int| 0 <= p < q < xb.len() implies lex_lt(
            key_of(xb[p]),
            key_of(xb[q]),
        ) by {
            assert(xb[p] == sb[p].revision@ && xb[q] == sb[q].revision@);
        }
    }
    lemma_names_unique(xa, xb);
    assert(sa.len() == sb.len());
    // section by section, the rows agree
    assert forall|i: int| 0 <= i < sa.len() implies section_view(sa[i]) == section_view(
        sb[i],
    ) by {
        assert(sa[i].revision@ == xa[i] && sb[i].revision@ == xb[i]);
        lemma_sections_agree(results, sa[i], sb[i]);
    }
    assert(report_view(a) =~= report_view(b));
}

/// Two sections for the same revision of the same results show the same
/// rows.
proof fn lemma_sections_agree(
    results: Seq<BenchmarkResult>,
    p: RevisionSection,
    q: RevisionSection,
)
    requires
        section_for(results, p),
        section_for(results, q),
        p.revision@ == q.revision@,
    ensures
        section_view(p) == section_view(q),
{
    let v = p.revision@;
    let wp = p.rows@.map_values(|r: ReportRow| r.workload@);
    let wq = q.rows@.map_values(|r: ReportRow| r.workload@);
    // each section lists exactly the workloads recorded for the revision
    assert forall|w: Seq<char>| names_contain(wp, w) implies names_contain(wq, w) by {
        let i = choose|i: int| 0 <= i < wp.len() && wp[i] == w;
        assert(row_for(results, v, p.rows@[i]));
        lemma_last_match(results, v, w);
        let k = choose|k: int|
            0 <= k < results.len() && (#[trigger] results[k]).commit@ == v
                && results[k].benchmark@ == w;
        let m = choose|m: int|
            0 <= m < q.rows@.len() && (#[trigger] q.rows@[m]).workload@ == results[k].benchmark@;
        assert(wq[m] == w);
    }
    assert forall|w: Seq<char>| names_contain(wq, w) implies names_contain(wp, w) by {
        let i = choose|i: int| 0 <= i < wq.len() && wq[i] == w;
        assert(row_for(results, v, q.rows@[i]));
        lemma_last_match(results, v, w);
        let k = choose|k: int|
            0 <= k < results.len() && (#[trigger] results[k]).commit@ == v
                && results[k].benchmark@ == w;
        let m = choose|m: int|
            0 <= m < p.rows@.len() && (#[trigger] p.rows@[m]).workload@ == results[k].benchmark@;
        assert(wp[m] == w);
    }
    assert(names_ascending(wp)) by {
        assert forall|p2: int, q2: int| 0 <= p2 < q2 < wp.len() implies lex_lt(
            key_of(wp[p2]),
            key_of(wp[q2]),
        ) by {
            assert(wp[p2] == p.rows@[p2].workload@ && wp[q2] == p.rows@[q2].workload@);
        }
    }
    assert(names_ascending(wq)) by {
        assert forall|p2: int, q2: int| 0 <= p2 < q2 < wq.len() implies lex_lt(
            key_of(wq[p2]),
            key_of(wq[q2]),
        ) by {
            assert(wq[p2] == q.rows@[p2].workload@ && wq[q2] == q.rows@[q2].workload@);
        }
    }
    lemma_names_unique(wp, wq);
    assert(p.rows@.len() == q.rows@.len());
    assert forall|i: int| 0 <= i < p.rows@.len() implies row_view(p.rows@[i]) == row_view(
        q.rows@[i],
    ) by {
        assert(row_for(results, v, p.rows@[i]));
        assert(row_for(results, v, q.rows@[i]));
        assert(p.rows@[i].workload@ == wp[i] && q.rows@[i].workload@ == wq[i]);
    }
    assert(p.rows@.map_values(|r: ReportRow| row_view(r)) =~= q.rows@.map_values(
        |r: ReportRow| row_view(r),
    ));
}

/// Law: a pair that was never recorded is absent from the report: no
/// section for its revision holds a row for its workload.
pub proof fn lemma_unrecorded_absent(
    results: Seq<BenchmarkResult>,
    rep: Report,
    rev: Seq<char>,
    wl: Seq<char>,
)
    requires
        report_for(results, rep),
        !has_result(results, rev, wl),
    ensures
        forall|i: int, r: int|
            0 <= i < rep.sections@.len() && (#[trigger] rep.sections@[i]).revision@ == rev && 0
                <= r < rep.sections@[i].rows@.len() ==> (#[trigger] rep.sections@[i].rows@[r]).workload@
                != wl,
{
    assert forall|i: int, r: int|
        0 <= i < rep.sections@.len() && (#[trigger] rep.sections@[i]).revision@ == rev && 0 <= r
            < rep.sections@[i].rows@.len() implies (#[trigger] rep.sections@[i].rows@[r]).workload@
        != wl by {
        assert(section_for(results, rep.sections@[i]));
        let row = rep.sections@[i].rows@[r];
        assert(row_for(results, rev, row));
        lemma_last_match(results, rev, row.workload@);
    }
}

} // verus!
