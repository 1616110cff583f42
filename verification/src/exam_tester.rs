use vstd::prelude::*;
use crate::exam_info::ExamInfo;
use crate::exam_info_language::ExamInfoLanguage;
use crate::fs_model::{
    FsState, FsError, copy_subdirs, copy_files, files_with_suffix, is_subdir_name, is_file_name,
    distinct_names,
};
use crate::strings::{
    joined, path_join, str_concat, is_suffix, lemma_joined_assoc, lemma_joined_inj,
    lemma_joined_nested_inj, lemma_concat_contains_char,
};
use crate::sorting::sorted_names;
use crate::test_result::{TestResult, classify, localized_of};
use crate::annotate::{append_to_file, annotated};

verus! {

/// The path of one file of a (student, task) unit below the grading
/// directory: `grading/<student>/<task>/<file>`.
pub open spec fn unit_path(g: Seq<char>, s: Seq<char>, t: Seq<char>, f: Seq<char>) -> Seq<char> {
    joined(joined(joined(g, s), t), f)
}

/// Two unit paths below one grading directory coincide only for the
/// same student, the same task and the same file name.
proof fn lemma_unit_path_inj(
    g: Seq<char>,
    s1: Seq<char>,
    t1: Seq<char>,
    f1: Seq<char>,
    s2: Seq<char>,
    t2: Seq<char>,
    f2: Seq<char>,
)
    requires
        !s1.contains('/'),
        !s2.contains('/'),
        !f1.contains('/'),
        !f2.contains('/'),
        unit_path(g, s1, t1, f1) == unit_path(g, s2, t2, f2),
    ensures
        s1 == s2,
        t1 == t2,
        f1 == f2,
{
    lemma_joined_assoc(joined(g, s1), t1, f1);
    lemma_joined_assoc(joined(g, s2), t2, f2);
    lemma_joined_nested_inj(g, s1, joined(t1, f1), s2, joined(t2, f2));
    lemma_joined_inj(t1, f1, t2, f2);
}

/// `names` is the one list that resolving the directory `d` yields:
/// sorted, duplicate-free, holding exactly `d`'s subdirectory names.
pub open spec fn resolved_names(fs: FsState, d: Seq<char>, names: Seq<Seq<char>>) -> bool {
    sorted_names(names) && distinct_names(names) && (forall|n: Seq<char>|
        names.contains(n) <==> is_subdir_name(fs, d, n))
}

/// One processed (student, task) unit of a test pass: the outcome at
/// its index is the classification of the captured output there, and
/// the unit's task source file, where it existed, now carries the
/// grading block with the localized outcome wording.
pub open spec fn unit_handled(
    res: Seq<TestResult>,
    outs: Seq<Seq<char>>,
    students: Seq<Seq<char>>,
    tasks: Seq<Seq<char>>,
    before: Map<Seq<char>, Seq<char>>,
    after: Map<Seq<char>, Seq<char>>,
    g: Seq<char>,
    lang: ExamInfoLanguage,
    u: int,
    v: int,
) -> bool {
    let k = u * tasks.len() + v;
    let file = unit_path(g, students[u], tasks[v], tasks[v] + ".go"@);
    res[k] == classify(outs[k]) && (before.contains_key(file) ==> after.contains_key(file)
        && after[file] == annotated(
        before[file],
        "// BEWERTUNG: "@,
        "// TESTS: "@ + localized_of(lang, classify(outs[k])),
    ))
}

/// What one full test pass leaves behind, given the resolved student
/// and task lists: one classified outcome per (student, task) unit in
/// lexicographic student-then-task order, as far as the captured
/// outputs reach; each handled unit's task source file annotated; no
/// file created or removed; and every file that is no unit's task
/// source file untouched.
pub open spec fn run_outcome(
    res: Seq<TestResult>,
    outs: Seq<Seq<char>>,
    students: Seq<Seq<char>>,
    tasks: Seq<Seq<char>>,
    before: Map<Seq<char>, Seq<char>>,
    after: Map<Seq<char>, Seq<char>>,
    g: Seq<char>,
    lang: ExamInfoLanguage,
) -> bool {
    res.len() == (if outs.len() <= students.len() * tasks.len() {
        outs.len()
    } else {
        students.len() * tasks.len()
    }) && (forall|u: int, v: int| #![trigger students[u], tasks[v]]
        0 <= u < students.len() && 0 <= v < tasks.len() && u * tasks.len() + v < res.len()
            ==> unit_handled(res, outs, students, tasks, before, after, g, lang, u, v)) && (forall|
        p: Seq<char>,
    | #![trigger before.contains_key(p)]
        before.contains_key(p) ==> after.contains_key(p) && (after[p] == before[p] || (exists|
            u: int, v: int,
        |
            0 <= u < students.len() && 0 <= v < tasks.len() && p == unit_path(
                g,
                students[u],
                tasks[v],
                tasks[v] + ".go"@,
            )))) && (forall|p: Seq<char>| #![trigger after.contains_key(p)]
        after.contains_key(p) ==> before.contains_key(p))
}

/// Everything a test pass leaves behind. In dry run mode nothing
/// changes and nothing is returned; otherwise the resolved student and
/// task lists exist and `run_outcome` relates the outcomes, the
/// captured outputs and the annotated tree.
#[verifier::opaque]
pub open spec fn test_pass_outcome(
    info: ExamInfo,
    dry: bool,
    fs0: FsState,
    after: Map<Seq<char>, Seq<char>>,
    outs: Seq<Seq<char>>,
    res: Seq<TestResult>,
) -> bool {
    (dry ==> res.len() == 0 && after == fs0.file_map()) && (!dry ==> (exists|
        students: Seq<Seq<char>>,
        tasks: Seq<Seq<char>>,
    |
        resolved_names(fs0, info.spec_submissions_dir(), students) && resolved_names(
            fs0,
            info.spec_tasks_dir(),
            tasks,
        ) && run_outcome(
            res,
            outs,
            students,
            tasks,
            fs0.file_map(),
            after,
            info.spec_grading_dir(),
            info.spec_language(),
        )))
}

/// A pass that changed nothing and returned nothing is a dry pass's
/// outcome.
proof fn lemma_test_pass_outcome_dry(
    info: ExamInfo,
    fs0: FsState,
    outs: Seq<Seq<char>>,
    res: Seq<TestResult>,
)
    requires
        res.len() == 0,
    ensures
        test_pass_outcome(info, true, fs0, fs0.file_map(), outs, res),
{
    reveal(test_pass_outcome);
}

/// The resolved lists and `run_outcome` make a full pass's outcome.
proof fn lemma_test_pass_outcome_full(
    info: ExamInfo,
    fs0: FsState,
    after: Map<Seq<char>, Seq<char>>,
    outs: Seq<Seq<char>>,
    res: Seq<TestResult>,
)
    requires
        exists|students: Seq<Seq<char>>, tasks: Seq<Seq<char>>|
            resolved_names(fs0, info.spec_submissions_dir(), students) && resolved_names(
                fs0,
                info.spec_tasks_dir(),
                tasks,
            ) && run_outcome(
                res,
                outs,
                students,
                tasks,
                fs0.file_map(),
                after,
                info.spec_grading_dir(),
                info.spec_language(),
            ),
    ensures
        test_pass_outcome(info, false, fs0, after, outs, res),
{
    reveal(test_pass_outcome);
}

/// Assembles a finished test pass's loop facts into `run_outcome`.
#[verifier::spinoff_prover]
#[verifier::rlimit(100)]
proof fn lemma_run_outcome(
    fs0: FsState,
    subs: Seq<char>,
    td: Seq<char>,
    sdv: Seq<Seq<char>>,
    tdv: Seq<Seq<char>>,
    odv: Seq<Seq<char>>,
    resv: Seq<TestResult>,
    before: Map<Seq<char>, Seq<char>>,
    after: Map<Seq<char>, Seq<char>>,
    gd: Seq<char>,
    lang: ExamInfoLanguage,
    k: int,
    tlen: int,
)
    requires
        resolved_names(fs0, subs, sdv),
        resolved_names(fs0, td, tdv),
        before == fs0.file_map(),
        tlen == tdv.len(),
        resv.len() == k,
        k <= odv.len(),
        sdv.len() * tlen <= odv.len() ==> k == sdv.len() * tlen,
        sdv.len() * tlen > odv.len() ==> k == odv.len(),
        forall|m: int| 0 <= m < k ==> resv[m] == classify(odv[m]),
        forall|p: Seq<char>| #![trigger after.contains_key(p)]
            after.contains_key(p) == before.contains_key(p),
        forall|u: int, v: int| #![trigger sdv[u], tdv[v]]
            0 <= u < sdv.len() && 0 <= v < tlen && u * tlen + v < k ==> unit_handled(
                resv,
                odv,
                sdv,
                tdv,
                before,
                after,
                gd,
                lang,
                u,
                v,
            ),
        forall|p: Seq<char>| #![trigger before.contains_key(p)]
            before.contains_key(p) ==> after[p] == before[p] || (exists|u: int, v: int|
                0 <= u < sdv.len() && 0 <= v < tlen && u * tlen + v < k && p == unit_path(
                    gd,
                    sdv[u],
                    tdv[v],
                    tdv[v] + ".go"@,
                )),
    ensures
        exists|students: Seq<Seq<char>>, tasks: Seq<Seq<char>>|
            resolved_names(fs0, subs, students) && resolved_names(fs0, td, tasks) && run_outcome(
                resv,
                odv,
                students,
                tasks,
                before,
                after,
                gd,
                lang,
            ),
{
    assert(run_outcome(resv, odv, sdv, tdv, before, after, gd, lang)) by {
        assert forall|p: Seq<char>| #![trigger before.contains_key(p)]
            before.contains_key(p) implies after.contains_key(p) && (after[p] == before[p] || (
        exists|u: int, v: int|
            0 <= u < sdv.len() && 0 <= v < tdv.len() && p == unit_path(
                gd,
                sdv[u],
                tdv[v],
                tdv[v] + ".go"@,
            ))) by {
            if after[p] != before[p] {
                let (u2, v2) = choose|u2: int, v2: int|
                    0 <= u2 < sdv.len() && 0 <= v2 < tlen && u2 * tlen + v2 < k && p == unit_path(
                        gd,
                        sdv[u2],
                        tdv[v2],
                        tdv[v2] + ".go"@,
                    );
                assert(0 <= u2 < sdv.len() && 0 <= v2 < tdv.len() && p == unit_path(
                    gd,
                    sdv[u2],
                    tdv[v2],
                    tdv[v2] + ".go"@,
                ));
            }
        }
    }
    assert(resolved_names(fs0, subs, sdv) && resolved_names(fs0, td, tdv) && run_outcome(
        resv,
        odv,
        sdv,
        tdv,
        before,
        after,
        gd,
        lang,
    ));
}

/// Runs one grading pass: staging, test execution and annotation, over
/// the exam layout it was built with.
pub struct ExamTester {
    exam_info: ExamInfo,
    verbose: bool,
    dry_run: bool,
}

impl ExamTester {
    /// The exam layout.
    pub closed spec fn spec_exam_info(self) -> ExamInfo {
        self.exam_info
    }

    /// The verbose switch.
    pub closed spec fn spec_verbose(self) -> bool {
        self.verbose
    }

    /// The dry-run switch.
    pub closed spec fn spec_dry_run(self) -> bool {
        self.dry_run
    }

    /// Bundles a grading pass.
    pub fn new(exam_info: ExamInfo, verbose: bool, dry_run: bool) -> (r: ExamTester)
        ensures
            r.spec_exam_info() == exam_info,
            r.spec_verbose() == verbose,
            r.spec_dry_run() == dry_run,
    {
        ExamTester { exam_info, verbose, dry_run }
    }

    /// Returns whether verbose mode is enabled. Verbose mode is
    /// automatically enabled in dry run mode.
    pub fn verbose(&self) -> (r: bool)
        ensures
            r == (self.spec_dry_run() || self.spec_verbose()),
    {
        self.dry_run || self.verbose
    }

    /// Returns whether dry run mode is enabled.
    pub fn dry_run(&self) -> (r: bool)
        ensures
            r == self.spec_dry_run(),
    {
        self.dry_run
    }

    /// Copies the submissions into the grading directory: each
    /// student's subdirectory with its whole subtree, never replacing a
    /// file already present. A missing submissions directory, or dry
    /// run mode, leaves the tree unchanged.
    pub fn copy_submissions(&self, fs: &mut FsState)
        requires
            old(fs).wf(),
        ensures
            final(fs).wf(),
            self.spec_dry_run() ==> *final(fs) == *old(fs),
            // never overwrites
            forall|p: Seq<char>| #![trigger old(fs).file_map().contains_key(p)]
                old(fs).file_map().contains_key(p) ==> final(fs).file_map().contains_key(p)
                    && final(fs).file_map()[p] == old(fs).file_map()[p],
            // every file of every submission arrives below the grading
            // copy of its student directory, with the submitted text
            // where the destination held no file yet
            forall|n: Seq<char>, rest: Seq<char>|
                #![trigger old(fs).file_map().contains_key(joined(joined(self.spec_exam_info().spec_submissions_dir(), n), rest))]
                !self.spec_dry_run() && old(fs).dir_set().contains(
                    self.spec_exam_info().spec_submissions_dir(),
                ) && is_subdir_name(*old(fs), self.spec_exam_info().spec_submissions_dir(), n)
                    && old(fs).file_map().contains_key(
                    joined(joined(self.spec_exam_info().spec_submissions_dir(), n), rest),
                ) ==> final(fs).file_map().contains_key(
                    joined(joined(self.spec_exam_info().spec_grading_dir(), n), rest),
                ) && (!old(fs).file_map().contains_key(
                    joined(joined(self.spec_exam_info().spec_grading_dir(), n), rest),
                ) ==> final(fs).file_map()[joined(
                    joined(self.spec_exam_info().spec_grading_dir(), n),
                    rest,
                )] == old(fs).file_map()[joined(
                    joined(self.spec_exam_info().spec_submissions_dir(), n),
                    rest,
                )]),
            // writes only below the grading copy of a student directory
            forall|p: Seq<char>| #![trigger final(fs).file_map().contains_key(p)]
                final(fs).file_map().contains_key(p) ==> old(fs).file_map().contains_key(p) || (
                exists|n: Seq<char>, rest: Seq<char>|
                    is_subdir_name(*old(fs), self.spec_exam_info().spec_submissions_dir(), n) && p
                        == joined(joined(self.spec_exam_info().spec_grading_dir(), n), rest)),
            forall|q: Seq<char>| #![trigger old(fs).dir_set().contains(q)]
                old(fs).dir_set().contains(q) ==> final(fs).dir_set().contains(q),
            !self.spec_dry_run() && !old(fs).dir_set().contains(
                self.spec_exam_info().spec_submissions_dir(),
            ) ==> *final(fs) == *old(fs),
    {
        if !self.dry_run() {
            let submissions_dir = self.exam_info.submissions_dir();
            let grading_dir = self.exam_info.grading_dir();
            copy_subdirs(fs, submissions_dir.as_str(), grading_dir.as_str());
            proof {
                let subs = self.spec_exam_info().spec_submissions_dir();
                let grad = self.spec_exam_info().spec_grading_dir();
                assert(submissions_dir@ == subs);
                assert(grading_dir@ == grad);
                assert forall|p: Seq<char>| #![trigger fs.file_map().contains_key(p)]
                    fs.file_map().contains_key(p) implies old(fs).file_map().contains_key(p) || (
                exists|n: Seq<char>, rest: Seq<char>|
                    is_subdir_name(*old(fs), subs, n) && p == joined(joined(grad, n), rest)) by {
                    if !old(fs).file_map().contains_key(p) {
                        let (n, rest) = choose|n: Seq<char>, rest: Seq<char>|
                            is_subdir_name(*old(fs), submissions_dir@, n) && p == joined(
                                joined(grading_dir@, n),
                                rest,
                            );
                        assert(is_subdir_name(*old(fs), subs, n) && p == joined(
                            joined(grad, n),
                            rest,
                        ));
                    }
                }
                assert forall|n: Seq<char>, rest: Seq<char>|
                    #![trigger old(fs).file_map().contains_key(joined(joined(subs, n), rest))]
                    old(fs).dir_set().contains(subs) && is_subdir_name(*old(fs), subs, n) && old(fs).file_map().contains_key(joined(joined(subs, n), rest)) implies fs.file_map().contains_key(joined(joined(grad, n), rest)) && (!old(fs).file_map().contains_key(
                    joined(joined(grad, n), rest),
                ) ==> fs.file_map()[joined(joined(grad, n), rest)] == old(fs).file_map()[joined(
                    joined(subs, n),
                    rest,
                )]) by {
                    assert(joined(joined(subs, n), rest) == joined(
                        joined(submissions_dir@, n),
                        rest,
                    ));
                    assert(old(fs).file_map().contains_key(
                        joined(joined(submissions_dir@, n), rest),
                    ));
                }
            }
        }
    }

    /// Copies the instructor tests into the grading directory: for each
    /// task, the files of that task ending in `_test.go` go into every
    /// student's task subdirectory, never replacing a file already
    /// present. Run after `copy_submissions`: a test file a student
    /// handed in under the same name therefore always wins. Fails when
    /// the tasks or the submissions directory does not exist; dry run
    /// mode resolves the names but copies nothing.
    #[verifier::loop_isolation(false)]
    #[verifier::rlimit(100)]
    #[verifier::spinoff_prover]
    pub fn copy_tests(&self, fs: &mut FsState) -> (r: Result<(), FsError>)
        requires
            old(fs).wf(),
        ensures
            final(fs).wf(),
            self.spec_dry_run() ==> *final(fs) == *old(fs),
            // never overwrites: a staged submission file keeps its text
            forall|p: Seq<char>| #![trigger old(fs).file_map().contains_key(p)]
                old(fs).file_map().contains_key(p) ==> final(fs).file_map().contains_key(p)
                    && final(fs).file_map()[p] == old(fs).file_map()[p],
            forall|q: Seq<char>| #![trigger old(fs).dir_set().contains(q)]
                old(fs).dir_set().contains(q) ==> final(fs).dir_set().contains(q),
            match r {
                Ok(_) => old(fs).dir_set().contains(self.spec_exam_info().spec_tasks_dir())
                    && old(fs).dir_set().contains(self.spec_exam_info().spec_submissions_dir())
                    // every `_test.go` file of every task reaches every
                    // student's task directory, with the task's text
                    // where the destination held no file yet
                    && (forall|t: Seq<char>, st: Seq<char>, f: Seq<char>|
                    #![trigger is_subdir_name(*old(fs), self.spec_exam_info().spec_tasks_dir(), t), is_subdir_name(*old(fs), self.spec_exam_info().spec_submissions_dir(), st), old(fs).file_map().contains_key(joined(joined(self.spec_exam_info().spec_tasks_dir(), t), f))]
                    !self.spec_dry_run() && is_subdir_name(
                        *old(fs),
                        self.spec_exam_info().spec_tasks_dir(),
                        t,
                    ) && is_subdir_name(
                        *old(fs),
                        self.spec_exam_info().spec_submissions_dir(),
                        st,
                    ) && is_file_name(
                        *old(fs),
                        joined(self.spec_exam_info().spec_tasks_dir(), t),
                        f,
                    ) && is_suffix(f, "_test.go"@) ==> final(fs).file_map().contains_key(
                        unit_path(self.spec_exam_info().spec_grading_dir(), st, t, f),
                    ) && (!old(fs).file_map().contains_key(
                        unit_path(self.spec_exam_info().spec_grading_dir(), st, t, f),
                    ) ==> final(fs).file_map()[unit_path(
                        self.spec_exam_info().spec_grading_dir(),
                        st,
                        t,
                        f,
                    )] == old(fs).file_map()[joined(
                        joined(self.spec_exam_info().spec_tasks_dir(), t),
                        f,
                    )])),
                Err(e) => e == FsError::NotFound && !(old(fs).dir_set().contains(
                    self.spec_exam_info().spec_tasks_dir(),
                ) && old(fs).dir_set().contains(self.spec_exam_info().spec_submissions_dir())),
            },
    {
        let tasks_dir = self.exam_info.tasks_dir();
        let grading_dir = self.exam_info.grading_dir();
        let task_names = match self.exam_info.task_names(fs) {
            Ok(t) => t,
            Err(e) => {
                return Err(e);
            },
        };
        let student_names = match self.exam_info.student_names(fs) {
            Ok(s) => s,
            Err(e) => {
                return Err(e);
            },
        };
        let ghost td = self.spec_exam_info().spec_tasks_dir();
        let ghost sd = self.spec_exam_info().spec_submissions_dir();
        let ghost gd = self.spec_exam_info().spec_grading_dir();
        let ghost tdv = task_names.deep_view();
        let ghost sdv = student_names.deep_view();
        let ghost sfx = "_test.go"@;
        let mut ti: usize = 0;
        while ti < task_names.len()
            invariant
                fs.wf(),
                self.spec_dry_run() ==> *fs == *old(fs),
                0 <= ti <= tdv.len(),
                forall|p: Seq<char>| #![trigger old(fs).file_map().contains_key(p)]
                    old(fs).file_map().contains_key(p) ==> fs.file_map().contains_key(p)
                        && fs.file_map()[p] == old(fs).file_map()[p],
                forall|q: Seq<char>| #![trigger old(fs).dir_set().contains(q)]
                    old(fs).dir_set().contains(q) ==> fs.dir_set().contains(q),
                forall|p: Seq<char>| #![trigger fs.file_map().contains_key(p)]
                    fs.file_map().contains_key(p) ==> old(fs).file_map().contains_key(p) || (
                    exists|v: int, u: int, f: Seq<char>|
                        0 <= v < ti && 0 <= u < sdv.len() && !f.contains('/') && p == unit_path(
                            gd,
                            sdv[u],
                            tdv[v],
                            f,
                        )),
                forall|v: int, u: int, f: Seq<char>|
                    #![trigger old(fs).file_map().contains_key(joined(joined(td, tdv[v]), f)), sdv[u]]
                    !self.spec_dry_run() && 0 <= v < ti && 0 <= u < sdv.len() && is_file_name(
                        *old(fs),
                        joined(td, tdv[v]),
                        f,
                    ) && is_suffix(f, sfx) ==> fs.file_map().contains_key(
                        unit_path(gd, sdv[u], tdv[v], f),
                    ) && (!old(fs).file_map().contains_key(unit_path(gd, sdv[u], tdv[v], f))
                        ==> fs.file_map()[unit_path(gd, sdv[u], tdv[v], f)] == old(fs).file_map()[joined(joined(td, tdv[v]), f)]),
            decreases tdv.len() - ti,
        {
            let task = task_names[ti].as_str();
            proof {
                assert(task@ == tdv[ti as int]);
                assert(tdv.contains(tdv[ti as int]));
                assert(old(fs).dir_set().contains(joined(td, task@)));
            }
            let task_dir = path_join(tasks_dir.as_str(), task);
            let test_files = match files_with_suffix(fs, task_dir.as_str(), "_test.go") {
                Ok(f) => f,
                Err(_) => {
                    proof {
                        assert(false);
                    }
                    Vec::new()
                },
            };
            let ghost fdv = test_files.deep_view();
            proof {
                assert forall|w: int| #![trigger fdv[w]]
                    0 <= w < fdv.len() implies !fdv[w].contains('/') && fs.file_map().contains_key(
                    joined(task_dir@, fdv[w]),
                ) by {
                    assert(fdv.contains(fdv[w]));
                }
                // the listing holds every test file the task held at entry
                assert forall|f: Seq<char>|
                    #![trigger is_file_name(*old(fs), joined(td, tdv[ti as int]), f)]
                    is_file_name(*old(fs), joined(td, tdv[ti as int]), f) && is_suffix(
                        f,
                        sfx,
                    ) implies fdv.contains(f) by {
                    assert(old(fs).file_map().contains_key(joined(joined(td, tdv[ti as int]), f)));
                    assert(fs.file_map().contains_key(joined(task_dir@, f)));
                    assert(is_file_name(*fs, task_dir@, f));
                }
            }
            let mut si: usize = 0;
            while si < student_names.len()
                invariant
                    fs.wf(),
                    self.spec_dry_run() ==> *fs == *old(fs),
                    0 <= ti < tdv.len(),
                    0 <= si <= sdv.len(),
                    task@ == tdv[ti as int],
                    task_dir@ == joined(td, tdv[ti as int]),
                    forall|p: Seq<char>| #![trigger old(fs).file_map().contains_key(p)]
                        old(fs).file_map().contains_key(p) ==> fs.file_map().contains_key(p)
                            && fs.file_map()[p] == old(fs).file_map()[p],
                    forall|q: Seq<char>| #![trigger old(fs).dir_set().contains(q)]
                        old(fs).dir_set().contains(q) ==> fs.dir_set().contains(q),
                    forall|w: int| #![trigger fdv[w]]
                        0 <= w < fdv.len() ==> !fdv[w].contains('/')
                            && fs.file_map().contains_key(joined(task_dir@, fdv[w])),
                    forall|p: Seq<char>| #![trigger fs.file_map().contains_key(p)]
                        fs.file_map().contains_key(p) ==> old(fs).file_map().contains_key(p) || (
                        exists|v: int, u: int, f: Seq<char>|
                            (0 <= v < ti || (v == ti && 0 <= u < si)) && 0 <= v < tdv.len() && 0
                                <= u < sdv.len() && !f.contains('/') && p == unit_path(
                                gd,
                                sdv[u],
                                tdv[v],
                                f,
                            )),
                    forall|v: int, u: int, f: Seq<char>|
                        #![trigger old(fs).file_map().contains_key(joined(joined(td, tdv[v]), f)), sdv[u]]
                        !self.spec_dry_run() && (0 <= v < ti || (v == ti && 0 <= u < si)) && 0 <= v
                            < tdv.len() && 0 <= u < sdv.len() && is_file_name(
                            *old(fs),
                            joined(td, tdv[v]),
                            f,
                        ) && is_suffix(f, sfx) ==> fs.file_map().contains_key(
                            unit_path(gd, sdv[u], tdv[v], f),
                        ) && (!old(fs).file_map().contains_key(unit_path(gd, sdv[u], tdv[v], f))
                            ==> fs.file_map()[unit_path(gd, sdv[u], tdv[v], f)] == old(fs).file_map()[joined(joined(td, tdv[v]), f)]),
                decreases sdv.len() - si,
            {
                let student = student_names[si].as_str();
                proof {
                    assert(student@ == sdv[si as int]);
                    assert(sdv.contains(sdv[si as int]));
                }
                let student_dir = path_join(grading_dir.as_str(), student);
                let student_task_dir = path_join(student_dir.as_str(), task);
                if !self.dry_run() {
                    let ghost pre = *fs;
                    copy_files(fs, &test_files, task_dir.as_str(), student_task_dir.as_str());
                    proof {
                        let gti = ti as int;
                        let gsi = si as int;
                        assert(student_task_dir@ == joined(joined(gd, sdv[gsi]), tdv[gti]));
                        assert forall|w: int| #![trigger fdv[w]]
                            0 <= w < fdv.len() implies !fdv[w].contains('/')
                            && fs.file_map().contains_key(joined(task_dir@, fdv[w])) by {
                            assert(pre.file_map().contains_key(joined(task_dir@, fdv[w])));
                        }
                        // writes stay below processed (task, student) pairs
                        assert forall|p: Seq<char>| #![trigger fs.file_map().contains_key(p)]
                            fs.file_map().contains_key(p) implies old(fs).file_map().contains_key(
                            p,
                        ) || (exists|v: int, u: int, f: Seq<char>|
                            (0 <= v < gti || (v == gti && 0 <= u < gsi + 1)) && 0 <= v < tdv.len()
                                && 0 <= u < sdv.len() && !f.contains('/') && p == unit_path(
                                gd,
                                sdv[u],
                                tdv[v],
                                f,
                            )) by {
                            if !old(fs).file_map().contains_key(p) {
                                if pre.file_map().contains_key(p) {
                                    let (v, u, f) = choose|v: int, u: int, f: Seq<char>|
                                        (0 <= v < gti || (v == gti && 0 <= u < gsi)) && 0 <= v
                                            < tdv.len() && 0 <= u < sdv.len() && !f.contains('/')
                                            && p == unit_path(gd, sdv[u], tdv[v], f);
                                    assert((0 <= v < gti || (v == gti && 0 <= u < gsi + 1)) && 0
                                        <= v < tdv.len() && 0 <= u < sdv.len() && !f.contains('/')
                                        && p == unit_path(gd, sdv[u], tdv[v], f));
                                } else {
                                    let w = choose|w: int|
                                        0 <= w < fdv.len() && p == joined(
                                            student_task_dir@,
                                            fdv[w],
                                        );
                                    assert(p == unit_path(gd, sdv[gsi], tdv[gti], fdv[w]));
                                    assert((0 <= gti < gti || (gti == gti && 0 <= gsi < gsi + 1))
                                        && 0 <= gti < tdv.len() && 0 <= gsi < sdv.len()
                                        && !fdv[w].contains('/') && p == unit_path(
                                        gd,
                                        sdv[gsi],
                                        tdv[gti],
                                        fdv[w],
                                    ));
                                }
                            }
                        }
                        // arrivals: everything before stays, the fresh pair's
                        // test files arrive
                        assert forall|v: int, u: int, f: Seq<char>|
                            #![trigger old(fs).file_map().contains_key(joined(joined(td, tdv[v]), f)), sdv[u]]
                            (0 <= v < gti || (v == gti && 0 <= u < gsi + 1)) && 0 <= v < tdv.len()
                                && 0 <= u < sdv.len() && is_file_name(
                                *old(fs),
                                joined(td, tdv[v]),
                                f,
                            ) && is_suffix(f, sfx) implies fs.file_map().contains_key(
                            unit_path(gd, sdv[u], tdv[v], f),
                        ) && (!old(fs).file_map().contains_key(unit_path(gd, sdv[u], tdv[v], f))
                            ==> fs.file_map()[unit_path(gd, sdv[u], tdv[v], f)] == old(fs).file_map()[joined(joined(td, tdv[v]), f)]) by {
                            let key = unit_path(gd, sdv[u], tdv[v], f);
                            if v < gti || (v == gti && u < gsi) {
                                assert(pre.file_map().contains_key(key));
                            } else {
                                // v == gti, u == gsi: the pair just processed
                                assert(fdv.contains(f));
                                let w = choose|w: int| 0 <= w < fdv.len() && fdv[w] == f;
                                assert(fs.file_map().contains_key(joined(student_task_dir@, f)));
                                assert(key == joined(student_task_dir@, f));
                                if !old(fs).file_map().contains_key(key) {
                                    if pre.file_map().contains_key(key) {
                                        let (v2, u2, f2) = choose|v2: int, u2: int, f2: Seq<char>|
                                            (0 <= v2 < gti || (v2 == gti && 0 <= u2 < gsi)) && 0
                                                <= v2 < tdv.len() && 0 <= u2 < sdv.len()
                                                && !f2.contains('/') && key == unit_path(
                                                gd,
                                                sdv[u2],
                                                tdv[v2],
                                                f2,
                                            );
                                            assert(sdv.contains(sdv[u2]));
                                            assert(tdv.contains(tdv[v2]));
                                            assert(!sdv[u2].contains('/'));
                                            assert(!sdv[gsi].contains('/'));
                                            assert(!f.contains('/'));
                                            lemma_unit_path_inj(
                                                gd,
                                                sdv[u2],
                                                tdv[v2],
                                                f2,
                                                sdv[gsi],
                                                tdv[gti],
                                                f,
                                            );
                                            assert(sdv[u2] == sdv[gsi]);
                                            assert(tdv[v2] == tdv[gti]);
                                            assert(u2 == gsi && v2 == gti);
                                            assert(false);
                                    }
                                    assert(fs.file_map()[joined(student_task_dir@, f)]
                                        == pre.file_map()[joined(task_dir@, f)]);
                                    assert(pre.file_map()[joined(task_dir@, f)] == old(fs).file_map()[joined(joined(td, tdv[v]), f)]);
                                }
                            }
                        }
                    }
                }
                si = si + 1;
            }
            ti = ti + 1;
        }
        proof {
            if !self.spec_dry_run() {
                assert forall|t: Seq<char>, st: Seq<char>, f: Seq<char>|
                    #![trigger is_subdir_name(*old(fs), td, t), is_subdir_name(*old(fs), sd, st), old(fs).file_map().contains_key(joined(joined(td, t), f))]
                    is_subdir_name(*old(fs), td, t) && is_subdir_name(*old(fs), sd, st)
                        && is_file_name(*old(fs), joined(td, t), f) && is_suffix(
                        f,
                        sfx,
                    ) implies fs.file_map().contains_key(unit_path(gd, st, t, f)) && (!old(fs).file_map().contains_key(unit_path(gd, st, t, f)) ==> fs.file_map()[unit_path(
                    gd,
                    st,
                    t,
                    f,
                )] == old(fs).file_map()[joined(joined(td, t), f)]) by {
                    assert(tdv.contains(t));
                    assert(sdv.contains(st));
                    let v = choose|v: int| 0 <= v < tdv.len() && tdv[v] == t;
                    let u = choose|u: int| 0 <= u < sdv.len() && sdv[u] == st;
                    assert(old(fs).file_map().contains_key(joined(joined(td, tdv[v]), f)));
                }
            }
        }
        Ok(())
    }

    /// Processes one captured toolchain output per (student, task)
    /// unit, in lexicographic student order and lexicographic task
    /// order within each student: classifies the output and appends the
    /// grading block with the locale's outcome wording to the unit's
    /// task source file. Units beyond the given outputs are left alone;
    /// dry run mode resolves the names and changes nothing. Returns the
    /// classified outcomes in unit order. Fails when the submissions or
    /// the tasks directory does not exist.
    #[verifier::rlimit(100)]
    #[verifier::spinoff_prover]
    pub fn run_tests(&self, fs: &mut FsState, outputs: &Vec<String>) -> (r: Result<
        Vec<TestResult>,
        FsError,
    >)
        requires
            old(fs).wf(),
        ensures
            final(fs).wf(),
            self.spec_dry_run() ==> *final(fs) == *old(fs),
            forall|p: Seq<char>| #![trigger old(fs).file_map().contains_key(p)]
                old(fs).file_map().contains_key(p) ==> final(fs).file_map().contains_key(p),
            match r {
                Ok(res) => old(fs).dir_set().contains(
                    self.spec_exam_info().spec_submissions_dir(),
                ) && old(fs).dir_set().contains(self.spec_exam_info().spec_tasks_dir())
                    && test_pass_outcome(
                    self.spec_exam_info(),
                    self.spec_dry_run(),
                    *old(fs),
                    final(fs).file_map(),
                    outputs.deep_view(),
                    res@,
                ),
                Err(e) => e == FsError::NotFound && !(old(fs).dir_set().contains(
                    self.spec_exam_info().spec_submissions_dir(),
                ) && old(fs).dir_set().contains(self.spec_exam_info().spec_tasks_dir())),
            },
    {
        let grading_dir = self.exam_info.grading_dir();
        let student_names = match self.exam_info.student_names(fs) {
            Ok(s) => s,
            Err(e) => {
                return Err(e);
            },
        };
        let task_names = match self.exam_info.task_names(fs) {
            Ok(t) => t,
            Err(e) => {
                return Err(e);
            },
        };
        let mut results: Vec<TestResult> = Vec::new();
        if self.dry_run() {
            proof {
                lemma_test_pass_outcome_dry(
                    self.spec_exam_info(),
                    *old(fs),
                    outputs.deep_view(),
                    results@,
                );
            }
            return Ok(results);
        }
        let ghost gd = self.spec_exam_info().spec_grading_dir();
        let ghost lang = self.spec_exam_info().spec_language();
        let ghost sdv = student_names.deep_view();
        let ghost tdv = task_names.deep_view();
        let ghost odv = outputs.deep_view();
        let ghost tlen = tdv.len() as int;
        let mut k: usize = 0;
        let mut si: usize = 0;
        proof {
            assert forall|u: int| 0 <= u < sdv.len() implies !sdv[u].contains('/') by {
                assert(sdv.contains(sdv[u]));
            }
            assert forall|v: int| 0 <= v < tdv.len() implies !tdv[v].contains('/') by {
                assert(tdv.contains(tdv[v]));
            }
        }
        while si < student_names.len()
            invariant
                fs.wf(),
                gd == self.spec_exam_info().spec_grading_dir(),
                lang == self.spec_exam_info().spec_language(),
                grading_dir@ == gd,
                sdv == student_names.deep_view(),
                tdv == task_names.deep_view(),
                odv == outputs.deep_view(),
                tlen == tdv.len(),
                distinct_names(sdv),
                distinct_names(tdv),
                forall|u: int| 0 <= u < sdv.len() ==> !sdv[u].contains('/'),
                forall|v: int| 0 <= v < tdv.len() ==> !tdv[v].contains('/'),
                0 <= si <= sdv.len(),
                k == results@.len(),
                k <= odv.len(),
                si * tlen <= odv.len() ==> k == si * tlen,
                si * tlen > odv.len() ==> k == odv.len(),
                forall|m: int| 0 <= m < k ==> results@[m] == classify(odv[m]),
                forall|p: Seq<char>| #![trigger fs.file_map().contains_key(p)]
                    fs.file_map().contains_key(p) == old(fs).file_map().contains_key(p),
                forall|u: int, v: int| #![trigger sdv[u], tdv[v]]
                    0 <= u < sdv.len() && 0 <= v < tlen && u * tlen + v < k ==> unit_handled(
                        results@,
                        odv,
                        sdv,
                        tdv,
                        old(fs).file_map(),
                        fs.file_map(),
                        gd,
                        lang,
                        u,
                        v,
                    ),
                forall|p: Seq<char>| #![trigger old(fs).file_map().contains_key(p)]
                    old(fs).file_map().contains_key(p) ==> fs.file_map()[p] == old(fs).file_map()[p] || (exists|u: int, v: int|
                        0 <= u < sdv.len() && 0 <= v < tlen && u * tlen + v < k && p == unit_path(
                            gd,
                            sdv[u],
                            tdv[v],
                            tdv[v] + ".go"@,
                        )),
            decreases sdv.len() - si,
        {
            let student = student_names[si].as_str();
            proof {
                assert(student@ == sdv[si as int]);
                assert(sdv.contains(sdv[si as int]));
            }
            let student_dir = path_join(grading_dir.as_str(), student);
            let mut tj: usize = 0;
            while tj < task_names.len()
                invariant
                    fs.wf(),
                    gd == self.spec_exam_info().spec_grading_dir(),
                    lang == self.spec_exam_info().spec_language(),
                    grading_dir@ == gd,
                    sdv == student_names.deep_view(),
                    tdv == task_names.deep_view(),
                    odv == outputs.deep_view(),
                    tlen == tdv.len(),
                    distinct_names(sdv),
                    distinct_names(tdv),
                    forall|u: int| 0 <= u < sdv.len() ==> !sdv[u].contains('/'),
                    forall|v: int| 0 <= v < tdv.len() ==> !tdv[v].contains('/'),
                forall|v: int| 0 <= v < tdv.len() ==> !tdv[v].contains('/'),
                    0 <= si < sdv.len(),
                    0 <= tj <= tlen,
                    student@ == sdv[si as int],
                    student_dir@ == joined(gd, sdv[si as int]),
                    k == results@.len(),
                    k <= odv.len(),
                    si * tlen + tj <= odv.len() ==> k == si * tlen + tj,
                    si * tlen + tj > odv.len() ==> k == odv.len(),
                    forall|m: int| 0 <= m < k ==> results@[m] == classify(odv[m]),
                    forall|p: Seq<char>| #![trigger fs.file_map().contains_key(p)]
                        fs.file_map().contains_key(p) == old(fs).file_map().contains_key(p),
                    forall|u: int, v: int| #![trigger sdv[u], tdv[v]]
                        0 <= u < sdv.len() && 0 <= v < tlen && u * tlen + v < k ==> unit_handled(
                            results@,
                            odv,
                            sdv,
                            tdv,
                            old(fs).file_map(),
                            fs.file_map(),
                            gd,
                            lang,
                            u,
                            v,
                        ),
                    forall|p: Seq<char>| #![trigger old(fs).file_map().contains_key(p)]
                        old(fs).file_map().contains_key(p) ==> fs.file_map()[p] == old(fs).file_map()[p] || (exists|u: int, v: int|
                            0 <= u < sdv.len() && 0 <= v < tlen && u * tlen + v < k && p
                                == unit_path(gd, sdv[u], tdv[v], tdv[v] + ".go"@)),
                decreases tlen - tj,
            {
                let ghost gsi = si as int;
                let ghost gtj = tj as int;
                proof {
                    assert(gsi * tlen + tlen == (gsi + 1) * tlen) by (nonlinear_arith);
                    assert(gsi * tlen + gtj >= 0) by (nonlinear_arith)
                        requires
                            gsi >= 0,
                            gtj >= 0,
                            tlen >= 0,
                    ;
                }
                if k < outputs.len() {
                    proof {
                        assert(k == gsi * tlen + gtj);
                    }
                    let out = outputs[k].as_str();
                    proof {
                        assert(out@ == odv[k as int]);
                    }
                    let res = TestResult::from_go_test_output(out);
                    let task = task_names[tj].as_str();
                    proof {
                        assert(task@ == tdv[gtj]);
                        assert(tdv.contains(tdv[gtj]));
                    }
                    let unit_dir = path_join(student_dir.as_str(), task);
                    let msg = res.to_string_localized(self.exam_info.language());
                    let note = str_concat("// TESTS: ", msg.as_str());
                    let file_name = str_concat(task, ".go");
                    let source_file = path_join(unit_dir.as_str(), file_name.as_str());
                    proof {
                        reveal_strlit("// TESTS: ");
                        assert(note@.len() > 0);
                        assert(source_file@ == unit_path(gd, sdv[gsi], tdv[gtj], tdv[gtj] + ".go"@));
                    }
                    let ghost pre = fs.file_map();
                    append_to_file(fs, source_file.as_str(), "// BEWERTUNG: ", note.as_str());
                    results.push(res);
                    k = k + 1;
                    proof {
                        let gk = k as int - 1;
                        let thisfile = unit_path(gd, sdv[gsi], tdv[gtj], tdv[gtj] + ".go"@);
                        reveal_strlit(".go");
                        assert(".go"@ =~= seq!['.', 'g', 'o']);
                        assert(!".go"@.contains('/')) by {
                            if ".go"@.contains('/') {
                                let i = choose|i: int| 0 <= i < ".go"@.len() && ".go"@[i] == '/';
                            }
                        }
                        lemma_concat_contains_char(tdv[gtj], ".go"@, '/');
                        assert(!(tdv[gtj] + ".go"@).contains('/'));
                        // the unit's file was still untouched before this append
                        if old(fs).file_map().contains_key(thisfile) {
                            if pre[thisfile] != old(fs).file_map()[thisfile] {
                                let (u2, v2) = choose|u2: int, v2: int|
                                    0 <= u2 < sdv.len() && 0 <= v2 < tlen && u2 * tlen + v2 < gk
                                        && thisfile == unit_path(
                                        gd,
                                        sdv[u2],
                                        tdv[v2],
                                        tdv[v2] + ".go"@,
                                    );
                                assert(sdv.contains(sdv[u2]));
                                assert(tdv.contains(tdv[v2]));
                                lemma_concat_contains_char(tdv[v2], ".go"@, '/');
                                lemma_unit_path_inj(
                                    gd,
                                    sdv[u2],
                                    tdv[v2],
                                    tdv[v2] + ".go"@,
                                    sdv[gsi],
                                    tdv[gtj],
                                    tdv[gtj] + ".go"@,
                                );
                                assert(u2 == gsi);
                                assert(tdv[v2] == tdv[gtj]);
                                assert(v2 == gtj);
                                assert(u2 * tlen + v2 < gk && gk == gsi * tlen + gtj);
                                assert(false);
                            }
                        }
                        assert forall|u: int, v: int| #![trigger sdv[u], tdv[v]]
                            0 <= u < sdv.len() && 0 <= v < tlen && u * tlen + v < k implies unit_handled(
                            results@,
                            odv,
                            sdv,
                            tdv,
                            old(fs).file_map(),
                            fs.file_map(),
                            gd,
                            lang,
                            u,
                            v,
                        ) by {
                            let m = u * tlen + v;
                            let file = unit_path(gd, sdv[u], tdv[v], tdv[v] + ".go"@);
                            if m < gk {
                                assert(unit_handled(
                                    results@.drop_last(),
                                    odv,
                                    sdv,
                                    tdv,
                                    old(fs).file_map(),
                                    pre,
                                    gd,
                                    lang,
                                    u,
                                    v,
                                ));
                                assert(results@.drop_last() =~= results@.subrange(
                                    0,
                                    results@.len() - 1,
                                ));
                                assert(results@[m] == results@.drop_last()[m]);
                                if file == thisfile {
                                    assert(sdv.contains(sdv[u]));
                                    assert(tdv.contains(tdv[v]));
                                    lemma_concat_contains_char(tdv[v], ".go"@, '/');
                                    lemma_unit_path_inj(
                                        gd,
                                        sdv[u],
                                        tdv[v],
                                        tdv[v] + ".go"@,
                                        sdv[gsi],
                                        tdv[gtj],
                                        tdv[gtj] + ".go"@,
                                    );
                                    assert(u == gsi && v == gtj);
                                    assert(false);
                                }
                                if old(fs).file_map().contains_key(file) {
                                    assert(fs.file_map()[file] == pre[file]);
                                }
                            } else {
                                assert(m == gk) by (nonlinear_arith)
                                    requires
                                        m == u * tlen + v,
                                        gk == gsi * tlen + gtj,
                                        m < k,
                                        k == gk + 1,
                                        m >= gk,
                                ;
                                assert(u == gsi && v == gtj) by (nonlinear_arith)
                                    requires
                                        u * tlen + v == gsi * tlen + gtj,
                                        0 <= v < tlen,
                                        0 <= gtj < tlen,
                                        u >= 0,
                                        gsi >= 0,
                                ;
                                assert(results@[gk] == res);
                                assert(res == classify(odv[gk]));
                                if old(fs).file_map().contains_key(thisfile) {
                                    assert(pre[thisfile] == old(fs).file_map()[thisfile]);
                                    assert(pre.contains_key(thisfile));
                                    assert(fs.file_map() == pre.insert(
                                        thisfile,
                                        annotated(pre[thisfile], "// BEWERTUNG: "@, note@),
                                    ));
                                    assert(note@ == "// TESTS: "@ + localized_of(
                                        lang,
                                        classify(odv[gk]),
                                    ));
                                }
                            }
                        }
                        assert forall|p: Seq<char>| #![trigger old(fs).file_map().contains_key(p)]
                            old(fs).file_map().contains_key(p) implies fs.file_map()[p] == old(fs).file_map()[p] || (exists|u: int, v: int|
                            0 <= u < sdv.len() && 0 <= v < tlen && u * tlen + v < k && p
                                == unit_path(gd, sdv[u], tdv[v], tdv[v] + ".go"@)) by {
                            if fs.file_map()[p] != old(fs).file_map()[p] {
                                if p == thisfile {
                                    assert(0 <= gsi < sdv.len() && 0 <= gtj < tlen && gsi * tlen
                                        + gtj < k && p == unit_path(
                                        gd,
                                        sdv[gsi],
                                        tdv[gtj],
                                        tdv[gtj] + ".go"@,
                                    ));
                                } else {
                                    assert(fs.file_map()[p] == pre[p]);
                                    let (u2, v2) = choose|u2: int, v2: int|
                                        0 <= u2 < sdv.len() && 0 <= v2 < tlen && u2 * tlen + v2
                                            < gk && p == unit_path(
                                            gd,
                                            sdv[u2],
                                            tdv[v2],
                                            tdv[v2] + ".go"@,
                                        );
                                    assert(u2 * tlen + v2 < k);
                                }
                            }
                        }
                    }
                }
                tj = tj + 1;
            }
            si = si + 1;
            proof {
                assert(si as int * tlen == (si as int - 1) * tlen + tlen) by (nonlinear_arith);
            }
        }
        proof {
            assert(si as int == sdv.len());
            assert(si as int * tlen == sdv.len() * tdv.len()) by (nonlinear_arith)
                requires
                    si as int == sdv.len(),
                    tlen == tdv.len(),
            ;
            assert(resolved_names(*old(fs), self.spec_exam_info().spec_submissions_dir(), sdv));
            assert(resolved_names(*old(fs), self.spec_exam_info().spec_tasks_dir(), tdv));
            assert(odv == outputs.deep_view());
            lemma_run_outcome(
                *old(fs),
                self.spec_exam_info().spec_submissions_dir(),
                self.spec_exam_info().spec_tasks_dir(),
                sdv,
                tdv,
                outputs.deep_view(),
                results@,
                old(fs).file_map(),
                fs.file_map(),
                self.spec_exam_info().spec_grading_dir(),
                self.spec_exam_info().spec_language(),
                k as int,
                tlen,
            );
            lemma_test_pass_outcome_full(
                self.spec_exam_info(),
                *old(fs),
                fs.file_map(),
                outputs.deep_view(),
                results@,
            );
        }
        Ok(results)
    }
}

} // verus!
