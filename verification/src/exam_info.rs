use vstd::prelude::*;
use crate::exam_info_language::{
    ExamInfoLanguage, default_submissions_dirname, default_tasks_dirname, default_grading_dirname,
};
use crate::fs_model::{FsState, FsError, subdir_names, is_subdir_name};
use crate::sorting::{sort_names, sorted_names, lemma_permutation_contains, lemma_permutation_distinct};
use crate::strings::{joined, dec_rep, u64_to_string, joined_names, join_names};
use crate::exam_tester::resolved_names;
use crate::fs_model::distinct_names;

verus! {

/// The text of the layout half of the summary.
pub open spec fn directory_summary_text(info: ExamInfo) -> Seq<char> {
    "Base directory: "@ + info.spec_base_dir() + "\nSubmissions directory: "@
        + info.spec_submissions_dir() + "\nTasks directory: "@ + info.spec_tasks_dir()
        + "\nGrading directory: "@ + info.spec_grading_dir() + "\nTest timeout: "@ + dec_rep(
        info.spec_test_timeout() as nat,
    ) + "s"@
}

/// The text of the name half of the summary.
pub open spec fn property_summary_text(students: Seq<Seq<char>>, tasks: Seq<Seq<char>>) -> Seq<
    char,
> {
    "Student names: ["@ + joined_names(students) + "]\nTask names: ["@ + joined_names(tasks)
        + "]"@
}

/// The whole summary's text.
pub open spec fn summary_text(
    info: ExamInfo,
    students: Seq<Seq<char>>,
    tasks: Seq<Seq<char>>,
) -> Seq<char> {
    "Summary:\n"@ + directory_summary_text(info) + "\n"@ + property_summary_text(students, tasks)
}

/// `names` is what the summary reports for the directory `d`: its
/// resolved name list, or the empty list where it cannot be read.
pub open spec fn reported_names(fs: FsState, d: Seq<char>, names: Seq<Seq<char>>) -> bool {
    if fs.dir_set().contains(d) {
        resolved_names(fs, d, names)
    } else {
        names == Seq::<Seq<char>>::empty()
    }
}

/// The layout of one exam: a base directory, the names of the three
/// working directories below it, and the test timeout in seconds.
pub struct ExamInfo {
    language: ExamInfoLanguage,
    base_dir: String,
    tasks_dirname: String,
    submissions_dirname: String,
    grading_dirname: String,
    test_timeout: u64,
}

impl ExamInfo {
    /// The language whose wording the run uses.
    pub closed spec fn spec_language(self) -> ExamInfoLanguage {
        self.language
    }

    /// The base directory path.
    pub closed spec fn spec_base_dir(self) -> Seq<char> {
        self.base_dir@
    }

    /// The name of the tasks directory.
    pub closed spec fn spec_tasks_dirname(self) -> Seq<char> {
        self.tasks_dirname@
    }

    /// The name of the submissions directory.
    pub closed spec fn spec_submissions_dirname(self) -> Seq<char> {
        self.submissions_dirname@
    }

    /// The name of the grading directory.
    pub closed spec fn spec_grading_dirname(self) -> Seq<char> {
        self.grading_dirname@
    }

    /// The test timeout in seconds.
    pub closed spec fn spec_test_timeout(self) -> u64 {
        self.test_timeout
    }

    /// The path of the submissions directory.
    pub open spec fn spec_submissions_dir(self) -> Seq<char> {
        joined(self.spec_base_dir(), self.spec_submissions_dirname())
    }

    /// The path of the tasks directory.
    pub open spec fn spec_tasks_dir(self) -> Seq<char> {
        joined(self.spec_base_dir(), self.spec_tasks_dirname())
    }

    /// The path of the grading directory.
    pub open spec fn spec_grading_dir(self) -> Seq<char> {
        joined(self.spec_base_dir(), self.spec_grading_dirname())
    }

    /// Creates a layout with the given language's defaults.
    pub fn new(lang: ExamInfoLanguage) -> (r: ExamInfo)
        ensures
            r.spec_language() == lang,
            r.spec_base_dir() == "."@,
            r.spec_tasks_dirname() == default_tasks_dirname(lang),
            r.spec_submissions_dirname() == default_submissions_dirname(lang),
            r.spec_grading_dirname() == default_grading_dirname(lang),
            r.spec_test_timeout() == 5,
    {
        ExamInfo {
            language: lang,
            base_dir: lang.base_dir(),
            tasks_dirname: lang.tasks_dirname(),
            submissions_dirname: lang.submissions_dirname(),
            grading_dirname: lang.grading_dirname(),
            test_timeout: lang.test_timeout_default(),
        }
    }

    /// Creates a layout with German defaults.
    pub fn new_de() -> (r: ExamInfo)
        ensures
            r.spec_language() == ExamInfoLanguage::De,
            r.spec_base_dir() == "."@,
            r.spec_tasks_dirname() == default_tasks_dirname(ExamInfoLanguage::De),
            r.spec_submissions_dirname() == default_submissions_dirname(ExamInfoLanguage::De),
            r.spec_grading_dirname() == default_grading_dirname(ExamInfoLanguage::De),
            r.spec_test_timeout() == 5,
    {
        Self::new(ExamInfoLanguage::De)
    }

    /// Creates a layout with English defaults.
    pub fn new_en() -> (r: ExamInfo)
        ensures
            r.spec_language() == ExamInfoLanguage::En,
            r.spec_base_dir() == "."@,
            r.spec_tasks_dirname() == default_tasks_dirname(ExamInfoLanguage::En),
            r.spec_submissions_dirname() == default_submissions_dirname(ExamInfoLanguage::En),
            r.spec_grading_dirname() == default_grading_dirname(ExamInfoLanguage::En),
            r.spec_test_timeout() == 5,
    {
        Self::new(ExamInfoLanguage::En)
    }

    /// Returns the language whose wording the run uses.
    pub fn language(&self) -> (r: ExamInfoLanguage)
        ensures
            r == self.spec_language(),
    {
        self.language
    }

    /// Returns the base directory of the exam.
    pub fn base_dir(&self) -> (r: &String)
        ensures
            r@ == self.spec_base_dir(),
    {
        &self.base_dir
    }

    /// Sets the base directory of the exam.
    pub fn set_base_dir(&mut self, base_dir: &str)
        ensures
            final(self).spec_language() == old(self).spec_language(),
            final(self).spec_base_dir() == base_dir@,
            final(self).spec_tasks_dirname() == old(self).spec_tasks_dirname(),
            final(self).spec_submissions_dirname() == old(self).spec_submissions_dirname(),
            final(self).spec_grading_dirname() == old(self).spec_grading_dirname(),
            final(self).spec_test_timeout() == old(self).spec_test_timeout(),
    {
        self.base_dir = base_dir.to_owned();
    }

    /// Returns the path of the submissions directory.
    pub fn submissions_dir(&self) -> (r: String)
        ensures
            r@ == self.spec_submissions_dir(),
    {
        crate::strings::path_join(self.base_dir.as_str(), self.submissions_dirname.as_str())
    }

    /// Sets the name of the submissions directory.
    pub fn set_submissions_dirname(&mut self, dir: &str)
        ensures
            final(self).spec_language() == old(self).spec_language(),
            final(self).spec_submissions_dirname() == dir@,
            final(self).spec_base_dir() == old(self).spec_base_dir(),
            final(self).spec_tasks_dirname() == old(self).spec_tasks_dirname(),
            final(self).spec_grading_dirname() == old(self).spec_grading_dirname(),
            final(self).spec_test_timeout() == old(self).spec_test_timeout(),
    {
        self.submissions_dirname = dir.to_owned();
    }

    /// Returns the path of the tasks directory.
    pub fn tasks_dir(&self) -> (r: String)
        ensures
            r@ == self.spec_tasks_dir(),
    {
        crate::strings::path_join(self.base_dir.as_str(), self.tasks_dirname.as_str())
    }

    /// Sets the name of the tasks directory.
    pub fn set_tasks_dirname(&mut self, dir: &str)
        ensures
            final(self).spec_language() == old(self).spec_language(),
            final(self).spec_tasks_dirname() == dir@,
            final(self).spec_base_dir() == old(self).spec_base_dir(),
            final(self).spec_submissions_dirname() == old(self).spec_submissions_dirname(),
            final(self).spec_grading_dirname() == old(self).spec_grading_dirname(),
            final(self).spec_test_timeout() == old(self).spec_test_timeout(),
    {
        self.tasks_dirname = dir.to_owned();
    }

    /// Returns the path of the grading directory: where copies of the
    /// submissions are stored together with tests and other grading
    /// related files.
    pub fn grading_dir(&self) -> (r: String)
        ensures
            r@ == self.spec_grading_dir(),
    {
        crate::strings::path_join(self.base_dir.as_str(), self.grading_dirname.as_str())
    }

    /// Sets the name of the grading directory.
    pub fn set_grading_dirname(&mut self, dir: &str)
        ensures
            final(self).spec_language() == old(self).spec_language(),
            final(self).spec_grading_dirname() == dir@,
            final(self).spec_base_dir() == old(self).spec_base_dir(),
            final(self).spec_tasks_dirname() == old(self).spec_tasks_dirname(),
            final(self).spec_submissions_dirname() == old(self).spec_submissions_dirname(),
            final(self).spec_test_timeout() == old(self).spec_test_timeout(),
    {
        self.grading_dirname = dir.to_owned();
    }

    /// Returns the student names for the exam: the names of the
    /// immediate subdirectories of the submissions directory, sorted
    /// lexicographically ascending, each once. Fails when the
    /// submissions directory does not exist.
    pub fn student_names(&self, fs: &FsState) -> (r: Result<Vec<String>, FsError>)
        requires
            fs.wf(),
        ensures
            match r {
                Ok(names) => fs.dir_set().contains(self.spec_submissions_dir()) && sorted_names(
                    names.deep_view(),
                ) && distinct_names(names.deep_view()) && (forall|n: Seq<char>|
                    names.deep_view().contains(n) <==> is_subdir_name(
                        *fs,
                        self.spec_submissions_dir(),
                        n,
                    )),
                Err(e) => e == FsError::NotFound && !fs.dir_set().contains(
                    self.spec_submissions_dir(),
                ),
            },
    {
        let dir = self.submissions_dir();
        let names = match subdir_names(fs, dir.as_str()) {
            Ok(names) => names,
            Err(e) => {
                return Err(e);
            },
        };
        let sorted = sort_names(&names);
        proof {
            lemma_permutation_contains(names.deep_view(), sorted.deep_view());
            lemma_permutation_distinct(names.deep_view(), sorted.deep_view());
        }
        Ok(sorted)
    }

    /// Returns the task names for the exam: the names of the immediate
    /// subdirectories of the tasks directory, sorted lexicographically
    /// ascending, each once. Fails when the tasks directory does not
    /// exist.
    pub fn task_names(&self, fs: &FsState) -> (r: Result<Vec<String>, FsError>)
        requires
            fs.wf(),
        ensures
            match r {
                Ok(names) => fs.dir_set().contains(self.spec_tasks_dir()) && sorted_names(
                    names.deep_view(),
                ) && distinct_names(names.deep_view()) && (forall|n: Seq<char>|
                    names.deep_view().contains(n) <==> is_subdir_name(
                        *fs,
                        self.spec_tasks_dir(),
                        n,
                    )),
                Err(e) => e == FsError::NotFound && !fs.dir_set().contains(self.spec_tasks_dir()),
            },
    {
        let dir = self.tasks_dir();
        let names = match subdir_names(fs, dir.as_str()) {
            Ok(names) => names,
            Err(e) => {
                return Err(e);
            },
        };
        let sorted = sort_names(&names);
        proof {
            lemma_permutation_contains(names.deep_view(), sorted.deep_view());
            lemma_permutation_distinct(names.deep_view(), sorted.deep_view());
        }
        Ok(sorted)
    }

    /// Returns the canonical default test timeout in seconds: 30, the
    /// default the command line hands in. (A layout built directly from
    /// a language's defaults instead starts with that bundle's shorter
    /// timeout; the command line always overrides it.)
    pub fn test_timeout_default() -> (r: u64)
        ensures
            r == 30,
    {
        30
    }

    /// Returns the test timeout in seconds.
    pub fn test_timeout(&self) -> (r: u64)
        ensures
            r == self.spec_test_timeout(),
    {
        self.test_timeout
    }

    /// Sets the test timeout in seconds.
    pub fn set_test_timeout(&mut self, timeout: u64)
        ensures
            final(self).spec_language() == old(self).spec_language(),
            final(self).spec_test_timeout() == timeout,
            final(self).spec_base_dir() == old(self).spec_base_dir(),
            final(self).spec_tasks_dirname() == old(self).spec_tasks_dirname(),
            final(self).spec_submissions_dirname() == old(self).spec_submissions_dirname(),
            final(self).spec_grading_dirname() == old(self).spec_grading_dirname(),
    {
        self.test_timeout = timeout;
    }

    /// Returns the layout half of the summary.
    fn directory_summary(&self) -> (r: String)
        ensures
            r@ == directory_summary_text(*self),
    {
        let mut s = "Base directory: ".to_owned();
        s.append(self.base_dir().as_str());
        s.append("\nSubmissions directory: ");
        s.append(self.submissions_dir().as_str());
        s.append("\nTasks directory: ");
        s.append(self.tasks_dir().as_str());
        s.append("\nGrading directory: ");
        s.append(self.grading_dir().as_str());
        s.append("\nTest timeout: ");
        s.append(u64_to_string(self.test_timeout()).as_str());
        s.append("s");
        proof {
            assert(s@ =~= directory_summary_text(*self));
        }
        s
    }

    /// Returns the name half of the summary: the student and task
    /// names, each list empty where its directory cannot be read.
    fn property_summary(&self, fs: &FsState) -> (r: String)
        requires
            fs.wf(),
        ensures
            exists|students: Seq<Seq<char>>, tasks: Seq<Seq<char>>|
                reported_names(*fs, self.spec_submissions_dir(), students) && reported_names(
                    *fs,
                    self.spec_tasks_dir(),
                    tasks,
                ) && r@ == property_summary_text(students, tasks),
    {
        let students = match self.student_names(fs) {
            Ok(v) => v,
            Err(_) => Vec::new(),
        };
        let tasks = match self.task_names(fs) {
            Ok(v) => v,
            Err(_) => Vec::new(),
        };
        let mut s = "Student names: [".to_owned();
        s.append(join_names(&students).as_str());
        s.append("]\nTask names: [");
        s.append(join_names(&tasks).as_str());
        s.append("]");
        proof {
            if !fs.dir_set().contains(self.spec_submissions_dir()) {
                assert(students.deep_view() =~= Seq::<Seq<char>>::empty());
            }
            if !fs.dir_set().contains(self.spec_tasks_dir()) {
                assert(tasks.deep_view() =~= Seq::<Seq<char>>::empty());
            }
            assert(s@ =~= property_summary_text(students.deep_view(), tasks.deep_view()));
            assert(reported_names(*fs, self.spec_submissions_dir(), students.deep_view())
                && reported_names(*fs, self.spec_tasks_dir(), tasks.deep_view()) && s@
                == property_summary_text(students.deep_view(), tasks.deep_view()));
        }
        s
    }

    /// Returns a text summarizing the layout and the resolved student
    /// and task names, a name list rendered empty where its directory
    /// cannot be read.
    pub fn summary(&self, fs: &FsState) -> (r: String)
        requires
            fs.wf(),
        ensures
            exists|students: Seq<Seq<char>>, tasks: Seq<Seq<char>>|
                reported_names(*fs, self.spec_submissions_dir(), students) && reported_names(
                    *fs,
                    self.spec_tasks_dir(),
                    tasks,
                ) && r@ == summary_text(*self, students, tasks),
    {
        let mut s = "Summary:\n".to_owned();
        s.append(self.directory_summary().as_str());
        s.append("\n");
        let props = self.property_summary(fs);
        s.append(props.as_str());
        proof {
            let (students, tasks) = choose|students: Seq<Seq<char>>, tasks: Seq<Seq<char>>|
                reported_names(*fs, self.spec_submissions_dir(), students) && reported_names(
                    *fs,
                    self.spec_tasks_dir(),
                    tasks,
                ) && props@ == property_summary_text(students, tasks);
            assert(s@ =~= summary_text(*self, students, tasks));
            assert(reported_names(*fs, self.spec_submissions_dir(), students) && reported_names(
                *fs,
                self.spec_tasks_dir(),
                tasks,
            ) && s@ == summary_text(*self, students, tasks));
        }
        s
    }
}

} // verus!
