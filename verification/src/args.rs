use vstd::prelude::*;
use crate::exam_info::ExamInfo;
use crate::exam_info_language::ExamInfoLanguage;

verus! {

/// The settings of one run: a base directory, a timeout in seconds, a
/// language, and the verbose and dry-run switches.
pub struct Args {
    directory: String,
    timeout: u64,
    language: ExamInfoLanguage,
    verbose: bool,
    dry_run: bool,
}

impl Args {
    /// The base directory.
    pub closed spec fn spec_directory(self) -> Seq<char> {
        self.directory@
    }

    /// The timeout in seconds.
    pub closed spec fn spec_timeout(self) -> u64 {
        self.timeout
    }

    /// The language.
    pub closed spec fn spec_language(self) -> ExamInfoLanguage {
        self.language
    }

    /// The verbose switch.
    pub closed spec fn spec_verbose(self) -> bool {
        self.verbose
    }

    /// The dry-run switch.
    pub closed spec fn spec_dry_run(self) -> bool {
        self.dry_run
    }

    /// Bundles the settings of one run.
    pub fn new(
        directory: &str,
        timeout: u64,
        language: ExamInfoLanguage,
        verbose: bool,
        dry_run: bool,
    ) -> (r: Args)
        ensures
            r.spec_directory() == directory@,
            r.spec_timeout() == timeout,
            r.spec_language() == language,
            r.spec_verbose() == verbose,
            r.spec_dry_run() == dry_run,
    {
        Args { directory: directory.to_owned(), timeout, language, verbose, dry_run }
    }

    /// Returns an exam layout based on the settings: the language's
    /// default directory names under the chosen base directory, with
    /// the chosen timeout.
    pub fn exam_info(&self) -> (r: ExamInfo)
        ensures
            r.spec_language() == self.spec_language(),
            r.spec_base_dir() == self.spec_directory(),
            r.spec_tasks_dirname() == crate::exam_info_language::default_tasks_dirname(
                self.spec_language(),
            ),
            r.spec_submissions_dirname()
                == crate::exam_info_language::default_submissions_dirname(self.spec_language()),
            r.spec_grading_dirname() == crate::exam_info_language::default_grading_dirname(
                self.spec_language(),
            ),
            r.spec_test_timeout() == self.spec_timeout(),
    {
        let mut info = ExamInfo::new(self.language());
        info.set_base_dir(self.directory.as_str());
        info.set_test_timeout(self.timeout);
        info
    }

    /// Returns whether the verbose mode option is set.
    pub fn verbose(&self) -> (r: bool)
        ensures
            r == self.spec_verbose(),
    {
        self.verbose
    }

    /// Returns whether the dry run mode option is set.
    pub fn dry_run(&self) -> (r: bool)
        ensures
            r == self.spec_dry_run(),
    {
        self.dry_run
    }

    /// Returns the language to use for the exam.
    pub fn language(&self) -> (r: ExamInfoLanguage)
        ensures
            r == self.spec_language(),
    {
        self.language
    }
}

} // verus!
