use vstd::prelude::*;

verus! {

/// Provides default values for the exam layout for different languages.
#[derive(Debug, Clone, Copy, PartialEq, Eq, Structural)]
pub enum ExamInfoLanguage {
    En,
    De,
}

/// The default name of the submissions directory for a language.
pub open spec fn default_submissions_dirname(l: ExamInfoLanguage) -> Seq<char> {
    match l {
        ExamInfoLanguage::En => "submissions"@,
        ExamInfoLanguage::De => "abgaben"@,
    }
}

/// The default name of the tasks directory for a language.
pub open spec fn default_tasks_dirname(l: ExamInfoLanguage) -> Seq<char> {
    match l {
        ExamInfoLanguage::En => "tasks"@,
        ExamInfoLanguage::De => "aufgaben"@,
    }
}

/// The default name of the grading directory for a language.
pub open spec fn default_grading_dirname(l: ExamInfoLanguage) -> Seq<char> {
    match l {
        ExamInfoLanguage::En => "grading"@,
        ExamInfoLanguage::De => "bewertung"@,
    }
}

impl ExamInfoLanguage {
    /// Returns the default name of the submissions directory.
    pub fn submissions_dirname(&self) -> (r: String)
        ensures
            r@ == default_submissions_dirname(*self),
    {
        match self {
            ExamInfoLanguage::En => "submissions".to_owned(),
            ExamInfoLanguage::De => "abgaben".to_owned(),
        }
    }

    /// Returns the default name of the tasks directory.
    pub fn tasks_dirname(&self) -> (r: String)
        ensures
            r@ == default_tasks_dirname(*self),
    {
        match self {
            ExamInfoLanguage::En => "tasks".to_owned(),
            ExamInfoLanguage::De => "aufgaben".to_owned(),
        }
    }

    /// Returns the default name of the grading directory.
    pub fn grading_dirname(&self) -> (r: String)
        ensures
            r@ == default_grading_dirname(*self),
    {
        match self {
            ExamInfoLanguage::En => "grading".to_owned(),
            ExamInfoLanguage::De => "bewertung".to_owned(),
        }
    }

    /// Returns the default base directory.
    pub fn base_dir(&self) -> (r: String)
        ensures
            r@ == "."@,
    {
        ".".to_owned()
    }

    /// Returns this language bundle's default timeout for running the
    /// tests, in seconds. A run configured through the command line
    /// replaces it with the canonical default of 30 seconds.
    pub fn test_timeout_default(&self) -> (r: u64)
        ensures
            r == 5,
    {
        5
    }
}

} // verus!
