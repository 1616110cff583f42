use vstd::prelude::*;
use crate::strings::{contains_seq, contains_substring};
use crate::exam_info_language::ExamInfoLanguage;

verus! {

/// The outcome of one test run.
/// In contrast to regular testing in software development, everything is
/// an ordinary outcome here, including crashes and build failures.
#[derive(Debug, PartialEq, Eq, Structural, Clone, Copy)]
pub enum TestResult {
    /// Successful test run.
    Success,
    /// Regular test run failure: tests run, but assertions fail.
    TestFailure,
    /// Stack overflow during the test run.
    StackOverflow,
    /// General crash during the run (panic, segfault, ...).
    Crash,
    /// The test run timed out.
    Timeout,
    /// The build failed.
    BuildFailure,
}

/// The outcome that a given toolchain output text classifies as.
/// The checks are ordered: build failures and timeouts produce output that
/// would also match the more generic markers further down, so the more
/// specific markers win.
pub open spec fn classify(t: Seq<char>) -> TestResult {
    if contains_seq(t, "[build failed]"@) {
        TestResult::BuildFailure
    } else if contains_seq(t, "panic: test timed out after"@) {
        TestResult::Timeout
    } else if contains_seq(t, "runtime: goroutine stack exceeds"@) {
        TestResult::StackOverflow
    } else if contains_seq(t, "panic:"@) {
        TestResult::Crash
    } else if contains_seq(t, "FAIL"@) {
        TestResult::TestFailure
    } else {
        TestResult::Success
    }
}

/// The fixed English wording of each outcome.
pub open spec fn english_of(t: TestResult) -> Seq<char> {
    match t {
        TestResult::Success => "Success"@,
        TestResult::TestFailure => "Test Failure"@,
        TestResult::StackOverflow => "Stack Overflow"@,
        TestResult::Crash => "Crash"@,
        TestResult::Timeout => "Timeout"@,
        TestResult::BuildFailure => "Build Failure"@,
    }
}

/// The wording of each outcome in the given language.
pub open spec fn localized_of(l: ExamInfoLanguage, t: TestResult) -> Seq<char> {
    match l {
        ExamInfoLanguage::En => english_of(t),
        ExamInfoLanguage::De => german_of(t),
    }
}

/// The fixed German wording of each outcome.
pub open spec fn german_of(t: TestResult) -> Seq<char> {
    match t {
        TestResult::Success => "Ok"@,
        TestResult::TestFailure => "Test-Fehlschlag"@,
        TestResult::StackOverflow => "Stack Overflow"@,
        TestResult::Crash => "Absturz"@,
        TestResult::Timeout => "Timeout"@,
        TestResult::BuildFailure => "Build-Fehlschlag"@,
    }
}

impl TestResult {
    /// Parses the output of a go test run into the outcome it classifies as.
    /// This matches fixed substrings of free-form toolchain text and is
    /// best-effort, not a guaranteed-correct parse.
    pub fn from_go_test_output(test_output: &str) -> (r: Self)
        ensures
            r == classify(test_output@),
    {
        let build_failure = contains_substring(test_output, "[build failed]");
        let timeout = contains_substring(test_output, "panic: test timed out after");
        let stack_overflow = contains_substring(test_output, "runtime: goroutine stack exceeds");
        let panicked = contains_substring(test_output, "panic:");
        let test_failure = contains_substring(test_output, "FAIL");

        if build_failure {
            TestResult::BuildFailure
        } else if timeout {
            TestResult::Timeout
        } else if stack_overflow {
            TestResult::StackOverflow
        } else if panicked {
            TestResult::Crash
        } else if test_failure {
            TestResult::TestFailure
        } else {
            TestResult::Success
        }
    }

    /// Returns the English wording of the outcome.
    pub fn to_string_en(&self) -> (r: String)
        ensures
            r@ == english_of(*self),
    {
        match self {
            TestResult::Success => "Success".to_owned(),
            TestResult::TestFailure => "Test Failure".to_owned(),
            TestResult::StackOverflow => "Stack Overflow".to_owned(),
            TestResult::Crash => "Crash".to_owned(),
            TestResult::Timeout => "Timeout".to_owned(),
            TestResult::BuildFailure => "Build Failure".to_owned(),
        }
    }

    /// Returns the wording of the outcome in the given language.
    pub fn to_string_localized(&self, l: ExamInfoLanguage) -> (r: String)
        ensures
            r@ == localized_of(l, *self),
    {
        match l {
            ExamInfoLanguage::En => self.to_string_en(),
            ExamInfoLanguage::De => self.to_string_de(),
        }
    }

    /// Returns the German wording of the outcome.
    pub fn to_string_de(&self) -> (r: String)
        ensures
            r@ == german_of(*self),
    {
        match self {
            TestResult::Success => "Ok".to_owned(),
            TestResult::TestFailure => "Test-Fehlschlag".to_owned(),
            TestResult::StackOverflow => "Stack Overflow".to_owned(),
            TestResult::Crash => "Absturz".to_owned(),
            TestResult::Timeout => "Timeout".to_owned(),
            TestResult::BuildFailure => "Build-Fehlschlag".to_owned(),
        }
    }
}

/// Precedence of the build-failure marker: any output that holds it
/// classifies as a build failure, whatever else the text holds.
pub proof fn lemma_build_failure_first(t: Seq<char>)
    requires
        contains_seq(t, "[build failed]"@),
    ensures
        classify(t) == TestResult::BuildFailure,
{
}

/// An output without any recognized failure marker classifies as a
/// success: "no failure signature recognized", not "verified passing".
pub proof fn lemma_unrecognized_is_success(t: Seq<char>)
    requires
        !contains_seq(t, "[build failed]"@),
        !contains_seq(t, "panic: test timed out after"@),
        !contains_seq(t, "runtime: goroutine stack exceeds"@),
        !contains_seq(t, "panic:"@),
        !contains_seq(t, "FAIL"@),
    ensures
        classify(t) == TestResult::Success,
{
}

} // verus!
