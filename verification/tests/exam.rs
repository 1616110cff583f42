use src2exam::annotate::annotate_text;
use src2exam::args::Args;
use src2exam::exam_info::ExamInfo;
use src2exam::exam_info_language::ExamInfoLanguage;
use src2exam::exam_tester::ExamTester;
use src2exam::fs_model::{FsState, FsError, subdir_names, files_with_suffix, copy_dir, copy_subdirs};
use src2exam::go_runner::GoRunner;
use src2exam::test_result::TestResult;

#[test]
fn new_examinfo_dirs_de() {
    let exam_info = ExamInfo::new_de();
    assert_eq!(exam_info.base_dir().as_str(), ".");
    assert_eq!(exam_info.submissions_dir().as_str(), "./abgaben");
    assert_eq!(exam_info.tasks_dir().as_str(), "./aufgaben");
    assert_eq!(exam_info.grading_dir().as_str(), "./bewertung");
}

#[test]
fn new_examinfo_dirs_en() {
    let exam_info = ExamInfo::new_en();
    assert_eq!(exam_info.base_dir().as_str(), ".");
    assert_eq!(exam_info.submissions_dir().as_str(), "./submissions");
    assert_eq!(exam_info.tasks_dir().as_str(), "./tasks");
    assert_eq!(exam_info.grading_dir().as_str(), "./grading");
}

#[test]
fn custom_dirs() {
    let mut exam_info = ExamInfo::new_en();
    exam_info.set_base_dir("exam_basedir");
    exam_info.set_submissions_dirname("custom_submissions");
    exam_info.set_tasks_dirname("custom_tasks");
    exam_info.set_grading_dirname("custom_grading");
    assert_eq!(exam_info.submissions_dir().as_str(), "exam_basedir/custom_submissions");
    assert_eq!(exam_info.tasks_dir().as_str(), "exam_basedir/custom_tasks");
    assert_eq!(exam_info.grading_dir().as_str(), "exam_basedir/custom_grading");
}

fn go_exam_fixture() -> FsState {
    let mut fs = FsState::new();
    fs.mkdir("go-exam");
    fs.mkdir("go-exam/abgaben");
    fs.mkdir("go-exam/aufgaben");
    for student in ["student_1", "student_2", "student_3"] {
        let sdir = format!("go-exam/abgaben/{}", student);
        fs.mkdir(&sdir);
        for task in ["task_1", "task_2", "task_3"] {
            let tdir = format!("{}/{}", sdir, task);
            fs.mkdir(&tdir);
            fs.write_file(&format!("{}/{}.go", tdir, task), "package main\n");
        }
    }
    for task in ["task_1", "task_2", "task_3"] {
        let tdir = format!("go-exam/aufgaben/{}", task);
        fs.mkdir(&tdir);
        fs.write_file(&format!("{}/{}_test.go", tdir, task), "package main // test\n");
    }
    fs
}

#[test]
fn student_names_testdata_go_exam() {
    let fs = go_exam_fixture();
    let mut exam_info = ExamInfo::new_de();
    exam_info.set_base_dir("go-exam");
    let student_names = exam_info.student_names(&fs).unwrap();
    assert_eq!(student_names.len(), 3);
    assert!(student_names.contains(&"student_1".to_string()));
    assert!(student_names.contains(&"student_2".to_string()));
    assert!(student_names.contains(&"student_3".to_string()));
}

#[test]
fn student_names_testdata_go_exam_modified_submissions() {
    let fs = go_exam_fixture();
    let mut exam_info = ExamInfo::new_en();
    exam_info.set_base_dir("go-exam");
    exam_info.set_submissions_dirname("non_existent_dir");
    let student_names = exam_info.student_names(&fs);
    assert_eq!(student_names, Err(FsError::NotFound));
}

#[test]
fn task_names_testdata_go_exam() {
    let fs = go_exam_fixture();
    let mut exam_info = ExamInfo::new_de();
    exam_info.set_base_dir("go-exam");
    let task_names = exam_info.task_names(&fs).unwrap();
    assert_eq!(task_names.len(), 3);
    assert!(task_names.contains(&"task_1".to_string()));
    assert!(task_names.contains(&"task_2".to_string()));
    assert!(task_names.contains(&"task_3".to_string()));
}

#[test]
fn task_names_testdata_go_exam_modified_tasks() {
    let fs = go_exam_fixture();
    let mut exam_info = ExamInfo::new_de();
    exam_info.set_base_dir("go-exam");
    exam_info.set_tasks_dirname("non_existent_dir");
    let task_names = exam_info.task_names(&fs);
    assert_eq!(task_names, Err(FsError::NotFound));
}

#[test]
fn build_failure() {
    let sample = vec!["...", "FAIL    path/to/module.go [build failed]", "..."].join("\n");
    let result = TestResult::from_go_test_output(&sample);
    assert_eq!(result, TestResult::BuildFailure);
}

#[test]
fn test_failure() {
    let sample = vec!["...", "FAIL    path/to/module.go      0.123s", "..."].join("\n");
    let result = TestResult::from_go_test_output(&sample);
    assert_eq!(result, TestResult::TestFailure);
}

#[test]
fn timeout() {
    let sample = vec![
        "...",
        "panic: test timed out after 5s",
        "...",
        "FAIL    path/to/module.go      5.432s",
        "...",
    ]
    .join("\n");
    let result = TestResult::from_go_test_output(&sample);
    assert_eq!(result, TestResult::Timeout);
}

#[test]
fn stack_overflow() {
    let sample = vec![
        "...",
        "runtime: goroutine stack exceeds 1000000000-byte limit",
        "...",
        "panic: runtime error: makeslice: len out of range",
        "...",
        "FAIL    path/to/module.go      0.123s",
        "...",
    ]
    .join("\n");
    let result = TestResult::from_go_test_output(&sample);
    assert_eq!(result, TestResult::StackOverflow);
}

#[test]
fn crash() {
    let sample = vec![
        "...",
        "panic: runtime error: makeslice: len out of range",
        "...",
        "FAIL    path/to/module.go      0.123s",
        "...",
    ]
    .join("\n");
    let result = TestResult::from_go_test_output(&sample);
    assert_eq!(result, TestResult::Crash);
}

#[test]
fn success() {
    let sample = vec!["...", "ok", "..."].join("\n");
    let result = TestResult::from_go_test_output(&sample);
    assert_eq!(result, TestResult::Success);
}

#[test]
fn subdir_names_3_subdirs() {
    let mut fs = FsState::new();
    fs.mkdir("tmp");
    fs.mkdir("tmp/subdir1");
    fs.mkdir("tmp/subdir2");
    fs.mkdir("tmp/subdir3");
    fs.write_file("tmp/file1", "");
    fs.write_file("tmp/file2", "");
    let names = subdir_names(&fs, "tmp").unwrap();
    assert_eq!(names.len(), 3);
    assert!(names.contains(&"subdir1".to_string()));
    assert!(names.contains(&"subdir2".to_string()));
    assert!(names.contains(&"subdir3".to_string()));
}

#[test]
fn english_and_german_outcome_strings() {
    assert_eq!(TestResult::Success.to_string_en(), "Success");
    assert_eq!(TestResult::Success.to_string_de(), "Ok");
    assert_eq!(TestResult::TestFailure.to_string_en(), "Test Failure");
    assert_eq!(TestResult::TestFailure.to_string_de(), "Test-Fehlschlag");
    assert_eq!(TestResult::BuildFailure.to_string_de(), "Build-Fehlschlag");
    assert_eq!(TestResult::Crash.to_string_de(), "Absturz");
    assert_eq!(TestResult::Timeout.to_string_de(), "Timeout");
    assert_eq!(TestResult::StackOverflow.to_string_de(), "Stack Overflow");
}

#[test]
fn build_failure_marker_wins_over_failure_marker() {
    let sample = "FAIL something [build failed] FAIL".to_string();
    assert_eq!(TestResult::from_go_test_output(&sample), TestResult::BuildFailure);
}

#[test]
fn annotate_appends_block_once() {
    let text = "package main\n";
    let once = annotate_text(text, "// BEWERTUNG: ", "// TESTS: Ok");
    assert_eq!(once, "package main\n\n// BEWERTUNG: \n// TESTS: Ok\n");
    let twice = annotate_text(&once, "// BEWERTUNG: ", "// TESTS: Ok");
    assert_eq!(twice, once);
}

#[test]
fn annotate_on_empty_text() {
    let once = annotate_text("", "// BEWERTUNG: ", "// TESTS: Ok");
    assert_eq!(once, "\n// BEWERTUNG: \n// TESTS: Ok\n");
}

#[test]
fn copy_dir_does_not_overwrite() {
    let mut fs = FsState::new();
    fs.mkdir("a");
    fs.write_file("a/x.txt", "source text");
    fs.mkdir("b");
    fs.write_file("b/x.txt", "already here");
    copy_dir(&mut fs, "a", "b");
    assert_eq!(fs.read_file("b/x.txt").unwrap(), "already here");
    let mut fs2 = FsState::new();
    fs2.mkdir("a");
    fs2.write_file("a/x.txt", "source text");
    copy_dir(&mut fs2, "a", "b");
    assert_eq!(fs2.read_file("b/x.txt").unwrap(), "source text");
}

#[test]
fn staged_submission_wins_over_instructor_test() {
    let mut fs = go_exam_fixture();
    // student_1 hands in a file named like the instructor test for task_1
    fs.write_file("go-exam/abgaben/student_1/task_1/task_1_test.go", "my own test\n");
    let mut exam_info = ExamInfo::new_de();
    exam_info.set_base_dir("go-exam");
    let tester = ExamTester::new(exam_info, false, false);
    tester.copy_submissions(&mut fs);
    tester.copy_tests(&mut fs).unwrap();
    assert_eq!(
        fs.read_file("go-exam/bewertung/student_1/task_1/task_1_test.go").unwrap(),
        "my own test\n"
    );
    // students without an own test file get the instructor's test
    assert_eq!(
        fs.read_file("go-exam/bewertung/student_2/task_1/task_1_test.go").unwrap(),
        "package main // test\n"
    );
}

#[test]
fn student_names_sorted_ascending() {
    let fs = go_exam_fixture();
    let mut exam_info = ExamInfo::new_de();
    exam_info.set_base_dir("go-exam");
    let names = exam_info.student_names(&fs).unwrap();
    assert_eq!(names, vec!["student_1", "student_2", "student_3"]);
    let tasks = exam_info.task_names(&fs).unwrap();
    assert_eq!(tasks, vec!["task_1", "task_2", "task_3"]);
}

#[test]
fn full_pipeline_stages_runs_and_annotates() {
    let mut fs = go_exam_fixture();
    let mut exam_info = ExamInfo::new_de();
    exam_info.set_base_dir("go-exam");
    let tester = ExamTester::new(exam_info, false, false);
    tester.copy_submissions(&mut fs);
    tester.copy_tests(&mut fs).unwrap();
    for student in ["student_1", "student_2", "student_3"] {
        for task in ["task_1", "task_2", "task_3"] {
            assert!(fs.has_file(&format!("go-exam/bewertung/{}/{}/{}.go", student, task, task)));
            assert!(fs.has_file(&format!(
                "go-exam/bewertung/{}/{}/{}_test.go",
                student, task, task
            )));
        }
    }
    let outputs: Vec<String> = vec![
        "ok".to_string(),
        "FAIL    m.go      0.1s".to_string(),
        "FAIL    m.go [build failed]".to_string(),
        "panic: test timed out after 5s\nFAIL".to_string(),
        "runtime: goroutine stack exceeds 1000000000-byte limit\npanic: x\nFAIL".to_string(),
        "panic: runtime error\nFAIL".to_string(),
        "ok".to_string(),
        "ok".to_string(),
        "FAIL    m.go      0.2s".to_string(),
    ];
    let results = tester.run_tests(&mut fs, &outputs).unwrap();
    assert_eq!(results.len(), 9);
    assert_eq!(results[0], TestResult::Success);
    assert_eq!(results[1], TestResult::TestFailure);
    assert_eq!(results[2], TestResult::BuildFailure);
    assert_eq!(results[3], TestResult::Timeout);
    assert_eq!(results[4], TestResult::StackOverflow);
    assert_eq!(results[5], TestResult::Crash);
    // unit order: student_1/task_1, student_1/task_2, student_1/task_3, ...
    let annotated = fs.read_file("go-exam/bewertung/student_1/task_1/task_1.go").unwrap();
    assert_eq!(annotated, "package main\n\n// BEWERTUNG: \n// TESTS: Ok\n");
    let annotated2 = fs.read_file("go-exam/bewertung/student_1/task_2/task_2.go").unwrap();
    assert_eq!(annotated2, "package main\n\n// BEWERTUNG: \n// TESTS: Test-Fehlschlag\n");
    let annotated3 = fs.read_file("go-exam/bewertung/student_1/task_3/task_3.go").unwrap();
    assert_eq!(annotated3, "package main\n\n// BEWERTUNG: \n// TESTS: Build-Fehlschlag\n");
}

#[test]
fn missing_submissions_makes_staging_a_noop() {
    let mut fs = FsState::new();
    fs.mkdir("base");
    copy_subdirs(&mut fs, "base/missing", "base/grading");
    assert!(!fs.has_dir("base/grading"));
}

#[test]
fn files_with_suffix_filters_names() {
    let mut fs = FsState::new();
    fs.mkdir("d");
    fs.write_file("d/a_test.go", "");
    fs.write_file("d/b.go", "");
    fs.write_file("d/c_test.go", "");
    let names = files_with_suffix(&fs, "d", "_test.go").unwrap();
    assert_eq!(names.len(), 2);
    assert!(names.contains(&"a_test.go".to_string()));
    assert!(names.contains(&"c_test.go".to_string()));
    assert_eq!(files_with_suffix(&fs, "nope", "_test.go"), Err(FsError::NotFound));
}

#[test]
fn args_build_the_exam_layout() {
    let args = Args::new("/exams/run1", 42, ExamInfoLanguage::De, true, false);
    assert!(args.verbose());
    assert!(!args.dry_run());
    let info = args.exam_info();
    assert_eq!(info.base_dir().as_str(), "/exams/run1");
    assert_eq!(info.test_timeout(), 42);
    assert_eq!(info.submissions_dir().as_str(), "/exams/run1/abgaben");
    assert_eq!(ExamInfo::test_timeout_default(), 30);
}

#[test]
fn go_runner_holds_its_settings() {
    let runner = GoRunner::new("somewhere/task_1", 7);
    assert_eq!(runner.dir().as_str(), "somewhere/task_1");
    assert_eq!(runner.timeout_secs(), 7);
}

#[test]
fn dry_run_changes_nothing() {
    let mut fs = go_exam_fixture();
    let mut exam_info = ExamInfo::new_de();
    exam_info.set_base_dir("go-exam");
    let tester = ExamTester::new(exam_info, false, true);
    assert!(tester.verbose());
    tester.copy_submissions(&mut fs);
    tester.copy_tests(&mut fs).unwrap();
    assert!(!fs.has_dir("go-exam/bewertung"));
    assert!(!fs.has_file("go-exam/bewertung/student_1/task_1/task_1.go"));
}

#[test]
fn annotate_guard_checks_whole_lines() {
    // the note occurring inside a longer line does not count as an
    // existing annotation
    let text = "prefix // TESTS: Ok suffix\n";
    let once = annotate_text(text, "// BEWERTUNG: ", "// TESTS: Ok");
    assert_eq!(once, "prefix // TESTS: Ok suffix\n\n// BEWERTUNG: \n// TESTS: Ok\n");
    let twice = annotate_text(&once, "// BEWERTUNG: ", "// TESTS: Ok");
    assert_eq!(twice, once);
}

#[test]
fn run_tests_uses_the_runs_locale() {
    let mut fs = FsState::new();
    fs.mkdir("ex");
    fs.mkdir("ex/submissions");
    fs.mkdir("ex/submissions/ada");
    fs.mkdir("ex/submissions/ada/t1");
    fs.write_file("ex/submissions/ada/t1/t1.go", "package main\n");
    fs.mkdir("ex/tasks");
    fs.mkdir("ex/tasks/t1");
    let mut exam_info = ExamInfo::new_en();
    exam_info.set_base_dir("ex");
    let tester = ExamTester::new(exam_info, false, false);
    tester.copy_submissions(&mut fs);
    tester.copy_tests(&mut fs).unwrap();
    let outputs = vec!["FAIL x 0.1s".to_string()];
    let results = tester.run_tests(&mut fs, &outputs).unwrap();
    assert_eq!(results, vec![TestResult::TestFailure]);
    assert_eq!(
        fs.read_file("ex/grading/ada/t1/t1.go").unwrap(),
        "package main\n\n// BEWERTUNG: \n// TESTS: Test Failure\n"
    );
}

#[test]
fn run_tests_processes_units_in_order_and_counts_them() {
    let mut fs = go_exam_fixture();
    let mut exam_info = ExamInfo::new_de();
    exam_info.set_base_dir("go-exam");
    let tester = ExamTester::new(exam_info, false, false);
    tester.copy_submissions(&mut fs);
    tester.copy_tests(&mut fs).unwrap();
    // fewer outputs than units: only the first units are processed
    let outputs = vec!["ok".to_string(), "FAIL x".to_string()];
    let results = tester.run_tests(&mut fs, &outputs).unwrap();
    assert_eq!(results.len(), 2);
    assert_eq!(results[0], TestResult::Success);
    assert_eq!(results[1], TestResult::TestFailure);
    // unit order is student_1/task_1 then student_1/task_2
    assert_eq!(
        fs.read_file("go-exam/bewertung/student_1/task_1/task_1.go").unwrap(),
        "package main\n\n// BEWERTUNG: \n// TESTS: Ok\n"
    );
    assert_eq!(
        fs.read_file("go-exam/bewertung/student_1/task_2/task_2.go").unwrap(),
        "package main\n\n// BEWERTUNG: \n// TESTS: Test-Fehlschlag\n"
    );
    assert_eq!(
        fs.read_file("go-exam/bewertung/student_1/task_3/task_3.go").unwrap(),
        "package main\n"
    );
}

#[test]
fn summary_reports_layout_and_names() {
    let fs = go_exam_fixture();
    let mut exam_info = ExamInfo::new_de();
    exam_info.set_base_dir("go-exam");
    let s = exam_info.summary(&fs);
    assert_eq!(
        s,
        "Summary:\nBase directory: go-exam\nSubmissions directory: go-exam/abgaben\nTasks directory: go-exam/aufgaben\nGrading directory: go-exam/bewertung\nTest timeout: 5s\nStudent names: [student_1, student_2, student_3]\nTask names: [task_1, task_2, task_3]"
    );
    // a directory that cannot be read reports an empty name list
    exam_info.set_submissions_dirname("nope");
    let s2 = exam_info.summary(&fs);
    assert!(s2.contains("Student names: []"));
}
