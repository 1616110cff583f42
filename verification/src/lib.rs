pub mod annotate;
pub mod args;
pub mod exam_info;
pub mod exam_info_language;
pub mod exam_tester;
pub mod fs_model;
pub mod go_runner;
pub mod sorting;
pub mod strings;
pub mod test_result;
