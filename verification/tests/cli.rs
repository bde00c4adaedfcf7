use mo_fmt::cli::{exit_status, report, summary};
use mo_fmt::corpus::{is_excluded, mk_test};
use mo_fmt::tree::{syntax_error, Lines};
use mo_fmt::Error;

#[test]
fn the_summary_counts_files() {
    assert_eq!(summary(1, 2, false), "Formatted 1 of 2 files.");
    assert_eq!(summary(1, 1, false), "Formatted 1 of 1 file.");
    assert_eq!(summary(1, 2, true), "1 of 2 files need formatting.");
    assert_eq!(summary(0, 1, true), "The file is formatted.");
    assert_eq!(summary(0, 3, true), "All 3 files are formatted.");
}

#[test]
fn the_exit_status_tells_failure_from_needed_formatting() {
    assert_eq!(exit_status(false, false, 3), 0);
    assert_eq!(exit_status(false, true, 0), 0);
    assert_eq!(exit_status(false, true, 1), 1);
    assert_eq!(exit_status(true, true, 1), 2);
}

#[test]
fn a_failed_file_is_reported_with_its_path() {
    let lines = Lines::new(b"let x = ;\n");
    let e = Error::Syntax(syntax_error(&lines, false, "ERROR", 6));
    assert_eq!(report("A.mo", &e), "A.mo:1:7: unexpected input\n  |\n1 | let x = ;\n  |       ^");
    let e = Error::Internal("oops".to_string());
    assert!(report("A.mo", &e).starts_with("A.mo: internal error: oops. The file was left unchanged"));
}

#[test]
fn syntax_tests_and_listed_files_are_excluded_from_the_corpus() {
    let excludes = ["par-bad-nocall.mo", "obj-empty-with.mo"];
    assert!(is_excluded("obj-empty-with.mo", &excludes));
    assert!(is_excluded("syntax1.mo", &excludes));
    assert!(!is_excluded("ok.mo", &excludes));
    assert!(!is_excluded("a-syntax.mo", &[]));
}

#[test]
fn a_corpus_test_names_the_file_and_expects_nothing() {
    assert_eq!(mk_test("a/b.mo", "let x = 1;"), "=========\na/b.mo\n=========\n\nlet x = 1;\n---\n");
}
