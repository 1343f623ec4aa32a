use pdfgrep::command::{file_action, FileAction};
use pdfgrep::read_cmd::stdin_line_matches;
use pdfgrep::read_multi_file::is_listed_file;
use pdfgrep::read_single_file::file_line_matches;

#[test]
fn stdin_lines_match_lowercased_text() {
    assert!(stdin_line_matches("Hello World", "world"));
    assert!(!stdin_line_matches("Hello World", "World"));
    assert!(stdin_line_matches("anything", ""));
}

#[test]
fn file_lines_match_ignoring_case() {
    assert!(file_line_matches("Hello World", "WORLD"));
    assert!(file_line_matches("ÉCOLE", "école"));
    assert!(!file_line_matches("Hello", "bye"));
}

#[test]
fn listed_files() {
    assert!(is_listed_file(true, "notes.txt"));
    assert!(!is_listed_file(true, ".hidden"));
    assert!(!is_listed_file(false, "dir"));
    assert!(is_listed_file(true, "a.b"));
}

#[test]
fn paths_are_read_searched_or_left() {
    assert_eq!(file_action(Some("report.pdf")), FileAction::ReadPdf);
    assert_eq!(file_action(Some("a.pdf.bak")), FileAction::ReadPdf);
    assert_eq!(file_action(Some("notes.txt")), FileAction::Ignore);
    assert_eq!(file_action(Some("REPORT.PDF")), FileAction::Ignore);
    assert_eq!(file_action(None), FileAction::SearchText);
}
