use fuzz::analysis::FileAnalysis;
use fuzz::analysis::FileEntry;
use fuzz::Fuzz;

fn entry(path: &str, content: &str) -> FileEntry {
    FileEntry { path: path.to_string(), content: content.to_string() }
}

#[test]
fn single_match_location() {
    let r = FileAnalysis::analyze("a.txt", "hello world\n", "world");
    assert_eq!(r.len(), 1);
    assert_eq!(r[0].file_name, "a.txt");
    assert_eq!(r[0].location.line, 1);
    assert_eq!(r[0].location.column, 7);
}

#[test]
fn round_trip_reported_positions() {
    let content = "hello world\nno match here\nsay hello twice hello\n";
    let target = "hello";
    let r = FileAnalysis::analyze("a.txt", content, target);
    assert_eq!(r.len(), 2);
    let lines: Vec<&str> = content.lines().collect();
    for m in &r {
        let line = lines[m.location.line - 1];
        let start = m.location.column - 1;
        assert_eq!(&line[start..start + target.len()], target);
    }
}

#[test]
fn first_occurrence_only_per_line() {
    let r = FileAnalysis::analyze("a.txt", "xx target target\n", "target");
    assert_eq!(r.len(), 1);
    assert_eq!(r[0].location.line, 1);
    assert_eq!(r[0].location.column, 4);
}

#[test]
fn multiple_occurrences_all_retained() {
    let content = "zero\ntarget one\nthree\nfour\ntarget two\nsix\nseven\neight\ntarget three\n";
    let r = FileAnalysis::analyze("a.txt", content, "target");
    assert_eq!(r.len(), 3);
    assert_eq!(r[0].location.line, 2);
    assert_eq!(r[1].location.line, 5);
    assert_eq!(r[2].location.line, 9);
    for m in &r {
        assert_eq!(m.location.column, 1);
    }
}

#[test]
fn scan_is_idempotent() {
    let files = vec![
        entry("a.txt", "target here\nnothing\ntarget again\n"),
        entry("b.txt", "no\ntarget\n"),
    ];
    let ignored = FileAnalysis::read_gitignore("", false);
    let first = FileAnalysis::results("target", &files, &ignored);
    let second = FileAnalysis::results("target", &files, &ignored);
    assert_eq!(first, second);
    assert_eq!(first.len(), 3);
}

#[test]
fn ignored_file_yields_no_matches() {
    let files = vec![
        entry("src/keep.txt", "target\n"),
        entry("build/skip.txt", "target\ntarget\n"),
    ];
    let ignored = FileAnalysis::read_gitignore("build\n", false);
    let r = FileAnalysis::results("target", &files, &ignored);
    assert_eq!(r.len(), 1);
    assert_eq!(r[0].file_name, "src/keep.txt");
}

#[test]
fn walk_order_then_line_order() {
    let files = vec![
        entry("one.txt", "x\ntarget\n"),
        entry("two.txt", "target\ny\ntarget\n"),
    ];
    let r = FileAnalysis::results("target", &files, &Vec::new());
    assert_eq!(r.len(), 3);
    assert_eq!((r[0].file_name.as_str(), r[0].location.line), ("one.txt", 2));
    assert_eq!((r[1].file_name.as_str(), r[1].location.line), ("two.txt", 1));
    assert_eq!((r[2].file_name.as_str(), r[2].location.line), ("two.txt", 3));
}

#[test]
fn empty_target_matches_every_line_at_column_one() {
    let r = FileAnalysis::analyze("a.txt", "alpha\nbeta\n", "");
    assert_eq!(r.len(), 2);
    assert_eq!((r[0].location.line, r[0].location.column), (1, 1));
    assert_eq!((r[1].location.line, r[1].location.column), (2, 1));
}

#[test]
fn empty_content_yields_no_matches() {
    let r = FileAnalysis::analyze("unreadable.bin", "", "target");
    assert_eq!(r.len(), 0);
}

#[test]
fn target_spanning_line_break_is_not_matched() {
    let r = FileAnalysis::analyze("a.txt", "tar\nget\n", "target");
    assert_eq!(r.len(), 0);
}

#[test]
fn carriage_returns_are_stripped_from_line_ends() {
    let r = FileAnalysis::analyze("a.txt", "ab\r\ncd\r", "\r");
    assert_eq!(r.len(), 0);
    let r = FileAnalysis::analyze("a.txt", "ab\r\ncd\r", "b");
    assert_eq!(r.len(), 1);
    assert_eq!((r[0].location.line, r[0].location.column), (1, 2));
}

#[test]
fn gitignore_lines_become_patterns() {
    let pats = FileAnalysis::read_gitignore("build\ntmp\n", false);
    assert_eq!(pats, vec![b"build".to_vec(), b"tmp".to_vec()]);
}

#[test]
fn git_repo_marker_is_added() {
    let pats = FileAnalysis::read_gitignore("build\n", true);
    assert_eq!(pats, vec![b"build".to_vec(), b".git".to_vec()]);
}

#[test]
fn missing_gitignore_is_an_empty_set() {
    let pats = FileAnalysis::read_gitignore("", false);
    assert_eq!(pats.len(), 0);
}

#[test]
fn path_fragment_ignoring_is_substring_based() {
    let ignored = FileAnalysis::read_gitignore("build\n", true);
    assert!(FileAnalysis::is_ignored("./build/out.txt", &ignored));
    assert!(FileAnalysis::is_ignored("./.git/config", &ignored));
    assert!(FileAnalysis::is_ignored("./rebuild/x", &ignored));
    assert!(!FileAnalysis::is_ignored("./src/lib.rs", &ignored));
}

#[test]
fn run_scans_with_the_configured_target() {
    let fuzz = Fuzz::new("needle".to_string());
    let files = vec![entry("hay.txt", "hay\nhay needle hay\n")];
    let r = fuzz.run(&files, &Vec::new());
    assert_eq!(r.len(), 1);
    assert_eq!(r[0].location.line, 2);
    assert_eq!(r[0].location.column, 5);
}
