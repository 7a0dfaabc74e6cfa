use fuzz::Fuzz;
use fuzz::Location;
use fuzz::TargetResult;

fn found_at(file: &str, line: usize, column: usize) -> TargetResult {
    TargetResult { file_name: file.to_string(), location: Location { line, column } }
}

#[test]
fn byte_offset_sums_preceding_lines() {
    let fuzz = Fuzz::new("target".to_string());
    let content = "abc\ndef\ntarget here\n";
    let span = fuzz.build_report(content, &found_at("a.txt", 3, 1));
    assert_eq!(span, Some((8, 14)));
    assert_eq!(&content[8..14], "target");
}

#[test]
fn byte_offset_honors_the_column() {
    let fuzz = Fuzz::new("here".to_string());
    let content = "abc\ndef\ntarget here\n";
    let span = fuzz.build_report(content, &found_at("a.txt", 3, 8));
    assert_eq!(span, Some((15, 19)));
    assert_eq!(&content[15..19], "here");
}

#[test]
fn stale_line_is_not_rendered() {
    let fuzz = Fuzz::new("target".to_string());
    let span = fuzz.build_report("short\n", &found_at("a.txt", 3, 1));
    assert_eq!(span, None);
}

#[test]
fn span_past_the_content_is_not_rendered() {
    let fuzz = Fuzz::new("target".to_string());
    let span = fuzz.build_report("tar\n", &found_at("a.txt", 1, 1));
    assert_eq!(span, None);
}

#[test]
fn zero_line_or_column_is_rejected() {
    let fuzz = Fuzz::new("t".to_string());
    assert_eq!(fuzz.build_report("t\n", &found_at("a.txt", 0, 1)), None);
    assert_eq!(fuzz.build_report("t\n", &found_at("a.txt", 1, 0)), None);
}

#[test]
fn scan_and_report_agree() {
    let fuzz = Fuzz::new("needle".to_string());
    let content = "one\ntwo needle\nthree\nneedle\n";
    let files = vec![fuzz::analysis::FileEntry {
        path: "f.txt".to_string(),
        content: content.to_string(),
    }];
    let results = fuzz.run(&files, &Vec::new());
    assert_eq!(results.len(), 2);
    for m in &results {
        let (start, end) = fuzz.build_report(content, m).expect("span within content");
        assert_eq!(&content[start..end], "needle");
    }
}
