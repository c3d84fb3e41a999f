use orifude::report::{
    compose_report, SafeErrorReport, MAX_ERROR_REPORT_BYTES,
    REPORT_PAYLOAD_LIMIT,
};

/// Writes an error and its causes the way the program reports a failure.
fn report_line(error: &[&str], causes: &[&[&str]]) -> Vec<u8> {
    let head: String = error.concat();
    let texts: Vec<String> = causes.iter().map(|cause| cause.concat()).collect();
    let mut bytes = compose_report(&head, &texts).into_bytes();
    bytes.push(b'\n');
    bytes
}

#[test]
fn error_report_bounds_and_sanitizes_external_causes() {
    let mut pieces: Vec<&str> = vec!["hostile\u{1b}[31m\n"];
    for _ in 0..MAX_ERROR_REPORT_BYTES {
        pieces.push("long");
    }
    let report = report_line(&pieces, &[]);

    assert!(report.len() <= MAX_ERROR_REPORT_BYTES + 1);
    assert!(report.ends_with(b" [truncated]\n"));
    assert!(
        report[..report.len() - 1]
            .iter()
            .all(|byte| !byte.is_ascii_control())
    );
}

#[test]
fn error_report_includes_the_operational_cause() {
    let report = report_line(&["could not write to standard output"], &[&["disk is full"]]);
    assert_eq!(
        String::from_utf8(report).expect("the report should be UTF-8"),
        "error: could not write to standard output: disk is full\n"
    );
}

#[test]
fn control_characters_become_question_marks() {
    let mut report = SafeErrorReport::new();
    assert!(report.write_text("a\tb\u{7f}c\u{9b}d"));
    assert!(!report.is_truncated());
    assert_eq!(report.finish(), "a?b?c?d");
}

#[test]
fn a_report_keeps_the_longest_prefix_that_fits() {
    let mut report = SafeErrorReport::new();
    let filler = "x".repeat(REPORT_PAYLOAD_LIMIT - 1);
    assert!(report.write_text(&filler));
    assert!(!report.write_text("\u{e9}z"));
    assert!(report.is_truncated());
    let text = report.finish();
    assert_eq!(text.len(), REPORT_PAYLOAD_LIMIT - 1 + " [truncated]".len());
    assert!(text.ends_with("x [truncated]"));
    let mut exact = SafeErrorReport::new();
    assert!(exact.write_text(&"y".repeat(REPORT_PAYLOAD_LIMIT)));
    assert!(!exact.is_truncated());
    assert_eq!(exact.finish().len(), REPORT_PAYLOAD_LIMIT);
}

#[test]
fn a_report_shows_eight_causes_then_notes_the_rest() {
    let causes: Vec<String> = (0..10).map(|k| format!("c{k}")).collect();
    assert_eq!(
        compose_report("failed", &causes),
        "error: failed: c0: c1: c2: c3: c4: c5: c6: c7: additional causes omitted"
    );
    let few: Vec<String> = vec!["a".to_string(), "b".to_string()];
    assert_eq!(compose_report("failed", &few), "error: failed: a: b");
    let exactly: Vec<String> = (0..8).map(|k| format!("c{k}")).collect();
    assert_eq!(compose_report("x", &exactly), "error: x: c0: c1: c2: c3: c4: c5: c6: c7");
}
