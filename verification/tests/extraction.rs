use script_copy::scan::{extract_script, extract_from_source};
use script_copy::text::split_lines;

fn lines(src: &[&str]) -> Vec<Vec<u8>> {
    let mut v: Vec<Vec<u8>> = Vec::new();
    for s in src {
        v.push(s.as_bytes().to_vec());
    }
    v
}

fn output_string(src: &[&str]) -> (String, usize) {
    let r = extract_script(&lines(src));
    (String::from_utf8(r.output).unwrap(), r.mismatches)
}

#[test]
fn example_extraction() {
    let src = [
        "#region Other",
        "junk",
        "#endregion",
        "    #region Script",
        "    line one",
        "",
        "    line two",
        "    #endregion",
    ];
    let (out, mismatches) = output_string(&src);
    assert_eq!(out, "line one\n\nline two\n");
    assert_eq!(mismatches, 0);
}

#[test]
fn single_region_exact() {
    let src = ["before", "#region Script", "alpha", "beta", "#endregion", "after"];
    let (out, mismatches) = output_string(&src);
    assert_eq!(out, "alpha\nbeta\n");
    assert_eq!(mismatches, 0);
}

#[test]
fn outside_lines_never_appear() {
    let src = [
        "top",
        "#region Sibling",
        "sibling body",
        "#endregion",
        "#region Script",
        "kept",
        "#endregion",
        "#region Tail",
        "tail body",
        "#endregion",
        "bottom",
    ];
    let (out, mismatches) = output_string(&src);
    assert_eq!(out, "kept\n");
    assert_eq!(mismatches, 0);
}

#[test]
fn nested_script_captured_to_its_own_close() {
    let src = [
        "#region Outer",
        "outer body",
        "  #region Script",
        "  inner one",
        "  inner two",
        "  #endregion",
        "still outer",
        "#endregion",
    ];
    let (out, mismatches) = output_string(&src);
    assert_eq!(out, "inner one\ninner two\n");
    assert_eq!(mismatches, 0);
}

#[test]
fn unmatched_close_is_reported_not_fatal() {
    let src = ["#endregion", "#region Script", "body", "#endregion"];
    let (out, mismatches) = output_string(&src);
    assert_eq!(out, "body\n");
    assert_eq!(mismatches, 1);
}

#[test]
fn every_unmatched_close_counts() {
    let src = ["#endregion", "#endregion", "#endregion"];
    let (out, mismatches) = output_string(&src);
    assert_eq!(out, "");
    assert_eq!(mismatches, 3);
}

#[test]
fn extraction_is_deterministic() {
    let src = lines(&["#region Script", "one", "", "two", "#endregion"]);
    let first = extract_script(&src);
    let second = extract_script(&src);
    assert_eq!(first.output, second.output);
    assert_eq!(first.mismatches, second.mismatches);
}

#[test]
fn blank_line_inside_region_preserved() {
    let src = ["  #region Script", "  a", "", "  b", "  #endregion"];
    let (out, mismatches) = output_string(&src);
    assert_eq!(out, "a\n\nb\n");
    assert_eq!(mismatches, 0);
}

#[test]
fn short_line_emits_empty_line() {
    let src = ["    #region Script", "ab", "    rest", "    #endregion"];
    let (out, _) = output_string(&src);
    assert_eq!(out, "\nrest\n");
}

#[test]
fn deindentation_truncates_by_column_not_by_whitespace() {
    let src = ["    #region Script", "xxline", "    #endregion"];
    let (out, _) = output_string(&src);
    assert_eq!(out, "ne\n");
}

#[test]
fn region_name_is_taken_at_fixed_offset() {
    // Two separators: the name is " Script", which does not match.
    let src = ["#region  Script", "hidden", "#endregion"];
    let (out, _) = output_string(&src);
    assert_eq!(out, "");
    // Any single byte serves as the separator at offset 7.
    let src = ["#regionXScript", "kept", "#endregion"];
    let (out, _) = output_string(&src);
    assert_eq!(out, "kept\n");
}

#[test]
fn bare_open_marker_carries_empty_name() {
    let src = ["#region", "not captured", "#endregion"];
    let (out, mismatches) = output_string(&src);
    assert_eq!(out, "");
    assert_eq!(mismatches, 0);
}

#[test]
fn close_marker_matches_by_prefix() {
    let src = ["#region Script", "body", "#endregionScript"];
    let (out, mismatches) = output_string(&src);
    assert_eq!(out, "body\n");
    assert_eq!(mismatches, 0);
}

#[test]
fn reopened_region_concatenates_both_bodies() {
    let src = [
        "#region Script",
        "first",
        "#endregion",
        "between",
        "#region Script",
        "second",
        "#endregion",
    ];
    let (out, mismatches) = output_string(&src);
    assert_eq!(out, "first\nsecond\n");
    assert_eq!(mismatches, 0);
}

#[test]
fn unclosed_region_runs_to_end_of_input() {
    let src = ["#region Script", "a", "b"];
    let (out, mismatches) = output_string(&src);
    assert_eq!(out, "a\nb\n");
    assert_eq!(mismatches, 0);
}

#[test]
fn empty_input_emits_nothing() {
    let (out, mismatches) = output_string(&[]);
    assert_eq!(out, "");
    assert_eq!(mismatches, 0);
}

#[test]
fn marker_lines_trimmed_before_matching() {
    // Trailing whitespace after the marker is trimmed, so the name of
    // "  #region Script  " is exactly "Script".
    let src = ["  #region Script  ", "  body", "  #endregion  "];
    let (out, mismatches) = output_string(&src);
    assert_eq!(out, "body\n");
    assert_eq!(mismatches, 0);
}

#[test]
fn split_lines_strips_terminators() {
    let split = split_lines(&b"a\r\nb\nc".to_vec());
    assert_eq!(split, vec![b"a".to_vec(), b"b".to_vec(), b"c".to_vec()]);
}

#[test]
fn split_lines_trailing_newline_adds_no_line() {
    let split = split_lines(&b"a\nb\n".to_vec());
    assert_eq!(split, vec![b"a".to_vec(), b"b".to_vec()]);
}

#[test]
fn split_lines_keeps_inner_carriage_returns() {
    let split = split_lines(&b"a\rb\r\r\n".to_vec());
    assert_eq!(split, vec![b"a\rb\r".to_vec()]);
}

#[test]
fn split_lines_empty_input() {
    let split = split_lines(&Vec::new());
    assert!(split.is_empty());
}

#[test]
fn extract_from_source_whole_buffer() {
    let src = b"#region Other\njunk\n#endregion\n    #region Script\n    line one\n\n    line two\n    #endregion\n"
        .to_vec();
    let r = extract_from_source(&src);
    assert_eq!(String::from_utf8(r.output).unwrap(), "line one\n\nline two\n");
    assert_eq!(r.mismatches, 0);
}

#[test]
fn extract_from_source_crlf_input() {
    let src = b"#region Script\r\nbody\r\n#endregion\r\n".to_vec();
    let r = extract_from_source(&src);
    assert_eq!(String::from_utf8(r.output).unwrap(), "body\n");
    assert_eq!(r.mismatches, 0);
}
