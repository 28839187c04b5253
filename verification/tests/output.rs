use hourus::output::{csv_field, format_duration, serde_json_escape, OutputFormat};

const S: i128 = 1_000_000_000;

fn mins(n: i128) -> i128 {
    n * 60 * S
}

// --- format_duration ---

#[test]
fn format_duration_hours_only() {
    assert_eq!(format_duration(mins(120)), "2h");
}

#[test]
fn format_duration_minutes_only() {
    assert_eq!(format_duration(mins(45)), "45m");
}

#[test]
fn format_duration_hours_and_minutes() {
    assert_eq!(format_duration(mins(150)), "2h 30m");
}

#[test]
fn format_duration_zero() {
    assert_eq!(format_duration(mins(0)), "0m");
}

#[test]
fn format_duration_negative() {
    assert_eq!(format_duration(mins(-90)), "-1h 30m");
}

// --- OutputFormat::write_total ---

fn capture_total(fmt: &OutputFormat, total: i128) -> String {
    fmt.render_total(total)
}

#[test]
fn write_total_pretty() {
    assert_eq!(capture_total(&OutputFormat::Pretty, mins(90)), "1h 30m\n");
}

#[test]
fn write_total_json() {
    assert_eq!(
        capture_total(&OutputFormat::Json, mins(90)),
        "{\"total_minutes\":90}\n"
    );
}

#[test]
fn write_total_csv() {
    assert_eq!(
        capture_total(&OutputFormat::Csv, mins(90)),
        "total_minutes\n90\n"
    );
}

#[test]
fn write_total_tsv() {
    assert_eq!(
        capture_total(&OutputFormat::Tsv, mins(90)),
        "total_minutes\n90\n"
    );
}

// --- OutputFormat::write_breakdown ---

fn sample_summary() -> Vec<(String, i128)> {
    vec![("coding".into(), mins(120)), ("review".into(), mins(30))]
}

fn capture_breakdown(fmt: &OutputFormat, summary: &[(String, i128)], total: i128) -> String {
    fmt.render_breakdown(summary, total)
}

#[test]
fn write_breakdown_pretty() {
    let out = capture_breakdown(&OutputFormat::Pretty, &sample_summary(), mins(150));
    assert_eq!(out, "coding: 2h\nreview: 30m\n2h 30m\n");
}

#[test]
fn write_breakdown_json_structure() {
    let out = capture_breakdown(&OutputFormat::Json, &sample_summary(), mins(150));
    assert!(out.contains(r#""task":"coding""#));
    assert!(out.contains(r#""task":"review""#));
    assert!(out.contains(r#""total_minutes":150"#));
}

#[test]
fn write_breakdown_csv_has_header() {
    let out = capture_breakdown(&OutputFormat::Csv, &sample_summary(), mins(150));
    assert!(out.starts_with("task,minutes\n"));
    assert!(out.contains("coding,120\n"));
    assert!(out.contains("TOTAL,150\n"));
}

#[test]
fn write_breakdown_tsv_has_header() {
    let out = capture_breakdown(&OutputFormat::Tsv, &sample_summary(), mins(150));
    assert!(out.starts_with("task\tminutes\n"));
    assert!(out.contains("coding\t120\n"));
}

#[test]
fn csv_field_with_comma_is_quoted() {
    assert_eq!(csv_field("a,b"), r#""a,b""#);
}

#[test]
fn csv_field_without_special_chars_unchanged() {
    assert_eq!(csv_field("coding"), "coding");
}

// --- Further cases ---

#[test]
fn csv_field_doubles_inner_quotes() {
    assert_eq!(csv_field("say \"hi\""), "\"say \"\"hi\"\"\"");
}

#[test]
fn json_escape_special_characters() {
    assert_eq!(serde_json_escape("a\"b\\c\nd\te\r"), "\"a\\\"b\\\\c\\nd\\te\\r\"");
    assert_eq!(serde_json_escape("\u{1}"), "\"\\u0001\"");
    assert_eq!(serde_json_escape("\u{1f}"), "\"\\u001f\"");
    assert_eq!(serde_json_escape("plain é"), "\"plain é\"");
}

#[test]
fn write_breakdown_json_exact() {
    let out = capture_breakdown(&OutputFormat::Json, &sample_summary(), mins(150));
    assert_eq!(
        out,
        "{\"entries\":[{\"task\":\"coding\",\"minutes\":120},{\"task\":\"review\",\"minutes\":30}],\"total_minutes\":150}\n"
    );
}

#[test]
fn write_breakdown_empty_summary() {
    assert_eq!(
        capture_breakdown(&OutputFormat::Json, &[], 0),
        "{\"entries\":[],\"total_minutes\":0}\n"
    );
    assert_eq!(capture_breakdown(&OutputFormat::Pretty, &[], 0), "0m\n");
}

#[test]
fn minutes_truncate_toward_zero() {
    assert_eq!(capture_total(&OutputFormat::Csv, -89 * S), "total_minutes\n-1\n");
    assert_eq!(capture_total(&OutputFormat::Csv, 119 * S), "total_minutes\n1\n");
    assert_eq!(format_duration(-30 * S), "-0m");
    assert_eq!(format_duration(-S / 2), "0m");
    assert_eq!(format_duration(-S), "-0m");
    assert_eq!(format_duration((3600 * 5 + 59) * S), "5h");
}

#[test]
fn default_format_is_pretty() {
    assert_eq!(OutputFormat::default(), OutputFormat::Pretty);
}
