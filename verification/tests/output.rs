use anycli::json::Json;
use anycli::output::{
    cell_value, collect_keys, csv_escape, display_width, format_csv, format_json, format_json_compact, format_markdown, format_plain,
    format_result, format_table, is_wide_char, pad_display, truncate_display, OutputFormat,
};

fn out_doc(text: &str) -> Json {
    fn conv(v: &serde_json::Value) -> Json {
        match v {
            serde_json::Value::Null => Json::Null,
            serde_json::Value::Bool(b) => Json::Bool(*b),
            serde_json::Value::Number(n) => Json::Number(n.to_string()),
            serde_json::Value::String(s) => Json::Str(s.clone()),
            serde_json::Value::Array(a) => Json::Array(a.iter().map(conv).collect()),
            serde_json::Value::Object(m) => Json::Object(m.iter().map(|(k, x)| (k.clone(), conv(x))).collect()),
        }
    }
    conv(&serde_json::from_str::<serde_json::Value>(text).unwrap())
}

fn out_items(texts: &[&str]) -> Vec<Json> {
    texts.iter().map(|t| out_doc(t)).collect()
}

fn chars(s: &str) -> Vec<char> {
    s.chars().collect()
}

fn text(v: Vec<char>) -> String {
    v.into_iter().collect()
}

#[test]
fn table_draws_boxes_and_counts_rows() {
    let items = out_items(&[r#"{"a": "x", "b": 1}"#]);
    let t = format_table(&items, false);
    assert_eq!(t, "┌───┬───┐\n│ a │ b │\n├───┼───┤\n│ x │ 1 │\n└───┴───┘\n(1 rows)\n");
}

#[test]
fn table_colors_headers_when_asked() {
    let items = out_items(&[r#"{"a": "x"}"#]);
    let t = format_table(&items, true);
    assert!(t.contains("│ \x1b[1;36ma\x1b[0m │\n"));
}

#[test]
fn table_of_nothing() {
    assert_eq!(format_table(&vec![], false), "(no results)");
}

#[test]
fn table_widens_to_content_and_caps_at_sixty() {
    let long = "x".repeat(70);
    let items = vec![out_doc(&format!(r#"{{"k": "{long}"}}"#))];
    let t = format_table(&items, false);
    let expected_cell = format!("{}...", "x".repeat(57));
    assert!(t.contains(&format!("│ {expected_cell} │")));
    assert!(t.starts_with(&format!("┌{}┐\n", "─".repeat(62))));
}

#[test]
fn csv_quotes_special_cells() {
    let items = out_items(&[r#"{"a": "x,y", "b": "say \"hi\""}"#, r#"{"a": "z"}"#]);
    assert_eq!(format_csv(&items), "a,b\n\"x,y\",\"say \"\"hi\"\"\"\nz,\n");
    assert_eq!(format_csv(&vec![]), "");
}

#[test]
fn markdown_escapes_pipes() {
    let items = out_items(&[r#"{"a": "x|y"}"#]);
    assert_eq!(format_markdown(&items), "| a |\n| --- |\n| x\\|y |\n");
    assert_eq!(format_markdown(&vec![]), "*No results*");
}

#[test]
fn plain_is_tab_separated() {
    let items = out_items(&[r#"{"a": "x", "b": true}"#, r#"{"a": null, "b": [1, "t", null]}"#]);
    assert_eq!(format_plain(&items), "x\ttrue\n\t1, t\n");
}

#[test]
fn compact_json_on_one_line() {
    let items = out_items(&[r#"{"b": 2, "a": "é\n"}"#]);
    assert_eq!(format_json_compact(&items), "[{\"a\":\"é\\n\",\"b\":2}]");
}

#[test]
fn json_and_yaml_texts() {
    let items = out_items(&[r#"{"a": 1}"#]);
    assert_eq!(format_result(&items, OutputFormat::Json, false).unwrap(), "[\n  {\n    \"a\": 1\n  }\n]");
    assert_eq!(format_result(&items, OutputFormat::Yaml, false).unwrap(), "- a: 1\n");
    assert_eq!(format_result(&items, OutputFormat::Csv, false).unwrap(), "a\n1\n");
    assert_eq!(format_json(&Vec::new()), "[]");
}

#[test]
fn json_output_reads_back() {
    let docs = [
        r#"{"b": [1, -2.5, {"z": null, "a": true}], "a": "q\"uote\\ \u0001 tab\t é"}"#,
        r#"[]"#,
        r#"{}"#,
        r#"{"e": [], "o": {}, "n": 12345678901234567890}"#,
        r#""plain""#,
    ];
    let items = out_items(&docs);
    let values: Vec<serde_json::Value> = docs.iter().map(|d| serde_json::from_str(d).unwrap()).collect();
    let pretty = format_result(&items, OutputFormat::Json, false).unwrap();
    let compact = format_result(&items, OutputFormat::JsonCompact, false).unwrap();
    assert_eq!(pretty, serde_json::to_string_pretty(&values).unwrap());
    assert_eq!(compact, serde_json::to_string(&values).unwrap());
    assert_eq!(serde_json::from_str::<Vec<serde_json::Value>>(&pretty).unwrap(), values);
    assert_eq!(serde_json::from_str::<Vec<serde_json::Value>>(&compact).unwrap(), values);
    assert!(!compact.contains('\n'));
}

#[test]
fn format_names_ignore_case() {
    assert!(OutputFormat::from_name("JSON") == Some(OutputFormat::Json));
    assert!(OutputFormat::from_name("md") == Some(OutputFormat::Markdown));
    assert!(OutputFormat::from_name("Compact") == Some(OutputFormat::JsonCompact));
    assert!(OutputFormat::from_name("tsv") == Some(OutputFormat::Plain));
    assert!(OutputFormat::from_name("xml").is_none());
}

#[test]
fn wide_characters_take_two_columns() {
    assert!(is_wide_char('中'));
    assert!(!is_wide_char('a'));
    assert_eq!(display_width("中文ab"), 6);
}

#[test]
fn padding_and_truncation_count_columns() {
    assert_eq!(pad_display("ab", 4), "ab  ");
    assert_eq!(pad_display("中", 3), "中 ");
    assert_eq!(pad_display("abcdef", 3), "abcdef");
    assert_eq!(truncate_display("abcdef", 5), "ab...");
    assert_eq!(truncate_display("abcdef", 2), "ab");
    assert_eq!(truncate_display("中文字", 3), "中");
    assert_eq!(truncate_display("abc", 3), "abc");
}

#[test]
fn csv_escape_leaves_plain_text() {
    assert_eq!(text(csv_escape(&chars("plain"))), "plain");
    assert_eq!(text(csv_escape(&chars("a\nb"))), "\"a\nb\"");
}

#[test]
fn cells_show_values_plainly() {
    let item = out_doc(r#"{"n": 1.5, "s": "t", "o": {"k": "v"}, "a": ["x", "", {"q": "w"}], "z": null}"#);
    assert_eq!(text(cell_value(&item, "n")), "1.5");
    assert_eq!(text(cell_value(&item, "s")), "t");
    assert_eq!(text(cell_value(&item, "o")), "{\"k\":\"v\"}");
    assert_eq!(text(cell_value(&item, "a")), "x, {\"q\":\"w\"}");
    assert_eq!(text(cell_value(&item, "z")), "");
    assert_eq!(text(cell_value(&item, "missing")), "");
}

#[test]
fn keys_come_from_the_first_item() {
    let items = out_items(&[r#"{"b": 1, "a": 2}"#, r#"{"c": 3}"#]);
    assert_eq!(collect_keys(&items), vec!["a".to_string(), "b".to_string()]);
}
