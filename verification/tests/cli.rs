use anycli::cli::{parse_params, strip_output_flags};
use anycli::settings::Settings;

#[test]
fn strip_format_from_trailing_args() {
    let params: Vec<String> =
        vec!["query=rust".into(), "--format".into(), "json".into(), "--fields".into(), "title,url".into()];
    let mut settings = Settings::new();
    let (flags, rest) = strip_output_flags(&params, &mut settings);
    assert_eq!(flags.format.as_deref(), Some("json"));
    assert_eq!(flags.fields.as_deref(), Some("title,url"));
    assert_eq!(rest, vec!["query=rust"]);
}

#[test]
fn parse_key_value_and_flags() {
    let params: Vec<String> = vec!["query=rust cli".into(), "--limit".into(), "5".into(), "--verbose".into()];
    let parsed = parse_params(&params, None);
    assert!(parsed.iter().any(|(k, v)| k == "query" && v == "rust cli"));
    assert!(parsed.iter().any(|(k, v)| k == "limit" && v == "5"));
    assert!(parsed.iter().any(|(k, v)| k == "verbose" && v == "true"));
}
