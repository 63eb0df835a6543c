use anycli::adapter::{Adapter, Command, ParamDef, SourceFormat};
use anycli::cli::{
    choose_format, field_list, help_target, parse_params, rewrite_args, run_help, scaffold_yaml, strip_output_flags,
    uninstall_candidates, valid_adapter_name, validate_adapter, RunHelp,
};
use anycli::help::{adapter_help, command_help, info_text, list_text, search_text};
use anycli::hub::{adapter_url, hub_base_url, index_url, install_failure, search_index, HubEntry};
use anycli::json::Json;
use anycli::output::OutputFormat;
use anycli::registry::Registry;
use anycli::settings::{color_enabled, global_timeout, set_color_enabled, set_timeout_secs, set_verbose, verbose_enabled, Settings};

fn svec(v: &[&str]) -> Vec<String> {
    v.iter().map(|s| s.to_string()).collect()
}

fn cmd_param(required: bool, default: Option<Json>, positional: bool) -> ParamDef {
    ParamDef {
        param_type: "string".into(),
        required,
        default,
        description: Some("what".into()),
        positional,
        choices: vec![],
    }
}

fn bare_command(description: &str) -> Command {
    Command {
        description: description.into(),
        aliases: vec![],
        url: "/x".into(),
        format: SourceFormat::Json,
        selector: None,
        fields: vec![],
        data: None,
        columns: vec![],
        params: vec![],
        headers: vec![],
        method: None,
        body: None,
        content_type: None,
        timeout: None,
        skip: 0,
        evaluate: None,
        cdp_target: None,
        intercept_pattern: None,
        fetch_each: None,
    }
}

fn demo_adapter(name: &str, aliases: &[&str], tags: &[&str]) -> Adapter {
    let mut search = bare_command("Search things");
    search.aliases = svec(&["s"]);
    search.params = vec![
        ("query".into(), cmd_param(true, None, false)),
        ("limit".into(), cmd_param(false, Some(Json::Number("10".into())), false)),
    ];
    let top = bare_command("Top things");
    Adapter {
        name: name.into(),
        description: format!("{name} adapter"),
        base_url: "https://example.com".into(),
        version: "1.0".into(),
        aliases: svec(aliases),
        tags: svec(tags),
        commands: vec![("top".into(), top), ("search".into(), search)],
    }
}

#[test]
fn settings_switches() {
    let mut s = Settings::new();
    assert_eq!(global_timeout(&s), None);
    set_timeout_secs(&mut s, 12);
    assert_eq!(global_timeout(&s), Some(12));
    set_verbose(&mut s, true);
    assert!(verbose_enabled(&s, false));
    set_color_enabled(&mut s, true);
    assert!(color_enabled(&s, false));
    assert!(!color_enabled(&s, true));
    set_color_enabled(&mut s, false);
    assert!(!color_enabled(&s, false));
}

#[test]
fn trailing_switches_reach_the_settings() {
    let params = svec(&["-v", "--timeout=7", "--sort", "score", "--reverse", "--compact", "-f", "csv", "--no-color", "x=1", "--timeout"]);
    let mut s = Settings::new();
    let (flags, rest) = strip_output_flags(&params, &mut s);
    assert!(s.verbose);
    assert_eq!(s.timeout_secs, 7);
    assert_eq!(flags.sort.as_deref(), Some("score"));
    assert!(flags.reverse && flags.compact && flags.no_color);
    assert_eq!(flags.format.as_deref(), Some("csv"));
    assert_eq!(rest, svec(&["x=1", "--timeout"]));
}

#[test]
fn positionals_bind_to_parameters() {
    let mut cmd = bare_command("c");
    cmd.params = vec![("query".into(), cmd_param(true, None, false)), ("lang".into(), cmd_param(false, None, true))];
    let parsed = parse_params(&svec(&["rust"]), Some(&cmd));
    assert_eq!(parsed, vec![("lang".to_string(), "rust".to_string())]);
    let mut cmd2 = bare_command("c");
    cmd2.params = vec![("query".into(), cmd_param(true, None, false))];
    let parsed = parse_params(&svec(&["Rust_lang", "--x=1"]), Some(&cmd2));
    assert_eq!(parsed, vec![("x".to_string(), "1".to_string()), ("query".to_string(), "Rust_lang".to_string())]);
    let parsed = parse_params(&svec(&["a", "b"]), Some(&cmd2));
    assert!(parsed.is_empty());
}

#[test]
fn run_is_inserted_before_the_adapter() {
    assert_eq!(rewrite_args(&svec(&["anycli", "-v", "hn", "top"])), svec(&["anycli", "-v", "run", "hn", "top"]));
    assert_eq!(rewrite_args(&svec(&["anycli", "list"])), svec(&["anycli", "list"]));
    assert_eq!(rewrite_args(&svec(&["anycli", "--help"])), svec(&["anycli", "--help"]));
    let once = rewrite_args(&svec(&["anycli", "hn", "top"]));
    assert_eq!(rewrite_args(&once), once);
}

#[test]
fn help_is_found_before_parsing() {
    let h = help_target(&svec(&["anycli", "run", "hn", "--help"])).unwrap();
    assert_eq!(h, ("hn".to_string(), None));
    let h = help_target(&svec(&["anycli", "run", "hn", "-h", "--x", "top"])).unwrap();
    assert_eq!(h, ("hn".to_string(), Some("top".to_string())));
    assert!(help_target(&svec(&["anycli", "run", "hn", "top"])).is_none());
    assert!(help_target(&svec(&["anycli", "list", "--help"])).is_none());
}

#[test]
fn run_help_requests() {
    assert!(matches!(run_help("help", &svec(&["top"])), RunHelp::Adapter(Some(ref c)) if c == "top"));
    assert!(matches!(run_help("-h", &vec![]), RunHelp::Adapter(None)));
    assert!(matches!(run_help("top", &svec(&["x=1", "help"])), RunHelp::Command));
    assert!(matches!(run_help("top", &svec(&["x=1"])), RunHelp::No));
}

#[test]
fn format_choice() {
    assert!(choose_format(&Some("JSON".into()), "table", true).unwrap() == OutputFormat::JsonCompact);
    assert!(choose_format(&None, "csv", true).unwrap() == OutputFormat::Csv);
    assert_eq!(
        choose_format(&None, "xml", false).err().unwrap(),
        "unknown format `xml`. supported: table, json, jsonc, md, yaml, csv, plain"
    );
}

#[test]
fn field_lists_are_trimmed() {
    assert_eq!(field_list(" title, ,url ,"), svec(&["title", "url"]));
    assert!(field_list("").is_empty());
}

#[test]
fn new_adapter_names_and_yaml() {
    assert!(valid_adapter_name("my-site_2"));
    assert!(!valid_adapter_name("my site"));
    assert!(!valid_adapter_name(""));
    let y = scaffold_yaml("demo", None);
    assert!(y.starts_with("name: demo\ndescription: \"demo adapter\"\nbase_url: \"https://api.example.com\"\n"));
    assert!(y.contains("url: \"/search?q={query}&limit={limit}\""));
    let y2 = scaffold_yaml("demo", Some("https://x.test"));
    assert!(y2.contains("base_url: \"https://x.test\""));
}

#[test]
fn uninstall_looks_in_three_files() {
    assert_eq!(uninstall_candidates("my-site"), svec(&["my-site.yaml", "my-site.yml", "my_site.yaml"]));
}

#[test]
fn validation_reports() {
    let a = demo_adapter("demo", &[], &[]);
    let (w, r) = validate_adapter(&a);
    assert!(w.is_empty());
    assert_eq!(r.unwrap(), "ok: demo (2 commands)");
    let mut b = demo_adapter("demo", &[], &[]);
    b.commands[1].1.params[0].1.default = Some(Json::Str("x".into()));
    b.commands[0].1.url = String::new();
    let (w, r) = validate_adapter(&b);
    assert!(w.is_empty());
    assert_eq!(r.err().unwrap(), "command `top` needs a url, evaluate script, or static data");
    let mut c = demo_adapter("demo", &[], &[]);
    c.commands[1].1.params[0].1.default = Some(Json::Str("x".into()));
    c.commands.truncate(2);
    let (w, r) = validate_adapter(&c);
    assert_eq!(w, svec(&["warning: `search.query` is required but also has a default"]));
    assert!(r.is_ok());
    let mut d = demo_adapter("", &[], &[]);
    d.commands.clear();
    assert_eq!(validate_adapter(&d).1.err().unwrap(), "adapter is missing a name");
}

#[test]
fn command_help_text() {
    let a = demo_adapter("demo", &[], &[]);
    let t = command_help(&a, "s").ok().unwrap();
    assert!(t.starts_with("Usage: anycli demo search [params...]\n\nSearch things\n\nAliases: s\n\nParameters:\n"));
    assert!(t.contains("  query          <string>  what (required)\n"));
    assert!(t.contains("  limit          <string>  what [default: 10]\n"));
    assert!(t.ends_with("\nExample:\n  anycli demo s query=VALUE\n"));
    let e = command_help(&a, "serch").err().unwrap();
    assert!(e.message().starts_with("command `serch` not found in adapter `demo`. available: top, search. did you mean: search"));
}

#[test]
fn adapter_help_lists_commands_by_name() {
    let a = demo_adapter("demo", &["d"], &[]);
    let t = adapter_help(&a, None).ok().unwrap();
    assert!(t.starts_with("Usage: anycli demo [options] <command> [params...]\n\ndemo adapter\n\nAliases: d\n\nCommands:\n"));
    let search_at = t.find("  search|s [options] <query>").unwrap();
    let top_at = t.find("  top                          Top things\n").unwrap();
    assert!(search_at < top_at);
    assert!(t.ends_with("\nRun 'anycli demo help <command>' for more info on a specific command.\n"));
}

#[test]
fn info_and_list_texts() {
    let a = demo_adapter("demo", &["d"], &["x"]);
    let t = info_text(&a);
    assert!(t.starts_with("Name:        demo\nDescription: demo adapter\nBase URL:    https://example.com\nVersion:     1.0\nAliases:     d\nTags:        x\n\nCommands:\n"));
    assert!(t.contains("  top              Top things\n"));
    assert!(t.contains("    limit          what [default: 10]\n"));
    let l = list_text(&vec![&a]);
    assert_eq!(
        l,
        format!(
            "{:<22} {:<8} {}\n{:<22} {:<8} {}\n{:<22} {:<8} {}\n\n1 adapters\n",
            "ADAPTER", "CMDS", "DESCRIPTION", "-------", "----", "-----------", "demo", 2, "demo adapter"
        )
    );
}

#[test]
fn search_text_merges_hub_entries() {
    let a = demo_adapter("demo", &[], &[]);
    let hub = vec![
        HubEntry { name: "demo".into(), description: "dup".into(), version: String::new(), author: None, tags: vec![] },
        HubEntry { name: "other".into(), description: "new".into(), version: String::new(), author: None, tags: vec![] },
    ];
    let t = search_text(&vec![&a], &hub, "d");
    assert!(t.contains(&format!("{:<22} {:<8} {}\n", "demo", "local", "demo adapter")));
    assert!(t.contains(&format!("{:<22} {:<8} {}\n", "other", "hub", "new")));
    assert!(!t.contains("dup"));
    assert!(t.ends_with("\nInstall from hub: anycli install <name>\n"));
    assert_eq!(search_text(&vec![], &vec![], "zz"), "No adapters found for `zz`\n");
}

#[test]
fn registry_finds_by_name_and_alias() {
    let mut r = Registry::new();
    r.insert(demo_adapter("hackernews", &["hn"], &["news"]), "name: hackernews".into());
    r.insert(demo_adapter("arxiv", &[], &["academic"]), "name: arxiv".into());
    assert_eq!(r.len(), 2);
    assert_eq!(r.find("hn").ok().unwrap().name, "hackernews");
    assert_eq!(r.source_yaml("hn").ok().unwrap(), "name: hackernews");
    let names: Vec<&str> = r.list().iter().map(|a| a.name.as_str()).collect();
    assert_eq!(names, vec!["arxiv", "hackernews"]);
    assert_eq!(r.search("ACADEMIC").len(), 1);
    assert_eq!(r.search("hn")[0].name, "hackernews");
}

#[test]
fn unknown_adapter_errors() {
    let mut r = Registry::new();
    r.insert(demo_adapter("hackernews", &[], &[]), "name: hackernews".into());
    let e = r.find("nonexistent").err().unwrap();
    assert_eq!(e.message(), "adapter `nonexistent` not found");
    let e = r.find("hackernew").err().unwrap();
    assert_eq!(e.message(), "adapter `hackernew` not found. did you mean: hackernews?");
}

#[test]
fn later_adapter_overrides_earlier() {
    let mut r = Registry::new();
    r.insert(demo_adapter("w", &[], &[]), "old".into());
    let mut newer = demo_adapter("w", &[], &[]);
    newer.description = "user copy".into();
    r.insert(newer, "new".into());
    assert_eq!(r.len(), 1);
    assert_eq!(r.find("w").ok().unwrap().description, "user copy");
    assert_eq!(r.source_yaml("w").ok().unwrap(), "new");
    assert!(!r.is_empty());
}

#[test]
fn hub_urls_and_search() {
    let base = hub_base_url("oopos/anycli-hub");
    assert_eq!(base, "https://raw.githubusercontent.com/oopos/anycli-hub/main");
    assert_eq!(index_url(&base), format!("{base}/index.json"));
    assert_eq!(adapter_url(&base, "zhihu"), format!("{base}/adapters/zhihu.yaml"));
    assert_eq!(install_failure(404, "404 Not Found", "zz"), "adapter `zz` not found in hub");
    assert_eq!(install_failure(500, "500 Internal Server Error", "zz"), "hub returned HTTP 500 Internal Server Error for `zz`");
    let entries = vec![
        HubEntry { name: "Zhihu".into(), description: "Q&A".into(), version: String::new(), author: None, tags: vec![] },
        HubEntry { name: "other".into(), description: "x".into(), version: String::new(), author: None, tags: vec!["CN".into()] },
    ];
    let found = search_index(entries, "zhi");
    assert_eq!(found.len(), 1);
    assert_eq!(found[0].name, "Zhihu");
}

#[test]
fn a_later_adapter_of_a_name_overrides_and_stays() {
    let mut r = Registry::new();
    r.insert(demo_adapter("hackernews", &["hn"], &[]), "built-in".into());
    r.insert(demo_adapter("arxiv", &[], &[]), "name: arxiv".into());
    r.insert(demo_adapter("hackernews", &["hn2"], &["user"]), "user".into());
    r.insert(demo_adapter("pubmed", &[], &[]), "name: pubmed".into());
    assert_eq!(r.len(), 3);
    let a = r.find("hackernews").ok().unwrap();
    assert_eq!(a.tags, vec!["user".to_string()]);
    assert_eq!(r.source_yaml("hackernews").ok().unwrap(), "user");
    assert_eq!(r.find("hn2").ok().unwrap().name, "hackernews");
}
