use mcp_forge::config::{Config, McpServer, server_to_json, config_to_text};
use mcp_forge::errors::ForgeError;
use mcp_forge::github::{create_github_error_message, decode_payload, TemplateRepository};
use mcp_forge::json::{Json, render_doc_chars, parse_doc_chars};
use mcp_forge::profiles::{
    ProfileConfig, plan_switch, sync_profiles, sync_diff, has_unsaved_changes, config_equiv,
};
use mcp_forge::search::{
    SearchCriteria, ListOptions, ServerInfo, sort_servers, truncate_string, filter_servers,
};
use mcp_forge::strutil::str_to_chars;
use mcp_forge::templates::{
    Template, TemplateConfig, TemplateVariable, VariableType, validate_variables, apply_template,
    render_template_str, HostInfo, CacheMetadata,
};
use mcp_forge::validation::{
    ValidationStatus, ValidationIssue, aggregate_status, unquoted_argument_indices,
};

fn host() -> HostInfo {
    HostInfo {
        os: "linux".to_string(),
        arch: "x64".to_string(),
        home_dir: "/home/u".to_string(),
        config_dir: "/home/u/.config/mcp-forge".to_string(),
    }
}

fn string_var(required: bool) -> TemplateVariable {
    TemplateVariable {
        var_type: VariableType::String,
        description: "Required string".to_string(),
        default: None,
        required,
        validation: None,
        options: None,
    }
}

fn template_with(config: TemplateConfig, vars: Vec<(String, TemplateVariable)>) -> Template {
    Template {
        name: "test".to_string(),
        version: "1.0.0".to_string(),
        description: "Test".to_string(),
        author: "Test".to_string(),
        tags: vec!["test".to_string()],
        platforms: vec!["macos".to_string()],
        variables: vars,
        config,
        requirements: None,
        setup_instructions: None,
    }
}

fn echo_config() -> TemplateConfig {
    TemplateConfig {
        command: Some("echo".to_string()),
        args: Some(vec!["test".to_string()]),
        url: None,
        env: None,
    }
}

#[test]
fn test_variable_validation() {
    let template = template_with(
        echo_config(),
        vec![("required_string".to_string(), string_var(true))],
    );

    let empty_vars: Vec<(String, Json)> = Vec::new();
    assert!(validate_variables(&template, &empty_vars).is_err());

    let valid_vars = vec![("required_string".to_string(), Json::Str(str_to_chars("test")))];
    assert!(validate_variables(&template, &valid_vars).is_ok());
}

#[test]
fn test_required_string_rejects_blank_and_null() {
    // P2: a required string variable refuses absence, null and blank text,
    // and accepts any non-empty text.
    let template = template_with(
        echo_config(),
        vec![("key".to_string(), string_var(true))],
    );
    let absent: Vec<(String, Json)> = Vec::new();
    assert!(validate_variables(&template, &absent).is_err());
    let null_value = vec![("key".to_string(), Json::Null)];
    assert!(validate_variables(&template, &null_value).is_err());
    let blank = vec![("key".to_string(), Json::Str(str_to_chars("   ")))];
    assert!(validate_variables(&template, &blank).is_err());
    let fine = vec![("key".to_string(), Json::Str(str_to_chars("x")))];
    assert!(validate_variables(&template, &fine).is_ok());
    let optional = template_with(echo_config(), vec![("key".to_string(), string_var(false))]);
    assert!(validate_variables(&optional, &absent).is_ok());
}

#[test]
fn test_template_variant_exclusivity() {
    // P4: all four presence combinations of url and command.
    let both = TemplateConfig {
        command: Some("c".to_string()),
        args: None,
        url: Some("u".to_string()),
        env: None,
    };
    let neither = TemplateConfig { command: None, args: None, url: None, env: None };
    let cmd_only = TemplateConfig {
        command: Some("c".to_string()),
        args: None,
        url: None,
        env: None,
    };
    let url_only = TemplateConfig {
        command: None,
        args: None,
        url: Some("u".to_string()),
        env: None,
    };
    assert!(both.validate().is_err());
    assert!(neither.validate().is_err());
    assert!(cmd_only.validate().is_ok());
    assert!(url_only.validate().is_ok());
    assert!(cmd_only.is_command_template());
    assert!(url_only.is_url_template());
}

#[test]
fn test_server_variant_exclusivity() {
    let both = McpServer {
        command: Some("c".to_string()),
        args: None,
        url: Some("u".to_string()),
        env: None,
        other: Vec::new(),
    };
    let neither = McpServer { command: None, args: None, url: None, env: None, other: Vec::new() };
    assert!(both.validate().is_err());
    assert!(neither.validate().is_err());
}

#[test]
fn test_apply_template_renders_command() {
    let config = TemplateConfig {
        command: Some("npx".to_string()),
        args: Some(vec![
            "-y".to_string(),
            "server-{{name}}".to_string(),
            "{{#each paths}}{{this}},{{/each}}".to_string(),
        ]),
        url: None,
        env: Some(vec![
            ("API_KEY".to_string(), "{{key}}".to_string()),
            ("EMPTY".to_string(), "{{#if flag}}on{{/if}}".to_string()),
        ]),
    };
    let template = template_with(config, vec![("name".to_string(), string_var(true))]);
    let values = vec![
        ("name".to_string(), Json::Str(str_to_chars("files"))),
        (
            "paths".to_string(),
            Json::Arr(vec![Json::Str(str_to_chars("/a")), Json::Str(str_to_chars("/b"))]),
        ),
        ("key".to_string(), Json::Str(str_to_chars("secret1"))),
        ("flag".to_string(), Json::Bool(false)),
    ];
    let server = apply_template(&template, &values, &host()).unwrap();
    assert_eq!(server.command.as_deref(), Some("npx"));
    let args = server.args.unwrap();
    assert_eq!(args[0], "-y");
    assert_eq!(args[1], "server-files");
    assert_eq!(args[2], "/a,/b,");
    // The blank-valued entry is dropped, the rendered one kept.
    let env = server.env.unwrap();
    assert_eq!(env.len(), 1);
    assert_eq!(env[0], ("API_KEY".to_string(), "secret1".to_string()));
}

#[test]
fn test_apply_template_helpers_and_determinism() {
    // P3: two renderings of the same inputs are identical, byte for byte.
    let config = TemplateConfig {
        command: None,
        args: None,
        url: Some("https://{{os}}.example.com/{{arch}}{{home_dir}}".to_string()),
        env: None,
    };
    let template = template_with(config, Vec::new());
    let values: Vec<(String, Json)> = Vec::new();
    let s1 = apply_template(&template, &values, &host()).unwrap();
    let s2 = apply_template(&template, &values, &host()).unwrap();
    assert_eq!(s1.url.as_deref(), Some("https://linux.example.com/x64/home/u"));
    let j1 = render_doc_chars(&server_to_json(&s1));
    let j2 = render_doc_chars(&server_to_json(&s2));
    assert_eq!(j1, j2);
}

#[test]
fn test_undefined_placeholder_fails() {
    let ctx: Vec<(String, Json)> = Vec::new();
    let r = render_template_str(&"hello {{missing}}".to_string(), &ctx);
    assert!(r.is_err());
    match r {
        Err(ForgeError::Render(_)) => {},
        _ => panic!("expected a rendering error"),
    }
    let ok = render_template_str(&"plain text".to_string(), &ctx).unwrap();
    assert_eq!(ok, "plain text");
}

#[test]
fn test_conditional_and_iteration() {
    let ctx = vec![
        ("on".to_string(), Json::Bool(true)),
        ("items".to_string(), Json::Arr(vec![Json::Num(str_to_chars("1")), Json::Num(
            str_to_chars("2"),
        )])),
    ];
    let r = render_template_str(&"{{#if on}}yes{{/if}}[{{#each items}}<{{this}}>{{/each}}]".to_string(), &ctx)
        .unwrap();
    assert_eq!(r, "yes[<1><2>]");
}

#[test]
fn test_profile_sync_dry_run() {
    // P7: source {a, b} into target {b, c}: a added, b overwritten, c
    // removed, and a dry run writes nothing.
    let mut source = Config::empty();
    source.insert_server("a".to_string(), cmd("ca"));
    source.insert_server("b".to_string(), cmd("cb"));
    let mut target = Config::empty();
    target.insert_server("b".to_string(), cmd("old"));
    target.insert_server("c".to_string(), cmd("cc"));

    let diff = sync_diff(&source, &target);
    assert_eq!(diff.added, vec!["a".to_string()]);
    assert_eq!(diff.overwritten, vec!["b".to_string()]);
    assert_eq!(diff.removed, vec!["c".to_string()]);

    let mut registry = ProfileConfig::empty();
    registry.create(&"work".to_string(), 10).unwrap();
    let before = registry.get_profile(&"work".to_string()).unwrap().server_count;
    let outcome = sync_profiles(&mut registry, &"work".to_string(), &source, &target, true, 20)
        .unwrap();
    assert!(outcome.new_target_snapshot.is_none());
    assert_eq!(
        registry.get_profile(&"work".to_string()).unwrap().server_count,
        before
    );

    let outcome = sync_profiles(&mut registry, &"work".to_string(), &source, &target, false, 20)
        .unwrap();
    let snapshot = outcome.new_target_snapshot.unwrap();
    assert_eq!(snapshot.mcp_servers.len(), 2);
    assert!(snapshot.get_server("a").is_some());
    assert_eq!(registry.get_profile(&"work".to_string()).unwrap().server_count, 2);
}

fn cmd(c: &str) -> McpServer {
    McpServer {
        command: Some(c.to_string()),
        args: Some(Vec::new()),
        url: None,
        env: None,
        other: Vec::new(),
    }
}

#[test]
fn test_switch_with_unsaved_changes() {
    // P8: declining to save discards the difference; accepting persists the
    // canonical document before the switch.
    let mut canonical = Config::empty();
    canonical.insert_server("edited".to_string(), cmd("x"));
    let current_snapshot = Some(Config::empty());
    let mut target = Config::empty();
    target.insert_server("t".to_string(), cmd("y"));

    assert!(has_unsaved_changes(&canonical, current_snapshot.as_ref().unwrap()));

    let declined = plan_switch(&canonical, &current_snapshot, &target, false);
    assert!(declined.save_old_snapshot.is_none());
    assert!(declined.new_canonical.get_server("t").is_some());
    assert!(declined.new_canonical.get_server("edited").is_none());

    let accepted = plan_switch(&canonical, &current_snapshot, &target, true);
    let saved = accepted.save_old_snapshot.unwrap();
    assert!(saved.get_server("edited").is_some());
    assert!(accepted.new_canonical.get_server("t").is_some());

    // No difference: nothing to save even when accepting.
    let clean = plan_switch(&canonical, &Some(clone(&canonical)), &target, true);
    assert!(clean.save_old_snapshot.is_none());
}

fn clone(c: &Config) -> Config {
    mcp_forge::config::clone_config(c)
}

#[test]
fn test_config_equiv_ignores_order() {
    let mut a = Config::empty();
    a.insert_server("one".to_string(), cmd("c1"));
    a.insert_server("two".to_string(), cmd("c2"));
    let mut b = Config::empty();
    b.insert_server("two".to_string(), cmd("c2"));
    b.insert_server("one".to_string(), cmd("c1"));
    assert!(config_equiv(&a, &b));
    let mut c = Config::empty();
    c.insert_server("one".to_string(), cmd("c1"));
    assert!(!config_equiv(&a, &c));
}

#[test]
fn test_profile_delete_rules() {
    let mut registry = ProfileConfig::empty();
    registry.create(&"p1".to_string(), 1).unwrap();
    registry.create(&"p2".to_string(), 1).unwrap();
    registry.mark_switched(&"p1".to_string(), 2).unwrap();

    // The current profile cannot go without force.
    assert!(registry.delete(&"p1".to_string(), false, true).is_err());
    // Unconfirmed deletion cancels.
    assert_eq!(registry.delete(&"p2".to_string(), false, false).unwrap(), false);
    assert!(registry.get_profile(&"p2".to_string()).is_some());
    // Confirmed deletion removes the entry.
    assert_eq!(registry.delete(&"p2".to_string(), false, true).unwrap(), true);
    assert!(registry.get_profile(&"p2".to_string()).is_none());
    // Forced deletion of the current profile clears the pointer.
    assert_eq!(registry.delete(&"p1".to_string(), true, false).unwrap(), true);
    assert!(registry.current_profile.is_none());
    assert!(registry.delete(&"missing".to_string(), true, true).is_err());
}

#[test]
fn test_sort_servers() {
    let row = |name: &str| ServerInfo {
        name: name.to_string(),
        command: "z".to_string(),
        args: vec![],
        env: None,
        template: None,
        tags: vec![],
        platform: "macos".to_string(),
        author: None,
        requirements: None,
    };
    let servers = vec![row("zebra"), row("alpha")];
    let options = ListOptions {
        sort: Some("name".to_string()),
        desc: false,
        format: None,
        show_requirements: false,
        json: false,
    };
    let sorted = sort_servers(servers, &options);
    assert_eq!(sorted[0].name, "alpha");
    assert_eq!(sorted[1].name, "zebra");
}

#[test]
fn test_truncate_string() {
    assert_eq!(truncate_string("hello", 10), "hello     ");
    assert_eq!(truncate_string("hello world", 8), "hello...");
}

#[test]
fn test_filter_servers() {
    let servers = vec![
        ("test1".to_string(), cmd_args("npx", &["filesystem"])),
        ("database".to_string(), cmd_args("psql", &["-h", "localhost"])),
    ];
    let criteria = SearchCriteria {
        text: Some("database".to_string()),
        tags: vec![],
        platform: None,
        author: None,
        requires: None,
    };
    let filtered = filter_servers(servers, &criteria, &"linux".to_string());
    assert_eq!(filtered.len(), 1);
    assert_eq!(filtered[0].name, "database");
}

fn cmd_args(c: &str, args: &[&str]) -> McpServer {
    McpServer {
        command: Some(c.to_string()),
        args: Some(args.iter().map(|a| a.to_string()).collect()),
        url: None,
        env: None,
        other: Vec::new(),
    }
}

#[test]
fn test_error_message_creation() {
    let message = create_github_error_message("GitHub API rate limit exceeded");
    assert!(message.contains("Rate Limit"));
    assert!(message.contains("cached templates"));
}

#[test]
fn test_decode_payload() {
    // "{\"a\": 1}" in base64, split across lines as the transport does.
    let text = decode_payload("eyJhIjo\ngMX0=").unwrap();
    assert_eq!(text, "{\"a\": 1}");
    assert!(decode_payload("!!!").is_err());
}

#[test]
fn test_template_repository_default() {
    let repo = TemplateRepository::standard();
    assert_eq!(repo.owner, "mcp-forge");
    assert_eq!(repo.repo, "templates");
    assert_eq!(repo.branch, "main");
}

#[test]
fn test_json_parse_and_render() {
    let text = " {\"k\": [1, true, null, \"a\\u0041\\n\"], \"n\": -2.5e3} ";
    let chars = str_to_chars(text);
    let doc = parse_doc_chars(&chars).unwrap();
    let rendered: Vec<char> = render_doc_chars(&doc);
    let reparsed = parse_doc_chars(&rendered).unwrap();
    let rendered2 = render_doc_chars(&reparsed);
    assert_eq!(rendered, rendered2);
    let rendered_text: String = rendered.iter().collect();
    assert!(rendered_text.contains("-2.5e3"));
    assert!(rendered_text.contains("aA\\u000a"));
    assert!(parse_doc_chars(&str_to_chars("{oops}")).is_none());
}

#[test]
fn test_cache_metadata_expiry() {
    let meta = CacheMetadata::fresh(1_000_000);
    assert!(!meta.is_expired(1_000_000));
    assert!(!meta.is_expired(1_000_000 + 2_592_000));
    assert!(meta.is_expired(1_000_000 + 2_592_001));
}

#[test]
fn test_validation_status_aggregation() {
    let issue = |sev: ValidationStatus| ValidationIssue {
        issue_type: "t".to_string(),
        message: "m".to_string(),
        severity: sev,
        fix_suggestion: None,
    };
    assert!(matches!(aggregate_status(&vec![]), ValidationStatus::Valid));
    assert!(matches!(
        aggregate_status(&vec![issue(ValidationStatus::Warning)]),
        ValidationStatus::Warning
    ));
    assert!(matches!(
        aggregate_status(&vec![
            issue(ValidationStatus::Warning),
            issue(ValidationStatus::Error)
        ]),
        ValidationStatus::Error
    ));
    assert_eq!(ValidationStatus::Error.symbol(), "x");
}

#[test]
fn test_argument_validation() {
    let args = vec!["test".to_string(), "file with spaces".to_string()];
    let flagged = unquoted_argument_indices(&args);
    assert_eq!(flagged, vec![1]);
}
