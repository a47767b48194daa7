use mcp_forge::backup::{
    parse_duration, sanitize_filename, select_old_backups, find_backup, BackupEntry,
    BackupMetadata, format_duration_since, backup_file_name,
};
use mcp_forge::bulk::{parse_env_vars, find_matching_servers};
use mcp_forge::config::{Config, McpServer, config_to_text, config_from_text};
use mcp_forge::json::Json;
use mcp_forge::profiles::{validate_profile_name, ProfileConfig, resolve_sync_source, SyncSource};
use mcp_forge::strutil::str_to_chars;
use mcp_forge::utils::{
    get_os_name, get_arch_name, get_config_dir, get_claude_config_path, get_backup_dir,
    mask_sensitive_env_value, mask_sensitive_url, OsKind, ArchKind,
};

fn command_server(cmd: &str, args: &[&str]) -> McpServer {
    McpServer {
        command: Some(cmd.to_string()),
        args: Some(args.iter().map(|a| a.to_string()).collect()),
        url: None,
        env: None,
        other: Vec::new(),
    }
}

fn url_server(url: &str) -> McpServer {
    McpServer {
        command: None,
        args: None,
        url: Some(url.to_string()),
        env: None,
        other: Vec::new(),
    }
}

#[test]
fn test_parse_duration() {
    assert_eq!(parse_duration("30d").unwrap(), 30 * 86400);
    assert_eq!(parse_duration("2w").unwrap(), 2 * 604800);
    assert_eq!(parse_duration("24h").unwrap(), 24 * 3600);
    assert_eq!(parse_duration("60m").unwrap(), 60 * 60);
    assert_eq!(parse_duration("7").unwrap(), 7 * 86400);
}

#[test]
fn test_parse_duration_rejects_garbage() {
    assert!(parse_duration("abc").is_err());
    assert!(parse_duration("").is_err());
    assert!(parse_duration("12x").is_err());
}

#[test]
fn test_sanitize_filename() {
    assert_eq!(sanitize_filename("feature/new-stuff"), "feature_new-stuff");
    assert_eq!(sanitize_filename("backup:2024"), "backup_2024");
    assert_eq!(sanitize_filename("normal-name"), "normal-name");
}

#[test]
fn test_backup_metadata() {
    let metadata = BackupMetadata {
        name: "test".to_string(),
        created_at: 1_700_000_000,
        servers_count: 5,
        description: Some("Test backup".to_string()),
        git_branch: Some("main".to_string()),
        git_commit: Some("abcd123".to_string()),
    };
    assert_eq!(metadata.name, "test");
    assert_eq!(metadata.servers_count, 5);
}

#[test]
fn test_backup_cleanup_selection() {
    // Backups made 40, 20 and 1 days ago; a 30-day cutoff removes only the
    // oldest.
    let now: i64 = 1_700_000_000;
    let entries = vec![
        BackupEntry {
            metadata: BackupMetadata {
                name: "old".to_string(),
                created_at: now - 40 * 86400,
                servers_count: 1,
                description: None,
                git_branch: None,
                git_commit: None,
            },
            file_path: "old.json".to_string(),
        },
        BackupEntry {
            metadata: BackupMetadata {
                name: "mid".to_string(),
                created_at: now - 20 * 86400,
                servers_count: 1,
                description: None,
                git_branch: None,
                git_commit: None,
            },
            file_path: "mid.json".to_string(),
        },
        BackupEntry {
            metadata: BackupMetadata {
                name: "new".to_string(),
                created_at: now - 86400,
                servers_count: 1,
                description: None,
                git_branch: None,
                git_commit: None,
            },
            file_path: "new.json".to_string(),
        },
    ];
    let cutoff = now - parse_duration("30d").unwrap();
    let stale = select_old_backups(&entries, cutoff);
    assert_eq!(stale.len(), 1);
    assert_eq!(stale[0], 0);
    assert_eq!(entries[stale[0]].metadata.name, "old");
}

#[test]
fn test_find_backup_exact_then_partial() {
    let entries = vec![
        BackupEntry {
            metadata: BackupMetadata {
                name: "release-2024".to_string(),
                created_at: 0,
                servers_count: 0,
                description: None,
                git_branch: None,
                git_commit: None,
            },
            file_path: "a.json".to_string(),
        },
        BackupEntry {
            metadata: BackupMetadata {
                name: "release".to_string(),
                created_at: 0,
                servers_count: 0,
                description: None,
                git_branch: None,
                git_commit: None,
            },
            file_path: "b.json".to_string(),
        },
    ];
    let exact = find_backup(&entries, &"release".to_string()).unwrap();
    assert_eq!(exact.file_path, "b.json");
    let partial = find_backup(&entries, &"2024".to_string()).unwrap();
    assert_eq!(partial.file_path, "a.json");
    assert!(find_backup(&entries, &"nothing".to_string()).is_none());
}

#[test]
fn test_format_duration_since() {
    let now: i64 = 1_700_000_000;
    assert_eq!(format_duration_since(now, now - 3 * 86400), "3 day(s) ago");
    assert_eq!(format_duration_since(now, now - 2 * 3600), "2 hour(s) ago");
    assert_eq!(format_duration_since(now, now - 5 * 60), "5 minute(s) ago");
    assert_eq!(format_duration_since(now, now - 10), "Just now");
}

#[test]
fn test_backup_file_name() {
    assert_eq!(backup_file_name("a/b"), "a_b.json");
}

#[test]
fn test_parse_env_vars() {
    let vars = vec![
        "DEBUG=true".to_string(),
        "PORT=3000".to_string(),
        "HOST=localhost".to_string(),
    ];
    let parsed = parse_env_vars(&vars).unwrap();
    assert_eq!(parsed.len(), 3);
    assert_eq!(parsed[0], ("DEBUG".to_string(), "true".to_string()));
    assert_eq!(parsed[1], ("PORT".to_string(), "3000".to_string()));
    assert_eq!(parsed[2], ("HOST".to_string(), "localhost".to_string()));
}

#[test]
fn test_parse_env_vars_invalid() {
    let vars = vec!["INVALID_FORMAT".to_string()];
    assert!(parse_env_vars(&vars).is_err());
}

#[test]
fn test_find_matching_servers() {
    let mut config = Config::empty();
    config.insert_server("test-server-1".to_string(), command_server("cmd1", &[]));
    config.insert_server("test-server-2".to_string(), command_server("cmd2", &[]));
    config.insert_server("prod-server".to_string(), command_server("cmd3", &[]));

    let matches = find_matching_servers(&config, Some(&"test-".to_string())).unwrap();
    assert_eq!(matches.len(), 2);
    assert!(matches.contains(&"test-server-1".to_string()));
    assert!(matches.contains(&"test-server-2".to_string()));

    let matches = find_matching_servers(&config, Some(&"prod-server".to_string())).unwrap();
    assert_eq!(matches.len(), 1);
    assert!(matches.contains(&"prod-server".to_string()));
}

#[test]
fn test_config_serialization() {
    let mut config = Config::empty();
    config.insert_server(
        "test-server".to_string(),
        command_server("node", &["server.js"]),
    );
    let json = config_to_text(&config);
    let parsed = config_from_text(&json).unwrap();
    assert_eq!(config.mcp_servers.len(), parsed.mcp_servers.len());
    assert!(parsed.get_server("test-server").is_some());
}

#[test]
fn test_url_server() {
    let mut config = Config::empty();
    config.insert_server("url-server".to_string(), url_server("https://example.com/mcp"));

    let json = config_to_text(&config);
    let parsed = config_from_text(&json).unwrap();

    assert_eq!(config.mcp_servers.len(), parsed.mcp_servers.len());
    assert!(parsed.get_server("url-server").is_some());

    let server = parsed.get_server("url-server").unwrap();
    assert!(server.is_url_server());
    assert!(!server.is_command_server());
    assert_eq!(server.server_type(), "url");
}

#[test]
fn test_config_operations() {
    let config = Config::empty();
    assert_eq!(config.mcp_servers.len(), 0);
    let json = config_to_text(&config);
    let parsed = config_from_text(&json).unwrap();
    assert_eq!(parsed.mcp_servers.len(), 0);
}

#[test]
fn test_round_trip_preserves_opaque_fields() {
    // P1 as a scenario: unknown fields at both levels survive a save/load.
    let mut server = command_server("node", &["a.js"]);
    server.env = Some(vec![("KEY".to_string(), "value".to_string())]);
    server
        .other
        .push(("customFlag".to_string(), Json::Bool(true)));
    let mut config = Config::empty();
    config.insert_server("s1".to_string(), server);
    config
        .other
        .push(("theme".to_string(), Json::Str(str_to_chars("dark"))));
    config
        .other
        .push(("retries".to_string(), Json::Num(str_to_chars("3"))));

    let text = config_to_text(&config);
    let parsed = config_from_text(&text).unwrap();
    let text2 = config_to_text(&parsed);
    assert_eq!(text, text2);
    assert_eq!(parsed.other.len(), 2);
    assert_eq!(parsed.other[0].0, "theme");
    let s = parsed.get_server("s1").unwrap();
    assert_eq!(s.other.len(), 1);
    assert_eq!(s.other[0].0, "customFlag");
    assert_eq!(
        s.env.as_ref().unwrap()[0],
        ("KEY".to_string(), "value".to_string())
    );
}

#[test]
fn test_validate_profile_name() {
    assert!(validate_profile_name("development").is_ok());
    assert!(validate_profile_name("prod-env").is_ok());
    assert!(validate_profile_name("test_2").is_ok());
    assert!(validate_profile_name("env123").is_ok());

    assert!(validate_profile_name("").is_err());
    assert!(validate_profile_name("name with spaces").is_err());
    assert!(validate_profile_name("name@domain").is_err());
    assert!(validate_profile_name("default").is_err());
    assert!(validate_profile_name("a".repeat(51).as_str()).is_err());
}

#[test]
fn test_default_profile_sync_logic() {
    // The literal name `default` stands for the canonical document, never a
    // registered profile; other names must be registered.
    let mut registry = ProfileConfig::empty();
    registry.create(&"production".to_string(), 1000).unwrap();

    let src = resolve_sync_source(&"default".to_string(), &registry).unwrap();
    assert!(matches!(src, SyncSource::Canonical));

    let src = resolve_sync_source(&"production".to_string(), &registry).unwrap();
    assert!(matches!(src, SyncSource::Profile));

    assert!(resolve_sync_source(&"missing".to_string(), &registry).is_err());
}

#[test]
fn test_platform_detection() {
    let os = get_os_name(OsKind::Linux);
    assert!(!os.is_empty());
    let arch = get_arch_name(ArchKind::X64);
    assert!(!arch.is_empty());
    assert_eq!(get_os_name(OsKind::Windows), "windows");
    assert_eq!(get_os_name(OsKind::MacOs), "macos");
    assert_eq!(get_os_name(OsKind::Unknown), "unknown");
    assert_eq!(get_arch_name(ArchKind::Arm64), "arm64");
}

#[test]
fn test_config_paths() {
    let dir = get_config_dir(OsKind::Linux, "/home/u");
    assert_eq!(dir, "/home/u/.config/mcp-forge");
    let path = get_claude_config_path(OsKind::Linux, "/home/u");
    assert_eq!(path, "/home/u/.config/mcp-forge/desktop_config.json");
    let backups = get_backup_dir(OsKind::MacOs, "/Users/u");
    assert_eq!(backups, "/Users/u/Library/Application Support/mcp-forge/backups");
}

#[test]
fn test_mask_sensitive_env_value() {
    assert_eq!(
        mask_sensitive_env_value("CLIENT_ID", "LgAqzbS6oL-60HwSULGzrA"),
        "LgA****************zrA"
    );
    assert_eq!(
        mask_sensitive_env_value("CLIENT_SECRET", "KJCYTuWHOKRIaE0qx_SfimX1j_PHag"),
        "KJC************************Hag"
    );
    assert_eq!(
        mask_sensitive_env_value("client-id", "abc123def456"),
        "abc******456"
    );
    assert_eq!(
        mask_sensitive_env_value("API.KEY", "secretvalue123"),
        "sec********123"
    );
    assert_eq!(
        mask_sensitive_env_value("DATABASE_HOST", "localhost"),
        "localhost"
    );
    assert_eq!(mask_sensitive_env_value("PORT", "8080"), "8080");
    assert_eq!(mask_sensitive_env_value("SECRET", "abc"), "********");
    assert_eq!(
        mask_sensitive_env_value("REDDIT_API_KEY", "test123456789"),
        "tes*******789"
    );
}

#[test]
fn test_mask_sensitive_url() {
    let masked = mask_sensitive_url("https://api.example.com:8443/v1?api_key=abcdef12345&q=hello#frag");
    assert_eq!(
        masked,
        "https://api.example.com:8443/v1?api_key=abc***345&q=hello#frag"
    );
    // A short secret vanishes entirely; plain text passes through.
    let masked = mask_sensitive_url("https://h/p?token=abc");
    assert_eq!(masked, "https://h/p?token=***");
    assert_eq!(mask_sensitive_url("not a url"), "not a url");
}
