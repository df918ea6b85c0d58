use live_files::config::Config;
use live_files::config_file::{default_events_path, default_true, ConfigFile, RootEntry, SupervisorConfig};
use live_files::server::{
    forwarding_target,
    asset_content_type, asset_path, build_config, error_message, event_id, not_modified, parse_root_arg,
    status_code, supervisor_url, Cli, ConfigError,
};
use live_files::time_fmt::{serialize_opt, TimeFormatError};
use live_files::Error;

fn cli(roots: &[&str]) -> Cli {
    Cli {
        config: "config.toml".into(),
        roots: roots.iter().map(|s| s.to_string()).collect(),
        include_ext: None,
        port: None,
        poll_interval_ms: None,
    }
}

#[test]
fn cli_roots_are_trimmed_and_read_only() {
    let (config, port) = build_config(cli(&[" workspace = /data/ws ", "skills=/data/skills"]), ConfigFile::default()).unwrap();
    assert_eq!(port, 8080);
    assert_eq!(config.roots.len(), 2);
    assert_eq!(config.roots[0].name, "workspace");
    assert_eq!(config.roots[0].path, "/data/ws");
    assert!(config.roots[0].read_only);
    assert!(config.roots[1].expose.is_empty());
    assert_eq!(config.include_extensions, vec!["md".to_string()]);
    assert_eq!(config.poll_interval_ms, Some(3000));
    assert_eq!(config.debounce_ms, 300);
    assert_eq!(config.max_file_bytes, 10 * 1024 * 1024);
    assert_eq!(config.ignore_globs, Config::default().ignore_globs);
}

#[test]
fn bad_root_argument_is_reported() {
    match build_config(cli(&["a=/x", "oops"]), ConfigFile::default()) {
        Err(ConfigError::InvalidRoot(s)) => assert_eq!(s, "oops"),
        other => panic!("unexpected {:?}", other.err()),
    }
    assert!(matches!(parse_root_arg("x=y=z"), Ok(r) if r.name == "x" && r.path == "y=z"));
}

#[test]
fn no_roots_is_an_error() {
    assert!(matches!(build_config(cli(&[]), ConfigFile::default()), Err(ConfigError::NoRoots)));
}

#[test]
fn file_settings_apply_when_the_command_line_is_silent() {
    let file = ConfigFile {
        port: Some(9000),
        include_ext: Some(vec!["md".into(), "json".into()]),
        include_globs: Some(vec!["docs/**".into()]),
        ignore_globs: Some(vec![]),
        poll_interval_ms: Some(0),
        debounce_ms: Some(50),
        max_file_bytes: Some(99),
        roots: vec![RootEntry { name: "r".into(), path: "/r".into(), read_only: false, expose: vec!["a.md".into()] }],
        supervisor: None,
    };
    let (config, port) = build_config(cli(&[]), file).unwrap();
    assert_eq!(port, 9000);
    assert_eq!(config.roots[0].name, "r");
    assert!(!config.roots[0].read_only);
    assert_eq!(config.roots[0].expose, vec!["a.md".to_string()]);
    assert_eq!(config.include_extensions, vec!["md".to_string(), "json".to_string()]);
    assert_eq!(config.include_globs, vec!["docs/**".to_string()]);
    assert!(config.ignore_globs.is_empty());
    assert_eq!(config.poll_interval_ms, None);
    assert_eq!(config.debounce_ms, 50);
    assert_eq!(config.max_file_bytes, 99);
}

#[test]
fn command_line_overrides_the_file() {
    let file = ConfigFile {
        port: Some(9000),
        include_ext: Some(vec!["txt".into()]),
        poll_interval_ms: Some(10),
        roots: vec![RootEntry { name: "file".into(), path: "/f".into(), read_only: true, expose: vec![] }],
        ..ConfigFile::default()
    };
    let mut c = cli(&["cli=/c"]);
    c.port = Some(1234);
    c.include_ext = Some(" md, json ,,".into());
    c.poll_interval_ms = Some(500);
    let (config, port) = build_config(c, file).unwrap();
    assert_eq!(port, 1234);
    assert_eq!(config.roots.len(), 1);
    assert_eq!(config.roots[0].name, "cli");
    assert_eq!(config.include_extensions, vec!["md".to_string(), "json".to_string()]);
    assert_eq!(config.poll_interval_ms, Some(500));
}

#[test]
fn config_file_defaults() {
    assert_eq!(default_events_path(), "/api/v1/finder/events");
    assert!(default_true());
    let f = ConfigFile::default();
    assert!(f.roots.is_empty() && f.port.is_none() && f.supervisor.is_none());
}

#[test]
fn status_codes() {
    assert_eq!(status_code(&Error::RootNotFound("x".into())), 404);
    assert_eq!(status_code(&Error::NotFound("x".into())), 404);
    assert_eq!(status_code(&Error::PathTraversal("x".into())), 403);
    assert_eq!(status_code(&Error::NotVisible("x".into())), 403);
    assert_eq!(status_code(&Error::TooLarge { size: 2, limit: 1 }), 413);
    assert_eq!(status_code(&Error::NotAFile("x".into())), 415);
    assert_eq!(status_code(&Error::InvalidGlob("x".into())), 500);
    assert_eq!(status_code(&Error::Io("x".into())), 500);
}

#[test]
fn error_messages() {
    assert_eq!(error_message(&Error::RootNotFound("ws".into())), "root not found: ws");
    assert_eq!(error_message(&Error::TooLarge { size: 100, limit: 10 }), "file too large: 100 bytes (limit 10)");
    assert_eq!(error_message(&Error::Io("boom".into())), "boom");
    assert_eq!(error_message(&Error::NotVisible("ws/secret.txt".into())), "not visible: ws/secret.txt");
    assert_eq!(error_message(&Error::Watch("w".into())), "watch error: w");
}

#[test]
fn conditional_requests() {
    assert!(not_modified(Some("\"1\""), Some("\"1\"")));
    assert!(!not_modified(Some("\"1\""), Some("\"2\"")));
    assert!(!not_modified(None, Some("\"1\"")));
    assert!(!not_modified(Some("\"1\""), None));
}

#[test]
fn supervisor_address() {
    let cfg = SupervisorConfig {
        base_url: "https://s.example.com//".into(),
        events_path: default_events_path(),
        access_token: "t".into(),
        enabled: true,
    };
    assert_eq!(supervisor_url(&cfg), "https://s.example.com/api/v1/finder/events");
}

#[test]
fn asset_paths_and_types() {
    assert_eq!(asset_path("/"), "index.html");
    assert_eq!(asset_path(""), "index.html");
    assert_eq!(asset_path("//app.js"), "app.js");
    assert_eq!(asset_content_type("index.html"), "text/html");
    assert_eq!(asset_content_type("x.unknownext"), "application/octet-stream");
}

#[test]
fn event_ids() {
    assert_eq!(event_id(Some(1716800000123)), "1716800000123");
    assert_eq!(event_id(None), "");
}

#[test]
fn times_are_rfc3339() {
    assert_eq!(serialize_opt(None), Ok(None));
    assert_eq!(serialize_opt(Some(0)), Ok(Some("1970-01-01T00:00:00Z".to_string())));
    assert_eq!(
        serialize_opt(Some(1_780_050_030_000_000_000)),
        Ok(Some("2026-05-29T10:20:30Z".to_string()))
    );
    assert_eq!(serialize_opt(Some(-62_167_219_200_000_000_001)), Err(TimeFormatError::YearOutOfRange));
}

#[test]
fn forwarding_only_when_enabled() {
    let s = SupervisorConfig {
        base_url: "https://s.example.com".into(),
        events_path: "/api/v1/finder/events".into(),
        access_token: "t".into(),
        enabled: true,
    };
    let off = SupervisorConfig {
        base_url: "https://s.example.com".into(),
        events_path: "/api/v1/finder/events".into(),
        access_token: "t".into(),
        enabled: false,
    };
    assert_eq!(forwarding_target(Some(s)).map(|c| c.base_url), Some("https://s.example.com".to_string()));
    assert!(forwarding_target(Some(off)).is_none());
    assert!(forwarding_target(None).is_none());
}
