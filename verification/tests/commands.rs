use ohaconf::config::{default_method, default_requests, default_weight, Config, Defaults, TestCase};
use ohaconf::loader::{resolve_config, validate_unique_names, LoadError};
use ohaconf::oha_command::{build_args, build_args_redacted, format_command, is_sensitive};
use ohaconf::strmap::StrMap;
use ohaconf::text::{clip, is_blank, u64_to_decimal};
use ohaconf::commands::{run_mode, RunMode};
use ohaconf::selector::join_tags;

fn make_test(name: &str, url: &str) -> TestCase {
    TestCase {
        name: name.to_string(),
        description: None,
        method: "GET".to_string(),
        url: url.to_string(),
        query_params: StrMap::new(),
        headers: StrMap::new(),
        body: None,
        body_file: None,
        requests: None,
        connections: None,
        duration: None,
        query_per_second: None,
        timeout: None,
        weight: 1_000_000,
        tags: vec![],
        http2: None,
        disable_keepalive: None,
        insecure: None,
    }
}

fn strs(v: &[&str]) -> Vec<String> {
    v.iter().map(|s| s.to_string()).collect()
}

#[test]
fn decimal_text() {
    assert_eq!(u64_to_decimal(0), "0");
    assert_eq!(u64_to_decimal(200), "200");
    assert_eq!(u64_to_decimal(u64::MAX), u64::MAX.to_string());
}

#[test]
fn defaults_of_fields() {
    assert_eq!(default_requests(), Some(200));
    assert_eq!(default_method(), "GET");
    assert_eq!(default_weight(), 1_000_000);
    let d = Defaults::default();
    assert_eq!(d.requests, None);
    assert!(d.headers.is_empty());
}

#[test]
fn build_args_minimal() {
    let t = make_test("t", "http://h/x");
    assert_eq!(build_args(&t, false), strs(&["http://h/x"]));
    assert_eq!(
        build_args(&t, true),
        strs(&["--no-tui", "--output-format", "json", "http://h/x"])
    );
}

#[test]
fn build_args_full() {
    let mut t = make_test("t", "http://h/x?a=1");
    t.method = "post".to_string();
    t.requests = Some(100);
    t.connections = Some(50);
    t.query_per_second = Some("2.5".to_string());
    t.headers.insert("Accept".to_string(), "application/json".to_string());
    t.body = Some("{}".to_string());
    t.body_file = Some("ignored.json".to_string());
    t.timeout = Some("5s".to_string());
    t.http2 = Some(true);
    t.disable_keepalive = Some(false);
    t.insecure = Some(true);
    t.query_params.insert("b".to_string(), "2".to_string());
    assert_eq!(
        build_args(&t, true),
        strs(&[
            "-n", "100", "-c", "50", "-q", "2.5", "-m", "POST", "-H", "Accept: application/json", "-d", "{}",
            "-t", "5s", "--http2", "--insecure", "--no-tui", "--output-format", "json", "http://h/x?a=1&b=2",
        ])
    );
}

#[test]
fn build_args_duration_wins_and_body_file() {
    let mut t = make_test("t", "http://h");
    t.duration = Some("30s".to_string());
    t.requests = Some(100);
    t.body_file = Some("body.json".to_string());
    assert_eq!(build_args(&t, false), strs(&["-z", "30s", "-D", "body.json", "http://h"]));
}

#[test]
fn effective_url_separators() {
    let mut t = make_test("t", "http://h/p");
    assert_eq!(t.effective_url(), "http://h/p");
    t.query_params.insert("startDate".to_string(), "2025-01-01".to_string());
    t.query_params.insert("endDate".to_string(), "2025-01-31".to_string());
    assert_eq!(t.effective_url(), "http://h/p?startDate=2025-01-01&endDate=2025-01-31");
    t.url = "http://h/p?x=1".to_string();
    assert_eq!(t.effective_url(), "http://h/p?x=1&startDate=2025-01-01&endDate=2025-01-31");
}

#[test]
fn redaction_hides_sensitive_headers() {
    let mut t = make_test("t", "http://h");
    t.headers.insert("Authorization".to_string(), "Bearer abc".to_string());
    t.headers.insert("X-Api-Key".to_string(), "k".to_string());
    t.headers.insert("Accept".to_string(), "text/plain".to_string());
    assert_eq!(
        build_args_redacted(&t, false),
        strs(&["-H", "Authorization: [REDACTED]", "-H", "X-Api-Key: [REDACTED]", "-H", "Accept: text/plain", "http://h"])
    );
    assert_eq!(
        build_args(&t, false),
        strs(&["-H", "Authorization: Bearer abc", "-H", "X-Api-Key: k", "-H", "Accept: text/plain", "http://h"])
    );
    assert!(is_sensitive("X-AUTH-TOKEN"));
    assert!(is_sensitive("my-token-header"));
    assert!(!is_sensitive("Content-Type"));
}

#[test]
fn redaction_same_output_whatever_the_secret() {
    let mut a = make_test("t", "http://h");
    a.headers.insert("Authorization".to_string(), "Bearer one".to_string());
    a.headers.insert("Accept".to_string(), "text/plain".to_string());
    let mut b = make_test("t", "http://h");
    b.headers.insert("Authorization".to_string(), "Bearer two".to_string());
    b.headers.insert("Accept".to_string(), "text/plain".to_string());
    assert_eq!(build_args_redacted(&a, true), build_args_redacted(&b, true));
    assert_ne!(build_args(&a, true), build_args(&b, true));
}

#[test]
fn resolve_config_reports_empty_name() {
    let config = Config {
        env: StrMap::new(),
        defaults: Defaults::default(),
        tests: vec![make_test("ok", "u"), make_test("  ", "u"), make_test("ok", "u")],
    };
    match resolve_config(config, &StrMap::new()) {
        Err(LoadError::EmptyName) => {}
        _ => panic!("expected an empty name"),
    }
}

#[test]
fn format_command_quotes_and_joins() {
    let args = strs(&["-n", "100", "-H", "Authorization: Bearer \"x\"", "it's", "http://h"]);
    assert_eq!(
        format_command(&args),
        "oha -n \\\n    100 \\\n    -H \\\n    \"Authorization: Bearer \\\"x\\\"\" \\\n    \"it's\" \\\n    http://h"
    );
    assert_eq!(format_command(&[]), "oha ");
}

#[test]
fn with_defaults_twice_and_empty_defaults() {
    let mut d = Defaults::default();
    d.requests = Some(200);
    d.timeout = Some("5s".to_string());
    d.headers.insert("Accept".to_string(), "application/json".to_string());
    let mut t = make_test("t", "http://h");
    t.headers.insert("Accept".to_string(), "text/plain".to_string());
    t.headers.insert("X".to_string(), "1".to_string());
    let once = t.with_defaults(&d);
    let twice = once.with_defaults(&d);
    assert_eq!(build_args(&once, true), build_args(&twice, true));
    assert_eq!(twice.headers.len(), 2);
    let same = t.with_defaults(&Defaults::default());
    assert_eq!(build_args(&same, false), build_args(&t, false));
    assert_eq!(same.headers.key_at(0), "Accept");
    assert_eq!(same.headers.value_at(0), "text/plain");
}

#[test]
fn with_defaults_precedence() {
    let mut d = Defaults::default();
    d.requests = Some(200);
    d.connections = Some(50);
    d.timeout = Some("5s".to_string());
    d.headers.insert("Accept".to_string(), "application/json".to_string());
    d.headers.insert("Authorization".to_string(), "Bearer d".to_string());
    let mut t = make_test("t", "http://h");
    t.connections = Some(10);
    t.headers.insert("Authorization".to_string(), "Bearer t".to_string());
    t.headers.insert("X-Extra".to_string(), "1".to_string());
    let m = t.with_defaults(&d);
    assert_eq!(m.requests, Some(200));
    assert_eq!(m.connections, Some(10));
    assert_eq!(m.timeout.as_deref(), Some("5s"));
    assert_eq!(m.headers.len(), 3);
    assert_eq!(m.headers.get(&"Accept".to_string()).unwrap(), "application/json");
    assert_eq!(m.headers.get(&"Authorization".to_string()).unwrap(), "Bearer t");
    assert_eq!(m.headers.get(&"X-Extra".to_string()).unwrap(), "1");
}

#[test]
fn with_defaults_duration_blocks_default_requests() {
    let mut d = Defaults::default();
    d.requests = Some(200);
    let mut t = make_test("t", "http://h");
    t.duration = Some("1m".to_string());
    let m = t.with_defaults(&d);
    assert_eq!(m.requests, None);
    assert_eq!(m.duration.as_deref(), Some("1m"));
}

#[test]
fn validate_names() {
    assert!(validate_unique_names(&[make_test("a", "u"), make_test("b", "u")]).is_ok());
    match validate_unique_names(&[make_test("a", "u"), make_test(" \t", "u")]) {
        Err(LoadError::EmptyName) => {}
        _ => panic!("expected EmptyName"),
    }
    match validate_unique_names(&[make_test("a", "u"), make_test("b", "u"), make_test("a", "u")]) {
        Err(LoadError::DuplicateName(n)) => assert_eq!(n, "a"),
        _ => panic!("expected DuplicateName"),
    }
}

#[test]
fn resolve_config_applies_defaults_then_expands() {
    let mut env = StrMap::new();
    env.insert("BASE_URL".to_string(), "http://localhost:8080".to_string());
    env.insert("TOKEN".to_string(), "${API_TOKEN}".to_string());
    let mut defaults = Defaults::default();
    defaults.requests = Some(200);
    defaults.headers.insert("Authorization".to_string(), "Bearer ${TOKEN}".to_string());
    let tests = vec![make_test("health", "${BASE_URL}/health")];
    let config = Config { env, defaults, tests };
    let mut system = StrMap::new();
    system.insert("API_TOKEN".to_string(), "jwt".to_string());
    let c = match resolve_config(config, &system) {
        Ok(c) => c,
        Err(_) => panic!("expected a configuration"),
    };
    assert_eq!(c.tests[0].url, "http://localhost:8080/health");
    assert_eq!(c.tests[0].requests, Some(200));
    assert_eq!(c.tests[0].headers.get(&"Authorization".to_string()).unwrap(), "Bearer jwt");
    assert_eq!(c.env.len(), 2);
}

#[test]
fn resolve_config_reports_errors() {
    let config = Config {
        env: StrMap::new(),
        defaults: Defaults::default(),
        tests: vec![make_test("a", "${NOPE}")],
    };
    match resolve_config(config, &StrMap::new()) {
        Err(LoadError::Expand(e)) => {
            assert_eq!(e.test_name, "a");
            assert_eq!(e.var_name, "NOPE");
        }
        _ => panic!("expected an expansion error"),
    }
    let config = Config {
        env: StrMap::new(),
        defaults: Defaults::default(),
        tests: vec![make_test("a", "${NOPE}"), make_test("a", "u")],
    };
    match resolve_config(config, &StrMap::new()) {
        Err(LoadError::DuplicateName(n)) => assert_eq!(n, "a"),
        _ => panic!("expected a duplicate name"),
    }
}

#[test]
fn blank_agrees_with_char_is_whitespace() {
    for u in 0u32..=0x10FFFF {
        if let Some(c) = char::from_u32(u) {
            assert_eq!(is_blank(&c.to_string()), c.is_whitespace(), "U+{:04X}", u);
        }
    }
    assert!(is_blank(""));
    assert!(is_blank(" \t\u{3000}\u{a0}"));
    assert!(!is_blank(" a "));
}

#[test]
fn run_mode_captures_unless_live_display_asked() {
    assert_eq!(run_mode(false, false), RunMode::Capture);
    assert_eq!(run_mode(false, true), RunMode::LiveDisplay);
    assert_eq!(run_mode(true, true), RunMode::DryRun);
    assert_eq!(run_mode(true, false), RunMode::DryRun);
}

#[test]
fn clip_cuts_long_text() {
    assert_eq!(clip("short", 28), "short");
    assert_eq!(clip("abcdef", 6), "abcd\u{2026}");
    assert_eq!(clip("abcde", 6), "abcde");
    assert_eq!(clip("ab", 2), "\u{2026}");
    assert_eq!(clip("ñandú-ñandú", 6), "ñand\u{2026}");
    assert_eq!(clip("", 2), "");
}

#[test]
fn join_tags_with_commas() {
    assert_eq!(join_tags(&vec![]), "");
    assert_eq!(join_tags(&vec!["read".to_string()]), "read");
    assert_eq!(join_tags(&vec!["read".to_string(), "slow".to_string()]), "read, slow");
}
