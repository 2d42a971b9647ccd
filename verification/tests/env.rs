use ohaconf::config::TestCase;
use ohaconf::env::{expand, expand_test_case, expansion_context, TestField};
use ohaconf::strmap::StrMap;

fn map(pairs: &[(&str, &str)]) -> StrMap {
    let mut m = StrMap::new();
    for (k, v) in pairs {
        m.insert(k.to_string(), v.to_string());
    }
    m
}

fn make_test(name: &str, url: &str) -> TestCase {
    TestCase {
        name: name.to_string(),
        description: None,
        method: "GET".to_string(),
        url: url.to_string(),
        query_params: StrMap::new(),
        headers: StrMap::new(),
        body: None,
        body_file: None,
        requests: None,
        connections: None,
        duration: None,
        query_per_second: None,
        timeout: None,
        weight: 1_000_000,
        tags: vec![],
        http2: None,
        disable_keepalive: None,
        insecure: None,
    }
}

#[test]
fn expand_from_system_env() {
    let system = map(&[("_TEST_OHA_VAR", "hello")]);
    let result = expand("${_TEST_OHA_VAR}/world", &system, &StrMap::new()).ok().unwrap();
    assert_eq!(result, "hello/world");
}

#[test]
fn expand_from_yaml_env() {
    let env = map(&[("BASE_URL", "http://localhost:8080")]);
    let result = expand("${BASE_URL}/api", &StrMap::new(), &env).ok().unwrap();
    assert_eq!(result, "http://localhost:8080/api");
}

#[test]
fn expand_missing_var_errors() {
    let result = expand("${_MISSING_XYZ_VAR}", &StrMap::new(), &StrMap::new());
    assert!(result.is_err());
}

#[test]
fn expand_reports_the_missing_name() {
    let result = expand("a/$FIRST/${SECOND}", &StrMap::new(), &StrMap::new());
    match result {
        Err(e) => assert_eq!(e.var_name, "FIRST"),
        Ok(_) => panic!("expected an error"),
    }
}

#[test]
fn expand_short_form_and_text_without_dollar() {
    let env = map(&[("HOST", "example.org")]);
    assert_eq!(expand("https://$HOST/x", &StrMap::new(), &env).ok().unwrap(), "https://example.org/x");
    assert_eq!(expand("plain text", &StrMap::new(), &StrMap::new()).ok().unwrap(), "plain text");
}

#[test]
fn process_env_wins_over_env_block() {
    let system = map(&[("TOKEN", "from-shell")]);
    let block = map(&[("TOKEN", "from-yaml"), ("ONLY_YAML", "y")]);
    assert_eq!(expand("${TOKEN}", &system, &block).ok().unwrap(), "from-shell");
    assert_eq!(expand("${ONLY_YAML}", &system, &block).ok().unwrap(), "y");
}

#[test]
fn env_block_values_expand_against_process_env() {
    let system = map(&[("API_TOKEN", "secret")]);
    let block = map(&[("TOKEN", "${API_TOKEN}"), ("BROKEN", "${NOT_SET_ANYWHERE}")]);
    let ctx = expansion_context(&system, &block);
    assert_eq!(ctx.get(&"TOKEN".to_string()).unwrap(), "secret");
    // A value that cannot be expanded is kept as written.
    assert_eq!(ctx.get(&"BROKEN".to_string()).unwrap(), "${NOT_SET_ANYWHERE}");
    assert_eq!(expand("Bearer ${TOKEN}", &system, &block).ok().unwrap(), "Bearer secret");
}

#[test]
fn expand_test_case_expands_fields() {
    let block = map(&[("BASE", "http://h"), ("TOKEN", "t0k")]);
    let mut t = make_test("t", "${BASE}/a");
    t.headers.insert("Authorization".to_string(), "Bearer ${TOKEN}".to_string());
    t.query_params.insert("q".to_string(), "$TOKEN".to_string());
    t.body = Some("{\"k\": \"${TOKEN}\"}".to_string());
    t.body_file = Some("/tmp/${TOKEN}.json".to_string());
    assert!(expand_test_case(&mut t, &StrMap::new(), &block).is_ok());
    assert_eq!(t.url, "http://h/a");
    assert_eq!(t.headers.value_at(0), "Bearer t0k");
    assert_eq!(t.query_params.value_at(0), "t0k");
    assert_eq!(t.body.as_deref(), Some("{\"k\": \"t0k\"}"));
    assert_eq!(t.body_file.as_deref(), Some("/tmp/t0k.json"));
}

#[test]
fn expand_test_case_error_names_field_and_keeps_earlier_fields() {
    let block = map(&[("BASE", "http://h"), ("V", "v")]);
    let mut t = make_test("dash", "${BASE}/a");
    t.headers.insert("A".to_string(), "$V".to_string());
    t.headers.insert("X".to_string(), "${MISSING}".to_string());
    t.headers.insert("Z".to_string(), "$V".to_string());
    t.body = Some("$V".to_string());
    let r = expand_test_case(&mut t, &StrMap::new(), &block);
    match r {
        Err(e) => {
            assert_eq!(e.test_name, "dash");
            assert_eq!(e.field, TestField::Headers);
            assert_eq!(e.var_name, "MISSING");
        }
        Ok(()) => panic!("expected an error"),
    }
    // The url and the header before the failing one were expanded; the rest
    // is as it was.
    assert_eq!(t.url, "http://h/a");
    assert_eq!(t.headers.value_at(0), "v");
    assert_eq!(t.headers.value_at(1), "${MISSING}");
    assert_eq!(t.headers.value_at(2), "$V");
    assert_eq!(t.body.as_deref(), Some("$V"));
}

#[test]
fn expand_test_case_url_error_first() {
    let mut t = make_test("u", "${NOPE}");
    t.body = Some("${ALSO_NOPE}".to_string());
    match expand_test_case(&mut t, &StrMap::new(), &StrMap::new()) {
        Err(e) => {
            assert_eq!(e.field, TestField::Url);
            assert_eq!(e.var_name, "NOPE");
        }
        Ok(()) => panic!("expected an error"),
    }
    assert_eq!(t.url, "${NOPE}");
    assert_eq!(t.body.as_deref(), Some("${ALSO_NOPE}"));
}

#[test]
fn expand_test_case_reports_each_field() {
    let mut t = make_test("q", "http://h");
    t.query_params.insert("a".to_string(), "${NO_Q}".to_string());
    match expand_test_case(&mut t, &StrMap::new(), &StrMap::new()) {
        Err(e) => assert_eq!((e.field, e.var_name.as_str()), (TestField::QueryParams, "NO_Q")),
        Ok(()) => panic!("expected an error"),
    }
    let mut t = make_test("b", "http://h");
    t.body = Some("$NO_B".to_string());
    match expand_test_case(&mut t, &StrMap::new(), &StrMap::new()) {
        Err(e) => assert_eq!((e.field, e.var_name.as_str()), (TestField::Body, "NO_B")),
        Ok(()) => panic!("expected an error"),
    }
    let mut t = make_test("f", "http://h");
    t.body_file = Some("${NO_F}".to_string());
    match expand_test_case(&mut t, &StrMap::new(), &StrMap::new()) {
        Err(e) => assert_eq!((e.field, e.var_name.as_str()), (TestField::BodyFile, "NO_F")),
        Ok(()) => panic!("expected an error"),
    }
}

#[test]
fn expand_test_case_without_variables_changes_nothing() {
    let mut t = make_test("plain", "http://h/a");
    t.headers.insert("Accept".to_string(), "text/plain".to_string());
    assert!(expand_test_case(&mut t, &StrMap::new(), &StrMap::new()).is_ok());
    assert_eq!(t.url, "http://h/a");
    assert_eq!(t.headers.value_at(0), "text/plain");
}
