use ohaconf::commands::{choose_test, tests_for_run_all, weighted_plan, CommandError, RunChoice};
use ohaconf::config::TestCase;
use ohaconf::report::{count_requests, report_format, ReportFormat};
use ohaconf::selector::{filter_by_tag, find_by_name, multi_select_labels, select_labels, SelectError};
use ohaconf::strmap::StrMap;

fn make_test(name: &str, tags: &[&str]) -> TestCase {
    TestCase {
        name: name.to_string(),
        description: None,
        method: "GET".to_string(),
        url: format!("http://h/{}", name),
        query_params: StrMap::new(),
        headers: StrMap::new(),
        body: None,
        body_file: None,
        requests: None,
        connections: None,
        duration: None,
        query_per_second: None,
        timeout: None,
        weight: 1_000_000,
        tags: tags.iter().map(|s| s.to_string()).collect(),
        http2: None,
        disable_keepalive: None,
        insecure: None,
    }
}

fn sample() -> Vec<TestCase> {
    vec![make_test("health", &["health"]), make_test("dashboard", &["dashboard", "read"]), make_test("list", &["read"])]
}

#[test]
fn find_and_filter() {
    let tests = sample();
    assert_eq!(find_by_name(&tests, "dashboard").ok().unwrap().url, "http://h/dashboard");
    match find_by_name(&tests, "nope") {
        Err(SelectError::NotFound(n)) => assert_eq!(n, "nope"),
        _ => panic!("expected NotFound"),
    }
    let read: Vec<&str> = filter_by_tag(&tests, "read").iter().map(|t| t.name.as_str()).collect();
    assert_eq!(read, vec!["dashboard", "list"]);
    assert!(filter_by_tag(&tests, "write").is_empty());
}

#[test]
fn menu_labels() {
    let mut tests = sample();
    tests[1].description = Some("Monthly".to_string());
    tests[0].description = Some(String::new());
    let labels = select_labels(&tests).ok().unwrap();
    assert_eq!(labels[0], format!("{:<30} GET http://h/health [health]", "health"));
    assert_eq!(labels[1], format!("{:<30} GET http://h/dashboard  — Monthly [dashboard, read]", "dashboard"));
    let multi = multi_select_labels(&tests).ok().unwrap();
    assert_eq!(multi[2], "list (GET) [read]");
    let mut untagged = make_test("x", &[]);
    untagged.name = "a-very-long-name-that-exceeds-thirty-chars".to_string();
    let l = select_labels(&[untagged]).ok().unwrap();
    assert_eq!(l[0], "a-very-long-name-that-exceeds-thirty-chars GET http://h/x");
    assert!(matches!(select_labels(&[]), Err(SelectError::NoTests)));
    assert!(matches!(multi_select_labels(&[]), Err(SelectError::NoTests)));
}

#[test]
fn choosing_a_test() {
    let tests = sample();
    match choose_test(&tests, Some("list"), Some("read")) {
        Ok(RunChoice::Chosen(t)) => assert_eq!(t.name, "list"),
        _ => panic!("expected a chosen test"),
    }
    match choose_test(&tests, None, Some("health")) {
        Ok(RunChoice::Chosen(t)) => assert_eq!(t.name, "health"),
        _ => panic!("expected a chosen test"),
    }
    match choose_test(&tests, None, Some("read")) {
        Ok(RunChoice::Ask(v)) => assert_eq!(v.len(), 2),
        _ => panic!("expected a menu"),
    }
    match choose_test(&tests, None, None) {
        Ok(RunChoice::Ask(v)) => assert_eq!(v.len(), 3),
        _ => panic!("expected a menu"),
    }
    match choose_test(&tests, None, Some("write")) {
        Err(CommandError::NoTestsWithTag(t)) => assert_eq!(t, "write"),
        _ => panic!("expected an error"),
    }
    assert!(matches!(choose_test(&tests, Some("zzz"), None), Err(CommandError::Select(SelectError::NotFound(_)))));
}

#[test]
fn run_all_selection() {
    let tests = sample();
    assert_eq!(tests_for_run_all(&tests, None).ok().unwrap().len(), 3);
    assert_eq!(tests_for_run_all(&tests, Some("read")).ok().unwrap().len(), 2);
    assert!(matches!(tests_for_run_all(&tests, Some("write")), Err(CommandError::NoTestsToRun)));
}

#[test]
fn weighted_plans() {
    let tests = sample();
    let plan = weighted_plan(&tests, Some(300), None).ok().unwrap();
    let counts: Vec<Option<u64>> = plan.iter().map(|t| t.requests).collect();
    assert_eq!(counts, vec![Some(100), Some(100), Some(100)]);
    let plan = weighted_plan(&tests, None, Some("60s".to_string())).ok().unwrap();
    assert!(plan.iter().all(|t| t.duration.as_deref() == Some("60s") && t.requests.is_none()));
    assert!(matches!(weighted_plan(&tests, None, None), Err(CommandError::MissingAmount)));
    assert!(matches!(weighted_plan(&[], Some(10), None), Err(CommandError::NoTestsDefined)));
}

#[test]
fn report_formats() {
    assert_eq!(report_format("table"), Some(ReportFormat::Table));
    assert_eq!(report_format("text"), Some(ReportFormat::Table));
    assert_eq!(report_format("json"), Some(ReportFormat::Json));
    assert_eq!(report_format("csv"), Some(ReportFormat::Csv));
    assert_eq!(report_format("xml"), None);
}

#[test]
fn request_counts() {
    let codes = Some(vec![
        ("200".to_string(), Some(90u64)),
        ("204".to_string(), Some(5u64)),
        ("500".to_string(), Some(3u64)),
        ("404".to_string(), Some(2u64)),
        ("bogus".to_string(), None),
    ]);
    let c = count_requests(&codes);
    assert_eq!(c.total_requests, 100);
    assert_eq!(c.total_errors, 5);
    let none = count_requests(&None);
    assert_eq!(none.total_requests, 0);
    assert_eq!(none.total_errors, 0);
}
