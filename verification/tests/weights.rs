use ohaconf::config::TestCase;
use ohaconf::strmap::StrMap;
use ohaconf::weights::{apply_weights, distribute_requests};

/// `weight` as configured (e.g. `70.0`), stored in millionths.
fn make_test(name: &str, weight: f64) -> TestCase {
    TestCase {
        name: name.to_string(),
        description: None,
        method: "GET".to_string(),
        url: "http://localhost".to_string(),
        query_params: StrMap::new(),
        headers: StrMap::new(),
        body: None,
        body_file: None,
        requests: None,
        connections: None,
        duration: None,
        query_per_second: None,
        timeout: None,
        weight: (weight * 1_000_000.0).round() as i64,
        tags: vec![],
        http2: None,
        disable_keepalive: None,
        insecure: None,
    }
}

#[test]
fn distribution_sums_to_total() {
    let tests = vec![make_test("a", 70.0), make_test("b", 30.0)];
    let dist = distribute_requests(&tests, 1000);
    let total: u64 = dist.iter().map(|(_, n)| n).sum();
    assert_eq!(total, 1000);
}

#[test]
fn distribution_proportional() {
    let tests = vec![make_test("a", 1.0), make_test("b", 1.0)];
    let dist = distribute_requests(&tests, 100);
    assert_eq!(dist[0].1, 50);
    assert_eq!(dist[1].1, 50);
}

#[test]
fn distribution_exact_values_and_order() {
    let tests = vec![make_test("a", 70.0), make_test("b", 30.0)];
    assert_eq!(distribute_requests(&tests, 1000), vec![(0, 700), (1, 300)]);
}

#[test]
fn distribution_rounds_half_up_and_last_absorbs_difference() {
    // Shares of 10 over three equal weights round to 3, 3, 3; the last gets 4.
    let tests = vec![make_test("a", 1.0), make_test("b", 1.0), make_test("c", 1.0)];
    assert_eq!(distribute_requests(&tests, 10), vec![(0, 3), (1, 3), (2, 4)]);
    // 2.5 rounds to 3 (halves away from zero); the last then gives one back.
    let tests = vec![make_test("a", 1.0), make_test("b", 1.0)];
    assert_eq!(distribute_requests(&tests, 5), vec![(0, 3), (1, 2)]);
}

#[test]
fn distribution_zero_weight_gives_nothing() {
    let tests = vec![make_test("a", 0.0), make_test("b", 0.0)];
    assert!(distribute_requests(&tests, 100).is_empty());
    assert!(distribute_requests(&[], 100).is_empty());
}

#[test]
fn distribution_gives_everyone_at_least_one() {
    let tests = vec![make_test("a", 1.0), make_test("b", 1.0), make_test("c", 1.0)];
    // Fewer requests than tests: each test still gets one.
    assert_eq!(distribute_requests(&tests, 1), vec![(0, 1), (1, 1), (2, 1)]);
    // 10 and 1 make 11: the request too many comes back from the first test,
    // since the last one has only its one.
    let tests = vec![make_test("a", 1000.0), make_test("b", 1.0)];
    assert_eq!(distribute_requests(&tests, 10), vec![(0, 9), (1, 1)]);
    let tests = vec![make_test("a", 1000.0), make_test("b", 0.0)];
    assert_eq!(distribute_requests(&tests, 10), vec![(0, 9), (1, 1)]);
}

#[test]
fn distribution_excess_taken_from_the_back() {
    // Shares 6, 1, 1, 1 make 9 of 6: the last three cannot give, the first gives 3.
    let tests = vec![make_test("a", 97.0), make_test("b", 1.0), make_test("c", 1.0), make_test("d", 1.0)];
    let dist = distribute_requests(&tests, 6);
    assert_eq!(dist, vec![(0, 3), (1, 1), (2, 1), (3, 1)]);
    let total: u64 = dist.iter().map(|(_, n)| n).sum();
    assert_eq!(total, 6);
}

#[test]
fn distribution_largest_total() {
    let tests = vec![make_test("a", 1.0)];
    assert_eq!(distribute_requests(&tests, u64::MAX), vec![(0, u64::MAX)]);
    // Each half rounds up to 2^63; the last gives one back.
    let tests = vec![make_test("a", 1.0), make_test("b", 1.0)];
    assert_eq!(distribute_requests(&tests, u64::MAX), vec![(0, 1u64 << 63), (1, (1u64 << 63) - 1)]);
}

#[test]
fn distribution_negative_weight_gets_one() {
    let tests = vec![make_test("a", 2.0), make_test("b", -1.0)];
    // Shares 200 and 1 make 201 of 100: the first gives back 101.
    assert_eq!(distribute_requests(&tests, 100), vec![(0, 99), (1, 1)]);
}

#[test]
fn apply_weights_sets_requests_and_clears_duration() {
    let mut a = make_test("a", 3.0);
    a.duration = Some("10s".to_string());
    a.requests = Some(5);
    let b = make_test("b", 1.0);
    let out = apply_weights(&[a, b], 400);
    assert_eq!(out.len(), 2);
    assert_eq!(out[0].name, "a");
    assert_eq!(out[0].requests, Some(300));
    assert_eq!(out[0].duration, None);
    assert_eq!(out[1].requests, Some(100));
}
