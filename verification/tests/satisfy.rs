use http_cache_semantics::CacheOptions;
use http_cache_semantics::CachePolicy;
use http_cache_semantics::Headers;
use http_cache_semantics::Request;
use http_cache_semantics::Response;
use time::format_description::well_known::Rfc2822;
use time::OffsetDateTime;

const NOW: u64 = 1_700_000_000;

fn hdrs(pairs: &[(&str, &str)]) -> Headers {
    let mut h = Headers::new();
    for (k, v) in pairs {
        h.add(k, v);
    }
    h
}

fn req(pairs: &[(&str, &str)]) -> Request {
    Request::new("GET", "/", hdrs(pairs))
}

fn req_method(method: &str, pairs: &[(&str, &str)]) -> Request {
    Request::new(method, "/", hdrs(pairs))
}

fn res(status: u16, pairs: &[(&str, &str)]) -> Response {
    Response::new(status, hdrs(pairs))
}

fn date_str(ts: i64) -> String {
    OffsetDateTime::from_unix_timestamp(ts)
        .unwrap()
        .format(&Rfc2822)
        .unwrap()
}

fn policy_for(rq: &Request, rs: &Response) -> CachePolicy {
    CachePolicy::new_options(rq, rs, NOW, CacheOptions::default())
}

#[test]
fn satisfy_test_when_urls_match() {
    let response = res(200, &[("cache-control", "max-age=2")]);
    let policy = policy_for(&req(&[]), &response);
    assert!(policy
        .before_request(&req(&[]), NOW)
        .satisfies_without_revalidation());
}

#[test]
fn test_when_expires_is_present() {
    let two_seconds_later = date_str(NOW as i64 + 2);
    let response = res(302, &[("expires", &two_seconds_later)]);
    let policy = policy_for(&req(&[]), &response);
    assert!(policy
        .before_request(&req(&[]), NOW)
        .satisfies_without_revalidation());
}

#[test]
fn satisfy_test_when_methods_match() {
    let response = res(200, &[("cache-control", "max-age=2")]);
    let policy = policy_for(&req_method("GET", &[]), &response);
    assert!(policy
        .before_request(&req_method("GET", &[]), NOW)
        .satisfies_without_revalidation());
}

#[test]
fn satisfy_must_revalidate_allows_not_revalidating_fresh() {
    let response = res(200, &[("cache-control", "max-age=200, must-revalidate")]);
    let policy = policy_for(&req_method("GET", &[]), &response);
    assert!(policy
        .before_request(&req_method("GET", &[]), NOW)
        .satisfies_without_revalidation());
    let later = NOW + 300;
    assert!(!policy
        .before_request(&req_method("GET", &[]), later)
        .satisfies_without_revalidation());
}

#[test]
fn satisfy_must_revalidate_disallows_stale() {
    let response = res(200, &[("cache-control", "max-age=200, must-revalidate")]);
    let policy = policy_for(&req_method("GET", &[]), &response);
    let later = NOW + 300;
    assert!(!policy
        .before_request(&req_method("GET", &[]), later)
        .satisfies_without_revalidation());
    assert!(!policy
        .before_request(&req_method("GET", &[("cache-control", "max-stale")]), later)
        .satisfies_without_revalidation());
}

#[test]
fn satisfy_test_not_when_hosts_mismatch() {
    let response = res(200, &[("cache-control", "max-age=2")]);
    let policy = policy_for(&req(&[("host", "foo")]), &response);
    assert!(policy
        .before_request(&req(&[("host", "foo")]), NOW)
        .satisfies_without_revalidation());
    assert!(!policy
        .before_request(&req(&[("host", "foofoo")]), NOW)
        .satisfies_without_revalidation());
}

#[test]
fn satisfy_test_when_methods_match_head() {
    let response = res(200, &[("cache-control", "max-age=2")]);
    let policy = policy_for(&req_method("HEAD", &[]), &response);
    assert!(policy
        .before_request(&req_method("HEAD", &[]), NOW)
        .satisfies_without_revalidation());
}

#[test]
fn satisfy_test_not_when_proxy_revalidating() {
    let response = res(200, &[("cache-control", "max-age=2, proxy-revalidate ")]);
    let policy = policy_for(&req(&[]), &response);
    assert!(!policy
        .before_request(&req(&[]), NOW)
        .satisfies_without_revalidation());
}

#[test]
fn satisfy_test_when_not_a_proxy_revalidating() {
    let response = res(200, &[("cache-control", "max-age=2, proxy-revalidate ")]);
    let policy = CachePolicy::new_options(
        &req(&[]),
        &response,
        NOW,
        CacheOptions {
            shared: false,
            ..Default::default()
        },
    );
    assert!(policy
        .before_request(&req(&[]), NOW)
        .satisfies_without_revalidation());
}

#[test]
fn satisfy_test_not_when_no_cache_requesting() {
    let response = res(200, &[("cache-control", "max-age=2")]);
    let policy = policy_for(&req(&[]), &response);
    assert!(policy
        .before_request(&req(&[("cache-control", "fine")]), NOW)
        .satisfies_without_revalidation());
    assert!(!policy
        .before_request(&req(&[("cache-control", "no-cache")]), NOW)
        .satisfies_without_revalidation());
    assert!(!policy
        .before_request(&req(&[("pragma", "no-cache")]), NOW)
        .satisfies_without_revalidation());
}
