use http_cache_semantics::BeforeRequest;
use http_cache_semantics::CacheOptions;
use http_cache_semantics::CachePolicy;
use http_cache_semantics::Headers;
use http_cache_semantics::Request;
use http_cache_semantics::Response;

const NOW: u64 = 1_700_000_000;
const DAY: u64 = 3600 * 24;

fn hdrs(pairs: &[(&str, &str)]) -> Headers {
    let mut h = Headers::new();
    for (k, v) in pairs {
        h.add(k, v);
    }
    h
}

fn simple_request() -> Request {
    simple_request_with("GET", &[])
}

fn simple_request_with(method: &str, extra: &[(&str, &str)]) -> Request {
    let mut h = Headers::new();
    h.add("host", "www.w3c.org");
    h.add("connection", "close");
    h.add("x-custom", "yes");
    for (k, v) in extra {
        h.add(k, v);
    }
    Request::new(method, "/Protocols/rfc2616/rfc2616-sec14.html", h)
}

fn etag_value() -> &'static str {
    "\"123456789\""
}

fn cacheable_header() -> (&'static str, &'static str) {
    ("cache-control", "max-age=111")
}

fn very_old_date() -> &'static str {
    "Tue, 15 Nov 1994 12:45:26 GMT"
}

fn policy_for(rq: &Request, rs: &Response) -> CachePolicy {
    CachePolicy::new_options(rq, rs, NOW, CacheOptions::default())
}

fn simple_request_with_etagged_response() -> CachePolicy {
    policy_for(
        &simple_request(),
        &Response::new(200, hdrs(&[cacheable_header(), ("etag", etag_value())])),
    )
}

fn simple_request_with_cacheable_response() -> CachePolicy {
    policy_for(&simple_request(), &Response::new(200, hdrs(&[cacheable_header()])))
}

fn simple_request_with_always_variable_response() -> CachePolicy {
    policy_for(
        &simple_request(),
        &Response::new(200, hdrs(&[cacheable_header(), ("vary", "*")])),
    )
}

fn get(h: &Headers, name: &str) -> Option<String> {
    h.get_value(name).map(|v| String::from_utf8(v).unwrap())
}

fn assert_no_connection(headers: &Headers) {
    assert!(get(headers, "connection").is_none());
}

fn assert_custom_header(headers: &Headers) {
    assert_eq!(get(headers, "x-custom").as_deref(), Some("yes"));
}

fn assert_no_validators(headers: &Headers) {
    assert!(get(headers, "if-none-match").is_none());
    assert!(get(headers, "if-modified-since").is_none());
}

fn get_cached_response(policy: &CachePolicy, rq: &Request, now: u64) -> Response {
    match policy.before_request(rq, now) {
        BeforeRequest::Fresh(r) => r,
        _ => panic!("stale"),
    }
}

fn get_revalidation_request(policy: &CachePolicy, rq: &Request, now: u64) -> Request {
    match policy.before_request(rq, now) {
        BeforeRequest::Stale { request, .. } => request,
        _ => panic!("no revalidation needed"),
    }
}

#[test]
fn test_ok_if_method_changes_to_head() {
    let policy = simple_request_with_etagged_response();
    let request = get_revalidation_request(
        &policy,
        &simple_request_with("HEAD", &[("pragma", "no-cache")]),
        NOW,
    );
    let headers = request.headers();
    assert_custom_header(headers);
    assert_eq!(get(headers, "if-none-match").as_deref(), Some("\"123456789\""));
}

#[test]
fn test_not_if_method_mismatch_other_than_head() {
    let policy = simple_request_with_etagged_response();
    let request = get_revalidation_request(&policy, &simple_request_with("POST", &[]), NOW + DAY);
    let headers = request.headers();
    assert_custom_header(headers);
    assert_no_validators(headers);
}

#[test]
fn test_not_if_url_mismatch() {
    let policy = simple_request_with_etagged_response();
    let mut h = Headers::new();
    h.add("host", "www.w3c.org");
    h.add("connection", "close");
    h.add("x-custom", "yes");
    let incoming = Request::new("GET", "/yomomma", h);
    let request = get_revalidation_request(&policy, &incoming, NOW + DAY);
    let headers = request.headers();
    assert_custom_header(headers);
    assert_no_validators(headers);
}

#[test]
fn test_not_if_host_mismatch() {
    let policy = simple_request_with_etagged_response();
    let mut h = Headers::new();
    h.add("host", "www.w4c.org");
    h.add("connection", "close");
    h.add("x-custom", "yes");
    let incoming = Request::new("GET", "/Protocols/rfc2616/rfc2616-sec14.html", h);
    let request = get_revalidation_request(&policy, &incoming, NOW + DAY);
    let headers = request.headers();
    assert_no_validators(headers);
    assert!(get(headers, "x-custom").is_some());
}

#[test]
fn test_not_if_vary_fields_prevent() {
    let policy = simple_request_with_always_variable_response();
    let request = get_revalidation_request(&policy, &simple_request(), NOW + DAY);
    let headers = request.headers();
    assert_custom_header(headers);
    assert_no_validators(headers);
}

#[test]
fn test_when_entity_tag_validator_is_present() {
    let policy = simple_request_with_etagged_response();
    let request = get_revalidation_request(&policy, &simple_request(), NOW + DAY);
    let headers = request.headers();
    assert_custom_header(headers);
    assert_no_connection(headers);
    assert_eq!(get(headers, "if-none-match").as_deref(), Some("\"123456789\""));
}

#[test]
fn test_skips_weak_validators_on_post() {
    let post_request = simple_request_with(
        "POST",
        &[("if-none-match", "W/\"weak\", \"strong\", W/\"weak2\"")],
    );
    let policy = policy_for(
        &post_request,
        &Response::new(
            200,
            hdrs(&[
                cacheable_header(),
                ("last-modified", very_old_date()),
                ("etag", etag_value()),
            ]),
        ),
    );
    let request = get_revalidation_request(&policy, &post_request, NOW + DAY);
    let headers = request.headers();
    assert_eq!(
        get(headers, "if-none-match").as_deref(),
        Some("\"strong\", \"123456789\"")
    );
    assert!(get(headers, "if-modified-since").is_none());
}

#[test]
fn test_skips_weak_validators_on_post_2() {
    let post_request = simple_request_with("POST", &[("if-none-match", "W/\"weak\"")]);
    let policy = policy_for(
        &post_request,
        &Response::new(
            200,
            hdrs(&[cacheable_header(), ("last-modified", very_old_date())]),
        ),
    );
    let request = get_revalidation_request(&policy, &post_request, NOW + DAY);
    let headers = request.headers();
    assert!(get(headers, "if-none-match").is_none());
    assert!(get(headers, "if-modified-since").is_none());
}

#[test]
fn test_merges_validators() {
    let get_request = simple_request_with(
        "GET",
        &[("if-none-match", "W/\"weak\", \"strong\", W/\"weak2\"")],
    );
    let policy = policy_for(
        &get_request,
        &Response::new(
            200,
            hdrs(&[
                cacheable_header(),
                ("last-modified", very_old_date()),
                ("etag", etag_value()),
                ("cache-control", "must-revalidate"),
            ]),
        ),
    );
    let request = get_revalidation_request(&policy, &get_request, NOW + DAY);
    let headers = request.headers();
    assert_eq!(
        get(headers, "if-none-match").as_deref(),
        Some("W/\"weak\", \"strong\", W/\"weak2\", \"123456789\"")
    );
    assert_eq!(get(headers, "if-modified-since").as_deref(), Some(very_old_date()));
}

#[test]
fn test_when_last_modified_validator_is_present() {
    let policy = policy_for(
        &simple_request(),
        &Response::new(
            200,
            hdrs(&[cacheable_header(), ("last-modified", very_old_date())]),
        ),
    );
    let request = get_revalidation_request(&policy, &simple_request(), NOW + DAY);
    let headers = request.headers();
    assert_custom_header(headers);
    assert_no_connection(headers);
    assert_eq!(get(headers, "if-modified-since").as_deref(), Some(very_old_date()));
    let warn = get(headers, "warning");
    assert!(warn.is_none() || !warn.unwrap().contains("113"));
}

#[test]
fn test_not_without_validators() {
    let policy = simple_request_with_cacheable_response();
    let request = get_revalidation_request(&policy, &simple_request(), NOW + DAY);
    let headers = request.headers();
    assert_custom_header(headers);
    assert_no_connection(headers);
    assert_no_validators(headers);
    let warn = get(headers, "warning");
    assert!(warn.is_none() || !warn.unwrap().contains("113"));
}

#[test]
fn test_113_added() {
    let very_old_response = Response::new(
        200,
        hdrs(&[("age", "259200"), ("last-modified", very_old_date())]),
    );
    let req = simple_request();
    let policy = policy_for(&req, &very_old_response);
    let cached = get_cached_response(&policy, &req, NOW);
    assert!(get(cached.headers(), "warning").unwrap().contains("113"));
}

#[test]
fn test_removes_warnings() {
    let req = Request::new("GET", "/", Headers::new());
    let policy = policy_for(
        &req,
        &Response::new(
            200,
            hdrs(&[("cache-control", "max-age=2"), ("warning", "199 test danger")]),
        ),
    );
    let cached = get_cached_response(&policy, &req, NOW);
    assert!(get(cached.headers(), "warning").is_none());
}

#[test]
fn test_must_contain_any_etag() {
    let policy = policy_for(
        &simple_request(),
        &Response::new(
            200,
            hdrs(&[
                cacheable_header(),
                ("last-modified", very_old_date()),
                ("etag", etag_value()),
            ]),
        ),
    );
    let request = get_revalidation_request(&policy, &simple_request(), NOW + DAY);
    assert_eq!(
        get(request.headers(), "if-none-match").as_deref(),
        Some(etag_value())
    );
}

#[test]
fn test_merges_etags() {
    let policy = simple_request_with_etagged_response();
    let incoming = simple_request_with(
        "GET",
        &[("host", "www.w3c.org"), ("if-none-match", "\"foo\", \"bar\"")],
    );
    let request = get_revalidation_request(&policy, &incoming, NOW + DAY);
    assert_eq!(
        get(request.headers(), "if-none-match").as_deref(),
        Some("\"foo\", \"bar\", \"123456789\"")
    );
}

#[test]
fn test_should_send_the_last_modified_value() {
    let policy = policy_for(
        &simple_request(),
        &Response::new(
            200,
            hdrs(&[
                cacheable_header(),
                ("last-modified", very_old_date()),
                ("etag", etag_value()),
            ]),
        ),
    );
    let request = get_revalidation_request(&policy, &simple_request(), NOW + DAY);
    assert_eq!(
        get(request.headers(), "if-modified-since").as_deref(),
        Some(very_old_date())
    );
}

#[test]
fn test_should_not_send_the_last_modified_value_for_post() {
    let post_request = Request::new(
        "POST",
        "/",
        hdrs(&[("if-modified-since", "yesterday")]),
    );
    let policy = policy_for(
        &post_request,
        &Response::new(
            200,
            hdrs(&[cacheable_header(), ("last-modified", very_old_date())]),
        ),
    );
    let request = get_revalidation_request(&policy, &post_request, NOW + DAY);
    assert!(get(request.headers(), "if-modified-since").is_none());
}

#[test]
fn test_should_not_send_the_last_modified_value_for_range_request() {
    let range_request = Request::new(
        "GET",
        "/",
        hdrs(&[("accept-ranges", "1-3"), ("if-modified-since", "yesterday")]),
    );
    let policy = policy_for(
        &range_request,
        &Response::new(
            200,
            hdrs(&[cacheable_header(), ("last-modified", very_old_date())]),
        ),
    );
    let request = get_revalidation_request(&policy, &range_request, NOW + DAY);
    assert!(get(request.headers(), "if-modified-since").is_none());
}
