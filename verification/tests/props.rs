use http_cache_semantics::format_cache_control;
use http_cache_semantics::BeforeRequest;
use http_cache_semantics::CacheControl;
use http_cache_semantics::CacheOptions;
use http_cache_semantics::CachePolicy;
use http_cache_semantics::Headers;
use http_cache_semantics::Request;
use http_cache_semantics::Response;
use time::format_description::well_known::Rfc2822;
use time::OffsetDateTime;

const NOW: u64 = 1_700_000_000;
const DAY: u64 = 3600 * 24;

fn hdrs(pairs: &[(&str, &str)]) -> Headers {
    let mut h = Headers::new();
    for (k, v) in pairs {
        h.add(k, v);
    }
    h
}

fn req(pairs: &[(&str, &str)]) -> Request {
    Request::new("GET", "/", hdrs(pairs))
}

fn res(pairs: &[(&str, &str)]) -> Response {
    Response::new(200, hdrs(pairs))
}

fn date_str(ts: i64) -> String {
    OffsetDateTime::from_unix_timestamp(ts)
        .unwrap()
        .format(&Rfc2822)
        .unwrap()
}

fn get(r: &Response, name: &str) -> Option<String> {
    r.headers()
        .get_value(name)
        .map(|v| String::from_utf8(v).unwrap())
}

// Age never decreases with time, time-to-live plus age covers the
// freshness lifetime, and staleness begins exactly when nothing is left
// to live.
#[test]
fn age_grows_and_ttl_complements_it() {
    let policy = CachePolicy::new_options(
        &req(&[]),
        &res(&[("cache-control", "max-age=500"), ("age", "100")]),
        NOW,
        CacheOptions::default(),
    );
    let mut last_age: u64 = 0;
    for delta in [0u64, 1, 100, 399, 400, 1000] {
        let t = NOW + delta;
        let age = policy.age(t);
        assert!(age >= last_age);
        last_age = age;
        assert!(policy.time_to_live(t) + age >= 500);
        assert_eq!(policy.is_stale(t), policy.time_to_live(t) == 0);
    }
    assert_eq!(policy.age(NOW), 100);
    assert_eq!(policy.time_to_live(NOW), 400);
    assert!(!policy.is_stale(NOW + 399));
    assert!(policy.is_stale(NOW + 400));
}

// A non-storable policy has no freshness lifetime at any time.
#[test]
fn unstorable_never_has_ttl() {
    let policy = CachePolicy::new_options(
        &req(&[("cache-control", "no-store")]),
        &res(&[("cache-control", "public, max-age=999")]),
        NOW,
        CacheOptions::default(),
    );
    assert!(!policy.is_storable());
    for delta in [0u64, 1, 999, 100_000] {
        assert_eq!(policy.time_to_live(NOW + delta), 0);
        assert!(policy.is_stale(NOW + delta));
    }
}

// A stale entry is served fresh only when the request allows staleness
// and the response does not demand revalidation.
#[test]
fn fresh_from_stale_needs_max_stale() {
    let policy = CachePolicy::new_options(
        &req(&[]),
        &res(&[("cache-control", "max-age=100")]),
        NOW,
        CacheOptions::default(),
    );
    let later = NOW + 200;
    assert!(policy.is_stale(later));
    assert!(!policy
        .before_request(&req(&[]), later)
        .satisfies_without_revalidation());
    assert!(policy
        .before_request(&req(&[("cache-control", "max-stale")]), later)
        .satisfies_without_revalidation());
}

// Reparsing the formatter's output reproduces the directive map.
#[test]
fn parse_format_parse_is_stable() {
    let values = vec![
        "  Private ,, max-age = \"31536000\",  custom=\"a b\", immutable ".as_bytes().to_vec(),
        "foo=bar=baz".as_bytes().to_vec(),
    ];
    let first = CacheControl::parse(&values);
    let formatted = format_cache_control(&first);
    let second = CacheControl::parse(&vec![formatted.clone()]);
    let reformatted = format_cache_control(&second);
    assert_eq!(formatted, reformatted);
    assert_eq!(
        String::from_utf8(formatted).unwrap(),
        "private, max-age=31536000, custom=\"a b\", immutable, foo=\"bar=baz\""
    );
}

// Conflicting duplicate directives force revalidation: the policy acts
// as if `must-revalidate` were present.
#[test]
fn conflicting_duplicates_force_revalidation() {
    let policy = CachePolicy::new_options(
        &req(&[]),
        &res(&[("cache-control", "max-age=5, max-age=10")]),
        NOW,
        CacheOptions::default(),
    );
    let later = NOW + 60;
    assert!(policy.is_stale(later));
    assert!(!policy
        .before_request(&req(&[("cache-control", "max-stale=180")]), later)
        .satisfies_without_revalidation());
}

// Served headers carry no hop-by-hop names, and carry `Age` and a
// `Date` rewritten to the serving time in RFC 2822 form.
#[test]
fn served_headers_are_clean_and_dated() {
    let policy = CachePolicy::new_options(
        &req(&[]),
        &res(&[
            ("cache-control", "max-age=100"),
            ("te", "deflate"),
            ("upgrade", "h2c"),
            ("trailer", "x"),
            ("keep-alive", "timeout=5"),
            ("proxy-authenticate", "Basic"),
            ("proxy-authorization", "Basic x"),
            ("transfer-encoding", "chunked"),
            ("date", &date_str(NOW as i64 - 30)),
        ]),
        NOW,
        CacheOptions::default(),
    );
    let served = match policy.before_request(&req(&[]), NOW + 7) {
        BeforeRequest::Fresh(r) => r,
        _ => panic!("expected a fresh answer"),
    };
    for hop in [
        "connection",
        "keep-alive",
        "proxy-authenticate",
        "proxy-authorization",
        "te",
        "trailer",
        "transfer-encoding",
        "upgrade",
    ] {
        assert!(get(&served, hop).is_none(), "{hop} must not be served");
    }
    assert_eq!(get(&served, "age").as_deref(), Some("7"));
    assert_eq!(get(&served, "date").as_deref(), Some(date_str(NOW as i64 + 7).as_str()));
}

// Heuristic freshness: a tenth of the distance to `Last-Modified`,
// exactly; once the entry is older than a day, a `113` warning is
// attached.
#[test]
fn heuristic_freshness_is_a_tenth() {
    let policy = CachePolicy::new_options(
        &req(&[]),
        &res(&[
            ("date", &date_str(NOW as i64)),
            ("last-modified", &date_str(NOW as i64 - 100 * DAY as i64)),
        ]),
        NOW,
        CacheOptions::default(),
    );
    assert_eq!(policy.time_to_live(NOW), 10 * DAY);
    assert!(!policy.is_stale(NOW));

    let after_a_day = NOW + DAY + 1;
    let served = match policy.before_request(&req(&[]), after_a_day) {
        BeforeRequest::Fresh(r) => r,
        _ => panic!("expected a fresh answer"),
    };
    assert!(get(&served, "warning").unwrap().contains("113"));
}

// The engine never parses what it cannot: bad numbers fall back to
// zero or absence instead of failing.
#[test]
fn malformed_inputs_fall_back() {
    let policy = CachePolicy::new_options(
        &req(&[]),
        &res(&[
            ("cache-control", "max-age=banana"),
            ("age", "-5"),
            ("expires", "not a date"),
        ]),
        NOW,
        CacheOptions::default(),
    );
    assert_eq!(policy.age(NOW), 0);
    assert_eq!(policy.time_to_live(NOW), 0);
    assert!(policy.is_stale(NOW));
}
