use http_cache_semantics::AfterResponse;
use http_cache_semantics::BeforeRequest;
use http_cache_semantics::CacheOptions;
use http_cache_semantics::CachePolicy;
use http_cache_semantics::Headers;
use http_cache_semantics::Request;
use http_cache_semantics::Response;

const NOW: u64 = 1_700_000_000;
const DAY: u64 = 3600 * 24;

fn hdrs(pairs: &[(&str, &str)]) -> Headers {
    let mut h = Headers::new();
    for (k, v) in pairs {
        h.add(k, v);
    }
    h
}

fn simple_request_for_update(extra: &[(&str, &str)]) -> Request {
    let mut h = Headers::new();
    h.add("host", "www.w3c.org");
    h.add("connection", "close");
    for (k, v) in extra {
        h.add(k, v);
    }
    Request::new("GET", "/Protocols/rfc2616/rfc2616-sec14.html", h)
}

fn etagged_response(status: u16, extra: &[(&str, &str)]) -> Response {
    let mut h = Headers::new();
    h.add("cache-control", "max-age=111");
    h.add("etag", "\"123456789\"");
    for (k, v) in extra {
        h.add(k, v);
    }
    Response::new(status, h)
}

fn get(h: &Headers, name: &str) -> Option<String> {
    h.get_value(name).map(|v| String::from_utf8(v).unwrap())
}

fn get_revalidation_request(policy: &CachePolicy, rq: &Request, now: u64) -> Request {
    match policy.before_request(rq, now) {
        BeforeRequest::Stale { request, .. } => request,
        _ => panic!("no revalidation needed"),
    }
}

#[test]
fn test_matching_etags_are_updated() {
    let first_request = simple_request_for_update(&[]);
    let first_response = etagged_response(
        200,
        &[("foo", "original"), ("x-other", "original")],
    );
    let policy = CachePolicy::new_options(&first_request, &first_response, NOW, CacheOptions::default());

    let revalidation = get_revalidation_request(&policy, &simple_request_for_update(&[]), NOW + DAY);

    let second_response = etagged_response(
        304,
        &[("foo", "updated"), ("x-ignore-new", "ignoreme")],
    );
    let sent_request = Request::new("GET", "/", revalidation.headers().duplicate());

    let rev = policy.after_response(&sent_request, &second_response, NOW);
    let headers = match rev {
        AfterResponse::Modified(..) => panic!("expected the entry to be updated, not replaced"),
        AfterResponse::NotModified(_, res) => res.headers().duplicate(),
    };

    assert_eq!(get(&headers, "foo").as_deref(), Some("updated"));
    assert_eq!(get(&headers, "x-other").as_deref(), Some("original"));
    assert!(get(&headers, "x-ignore-new").is_none());
    assert_eq!(get(&headers, "etag").as_deref(), Some("\"123456789\""));
}
