use http_cache_semantics::BeforeRequest;
use http_cache_semantics::CacheOptions;
use http_cache_semantics::CachePolicy;
use http_cache_semantics::Headers;
use http_cache_semantics::Request;
use http_cache_semantics::Response;
use time::format_description::well_known::Rfc2822;
use time::OffsetDateTime;

const NOW: u64 = 1_700_000_000;

fn hdrs(pairs: &[(&str, &str)]) -> Headers {
    let mut h = Headers::new();
    for (k, v) in pairs {
        h.add(k, v);
    }
    h
}

fn req() -> Request {
    Request::new("GET", "http://test.example.com/", Headers::new())
}

fn req_with(pairs: &[(&str, &str)]) -> Request {
    Request::new("GET", "http://test.example.com/", hdrs(pairs))
}

fn res(pairs: &[(&str, &str)]) -> Response {
    Response::new(200, hdrs(pairs))
}

fn res_status(status: u16, pairs: &[(&str, &str)]) -> Response {
    Response::new(status, hdrs(pairs))
}

fn date_str(ts: i64) -> String {
    OffsetDateTime::from_unix_timestamp(ts)
        .unwrap()
        .format(&Rfc2822)
        .unwrap()
}

fn policy(rq: &Request, rs: &Response) -> CachePolicy {
    CachePolicy::new_options(rq, rs, NOW, CacheOptions::default())
}

fn get(r: &Response, name: &str) -> Option<String> {
    r.headers()
        .get_value(name)
        .map(|v| String::from_utf8(v).unwrap())
}

fn get_cached_response(policy: &CachePolicy, rq: &Request, now: u64) -> Response {
    match policy.before_request(rq, now) {
        BeforeRequest::Fresh(r) => r,
        _ => panic!("stale"),
    }
}

#[test]
fn responsetest_simple_miss() {
    let cache = policy(&req(), &res(&[]));
    assert!(cache.is_storable());
    assert!(cache.is_stale(NOW));
}

#[test]
fn responsetest_simple_hit() {
    let cache = policy(&req(), &res(&[("cache-control", "public, max-age=999999")]));
    assert!(cache.is_storable());
    assert!(!cache.is_stale(NOW));
    assert_eq!(cache.time_to_live(NOW), 999999);
}

#[test]
fn responsetest_weird_syntax() {
    let cache = policy(&req(), &res(&[("cache-control", ",,,,max-age =  456      ,")]));
    assert!(cache.is_storable());
    assert!(!cache.is_stale(NOW));
    assert_eq!(cache.time_to_live(NOW), 456);
}

#[test]
fn responsetest_quoted_syntax() {
    let cache = policy(&req(), &res(&[("cache-control", "  max-age = \"678\"      ")]));
    assert!(cache.is_storable());
    assert!(!cache.is_stale(NOW));
    assert_eq!(cache.time_to_live(NOW), 678);
}

#[test]
fn responsetest_iis() {
    let cache = CachePolicy::new_options(
        &req(),
        &res(&[("cache-control", "private, public, max-age=259200")]),
        NOW,
        CacheOptions {
            shared: false,
            ..Default::default()
        },
    );
    assert!(!cache.is_stale(NOW));
    assert_eq!(cache.time_to_live(NOW), 259200);
}

#[test]
fn responsetest_pre_check_tolerated() {
    let cc = "pre-check=0, post-check=0, no-store, no-cache, max-age=100";
    let cache = policy(&req(), &res(&[("cache-control", cc)]));
    assert!(!cache.is_storable());
    assert!(cache.is_stale(NOW));
    assert_eq!(cache.time_to_live(NOW), 0);
    let cached = get_cached_response(&cache, &req_with(&[("cache-control", "max-stale")]), NOW);
    assert_eq!(get(&cached, "cache-control").as_deref(), Some(cc));
}

#[test]
fn responsetest_pre_check_poison() {
    let orig_cc = "pre-check=0, post-check=0, no-cache, no-store, max-age=100, custom, foo=bar";
    let cache = CachePolicy::new_options(
        &req(),
        &res(&[("cache-control", orig_cc), ("pragma", "no-cache")]),
        NOW,
        CacheOptions {
            ignore_cargo_cult: true,
            ..Default::default()
        },
    );
    assert!(cache.is_storable());
    assert!(!cache.is_stale(NOW));
    assert_eq!(cache.time_to_live(NOW), 100);

    let cached = get_cached_response(&cache, &req(), NOW);
    let cc = get(&cached, "cache-control").unwrap();
    assert!(!cc.contains("pre-check"));
    assert!(!cc.contains("post-check"));
    assert!(!cc.contains("no-store"));
    assert!(cc.contains("max-age=100"));
    assert!(cc.contains(", custom") || cc.contains("custom, "));
    assert!(cc.contains("foo=bar"));

    let cached2 = get_cached_response(&cache, &req_with(&[("cache-control", "max-stale")]), NOW);
    assert!(get(&cached2, "pragma").is_none());
}

#[test]
fn responsetest_pre_check_poison_undefined_header() {
    let orig_cc = "pre-check=0, post-check=0, no-cache, no-store";
    let cache = CachePolicy::new_options(
        &req(),
        &res(&[("cache-control", orig_cc), ("expires", "yesterday!")]),
        NOW,
        CacheOptions {
            ignore_cargo_cult: true,
            ..Default::default()
        },
    );
    assert!(cache.is_storable());
    assert!(cache.is_stale(NOW));
    assert_eq!(cache.time_to_live(NOW), 0);

    let cached = get_cached_response(&cache, &req_with(&[("cache-control", "max-stale")]), NOW);
    assert!(get(&cached, "cache-control").is_some());
    assert!(get(&cached, "expires").is_none());
}

#[test]
fn responsetest_cache_with_expires() {
    let cache = policy(
        &req(),
        &res(&[
            ("date", &date_str(NOW as i64)),
            ("expires", &date_str(NOW as i64 + 2)),
        ]),
    );
    assert!(!cache.is_stale(NOW));
    assert_eq!(2, cache.time_to_live(NOW));
}

#[test]
fn responsetest_cache_with_expires_relative_to_date() {
    let cache = policy(
        &req(),
        &res(&[
            ("date", &date_str(NOW as i64 - 30)),
            ("expires", &date_str(NOW as i64)),
        ]),
    );
    assert_eq!(30, cache.time_to_live(NOW));
}

#[test]
fn responsetest_cache_with_expires_always_relative_to_date() {
    let cache = policy(
        &req(),
        &res(&[
            ("date", &date_str(NOW as i64 - 3)),
            ("expires", &date_str(NOW as i64)),
        ]),
    );
    assert_eq!(3, cache.time_to_live(NOW));
}

#[test]
fn responsetest_cache_expires_no_date() {
    let cache = policy(
        &req(),
        &res(&[
            ("cache-control", "public"),
            ("expires", &date_str(NOW as i64 + 3600)),
        ]),
    );
    assert!(!cache.is_stale(NOW));
    assert!(cache.time_to_live(NOW) > 3595);
    assert!(cache.time_to_live(NOW) < 3605);
}

#[test]
fn responsetest_ages() {
    let mut now = NOW;
    let cache = policy(
        &req(),
        &res(&[("cache-control", "max-age=100"), ("age", "50")]),
    );
    assert_eq!(50, cache.time_to_live(now));
    assert!(!cache.is_stale(now));
    now += 48;
    assert_eq!(2, cache.time_to_live(now));
    assert!(!cache.is_stale(now));
    now += 5;
    assert!(cache.is_stale(now));
    assert_eq!(0, cache.time_to_live(now));
}

#[test]
fn responsetest_age_can_make_stale() {
    let cache = policy(
        &req(),
        &res(&[("cache-control", "max-age=100"), ("age", "101")]),
    );
    assert!(cache.is_stale(NOW));
}

#[test]
fn responsetest_age_not_always_stale() {
    let cache = policy(
        &req(),
        &res(&[("cache-control", "max-age=20"), ("age", "15")]),
    );
    assert!(!cache.is_stale(NOW));
}

#[test]
fn responsetest_bogus_age_ignored() {
    let cache = policy(
        &req(),
        &res(&[("cache-control", "max-age=20"), ("age", "golden")]),
    );
    assert!(!cache.is_stale(NOW));
}

#[test]
fn responsetest_cache_old_files() {
    let cache = policy(
        &req(),
        &res(&[
            ("date", &date_str(NOW as i64)),
            ("last-modified", "Mon, 07 Mar 2016 11:52:56 GMT"),
        ]),
    );
    assert!(!cache.is_stale(NOW));
    assert!(cache.time_to_live(NOW) > 100);
}

#[test]
fn responsetest_immutable_simple_hit() {
    let cache = policy(&req(), &res(&[("cache-control", "immutable, max-age=999999")]));
    assert!(!cache.is_stale(NOW));
    assert_eq!(cache.time_to_live(NOW), 999999);
}

#[test]
fn responsetest_immutable_can_expire() {
    let cache = policy(&req(), &res(&[("cache-control", "immutable, max-age=0")]));
    assert!(cache.is_stale(NOW));
    assert_eq!(cache.time_to_live(NOW), 0);
}

#[test]
fn responsetest_cache_immutable_files() {
    let cache = policy(
        &req(),
        &res(&[
            ("date", &date_str(NOW as i64)),
            ("cache-control", "immutable"),
            ("last-modified", &date_str(NOW as i64)),
        ]),
    );
    assert!(!cache.is_stale(NOW));
    assert!(cache.time_to_live(NOW) > 100);
}

#[test]
fn responsetest_immutable_can_be_off() {
    let cache = CachePolicy::new_options(
        &req(),
        &res(&[
            ("date", &date_str(NOW as i64)),
            ("cache-control", "immutable"),
            ("last-modified", &date_str(NOW as i64)),
        ]),
        NOW,
        CacheOptions {
            immutable_min_time_to_live: 0,
            ..Default::default()
        },
    );
    assert!(cache.is_stale(NOW));
    assert_eq!(cache.time_to_live(NOW), 0);
}

#[test]
fn responsetest_pragma_no_cache() {
    let cache = policy(
        &req(),
        &res(&[
            ("pragma", "no-cache"),
            ("last-modified", "Mon, 07 Mar 2016 11:52:56 GMT"),
        ]),
    );
    assert!(cache.is_stale(NOW));
}

#[test]
fn responsetest_blank_cache_control_and_pragma_no_cache() {
    let cache = policy(
        &req(),
        &res(&[
            ("cache-control", ""),
            ("pragma", "no-cache"),
            ("last-modified", &date_str(NOW as i64 - 10)),
        ]),
    );
    assert!(!cache.is_stale(NOW));
}

#[test]
fn responsetest_no_store() {
    let cache = policy(&req(), &res(&[("cache-control", "no-store, public, max-age=1")]));
    assert!(!cache.is_storable());
    assert!(cache.is_stale(NOW));
    assert_eq!(0, cache.time_to_live(NOW));
}

#[test]
fn responsetest_observe_private_cache() {
    let private_res = res(&[("cache-control", "private, max-age=1234")]);

    let proxy_cache = policy(&req(), &private_res);
    assert!(!proxy_cache.is_storable());
    assert!(proxy_cache.is_stale(NOW));
    assert_eq!(0, proxy_cache.time_to_live(NOW));

    let ua_cache = CachePolicy::new_options(
        &req(),
        &private_res,
        NOW,
        CacheOptions {
            shared: false,
            ..Default::default()
        },
    );
    assert!(ua_cache.is_storable());
    assert!(!ua_cache.is_stale(NOW));
    assert_eq!(1234, ua_cache.time_to_live(NOW));
}

#[test]
fn responsetest_don_t_share_cookies() {
    let cookie_res = res(&[("set-cookie", "foo=bar"), ("cache-control", "max-age=99")]);

    let proxy_cache = CachePolicy::new_options(
        &req(),
        &cookie_res,
        NOW,
        CacheOptions {
            shared: true,
            ..Default::default()
        },
    );
    assert!(proxy_cache.is_stale(NOW));
    assert_eq!(0, proxy_cache.time_to_live(NOW));

    let ua_cache = CachePolicy::new_options(
        &req(),
        &cookie_res,
        NOW,
        CacheOptions {
            shared: false,
            ..Default::default()
        },
    );
    assert!(!ua_cache.is_stale(NOW));
    assert_eq!(99, ua_cache.time_to_live(NOW));
}

#[test]
fn responsetest_do_share_cookies_if_immutable() {
    let proxy_cache = CachePolicy::new_options(
        &req(),
        &res(&[
            ("set-cookie", "foo=bar"),
            ("cache-control", "immutable, max-age=99"),
        ]),
        NOW,
        CacheOptions {
            shared: true,
            ..Default::default()
        },
    );
    assert!(!proxy_cache.is_stale(NOW));
    assert_eq!(99, proxy_cache.time_to_live(NOW));
}

#[test]
fn responsetest_cache_explicitly_public_cookie() {
    let proxy_cache = CachePolicy::new_options(
        &req(),
        &res(&[
            ("set-cookie", "foo=bar"),
            ("cache-control", "max-age=5, public"),
        ]),
        NOW,
        CacheOptions {
            shared: true,
            ..Default::default()
        },
    );
    assert!(!proxy_cache.is_stale(NOW));
    assert_eq!(5, proxy_cache.time_to_live(NOW));
}

#[test]
fn responsetest_miss_max_age_0() {
    let cache = policy(&req(), &res(&[("cache-control", "public, max-age=0")]));
    assert!(cache.is_stale(NOW));
    assert_eq!(0, cache.time_to_live(NOW));
}

#[test]
fn responsetest_uncacheable_503() {
    let cache = policy(&req(), &res_status(503, &[("cache-control", "public, max-age=1000")]));
    assert!(!cache.is_storable());
    assert!(cache.is_stale(NOW));
    assert_eq!(0, cache.time_to_live(NOW));
}

#[test]
fn responsetest_cacheable_301() {
    let cache = policy(
        &req(),
        &res_status(301, &[("last-modified", "Mon, 07 Mar 2016 11:52:56 GMT")]),
    );
    assert!(!cache.is_stale(NOW));
}

#[test]
fn responsetest_uncacheable_303() {
    let cache = policy(
        &req(),
        &res_status(303, &[("last-modified", "Mon, 07 Mar 2016 11:52:56 GMT")]),
    );
    assert!(!cache.is_storable());
    assert!(cache.is_stale(NOW));
    assert_eq!(0, cache.time_to_live(NOW));
}

#[test]
fn responsetest_cacheable_303() {
    let cache = policy(&req(), &res_status(303, &[("cache-control", "max-age=1000")]));
    assert!(!cache.is_stale(NOW));
}

#[test]
fn responsetest_uncacheable_412() {
    let cache = policy(&req(), &res_status(412, &[("cache-control", "public, max-age=1000")]));
    assert!(!cache.is_storable());
    assert!(cache.is_stale(NOW));
    assert_eq!(0, cache.time_to_live(NOW));
}

#[test]
fn responsetest_expired_expires_cached_with_max_age() {
    let cache = policy(
        &req(),
        &res(&[
            ("cache-control", "public, max-age=9999"),
            ("expires", "Sat, 07 May 2016 15:35:18 GMT"),
        ]),
    );
    assert!(!cache.is_stale(NOW));
    assert_eq!(9999, cache.time_to_live(NOW));
}

#[test]
fn responsetest_expired_expires_cached_with_s_maxage() {
    let s_res = res(&[
        ("cache-control", "public, s-maxage=9999"),
        ("expires", "Sat, 07 May 2016 15:35:18 GMT"),
    ]);

    let proxy_cache = policy(&req(), &s_res);
    assert!(!proxy_cache.is_stale(NOW));
    assert_eq!(9999, proxy_cache.time_to_live(NOW));

    let ua_cache = CachePolicy::new_options(
        &req(),
        &s_res,
        NOW,
        CacheOptions {
            shared: false,
            ..Default::default()
        },
    );
    assert!(ua_cache.is_stale(NOW));
    assert_eq!(0, ua_cache.time_to_live(NOW));
}

#[test]
fn responsetest_max_age_wins_over_future_expires() {
    let cache = policy(
        &req(),
        &res(&[
            ("cache-control", "public, max-age=333"),
            ("expires", &date_str(NOW as i64 + 3600)),
        ]),
    );
    assert!(!cache.is_stale(NOW));
    assert_eq!(333, cache.time_to_live(NOW));
}

#[test]
fn responsetest_remove_hop_headers() {
    let cache = policy(
        &req(),
        &res(&[
            ("te", "deflate"),
            ("date", "now"),
            ("custom", "header"),
            ("oompa", "lumpa"),
            ("connection", "close, oompa, header"),
            ("age", "10"),
            ("cache-control", "public, max-age=333"),
        ]),
    );
    let now = NOW + 1;
    let h = get_cached_response(&cache, &req(), now);
    assert!(get(&h, "connection").is_none());
    assert!(get(&h, "te").is_none());
    assert!(get(&h, "oompa").is_none());
    assert_eq!(get(&h, "cache-control").as_deref(), Some("public, max-age=333"));
    assert_ne!(
        get(&h, "date").as_deref(),
        Some("now"),
        "updated age requires updated date"
    );
    assert_eq!(get(&h, "custom").as_deref(), Some("header"));
    assert_eq!(get(&h, "age").as_deref(), Some("11"));
}
