//! The cache policy: whether a response may be stored, how long it stays
//! fresh, what to send to revalidate it, and how to fold a revalidation
//! response back in.
//!
//! Times are Unix timestamps in whole seconds; durations are seconds.

use vstd::prelude::*;
use vstd::slice::slice_to_vec;
use vstd::string::StringSliceAdditionalSpecFns;
use crate::cachecontrol::cc_contains;
use crate::cachecontrol::cc_get;
use crate::cachecontrol::opt_view;
use crate::cachecontrol::cc_parse_spec;
use crate::cachecontrol::cc_remove;
use crate::cachecontrol::cc_set;
use crate::cachecontrol::format_cc_spec;
use crate::cachecontrol::format_cache_control;
use crate::cachecontrol::CacheControl;
use crate::cachecontrol::CcView;
use crate::datetime::rfc2822_ts;
use crate::datetime::parse_rfc2822;
use crate::headers::h_all;
use crate::headers::h_contains;
use crate::headers::h_get;
use crate::headers::h_insert;
use crate::headers::h_remove;
use crate::headers::h_wf;
use crate::headers::Headers;
use crate::headers::HView;
use crate::strutil::contains_bytes;
use crate::strutil::join_spec;
use crate::strutil::contains_sub_spec;
use crate::strutil::parse_u64;
use crate::strutil::parse_u64_spec;
use crate::strutil::trim;
use crate::strutil::trim_spec;

verus! {

/// Configuration of the cache the policy speaks for.
#[derive(Debug, Clone, Copy)]
pub struct CacheOptions {
    /// `true` (the default) evaluates as a shared cache: `private` is
    /// not storable and `s-maxage` applies. `false` evaluates as a
    /// single-user cache: `private` is storable, `s-maxage` ignored.
    pub shared: bool,
    /// Per-cent fraction of the response's age used as a fallback
    /// freshness lifetime; 10 means a tenth, matching the common
    /// heuristic.
    pub cache_heuristic_percent: u8,
    /// Seconds to assume as the default freshness of a response carrying
    /// `Cache-Control: immutable`; an explicit `max-age` still wins.
    pub immutable_min_time_to_live: u64,
    /// When `true`, a response carrying both `pre-check` and
    /// `post-check` has those and the usual anti-cache directives
    /// dropped at construction.
    pub ignore_cargo_cult: bool,
}

impl Default for CacheOptions {
    /// A shared cache, a ten per-cent heuristic, a day of immutable
    /// lifetime, and no cargo-cult cleanup.
    fn default() -> (r: Self)
        ensures
            r.shared == true,
            r.cache_heuristic_percent == 10,
            r.immutable_min_time_to_live == 86400,
            r.ignore_cargo_cult == false,
    {
        CacheOptions {
            shared: true,
            cache_heuristic_percent: 10,
            immutable_min_time_to_live: 86400,
            ignore_cargo_cult: false,
        }
    }
}

/// The view of a request: method, effective URI and headers, as bytes.
pub struct ReqView {
    pub method: Seq<u8>,
    pub uri: Seq<u8>,
    pub headers: HView,
}

/// The view of a response: status and headers.
pub struct RespView {
    pub status: u16,
    pub headers: HView,
}

/// A request as the engine sees it.
#[derive(Debug)]
pub struct Request {
    method: Vec<u8>,
    uri: Vec<u8>,
    headers: Headers,
}

impl View for Request {
    type V = ReqView;

    closed spec fn view(&self) -> ReqView {
        ReqView { method: self.method@, uri: self.uri@, headers: self.headers@ }
    }
}

impl Request {
    /// A request from its method, URI and headers.
    pub fn new(method: &str, uri: &str, headers: Headers) -> (r: Request)
        ensures
            r@.method == method.spec_bytes(),
            r@.uri == uri.spec_bytes(),
            r@.headers == headers@,
    {
        Request {
            method: slice_to_vec(method.as_bytes()),
            uri: slice_to_vec(uri.as_bytes()),
            headers: headers,
        }
    }

    /// The request method.
    pub fn method(&self) -> (r: &Vec<u8>)
        ensures
            r@ == self@.method,
    {
        &self.method
    }

    /// The effective request URI.
    pub fn uri(&self) -> (r: &Vec<u8>)
        ensures
            r@ == self@.uri,
    {
        &self.uri
    }

    /// The request headers.
    pub fn headers(&self) -> (r: &Headers)
        ensures
            r@ == self@.headers,
    {
        &self.headers
    }
}

/// A response as the engine sees it.
#[derive(Debug)]
pub struct Response {
    status: u16,
    headers: Headers,
}

impl View for Response {
    type V = RespView;

    closed spec fn view(&self) -> RespView {
        RespView { status: self.status, headers: self.headers@ }
    }
}

impl Response {
    /// A response from its status code and headers.
    pub fn new(status: u16, headers: Headers) -> (r: Response)
        ensures
            r@.status == status,
            r@.headers == headers@,
    {
        Response { status: status, headers: headers }
    }

    /// The response status code.
    pub fn status(&self) -> (r: u16)
        ensures
            r == self@.status,
    {
        self.status
    }

    /// The response headers.
    pub fn headers(&self) -> (r: &Headers)
        ensures
            r@ == self@.headers,
    {
        &self.headers
    }
}

/// Everything a policy remembers.
pub struct PolicyView {
    pub method: Seq<u8>,
    pub uri: Seq<u8>,
    pub req: HView,
    pub res: HView,
    pub status: u16,
    pub req_cc: CcView,
    pub res_cc: CcView,
    pub response_time: u64,
    pub opts: CacheOptions,
}

/// The cache policy computed from one request/response exchange.
#[derive(Debug)]
pub struct CachePolicy {
    method: Vec<u8>,
    uri: Vec<u8>,
    req: Headers,
    res: Headers,
    status: u16,
    req_cc: CacheControl,
    res_cc: CacheControl,
    response_time: u64,
    opts: CacheOptions,
}

impl View for CachePolicy {
    type V = PolicyView;

    closed spec fn view(&self) -> PolicyView {
        PolicyView {
            method: self.method@,
            uri: self.uri@,
            req: self.req@,
            res: self.res@,
            status: self.status,
            req_cc: self.req_cc@,
            res_cc: self.res_cc@,
            response_time: self.response_time,
            opts: self.opts,
        }
    }
}

/// The header names a policy's stored maps carry are lower case.
pub open spec fn policy_wf(p: PolicyView) -> bool {
    h_wf(p.req) && h_wf(p.res)
}

/// Status codes cacheable by default (RFC 7231 6.1).
pub open spec fn cacheable_by_default(s: u16) -> bool {
    s == 200 || s == 203 || s == 204 || s == 206 || s == 300 || s == 301 || s == 308 || s == 404
        || s == 405 || s == 410 || s == 414 || s == 501
}

/// Status codes this cache understands; 206 is excluded because partial
/// responses are not understood.
pub open spec fn understood_status(s: u16) -> bool {
    s == 200 || s == 203 || s == 204 || s == 300 || s == 301 || s == 302 || s == 303 || s == 307
        || s == 308 || s == 404 || s == 405 || s == 410 || s == 414 || s == 501
}

fn understood_status_exec(s: u16) -> (r: bool)
    ensures
        r == understood_status(s),
{
    s == 200 || s == 203 || s == 204 || s == 300 || s == 301 || s == 302 || s == 303 || s == 307
        || s == 308 || s == 404 || s == 405 || s == 410 || s == 414 || s == 501
}

fn cacheable_by_default_exec(s: u16) -> (r: bool)
    ensures
        r == cacheable_by_default(s),
{
    s == 200 || s == 203 || s == 204 || s == 206 || s == 300 || s == 301 || s == 308 || s == 404
        || s == 405 || s == 410 || s == 414 || s == 501
}

/// Whether a `Pragma` header holds `no-cache` anywhere in its value.
pub open spec fn pragma_no_cache(h: HView) -> bool {
    match h_get(h, ("pragma").spec_bytes()) {
        Some(v) => contains_sub_spec(v, ("no-cache").spec_bytes()),
        None => false,
    }
}

fn pragma_no_cache_exec(h: &Headers) -> (r: bool)
    ensures
        r == pragma_no_cache(h@),
{
    match h.get_first(("pragma").as_bytes()) {
        Some(v) => contains_bytes(v.as_slice(), ("no-cache").as_bytes()),
        None => false,
    }
}

/// The policy built from the exchange: both `Cache-Control` headers
/// parsed, the cargo-cult rewrite applied when asked for, and a
/// `Pragma: no-cache` fallback honoured when the response has no
/// `Cache-Control` at all.
pub open spec fn spec_from_details(
    method: Seq<u8>,
    uri: Seq<u8>,
    status: u16,
    req_h: HView,
    res_h: HView,
    response_time: u64,
    opts: CacheOptions,
) -> PolicyView {
    let res_cc0 = cc_parse_spec(h_all(res_h, ("cache-control").spec_bytes()));
    let req_cc = cc_parse_spec(h_all(req_h, ("cache-control").spec_bytes()));
    let cargo = opts.ignore_cargo_cult && cc_contains(res_cc0, ("pre-check").spec_bytes())
        && cc_contains(res_cc0, ("post-check").spec_bytes());
    let res_cc1 = if cargo {
        cc_remove(
            cc_remove(
                cc_remove(
                    cc_remove(cc_remove(res_cc0, ("pre-check").spec_bytes()),
                        ("post-check").spec_bytes()),
                    ("no-cache").spec_bytes(),
                ),
                ("no-store").spec_bytes(),
            ),
            ("must-revalidate").spec_bytes(),
        )
    } else {
        res_cc0
    };
    let res_h1 = if cargo {
        h_remove(
            h_remove(
                h_insert(res_h, ("cache-control").spec_bytes(), format_cc_spec(res_cc1)),
                ("expires").spec_bytes(),
            ),
            ("pragma").spec_bytes(),
        )
    } else {
        res_h
    };
    let res_cc2 = if !h_contains(res_h1, ("cache-control").spec_bytes()) && pragma_no_cache(
        res_h1,
    ) {
        cc_set(res_cc1, ("no-cache").spec_bytes(), None)
    } else {
        res_cc1
    };
    PolicyView {
        method: method,
        uri: uri,
        req: req_h,
        res: res_h1,
        status: status,
        req_cc: req_cc,
        res_cc: res_cc2,
        response_time: response_time,
        opts: opts,
    }
}

/// The policy a request/response pair yields.
pub open spec fn spec_new_options(
    rq: ReqView,
    rs: RespView,
    response_time: u64,
    opts: CacheOptions,
) -> PolicyView {
    spec_from_details(rq.method, rq.uri, rs.status, rq.headers, rs.headers, response_time, opts)
}

/// The response carries explicit expiration: `s-maxage` for a shared
/// cache, `max-age`, or an `Expires` header.
pub open spec fn spec_has_explicit_expiration(p: PolicyView) -> bool {
    (p.opts.shared && cc_contains(p.res_cc, ("s-maxage").spec_bytes())) || cc_contains(
        p.res_cc,
        ("max-age").spec_bytes(),
    ) || h_contains(p.res, ("expires").spec_bytes())
}

/// Directives that allow a shared cache to store an authenticated
/// response.
pub open spec fn spec_allows_storing_authenticated(p: PolicyView) -> bool {
    cc_contains(p.res_cc, ("must-revalidate").spec_bytes()) || cc_contains(
        p.res_cc,
        ("public").spec_bytes(),
    ) || cc_contains(p.res_cc, ("s-maxage").spec_bytes())
}

/// The policy may be stored (RFC 7234 3).
pub open spec fn spec_is_storable(p: PolicyView) -> bool {
    &&& !cc_contains(p.req_cc, ("no-store").spec_bytes())
    &&& (p.method == ("GET").spec_bytes() || p.method == ("HEAD").spec_bytes() || (p.method == (
        "POST"
    ).spec_bytes() && spec_has_explicit_expiration(p)))
    &&& understood_status(p.status)
    &&& !cc_contains(p.res_cc, ("no-store").spec_bytes())
    &&& (!p.opts.shared || !cc_contains(p.res_cc, ("private").spec_bytes()))
    &&& (!p.opts.shared || !h_contains(p.req, ("authorization").spec_bytes())
        || spec_allows_storing_authenticated(p))
    &&& (h_contains(p.res, ("expires").spec_bytes()) || cc_contains(
        p.res_cc,
        ("max-age").spec_bytes(),
    ) || (p.opts.shared && cc_contains(p.res_cc, ("s-maxage").spec_bytes())) || cc_contains(
        p.res_cc,
        ("public").spec_bytes(),
    ) || cacheable_by_default(p.status))
}

impl CachePolicy {
    fn from_details(
        method: Vec<u8>,
        uri: Vec<u8>,
        status: u16,
        req_h: Headers,
        res_h: Headers,
        response_time: u64,
        opts: CacheOptions,
    ) -> (r: CachePolicy)
        ensures
            r@ == spec_from_details(method@, uri@, status, req_h@, res_h@, response_time, opts),
            h_wf(req_h@) && h_wf(res_h@) ==> policy_wf(r@),
    {
        let mut res_h = res_h;
        let res_vals = res_h.get_all_vals(("cache-control").as_bytes());
        let req_vals = req_h.get_all_vals(("cache-control").as_bytes());
        let mut res_cc = CacheControl::parse(&res_vals);
        let req_cc = CacheControl::parse(&req_vals);
        if opts.ignore_cargo_cult && res_cc.contains_key(("pre-check").as_bytes())
            && res_cc.contains_key(("post-check").as_bytes()) {
            res_cc.remove_key(("pre-check").as_bytes());
            res_cc.remove_key(("post-check").as_bytes());
            res_cc.remove_key(("no-cache").as_bytes());
            res_cc.remove_key(("no-store").as_bytes());
            res_cc.remove_key(("must-revalidate").as_bytes());
            let formatted = format_cache_control(&res_cc);
            proof {
                lemma_inserted_names_lowercase();
            }
            res_h.insert_pair(slice_to_vec(("cache-control").as_bytes()), formatted);
            res_h.remove_name(("expires").as_bytes());
            res_h.remove_name(("pragma").as_bytes());
        }
        if !res_h.contains_name(("cache-control").as_bytes()) && pragma_no_cache_exec(&res_h) {
            res_cc.set(slice_to_vec(("no-cache").as_bytes()), None);
        }
        CachePolicy {
            method: method,
            uri: uri,
            req: req_h,
            res: res_h,
            status: status,
            req_cc: req_cc,
            res_cc: res_cc,
            response_time: response_time,
            opts: opts,
        }
    }

    /// Build a policy from the request, the response, the time the
    /// response was received, and the cache's configuration.
    pub fn new_options(
        req: &Request,
        res: &Response,
        response_time: u64,
        opts: CacheOptions,
    ) -> (r: CachePolicy)
        ensures
            r@ == spec_new_options(req@, res@, response_time, opts),
            h_wf(req@.headers) && h_wf(res@.headers) ==> policy_wf(r@),
    {
        CachePolicy::from_details(
            slice_to_vec(req.method().as_slice()),
            slice_to_vec(req.uri().as_slice()),
            res.status(),
            req.headers().duplicate(),
            res.headers().duplicate(),
            response_time,
            opts,
        )
    }

    /// Whether the response can be stored in a cache at all. When this
    /// is `false`, neither the request nor the response may be stored.
    pub fn is_storable(&self) -> (r: bool)
        ensures
            r == spec_is_storable(self@),
    {
        !self.req_cc.contains_key(("no-store").as_bytes()) && (crate::strutil::bytes_eq(
            self.method.as_slice(),
            ("GET").as_bytes(),
        ) || crate::strutil::bytes_eq(self.method.as_slice(), ("HEAD").as_bytes()) || (
        crate::strutil::bytes_eq(self.method.as_slice(), ("POST").as_bytes())
            && self.has_explicit_expiration())) && understood_status_exec(self.status)
            && !self.res_cc.contains_key(("no-store").as_bytes()) && (!self.opts.shared
            || !self.res_cc.contains_key(("private").as_bytes())) && (!self.opts.shared
            || !self.req.contains_name(("authorization").as_bytes())
            || self.allows_storing_authenticated()) && (self.res.contains_name(
            ("expires").as_bytes(),
        ) || self.res_cc.contains_key(("max-age").as_bytes()) || (self.opts.shared
            && self.res_cc.contains_key(("s-maxage").as_bytes())) || self.res_cc.contains_key(
            ("public").as_bytes(),
        ) || cacheable_by_default_exec(self.status))
    }

    fn has_explicit_expiration(&self) -> (r: bool)
        ensures
            r == spec_has_explicit_expiration(self@),
    {
        (self.opts.shared && self.res_cc.contains_key(("s-maxage").as_bytes()))
            || self.res_cc.contains_key(("max-age").as_bytes()) || self.res.contains_name(
            ("expires").as_bytes(),
        )
    }

    fn allows_storing_authenticated(&self) -> (r: bool)
        ensures
            r == spec_allows_storing_authenticated(self@),
    {
        self.res_cc.contains_key(("must-revalidate").as_bytes()) || self.res_cc.contains_key(
            ("public").as_bytes(),
        ) || self.res_cc.contains_key(("s-maxage").as_bytes())
    }
}

/// Addition of seconds, stuck at the top of the range.
pub open spec fn sat_add64(a: u64, b: u64) -> u64 {
    if a + b > u64::MAX {
        u64::MAX
    } else {
        (a + b) as u64
    }
}

/// Subtraction of seconds, stuck at zero.
pub open spec fn sat_sub64(a: u64, b: u64) -> u64 {
    if a >= b {
        (a - b) as u64
    } else {
        0
    }
}

pub open spec fn max64(a: u64, b: u64) -> u64 {
    if a >= b {
        a
    } else {
        b
    }
}

fn sat_add64_exec(a: u64, b: u64) -> (r: u64)
    ensures
        r == sat_add64(a, b),
{
    if a > u64::MAX - b {
        u64::MAX
    } else {
        a + b
    }
}

fn sat_sub64_exec(a: u64, b: u64) -> (r: u64)
    ensures
        r == sat_sub64(a, b),
{
    if a >= b {
        a - b
    } else {
        0
    }
}

/// The server's `Date`, parsed as RFC 2822 and clamped to the epoch, or
/// the time the response was received when absent or unreadable.
pub open spec fn spec_raw_server_date(p: PolicyView) -> u64 {
    match h_get(p.res, ("date").spec_bytes()) {
        Some(v) => match rfc2822_ts(v) {
            Some(t) => if t >= 0 {
                t as u64
            } else {
                p.response_time
            },
            None => p.response_time,
        },
        None => p.response_time,
    }
}

/// The `Age` header in seconds, zero when absent or unreadable.
pub open spec fn spec_age_header_value(p: PolicyView) -> u64 {
    match h_get(p.res, ("age").spec_bytes()) {
        Some(v) => match parse_u64_spec(v) {
            Some(n) => n,
            None => 0,
        },
        None => 0,
    }
}

/// How long the response has been sitting in caches by `now`.
pub open spec fn spec_age(p: PolicyView, now: u64) -> u64 {
    sat_add64(spec_age_header_value(p), sat_sub64(now, p.response_time))
}

/// A directive present with a value: its seconds, zero when unreadable.
pub open spec fn spec_dir_secs_or_zero(cc: CcView, k: Seq<u8>) -> Option<u64> {
    match cc_get(cc, k) {
        Some(Some(v)) => match parse_u64_spec(v) {
            Some(n) => Some(n),
            None => Some(0),
        },
        _ => None,
    }
}

/// A directive's seconds, only when present with a readable value.
pub open spec fn spec_dir_u64(cc: CcView, k: Seq<u8>) -> Option<u64> {
    match cc_get(cc, k) {
        Some(Some(v)) => parse_u64_spec(v),
        _ => None,
    }
}

/// The response's `Vary` header is a lone `*`.
pub open spec fn spec_vary_star(p: PolicyView) -> bool {
    match h_get(p.res, ("vary").spec_bytes()) {
        Some(v) => trim_spec(v) == seq![0x2au8],
        None => false,
    }
}

/// The heuristic freshness lifetime: the given per-cent fraction of the
/// seconds between the server date and `Last-Modified`.
pub open spec fn heuristic_secs(diff: u64, pct: u8) -> u64 {
    if (diff * pct) / 100 > u64::MAX {
        u64::MAX
    } else {
        ((diff * pct) / 100) as u64
    }
}

/// The freshness floor `immutable` grants.
pub open spec fn spec_default_min_ttl(p: PolicyView) -> u64 {
    if cc_contains(p.res_cc, ("immutable").spec_bytes()) {
        p.opts.immutable_min_time_to_live
    } else {
        0
    }
}

/// The freshness lifetime of the stored response, counted from
/// `Date` − `Age` (RFC 7234 4.2.1).
pub open spec fn spec_max_age(p: PolicyView) -> u64 {
    if !spec_is_storable(p) || cc_contains(p.res_cc, ("no-cache").spec_bytes()) {
        0
    } else if p.opts.shared && h_contains(p.res, ("set-cookie").spec_bytes()) && !cc_contains(
        p.res_cc,
        ("public").spec_bytes(),
    ) && !cc_contains(p.res_cc, ("immutable").spec_bytes()) {
        0
    } else if spec_vary_star(p) {
        0
    } else if p.opts.shared && cc_contains(p.res_cc, ("proxy-revalidate").spec_bytes()) {
        0
    } else {
        let smax = if p.opts.shared {
            spec_dir_secs_or_zero(p.res_cc, ("s-maxage").spec_bytes())
        } else {
            None
        };
        match smax {
            Some(n) => n,
            None => match spec_dir_secs_or_zero(p.res_cc, ("max-age").spec_bytes()) {
                Some(n) => n,
                None => {
                    let dm = spec_default_min_ttl(p);
                    match h_get(p.res, ("expires").spec_bytes()) {
                        Some(ev) => match rfc2822_ts(ev) {
                            None => 0,
                            Some(ts) => {
                                let e: u64 = if ts >= 0 {
                                    ts as u64
                                } else {
                                    0
                                };
                                max64(dm, sat_sub64(e, spec_raw_server_date(p)))
                            },
                        },
                        None => match h_get(p.res, ("last-modified").spec_bytes()) {
                            Some(lv) => match rfc2822_ts(lv) {
                                Some(lt) => {
                                    let lm: u64 = if lt >= 0 {
                                        lt as u64
                                    } else {
                                        0
                                    };
                                    let sd = spec_raw_server_date(p);
                                    if sd >= lm {
                                        max64(
                                            dm,
                                            heuristic_secs(
                                                (sd - lm) as u64,
                                                p.opts.cache_heuristic_percent,
                                            ),
                                        )
                                    } else {
                                        dm
                                    }
                                },
                                None => dm,
                            },
                            None => dm,
                        },
                    }
                },
            },
        }
    }
}

/// Seconds until the response goes stale.
pub open spec fn spec_time_to_live(p: PolicyView, now: u64) -> u64 {
    sat_sub64(spec_max_age(p), spec_age(p, now))
}

/// The response is stale: its age has reached its freshness lifetime.
pub open spec fn spec_is_stale(p: PolicyView, now: u64) -> bool {
    spec_max_age(p) <= spec_age(p, now)
}

fn dir_secs_or_zero(cc: &CacheControl, k: &[u8]) -> (r: Option<u64>)
    ensures
        r == spec_dir_secs_or_zero(cc@, k@),
{
    match cc.get_val(k) {
        Some(Some(v)) => match parse_u64(v.as_slice()) {
            Some(n) => Some(n),
            None => Some(0),
        },
        _ => None,
    }
}

fn dir_u64(cc: &CacheControl, k: &[u8]) -> (r: Option<u64>)
    ensures
        r == spec_dir_u64(cc@, k@),
{
    match cc.get_val(k) {
        Some(Some(v)) => parse_u64(v.as_slice()),
        _ => None,
    }
}

impl CachePolicy {
    fn raw_server_date(&self) -> (r: u64)
        ensures
            r == spec_raw_server_date(self@),
    {
        match self.res.get_first(("date").as_bytes()) {
            Some(v) => match parse_rfc2822(v.as_slice()) {
                Some(t) => if t >= 0 {
                    t as u64
                } else {
                    self.response_time
                },
                None => self.response_time,
            },
            None => self.response_time,
        }
    }

    fn age_header_value(&self) -> (r: u64)
        ensures
            r == spec_age_header_value(self@),
    {
        match self.res.get_first(("age").as_bytes()) {
            Some(v) => match parse_u64(v.as_slice()) {
                Some(n) => n,
                None => 0,
            },
            None => 0,
        }
    }

    /// How long the response has been sitting in caches, in seconds:
    /// the `Age` header brought up to the present.
    pub fn age(&self, now: u64) -> (r: u64)
        ensures
            r == spec_age(self@, now),
    {
        sat_add64_exec(self.age_header_value(), sat_sub64_exec(now, self.response_time))
    }

    fn vary_star(&self) -> (r: bool)
        ensures
            r == spec_vary_star(self@),
    {
        match self.res.get_first(("vary").as_bytes()) {
            Some(v) => {
                let t = trim(v.as_slice());
                proof {
                    if t@.len() == 1 && t@[0] == 0x2a {
                        assert(t@ =~= seq![0x2au8]);
                    }
                }
                t.len() == 1 && t[0] == 0x2a
            },
            None => false,
        }
    }

    fn max_age(&self) -> (r: u64)
        ensures
            r == spec_max_age(self@),
    {
        if !self.is_storable() || self.res_cc.contains_key(("no-cache").as_bytes()) {
            return 0;
        }
        if self.opts.shared && self.res.contains_name(("set-cookie").as_bytes())
            && !self.res_cc.contains_key(("public").as_bytes()) && !self.res_cc.contains_key(
            ("immutable").as_bytes(),
        ) {
            return 0;
        }
        if self.vary_star() {
            return 0;
        }
        if self.opts.shared {
            if self.res_cc.contains_key(("proxy-revalidate").as_bytes()) {
                return 0;
            }
            match dir_secs_or_zero(&self.res_cc, ("s-maxage").as_bytes()) {
                Some(n) => {
                    return n;
                },
                None => {},
            }
        }
        match dir_secs_or_zero(&self.res_cc, ("max-age").as_bytes()) {
            Some(n) => {
                return n;
            },
            None => {},
        }
        let dm = if self.res_cc.contains_key(("immutable").as_bytes()) {
            self.opts.immutable_min_time_to_live
        } else {
            0
        };
        match self.res.get_first(("expires").as_bytes()) {
            Some(ev) => {
                match parse_rfc2822(ev.as_slice()) {
                    None => 0,
                    Some(ts) => {
                        let e: u64 = if ts >= 0 {
                            ts as u64
                        } else {
                            0
                        };
                        let left = sat_sub64_exec(e, self.raw_server_date());
                        if dm >= left {
                            dm
                        } else {
                            left
                        }
                    },
                }
            },
            None => {
                match self.res.get_first(("last-modified").as_bytes()) {
                    Some(lv) => {
                        match parse_rfc2822(lv.as_slice()) {
                            Some(lt) => {
                                let lm: u64 = if lt >= 0 {
                                    lt as u64
                                } else {
                                    0
                                };
                                let sd = self.raw_server_date();
                                if sd >= lm {
                                    let h = heuristic_exec(
                                        sd - lm,
                                        self.opts.cache_heuristic_percent,
                                    );
                                    if dm >= h {
                                        dm
                                    } else {
                                        h
                                    }
                                } else {
                                    dm
                                }
                            },
                            None => dm,
                        }
                    },
                    None => dm,
                }
            },
        }
    }

    /// Seconds until the response becomes stale; zero once it is.
    pub fn time_to_live(&self, now: u64) -> (r: u64)
        ensures
            r == spec_time_to_live(self@, now),
    {
        sat_sub64_exec(self.max_age(), self.age(now))
    }

    /// Whether the response is already stale and should not be used
    /// without revalidation.
    pub fn is_stale(&self, now: u64) -> (r: bool)
        ensures
            r == spec_is_stale(self@, now),
    {
        self.max_age() <= self.age(now)
    }
}

fn heuristic_exec(diff: u64, pct: u8) -> (r: u64)
    ensures
        r == heuristic_secs(diff, pct),
{
    proof {
        assert((diff as int) * (pct as int) <= (u64::MAX as int) * 255) by (nonlinear_arith)
            requires
                0 <= diff <= u64::MAX,
                0 <= pct <= 255,
        {}
    }
    let q: u128 = (diff as u128) * (pct as u128) / 100;
    if q > u64::MAX as u128 {
        u64::MAX
    } else {
        q as u64
    }
}

/// The hop-by-hop header names a cache must not forward; `date` is
/// among them because the cache rewrites it.
pub open spec fn is_hop(n: Seq<u8>) -> bool {
    n == ("date").spec_bytes() || n == ("connection").spec_bytes() || n == (
    "keep-alive"
    ).spec_bytes() || n == ("proxy-authenticate").spec_bytes() || n == (
    "proxy-authorization"
    ).spec_bytes() || n == ("te").spec_bytes() || n == ("trailer").spec_bytes() || n == (
    "transfer-encoding"
    ).spec_bytes() || n == ("upgrade").spec_bytes()
}

fn is_hop_exec(n: &[u8]) -> (r: bool)
    ensures
        r == is_hop(n@),
{
    crate::strutil::bytes_eq(n, ("date").as_bytes()) || crate::strutil::bytes_eq(
        n,
        ("connection").as_bytes(),
    ) || crate::strutil::bytes_eq(n, ("keep-alive").as_bytes()) || crate::strutil::bytes_eq(
        n,
        ("proxy-authenticate").as_bytes(),
    ) || crate::strutil::bytes_eq(n, ("proxy-authorization").as_bytes())
        || crate::strutil::bytes_eq(n, ("te").as_bytes()) || crate::strutil::bytes_eq(
        n,
        ("trailer").as_bytes(),
    ) || crate::strutil::bytes_eq(n, ("transfer-encoding").as_bytes())
        || crate::strutil::bytes_eq(n, ("upgrade").as_bytes())
}

/// The comma-separated, trimmed entries of every value of a header.
pub open spec fn comma_entries(h: HView, n: Seq<u8>) -> Seq<Seq<u8>> {
    h_all(h, n).map_values(|v: Seq<u8>| crate::strutil::split_trim_spec(v)).flatten_alt()
}

fn get_all_comma(h: &Headers, name: &[u8]) -> (r: Vec<Vec<u8>>)
    ensures
        r@.map_values(|v: Vec<u8>| v@) == comma_entries(h@, name@),
{
    let vals = h.get_all_vals(name);
    let ghost vs = h_all(h@, name@);
    let ghost mapped = vs.map_values(|v: Seq<u8>| crate::strutil::split_trim_spec(v));
    let mut out: Vec<Vec<u8>> = Vec::new();
    let mut i: usize = 0;
    proof {
        assert(out@.map_values(|v: Vec<u8>| v@) =~= mapped.subrange(0, 0).flatten_alt());
    }
    while i < vals.len()
        invariant
            0 <= i <= vs.len(),
            vals@.map_values(|v: Vec<u8>| v@) == vs,
            mapped == vs.map_values(|v: Seq<u8>| crate::strutil::split_trim_spec(v)),
            out@.map_values(|v: Vec<u8>| v@) =~= mapped.subrange(0, i as int).flatten_alt(),
        decreases vs.len() - i,
    {
        let ghost old_out = out@.map_values(|v: Vec<u8>| v@);
        let mut parts = crate::strutil::split_trim(vals[i].as_slice());
        let ghost pv = parts@.map_values(|v: Vec<u8>| v@);
        out.append(&mut parts);
        proof {
            assert(out@.map_values(|v: Vec<u8>| v@) =~= old_out + pv);
            assert(mapped.subrange(0, i + 1).drop_last() =~= mapped.subrange(0, i as int));
            assert(mapped.subrange(0, i + 1).last() == mapped[i as int]);
            assert(mapped[i as int] == crate::strutil::split_trim_spec(vs[i as int]));
        }
        i = i + 1;
    }
    proof {
        assert(mapped.subrange(0, mapped.len() as int) =~= mapped);
    }
    out
}

/// The headers copied for forwarding: hop-by-hop names dropped, the
/// names listed in `Connection` dropped, and `Warning` re-built without
/// entries that start with `1`. A name that occurs several times keeps
/// only its last value, as a copy through repeated insertion does.
pub open spec fn copy_fold(acc: HView, h: HView) -> HView
    decreases h.len(),
{
    if h.len() == 0 {
        acc
    } else {
        let acc1 = if is_hop(h[0].0) {
            acc
        } else {
            h_insert(acc, h[0].0, h[0].1)
        };
        copy_fold(acc1, h.subrange(1, h.len() as int))
    }
}

pub open spec fn remove_names_fold(h: HView, names: Seq<Seq<u8>>) -> HView
    decreases names.len(),
{
    if names.len() == 0 {
        h
    } else {
        remove_names_fold(
            h_remove(h, crate::strutil::lower_spec(names[0])),
            names.subrange(1, names.len() as int),
        )
    }
}

/// The `Warning` entries kept on forwarding: those that do not start
/// with the byte `1`.
pub open spec fn warning_entries_kept(h: HView) -> Seq<Seq<u8>> {
    comma_entries(h, ("warning").spec_bytes()).filter(|w: Seq<u8>| !(w.len() > 0 && w[0] == 0x31))
}

pub open spec fn spec_copy_wo_hop(h: HView) -> HView {
    let base = remove_names_fold(
        copy_fold(Seq::empty(), h),
        comma_entries(h, ("connection").spec_bytes()),
    );
    let jw = join_spec(warning_entries_kept(h));
    if jw.len() == 0 {
        h_remove(base, ("warning").spec_bytes())
    } else {
        h_insert(base, ("warning").spec_bytes(), jw)
    }
}

fn copy_without_hop_by_hop(h: &Headers) -> (r: Headers)
    ensures
        r@ == spec_copy_wo_hop(h@),
        h_wf(h@) ==> h_wf(r@),
{
    let ghost hv = h@;
    let mut out = Headers::new();
    let mut i: usize = 0;
    proof {
        assert(hv.subrange(0, hv.len() as int) =~= hv);
    }
    while i < h.len()
        invariant
            0 <= i <= hv.len(),
            hv == h@,
            copy_fold(Seq::empty(), hv) == copy_fold(out@, hv.subrange(i as int, hv.len() as int)),
            h_wf(hv) ==> h_wf(out@),
        decreases hv.len() - i,
    {
        let ghost rest = hv.subrange(i as int, hv.len() as int);
        let p = h.pair_at(i);
        if !is_hop_exec(p.0.as_slice()) {
            let n = slice_to_vec(p.0.as_slice());
            let v = slice_to_vec(p.1.as_slice());
            proof {
                if h_wf(hv) {
                    assert(hv[i as int].0 == crate::strutil::lower_spec(hv[i as int].0));
                }
            }
            out.insert_pair(n, v);
        }
        proof {
            assert(rest[0] == hv[i as int]);
            assert(rest.subrange(1, rest.len() as int) =~= hv.subrange(i + 1, hv.len() as int));
        }
        i = i + 1;
    }
    proof {
        assert(hv.subrange(hv.len() as int, hv.len() as int) =~= Seq::<(Seq<u8>, Seq<u8>)>::empty());
        assert(copy_fold(Seq::empty(), hv) == out@);
    }
    let conn = get_all_comma(h, ("connection").as_bytes());
    let ghost conn_names = comma_entries(hv, ("connection").spec_bytes());
    let mut j: usize = 0;
    proof {
        assert(conn_names.subrange(0, conn_names.len() as int) =~= conn_names);
    }
    while j < conn.len()
        invariant
            0 <= j <= conn_names.len(),
            conn@.map_values(|v: Vec<u8>| v@) == conn_names,
            remove_names_fold(copy_fold(Seq::empty(), hv), conn_names) == remove_names_fold(
                out@,
                conn_names.subrange(j as int, conn_names.len() as int),
            ),
            h_wf(hv) ==> h_wf(out@),
        decreases conn_names.len() - j,
    {
        let ghost rest = conn_names.subrange(j as int, conn_names.len() as int);
        let ln = crate::strutil::lower(conn[j].as_slice());
        out.remove_name(ln.as_slice());
        proof {
            assert(rest[0] == conn_names[j as int]);
            assert(rest.subrange(1, rest.len() as int) =~= conn_names.subrange(
                j + 1,
                conn_names.len() as int,
            ));
        }
        j = j + 1;
    }
    proof {
        assert(conn_names.subrange(conn_names.len() as int, conn_names.len() as int)
            =~= Seq::<Seq<u8>>::empty());
        assert(out@ == remove_names_fold(copy_fold(Seq::empty(), hv), conn_names));
    }
    let warn = get_all_comma(h, ("warning").as_bytes());
    let kept = keep_warnings(&warn);
    proof {
        assert(kept@.map_values(|v: Vec<u8>| v@) == warning_entries_kept(hv));
    }
    let jw = crate::strutil::join(&kept);
    if jw.len() == 0 {
        out.remove_name(("warning").as_bytes());
    } else {
        proof {
            lemma_inserted_names_lowercase();
        }
        out.insert_pair(slice_to_vec(("warning").as_bytes()), jw);
    }
    out
}

fn keep_warnings(entries: &Vec<Vec<u8>>) -> (r: Vec<Vec<u8>>)
    ensures
        r@.map_values(|v: Vec<u8>| v@) == entries@.map_values(|v: Vec<u8>| v@).filter(
            |w: Seq<u8>| !(w.len() > 0 && w[0] == 0x31),
        ),
{
    let ghost es = entries@.map_values(|v: Vec<u8>| v@);
    let ghost pred = |w: Seq<u8>| !(w.len() > 0 && w[0] == 0x31);
    let mut out: Vec<Vec<u8>> = Vec::new();
    let mut i: usize = 0;
    proof {
        reveal(Seq::filter);
        assert(out@.map_values(|v: Vec<u8>| v@) =~= es.subrange(0, 0).filter(pred));
    }
    while i < entries.len()
        invariant
            0 <= i <= es.len(),
            es == entries@.map_values(|v: Vec<u8>| v@),
            pred == (|w: Seq<u8>| !(w.len() > 0 && w[0] == 0x31)),
            out@.map_values(|v: Vec<u8>| v@) =~= es.subrange(0, i as int).filter(pred),
        decreases es.len() - i,
    {
        let ghost old_out = out@.map_values(|v: Vec<u8>| v@);
        let e = &entries[i];
        if !(e.len() > 0 && e[0] == 0x31) {
            out.push(slice_to_vec(e.as_slice()));
        }
        proof {
            reveal(Seq::filter);
            let sub1 = es.subrange(0, i + 1);
            assert(sub1.drop_last() =~= es.subrange(0, i as int));
            assert(sub1.last() == es[i as int]);
            if pred(es[i as int]) {
                assert(out@.map_values(|v: Vec<u8>| v@) =~= old_out.push(es[i as int]));
            }
            assert(out@.map_values(|v: Vec<u8>| v@) =~= sub1.filter(pred));
        }
        i = i + 1;
    }
    proof {
        assert(es.subrange(0, es.len() as int) =~= es);
    }
    out
}

/// The warning a cache adds when it serves a response older than a day
/// under a heuristic lifetime longer than a day (RFC 7234 5.5.4).
pub open spec fn warn113_value() -> Seq<u8> {
    ("113 - \"rfc7234 5.5.4\"").spec_bytes()
}

pub open spec fn spec_warn113(p: PolicyView, now: u64) -> bool {
    spec_age(p, now) > 86400 && !spec_has_explicit_expiration(p) && spec_max_age(p) > 86400
}

/// The headers handed back with a cached response: hop-by-hop names
/// gone, a `113` warning when heuristic freshness is old, `Age` and
/// `Date` brought up to `now`.
pub open spec fn spec_cached_headers(p: PolicyView, now: u64) -> HView {
    let base = spec_copy_wo_hop(p.res);
    let b2 = if spec_warn113(p, now) {
        base.push((("warning").spec_bytes(), warn113_value()))
    } else {
        base
    };
    h_insert(
        h_insert(b2, ("age").spec_bytes(), crate::strutil::dec_spec(spec_age(p, now) as int)),
        ("date").spec_bytes(),
        crate::datetime::rfc2822_text(now as i64),
    )
}

pub open spec fn spec_cached_response(p: PolicyView, now: u64) -> RespView {
    RespView { status: p.status, headers: spec_cached_headers(p, now) }
}

/// One `Vary` entry is satisfied: it is not `*` and the new request
/// carries the same value for it as the stored request.
pub open spec fn vary_entry_ok(p: PolicyView, new_h: HView, e: Seq<u8>) -> bool {
    e != seq![0x2au8] && h_get(new_h, crate::strutil::lower_spec(e)) == h_get(
        p.req,
        crate::strutil::lower_spec(e),
    )
}

/// Every entry of the stored response's `Vary` is satisfied.
pub open spec fn spec_vary_matches(p: PolicyView, new_h: HView) -> bool {
    forall|i: int|
        0 <= i < comma_entries(p.res, ("vary").spec_bytes()).len() ==> vary_entry_ok(
            p,
            new_h,
            #[trigger] comma_entries(p.res, ("vary").spec_bytes())[i],
        )
}

/// URI, `Host` and `Vary` all match the stored request.
pub open spec fn spec_base_match(p: PolicyView, r: ReqView) -> bool {
    r.uri == p.uri && h_get(p.req, ("host").spec_bytes()) == h_get(
        r.headers,
        ("host").spec_bytes(),
    ) && spec_vary_matches(p, r.headers)
}

/// The stored response answers exactly this request.
pub open spec fn spec_exact_match(p: PolicyView, r: ReqView) -> bool {
    spec_base_match(p, r) && p.method == r.method
}

/// The stored response may answer this request after revalidation:
/// an exact match, or the same resource asked for with `HEAD`.
pub open spec fn spec_may_revalidate(p: PolicyView, r: ReqView) -> bool {
    spec_exact_match(p, r) || (spec_base_match(p, r) && r.method == ("HEAD").spec_bytes())
}

/// The new request's own `Cache-Control` directives.
pub open spec fn spec_request_cc(h: HView) -> CcView {
    cc_parse_spec(h_all(h, ("cache-control").spec_bytes()))
}

/// A stale response may still be served: the response does not demand
/// revalidation, the request carries `max-stale`, and any staleness
/// bound it gives is not yet exceeded.
pub open spec fn spec_allows_stale(p: PolicyView, rcc: CcView, now: u64) -> bool {
    &&& !cc_contains(p.res_cc, ("must-revalidate").spec_bytes())
    &&& cc_contains(rcc, ("max-stale").spec_bytes())
    &&& (match spec_dir_u64(rcc, ("max-stale").spec_bytes()) {
        Some(ms) => ms as int > spec_age(p, now) as int - spec_max_age(p) as int,
        None => true,
    })
}

/// The stored response satisfies the request without revalidation
/// (RFC 7234 4).
pub open spec fn spec_satisfies(p: PolicyView, req_h: HView, now: u64) -> bool {
    let rcc = spec_request_cc(req_h);
    &&& !cc_contains(rcc, ("no-cache").spec_bytes())
    &&& !pragma_no_cache(req_h)
    &&& (match spec_dir_u64(rcc, ("max-age").spec_bytes()) {
        Some(ma) => spec_age(p, now) <= ma,
        None => true,
    })
    &&& (match spec_dir_u64(rcc, ("min-fresh").spec_bytes()) {
        Some(mf) => spec_time_to_live(p, now) >= mf,
        None => true,
    })
    &&& (spec_is_stale(p, now) ==> spec_allows_stale(p, rcc, now))
}

/// The headers of the revalidation request sent for a stale entry:
/// forwardable headers only, no `If-Range`; for a storable entry the
/// stored `ETag` joins `If-None-Match`, and weak validators are dropped
/// when the method or the request forbids them, else `If-Modified-Since`
/// falls back to the stored `Last-Modified`.
pub open spec fn spec_revalidation_headers(p: PolicyView, in_h: HView) -> HView {
    let h1 = h_remove(spec_copy_wo_hop(in_h), ("if-range").spec_bytes());
    if !spec_is_storable(p) {
        h_remove(h_remove(h1, ("if-none-match").spec_bytes()), ("if-modified-since").spec_bytes())
    } else {
        let h2 = match h_get(p.res, ("etag").spec_bytes()) {
            Some(et) => h_insert(
                h1,
                ("if-none-match").spec_bytes(),
                join_spec(comma_entries(h1, ("if-none-match").spec_bytes()).push(et)),
            ),
            None => h1,
        };
        let forbids = p.method != ("GET").spec_bytes() || h_contains(
            h2,
            ("accept-ranges").spec_bytes(),
        ) || h_contains(h2, ("if-match").spec_bytes()) || h_contains(
            h2,
            ("if-unmodified-since").spec_bytes(),
        );
        if forbids {
            let h3 = h_remove(h2, ("if-modified-since").spec_bytes());
            let kept = comma_entries(h3, ("if-none-match").spec_bytes()).filter(
                |e: Seq<u8>| !crate::strutil::starts_with_spec(e, ("W/").spec_bytes()),
            );
            let je = join_spec(kept);
            if je.len() == 0 {
                h_remove(h3, ("if-none-match").spec_bytes())
            } else {
                h_insert(h3, ("if-none-match").spec_bytes(), je)
            }
        } else {
            if !h_contains(h2, ("if-modified-since").spec_bytes()) {
                match h_get(p.res, ("last-modified").spec_bytes()) {
                    Some(lm) => h_insert(h2, ("if-modified-since").spec_bytes(), lm),
                    None => h2,
                }
            } else {
                h2
            }
        }
    }
}

/// The headers forwarded when the stored entry cannot serve this
/// request at all: forwardable headers with the validators removed.
pub open spec fn spec_miss_headers(req_h: HView) -> HView {
    h_remove(
        h_remove(spec_copy_wo_hop(req_h), ("if-none-match").spec_bytes()),
        ("if-modified-since").spec_bytes(),
    )
}

/// What `before_request` decides for a policy, a request and a time.
pub open spec fn spec_before_request_fresh(p: PolicyView, r: ReqView, now: u64) -> bool {
    spec_exact_match(p, r) && spec_satisfies(p, r.headers, now)
}

/// The request handed back with a `Stale` outcome.
pub open spec fn spec_stale_request(p: PolicyView, r: ReqView) -> ReqView {
    ReqView {
        method: p.method,
        uri: p.uri,
        headers: if spec_may_revalidate(p, r) {
            spec_revalidation_headers(p, r.headers)
        } else {
            spec_miss_headers(r.headers)
        },
    }
}

/// What `before_request` answers.
pub enum BeforeRequest {
    /// The stored response can be served; these are its headers,
    /// brought up to date.
    Fresh(Response),
    /// The server must be asked first, with this request.
    Stale {
        /// The request to send, with revalidation headers added or
        /// stripped as appropriate.
        request: Request,
        /// Whether the stored entry answers this request at all.
        matches: bool,
    },
}

impl BeforeRequest {
    /// Whether the cached response can be used without contacting the
    /// server.
    pub fn satisfies_without_revalidation(&self) -> (r: bool)
        ensures
            r == (self is Fresh),
    {
        match self {
            BeforeRequest::Fresh(_) => true,
            _ => false,
        }
    }
}

fn opt_vec_eq(a: &Option<Vec<u8>>, b: &Option<Vec<u8>>) -> (r: bool)
    ensures
        r == (match (a, b) {
            (Some(x), Some(y)) => x@ == y@,
            (None, None) => true,
            _ => false,
        }),
{
    match (a, b) {
        (Some(x), Some(y)) => crate::strutil::bytes_eq(x.as_slice(), y.as_slice()),
        (None, None) => true,
        _ => false,
    }
}

impl CachePolicy {
    fn vary_matches(&self, req_h: &Headers) -> (r: bool)
        ensures
            r == spec_vary_matches(self@, req_h@),
    {
        let entries = get_all_comma(&self.res, ("vary").as_bytes());
        let ghost es = comma_entries(self@.res, ("vary").spec_bytes());
        let mut i: usize = 0;
        while i < entries.len()
            invariant
                0 <= i <= es.len(),
                entries@.map_values(|v: Vec<u8>| v@) == es,
                es == comma_entries(self@.res, ("vary").spec_bytes()),
                forall|j: int| 0 <= j < i ==> vary_entry_ok(self@, req_h@, #[trigger] es[j]),
            decreases es.len() - i,
        {
            let e = &entries[i];
            if e.len() == 1 && e[0] == 0x2a {
                proof {
                    assert(es[i as int] =~= seq![0x2au8]);
                    assert(!vary_entry_ok(self@, req_h@, es[i as int]));
                }
                return false;
            }
            let le = crate::strutil::lower(e.as_slice());
            let mine = self.req.get_first(le.as_slice());
            let theirs = req_h.get_first(le.as_slice());
            if !opt_vec_eq(&theirs, &mine) {
                proof {
                    assert(es[i as int] != seq![0x2au8]);
                    assert(!vary_entry_ok(self@, req_h@, es[i as int]));
                }
                return false;
            }
            proof {
                assert(vary_entry_ok(self@, req_h@, es[i as int]));
            }
            i = i + 1;
        }
        true
    }

    fn request_matches(&self, req: &Request) -> (r: (bool, bool))
        ensures
            r.0 == spec_exact_match(self@, req@),
            r.1 == spec_may_revalidate(self@, req@),
    {
        let uri_ok = crate::strutil::bytes_eq(req.uri().as_slice(), self.uri.as_slice());
        let mine = self.req.get_first(("host").as_bytes());
        let theirs = req.headers().get_first(("host").as_bytes());
        let host_ok = opt_vec_eq(&mine, &theirs);
        let base = uri_ok && host_ok && self.vary_matches(req.headers());
        let exact = base && crate::strutil::bytes_eq(req.method().as_slice(),
            self.method.as_slice());
        let may = exact || (base && crate::strutil::bytes_eq(
            req.method().as_slice(),
            ("HEAD").as_bytes(),
        ));
        (exact, may)
    }

    fn satisfies_without_revalidation_now(&self, req_h: &Headers, now: u64) -> (r: bool)
        ensures
            r == spec_satisfies(self@, req_h@, now),
    {
        let vals = req_h.get_all_vals(("cache-control").as_bytes());
        let rcc = CacheControl::parse(&vals);
        if rcc.contains_key(("no-cache").as_bytes()) || pragma_no_cache_exec(req_h) {
            return false;
        }
        match dir_u64(&rcc, ("max-age").as_bytes()) {
            Some(ma) => {
                if self.age(now) > ma {
                    return false;
                }
            },
            None => {},
        }
        match dir_u64(&rcc, ("min-fresh").as_bytes()) {
            Some(mf) => {
                if self.time_to_live(now) < mf {
                    return false;
                }
            },
            None => {},
        }
        if self.is_stale(now) {
            let has_max_stale = rcc.contains_key(("max-stale").as_bytes());
            if !has_max_stale || self.res_cc.contains_key(("must-revalidate").as_bytes()) {
                return false;
            }
            match dir_u64(&rcc, ("max-stale").as_bytes()) {
                Some(ms) => {
                    let over = self.age(now) - self.max_age();
                    if ms <= over {
                        return false;
                    }
                },
                None => {},
            }
        }
        true
    }

    fn cached_response(&self, now: u64) -> (r: Response)
        ensures
            r@ == spec_cached_response(self@, now),
            policy_wf(self@) ==> h_wf(r@.headers),
    {
        let mut headers = copy_without_hop_by_hop(&self.res);
        let age = self.age(now);
        if age > 86400 && !self.has_explicit_expiration() && self.max_age() > 86400 {
            proof {
                lemma_inserted_names_lowercase();
            }
            headers.push_pair(
                slice_to_vec(("warning").as_bytes()),
                slice_to_vec(("113 - \"rfc7234 5.5.4\"").as_bytes()),
            );
        }
        proof {
            lemma_inserted_names_lowercase();
        }
        headers.insert_pair(slice_to_vec(("age").as_bytes()), crate::strutil::u64_to_dec(age));
        headers.insert_pair(
            slice_to_vec(("date").as_bytes()),
            crate::datetime::format_rfc2822(now as i64),
        );
        Response::new(self.status, headers)
    }

    fn revalidation_request(&self, req: &Request) -> (r: Request)
        ensures
            r@.method == self@.method,
            r@.uri == self@.uri,
            r@.headers == spec_revalidation_headers(self@, req@.headers),
    {
        let mut headers = copy_without_hop_by_hop(req.headers());
        headers.remove_name(("if-range").as_bytes());
        if !self.is_storable() {
            headers.remove_name(("if-none-match").as_bytes());
            headers.remove_name(("if-modified-since").as_bytes());
            return Request {
                method: slice_to_vec(self.method.as_slice()),
                uri: slice_to_vec(self.uri.as_slice()),
                headers: headers,
            };
        }
        match self.res.get_first(("etag").as_bytes()) {
            Some(et) => {
                let mut entries = get_all_comma(&headers, ("if-none-match").as_bytes());
                let ghost before = entries@.map_values(|v: Vec<u8>| v@);
                entries.push(et);
                proof {
                    assert(entries@.map_values(|v: Vec<u8>| v@) =~= before.push(
                        entries@.last()@,
                    ));
                }
                let joined = crate::strutil::join(&entries);
                proof {
                    lemma_inserted_names_lowercase();
                }
                headers.insert_pair(slice_to_vec(("if-none-match").as_bytes()), joined);
            },
            None => {},
        }
        let forbids = !crate::strutil::bytes_eq(self.method.as_slice(), ("GET").as_bytes())
            || headers.contains_name(("accept-ranges").as_bytes()) || headers.contains_name(
            ("if-match").as_bytes(),
        ) || headers.contains_name(("if-unmodified-since").as_bytes());
        if forbids {
            headers.remove_name(("if-modified-since").as_bytes());
            let entries = get_all_comma(&headers, ("if-none-match").as_bytes());
            let kept = keep_strong_etags(&entries);
            let je = crate::strutil::join(&kept);
            if je.len() == 0 {
                headers.remove_name(("if-none-match").as_bytes());
            } else {
                proof {
                    lemma_inserted_names_lowercase();
                }
                headers.insert_pair(slice_to_vec(("if-none-match").as_bytes()), je);
            }
        } else {
            if !headers.contains_name(("if-modified-since").as_bytes()) {
                match self.res.get_first(("last-modified").as_bytes()) {
                    Some(lm) => {
                        proof {
                            lemma_inserted_names_lowercase();
                        }
                        headers.insert_pair(slice_to_vec(("if-modified-since").as_bytes()), lm);
                    },
                    None => {},
                }
            }
        }
        Request {
            method: slice_to_vec(self.method.as_slice()),
            uri: slice_to_vec(self.uri.as_slice()),
            headers: headers,
        }
    }

    /// Decide whether the stored response still answers this request at
    /// `now`: serve it from cache (`Fresh`, with adjusted response
    /// headers), or hand back the request to send to the origin
    /// (`Stale`, with revalidation headers when the entry matches).
    pub fn before_request(&self, req: &Request, now: u64) -> (r: BeforeRequest)
        ensures
            (match r {
                BeforeRequest::Fresh(res) => spec_before_request_fresh(self@, req@, now) && res@
                    == spec_cached_response(self@, now),
                BeforeRequest::Stale { request, matches } => {
                    &&& !spec_before_request_fresh(self@, req@, now)
                    &&& matches == spec_exact_match(self@, req@)
                    &&& request@ == spec_stale_request(self@, req@)
                },
            }),
    {
        let (exact, may) = self.request_matches(req);
        if exact && self.satisfies_without_revalidation_now(req.headers(), now) {
            BeforeRequest::Fresh(self.cached_response(now))
        } else if may {
            BeforeRequest::Stale { request: self.revalidation_request(req), matches: exact }
        } else {
            let mut headers = copy_without_hop_by_hop(req.headers());
            headers.remove_name(("if-none-match").as_bytes());
            headers.remove_name(("if-modified-since").as_bytes());
            BeforeRequest::Stale {
                request: Request {
                    method: slice_to_vec(self.method.as_slice()),
                    uri: slice_to_vec(self.uri.as_slice()),
                    headers: headers,
                },
                matches: exact,
            }
        }
    }
}

fn keep_strong_etags(entries: &Vec<Vec<u8>>) -> (r: Vec<Vec<u8>>)
    ensures
        r@.map_values(|v: Vec<u8>| v@) == entries@.map_values(|v: Vec<u8>| v@).filter(
            |e: Seq<u8>| !crate::strutil::starts_with_spec(e, ("W/").spec_bytes()),
        ),
{
    let ghost es = entries@.map_values(|v: Vec<u8>| v@);
    let ghost pred = |e: Seq<u8>| !crate::strutil::starts_with_spec(e, ("W/").spec_bytes());
    let mut out: Vec<Vec<u8>> = Vec::new();
    let mut i: usize = 0;
    proof {
        reveal(Seq::filter);
        assert(out@.map_values(|v: Vec<u8>| v@) =~= es.subrange(0, 0).filter(pred));
    }
    while i < entries.len()
        invariant
            0 <= i <= es.len(),
            es == entries@.map_values(|v: Vec<u8>| v@),
            pred == (|e: Seq<u8>| !crate::strutil::starts_with_spec(e, ("W/").spec_bytes())),
            out@.map_values(|v: Vec<u8>| v@) =~= es.subrange(0, i as int).filter(pred),
        decreases es.len() - i,
    {
        let ghost old_out = out@.map_values(|v: Vec<u8>| v@);
        let e = &entries[i];
        if !crate::strutil::starts_with(e.as_slice(), ("W/").as_bytes()) {
            out.push(slice_to_vec(e.as_slice()));
        }
        proof {
            reveal(Seq::filter);
            let sub1 = es.subrange(0, i + 1);
            assert(sub1.drop_last() =~= es.subrange(0, i as int));
            assert(sub1.last() == es[i as int]);
            if pred(es[i as int]) {
                assert(out@.map_values(|v: Vec<u8>| v@) =~= old_out.push(es[i as int]));
            }
            assert(out@.map_values(|v: Vec<u8>| v@) =~= sub1.filter(pred));
        }
        i = i + 1;
    }
    proof {
        assert(es.subrange(0, es.len() as int) =~= es);
    }
    out
}

/// Headers that describe the stored body and are never taken from a
/// `304` response.
pub open spec fn excluded_from_update(n: Seq<u8>) -> bool {
    n == ("content-length").spec_bytes() || n == ("content-encoding").spec_bytes() || n == (
    "transfer-encoding"
    ).spec_bytes() || n == ("content-range").spec_bytes()
}

fn excluded_from_update_exec(n: &[u8]) -> (r: bool)
    ensures
        r == excluded_from_update(n@),
{
    crate::strutil::bytes_eq(n, ("content-length").as_bytes()) || crate::strutil::bytes_eq(
        n,
        ("content-encoding").as_bytes(),
    ) || crate::strutil::bytes_eq(n, ("transfer-encoding").as_bytes())
        || crate::strutil::bytes_eq(n, ("content-range").as_bytes())
}

/// An `ETag` with every leading weakness marker removed.
pub open spec fn strip_w(s: Seq<u8>) -> Seq<u8> {
    crate::strutil::strip_prefix_all_spec(s, ("W/").spec_bytes())
}

pub open spec fn opt_trim(v: Option<Seq<u8>>) -> Option<Seq<u8>> {
    match v {
        None => None,
        Some(x) => Some(trim_spec(x)),
    }
}

/// The revalidation response updates the stored entry: a `304` whose
/// validators correspond to the stored ones (RFC 7234 4.3.4).
pub open spec fn spec_after_matches(p: PolicyView, rs: RespView) -> bool {
    let old_etag = opt_trim(h_get(p.res, ("etag").spec_bytes()));
    let new_etag = opt_trim(h_get(rs.headers, ("etag").spec_bytes()));
    let old_lm = opt_trim(h_get(p.res, ("last-modified").spec_bytes()));
    let new_lm = opt_trim(h_get(rs.headers, ("last-modified").spec_bytes()));
    if rs.status != 304 {
        false
    } else if (match new_etag {
        Some(e) => !crate::strutil::starts_with_spec(e, ("W/").spec_bytes()),
        None => false,
    }) {
        (match old_etag {
            Some(o) => Some(strip_w(o)),
            None => None,
        }) == new_etag
    } else if old_etag is Some && new_etag is Some {
        strip_w(old_etag->Some_0) == strip_w(new_etag->Some_0)
    } else if old_lm is Some {
        old_lm == new_lm
    } else {
        old_etag is None && new_etag is None && new_lm is None
    }
}

/// The stored headers updated from a matching `304`: each stored name
/// takes the new response's value, unless the name describes the body,
/// which the `304` did not carry.
pub open spec fn merge_fold(acc: HView, stored: HView, new_h: HView) -> HView
    decreases stored.len(),
{
    if stored.len() == 0 {
        acc
    } else {
        let name = stored[0].0;
        let acc1 = match h_get(new_h, name) {
            Some(nv) => if !excluded_from_update(name) {
                h_insert(acc, name, nv)
            } else {
                h_insert(acc, name, stored[0].1)
            },
            None => h_insert(acc, name, stored[0].1),
        };
        merge_fold(acc1, stored.subrange(1, stored.len() as int), new_h)
    }
}

/// The headers the new policy is built from after revalidation.
pub open spec fn spec_after_headers(p: PolicyView, rs: RespView) -> HView {
    if spec_after_matches(p, rs) {
        merge_fold(Seq::empty(), p.res, rs.headers)
    } else {
        rs.headers
    }
}

/// The status the new policy is built with after revalidation.
pub open spec fn spec_after_status(p: PolicyView, rs: RespView) -> u16 {
    if spec_after_matches(p, rs) {
        p.status
    } else {
        rs.status
    }
}

/// The policy that replaces the stored one after revalidation.
pub open spec fn spec_after_policy(
    p: PolicyView,
    rq: ReqView,
    rs: RespView,
    response_time: u64,
) -> PolicyView {
    spec_from_details(
        rq.method,
        rq.uri,
        spec_after_status(p, rs),
        rq.headers,
        spec_after_headers(p, rs),
        response_time,
        p.opts,
    )
}

/// What `after_response` answers: the new policy and the response view
/// to hand to the client.
pub enum AfterResponse {
    /// The stored body may be reused, with these updated headers.
    NotModified(CachePolicy, Response),
    /// The body has changed: store the new response instead.
    Modified(CachePolicy, Response),
}

impl CachePolicy {
    fn merged_headers(&self, new_h: &Headers) -> (r: Headers)
        ensures
            r@ == merge_fold(Seq::empty(), self@.res, new_h@),
            h_wf(self@.res) ==> h_wf(r@),
    {
        let ghost stored = self@.res;
        let mut out = Headers::new();
        let mut i: usize = 0;
        proof {
            assert(stored.subrange(0, stored.len() as int) =~= stored);
        }
        while i < self.res.len()
            invariant
                0 <= i <= stored.len(),
                stored == self@.res,
                merge_fold(Seq::empty(), stored, new_h@) == merge_fold(
                    out@,
                    stored.subrange(i as int, stored.len() as int),
                    new_h@,
                ),
                h_wf(stored) ==> h_wf(out@),
            decreases stored.len() - i,
        {
            let ghost rest = stored.subrange(i as int, stored.len() as int);
            let p = self.res.pair_at(i);
            let name = slice_to_vec(p.0.as_slice());
            proof {
                if h_wf(stored) {
                    assert(stored[i as int].0 == crate::strutil::lower_spec(stored[i as int].0));
                }
            }
            match new_h.get_first(name.as_slice()) {
                Some(nv) => {
                    if !excluded_from_update_exec(name.as_slice()) {
                        out.insert_pair(name, nv);
                    } else {
                        out.insert_pair(name, slice_to_vec(p.1.as_slice()));
                    }
                },
                None => {
                    out.insert_pair(name, slice_to_vec(p.1.as_slice()));
                },
            }
            proof {
                assert(rest[0] == stored[i as int]);
                assert(rest.subrange(1, rest.len() as int) =~= stored.subrange(
                    i + 1,
                    stored.len() as int,
                ));
            }
            i = i + 1;
        }
        proof {
            assert(stored.subrange(stored.len() as int, stored.len() as int) =~= Seq::<(
                Seq<u8>,
                Seq<u8>,
            )>::empty());
        }
        out
    }

    fn after_matches(&self, response: &Response) -> (r: bool)
        ensures
            r == spec_after_matches(self@, response@),
    {
        if response.status() != 304 {
            return false;
        }
        let old_etag = opt_trim_exec(self.res.get_first(("etag").as_bytes()));
        let new_etag = opt_trim_exec(response.headers().get_first(("etag").as_bytes()));
        let old_lm = opt_trim_exec(self.res.get_first(("last-modified").as_bytes()));
        let new_lm = opt_trim_exec(response.headers().get_first(("last-modified").as_bytes()));
        let new_strong = match &new_etag {
            Some(e) => !crate::strutil::starts_with(e.as_slice(), ("W/").as_bytes()),
            None => false,
        };
        if new_strong {
            match (&old_etag, &new_etag) {
                (Some(o), Some(n)) => {
                    let so = crate::strutil::strip_prefix_all(o.as_slice(), ("W/").as_bytes());
                    crate::strutil::bytes_eq(so.as_slice(), n.as_slice())
                },
                _ => false,
            }
        } else if old_etag.is_some() && new_etag.is_some() {
            match (&old_etag, &new_etag) {
                (Some(o), Some(n)) => {
                    let so = crate::strutil::strip_prefix_all(o.as_slice(), ("W/").as_bytes());
                    let sn = crate::strutil::strip_prefix_all(n.as_slice(), ("W/").as_bytes());
                    crate::strutil::bytes_eq(so.as_slice(), sn.as_slice())
                },
                _ => false,
            }
        } else if old_lm.is_some() {
            opt_vec_eq(&old_lm, &new_lm)
        } else {
            old_etag.is_none() && new_etag.is_none() && new_lm.is_none()
        }
    }

    /// Fold the origin's revalidation response into the stored entry:
    /// a matching `304` keeps the stored body under updated headers
    /// (`NotModified`); anything else replaces it (`Modified`). Either
    /// way the new policy and the response headers to serve are
    /// returned.
    pub fn after_response(
        &self,
        request: &Request,
        response: &Response,
        response_time: u64,
    ) -> (r: AfterResponse)
        ensures
            (match r {
                AfterResponse::NotModified(p2, res) => {
                    &&& spec_after_matches(self@, response@)
                    &&& p2@ == spec_after_policy(self@, request@, response@, response_time)
                    &&& res@ == spec_cached_response(
                        spec_after_policy(self@, request@, response@, response_time),
                        response_time,
                    )
                },
                AfterResponse::Modified(p2, res) => {
                    &&& !spec_after_matches(self@, response@)
                    &&& p2@ == spec_after_policy(self@, request@, response@, response_time)
                    &&& res@ == spec_cached_response(
                        spec_after_policy(self@, request@, response@, response_time),
                        response_time,
                    )
                },
            }),
    {
        let matches = self.after_matches(response);
        let new_headers = if matches {
            self.merged_headers(response.headers())
        } else {
            response.headers().duplicate()
        };
        let new_status = if matches {
            self.status
        } else {
            response.status()
        };
        let new_policy = CachePolicy::from_details(
            slice_to_vec(request.method().as_slice()),
            slice_to_vec(request.uri().as_slice()),
            new_status,
            request.headers().duplicate(),
            new_headers,
            response_time,
            self.opts,
        );
        let new_response = new_policy.cached_response(response_time);
        if matches {
            AfterResponse::NotModified(new_policy, new_response)
        } else {
            AfterResponse::Modified(new_policy, new_response)
        }
    }
}

fn opt_trim_exec(v: Option<Vec<u8>>) -> (r: Option<Vec<u8>>)
    ensures
        opt_view(r) == opt_trim(opt_view(v)),
{
    match v {
        None => None,
        Some(x) => Some(trim(x.as_slice())),
    }
}

/// The names the engine writes into header maps are already lower case.
proof fn lemma_inserted_names_lowercase()
    ensures
        ("cache-control").spec_bytes() == crate::strutil::lower_spec(
            ("cache-control").spec_bytes(),
        ),
        ("warning").spec_bytes() == crate::strutil::lower_spec(("warning").spec_bytes()),
        ("age").spec_bytes() == crate::strutil::lower_spec(("age").spec_bytes()),
        ("date").spec_bytes() == crate::strutil::lower_spec(("date").spec_bytes()),
        ("if-none-match").spec_bytes() == crate::strutil::lower_spec(
            ("if-none-match").spec_bytes(),
        ),
        ("if-modified-since").spec_bytes() == crate::strutil::lower_spec(
            ("if-modified-since").spec_bytes(),
        ),
{
    broadcast use vstd::string::group_string_axioms;

    reveal_strlit("cache-control");
    reveal_strlit("warning");
    reveal_strlit("age");
    reveal_strlit("date");
    reveal_strlit("if-none-match");
    reveal_strlit("if-modified-since");
    assert(vstd::string::is_ascii("cache-control"));
    assert(vstd::string::is_ascii("warning"));
    assert(vstd::string::is_ascii("age"));
    assert(vstd::string::is_ascii("date"));
    assert(vstd::string::is_ascii("if-none-match"));
    assert(vstd::string::is_ascii("if-modified-since"));
    assert(("cache-control").spec_bytes() =~= crate::strutil::lower_spec(
        ("cache-control").spec_bytes(),
    ));
    assert(("warning").spec_bytes() =~= crate::strutil::lower_spec(("warning").spec_bytes()));
    assert(("age").spec_bytes() =~= crate::strutil::lower_spec(("age").spec_bytes()));
    assert(("date").spec_bytes() =~= crate::strutil::lower_spec(("date").spec_bytes()));
    assert(("if-none-match").spec_bytes() =~= crate::strutil::lower_spec(
        ("if-none-match").spec_bytes(),
    ));
    assert(("if-modified-since").spec_bytes() =~= crate::strutil::lower_spec(
        ("if-modified-since").spec_bytes(),
    ));
}

} // verus!
