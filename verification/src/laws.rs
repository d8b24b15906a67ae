//! The engine's quantified guarantees, stated and proved once for every
//! policy: how age, freshness lifetime and staleness relate; what a
//! non-storable policy can never yield; what a `Fresh` answer implies;
//! and what the served headers always look like.

use vstd::prelude::*;
use vstd::string::StringSliceAdditionalSpecFns;
use crate::cachecontrol::cc_contains;
use crate::headers::h_contains;
use crate::headers::lemma_h_insert_contains;
use crate::headers::lemma_h_remove_contains;
use crate::headers::lemma_h_remove_keeps;
use crate::headers::HView;
use crate::policy::comma_entries;
use crate::policy::copy_fold;
use crate::policy::is_hop;
use crate::policy::remove_names_fold;
use crate::policy::spec_age;
use crate::policy::spec_before_request_fresh;
use crate::policy::spec_cached_headers;
use crate::policy::spec_copy_wo_hop;
use crate::policy::spec_is_stale;
use crate::policy::spec_is_storable;
use crate::policy::spec_max_age;
use crate::policy::spec_request_cc;
use crate::policy::spec_satisfies;
use crate::policy::spec_time_to_live;
use crate::policy::PolicyView;
use crate::policy::ReqView;

verus! {

/// A response only grows older: between two instants at or after the
/// response was received, its age never decreases, and it never falls
/// below what the `Age` header already said.
pub proof fn lemma_age_monotonic(p: PolicyView, t1: u64, t2: u64)
    requires
        p.response_time <= t1 <= t2,
    ensures
        spec_age(p, t1) <= spec_age(p, t2),
        spec_age(p, t1) >= crate::policy::spec_age_header_value(p),
{
}

/// Whatever is left to live plus what has passed covers the freshness
/// lifetime; exactly, as long as the age has not overrun it.
pub proof fn lemma_ttl_age_cover_max_age(p: PolicyView, t: u64)
    ensures
        spec_time_to_live(p, t) + spec_age(p, t) >= spec_max_age(p),
        spec_age(p, t) <= spec_max_age(p) ==> spec_time_to_live(p, t) + spec_age(p, t)
            == spec_max_age(p),
{
}

/// A response is stale exactly when nothing is left to live.
pub proof fn lemma_stale_iff_no_ttl(p: PolicyView, t: u64)
    ensures
        spec_is_stale(p, t) <==> spec_time_to_live(p, t) == 0,
{
}

/// A policy that may not be stored has no freshness lifetime and never
/// anything left to live.
pub proof fn lemma_not_storable_never_fresh(p: PolicyView, t: u64)
    requires
        !spec_is_storable(p),
    ensures
        spec_max_age(p) == 0,
        spec_time_to_live(p, t) == 0,
{
}

/// A `Fresh` answer is only given while the response is not stale, or
/// when the request allowed staleness with `max-stale` and the response
/// did not forbid it with `must-revalidate`.
pub proof fn lemma_fresh_means_usable(p: PolicyView, r: ReqView, now: u64)
    requires
        spec_before_request_fresh(p, r, now),
    ensures
        !spec_is_stale(p, now) || (cc_contains(
            spec_request_cc(r.headers),
            ("max-stale").spec_bytes(),
        ) && !cc_contains(p.res_cc, ("must-revalidate").spec_bytes())),
{
    assert(spec_satisfies(p, r.headers, now));
}

proof fn lemma_copy_fold_no_hop(acc: HView, h: HView, n: Seq<u8>)
    requires
        is_hop(n),
        !h_contains(acc, n),
    ensures
        !h_contains(copy_fold(acc, h), n),
    decreases h.len(),
{
    if h.len() > 0 {
        let acc1 = if is_hop(h[0].0) {
            acc
        } else {
            crate::headers::h_insert(acc, h[0].0, h[0].1)
        };
        if !is_hop(h[0].0) {
            lemma_h_insert_contains(acc, h[0].0, h[0].1, n);
        }
        lemma_copy_fold_no_hop(acc1, h.subrange(1, h.len() as int), n);
    }
}

proof fn lemma_remove_names_keeps_absent(h: HView, names: Seq<Seq<u8>>, n: Seq<u8>)
    requires
        !h_contains(h, n),
    ensures
        !h_contains(remove_names_fold(h, names), n),
    decreases names.len(),
{
    if names.len() > 0 {
        let h1 = crate::headers::h_remove(h, crate::strutil::lower_spec(names[0]));
        lemma_h_remove_contains(h, crate::strutil::lower_spec(names[0]), n);
        lemma_remove_names_keeps_absent(h1, names.subrange(1, names.len() as int), n);
    }
}

proof fn lemma_literals_apart()
    ensures
        !is_hop(("age").spec_bytes()),
        !is_hop(("warning").spec_bytes()),
        ("age").spec_bytes() != ("date").spec_bytes(),
{
    broadcast use vstd::string::group_string_axioms;

    reveal_strlit("age");
    reveal_strlit("warning");
    reveal_strlit("date");
    reveal_strlit("connection");
    reveal_strlit("keep-alive");
    reveal_strlit("proxy-authenticate");
    reveal_strlit("proxy-authorization");
    reveal_strlit("te");
    reveal_strlit("trailer");
    reveal_strlit("transfer-encoding");
    reveal_strlit("upgrade");
    assert(vstd::string::is_ascii("age"));
    assert(vstd::string::is_ascii("warning"));
    assert(vstd::string::is_ascii("date"));
    assert(vstd::string::is_ascii("connection"));
    assert(vstd::string::is_ascii("keep-alive"));
    assert(vstd::string::is_ascii("proxy-authenticate"));
    assert(vstd::string::is_ascii("proxy-authorization"));
    assert(vstd::string::is_ascii("te"));
    assert(vstd::string::is_ascii("trailer"));
    assert(vstd::string::is_ascii("transfer-encoding"));
    assert(vstd::string::is_ascii("upgrade"));
    assert(("age").spec_bytes().len() == 3);
    assert(("date").spec_bytes().len() == 4);
    assert(("warning").spec_bytes().len() == 7);
    assert(("connection").spec_bytes().len() == 10);
    assert(("keep-alive").spec_bytes().len() == 10);
    assert(("proxy-authenticate").spec_bytes().len() == 18);
    assert(("proxy-authorization").spec_bytes().len() == 19);
    assert(("te").spec_bytes().len() == 2);
    assert(("trailer").spec_bytes().len() == 7);
    assert(("transfer-encoding").spec_bytes().len() == 17);
    assert(("upgrade").spec_bytes().len() == 7);
    assert(("warning").spec_bytes()[0] == 0x77);
    assert(("trailer").spec_bytes()[0] == 0x74);
    assert(("upgrade").spec_bytes()[0] == 0x75);
    assert(("age").spec_bytes()[0] == 0x61);
}

/// The headers served with a cached response never hold a hop-by-hop
/// name — except `Date`, which the cache itself rewrites — and always
/// hold `Age` and `Date`.
pub proof fn lemma_cached_headers_clean(p: PolicyView, now: u64)
    ensures
        forall|n: Seq<u8>|
            is_hop(n) && n != ("date").spec_bytes() ==> !h_contains(
                #[trigger] spec_cached_headers(p, now),
                n,
            ),
        h_contains(spec_cached_headers(p, now), ("age").spec_bytes()),
        h_contains(spec_cached_headers(p, now), ("date").spec_bytes()),
{
    lemma_literals_apart();
    let base = spec_copy_wo_hop(p.res);
    let b2 = if crate::policy::spec_warn113(p, now) {
        base.push((("warning").spec_bytes(), crate::policy::warn113_value()))
    } else {
        base
    };
    let b3 = crate::headers::h_insert(
        b2,
        ("age").spec_bytes(),
        crate::strutil::dec_spec(spec_age(p, now) as int),
    );
    let b4 = crate::headers::h_insert(
        b3,
        ("date").spec_bytes(),
        crate::datetime::rfc2822_text(now as i64),
    );
    assert(spec_cached_headers(p, now) == b4);
    lemma_h_insert_contains(b3, ("date").spec_bytes(), crate::datetime::rfc2822_text(now as i64),
        ("age").spec_bytes());
    lemma_h_insert_contains(b2, ("age").spec_bytes(),
        crate::strutil::dec_spec(spec_age(p, now) as int), ("age").spec_bytes());
    assert forall|n: Seq<u8>| is_hop(n) && n != ("date").spec_bytes() implies !h_contains(
        #[trigger] spec_cached_headers(p, now),
        n,
    ) by {
        let cf = copy_fold(Seq::empty(), p.res);
        lemma_copy_fold_no_hop(Seq::empty(), p.res, n);
        lemma_remove_names_keeps_absent(
            cf,
            comma_entries(p.res, ("connection").spec_bytes()),
            n,
        );
        let rn = remove_names_fold(cf, comma_entries(p.res, ("connection").spec_bytes()));
        let jw = crate::strutil::join_spec(crate::policy::warning_entries_kept(p.res));
        if jw.len() == 0 {
            lemma_h_remove_contains(rn, ("warning").spec_bytes(), n);
        } else {
            lemma_h_insert_contains(rn, ("warning").spec_bytes(), jw, n);
        }
        assert(!h_contains(base, n));
        if crate::policy::spec_warn113(p, now) {
            if h_contains(b2, n) {
                let i = choose|i: int| 0 <= i < b2.len() && b2[i].0 == n;
                if i < base.len() {
                    assert(h_contains(base, n));
                } else {
                    assert(b2[i].0 == ("warning").spec_bytes());
                }
            }
        }
        lemma_h_insert_contains(b2, ("age").spec_bytes(),
            crate::strutil::dec_spec(spec_age(p, now) as int), n);
        lemma_h_insert_contains(b3, ("date").spec_bytes(),
            crate::datetime::rfc2822_text(now as i64), n);
    }
}

} // verus!
