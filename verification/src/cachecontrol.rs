//! `Cache-Control` directives: a map from a lower-case directive name to an
//! optional unquoted value, folded from every value of the header.
//!
//! When a name reappears with a different value the whole header is
//! considered invalid and an implicit `must-revalidate` directive is
//! synthesized, which forces revalidation later.

use vstd::prelude::*;
use vstd::slice::slice_to_vec;
use vstd::string::StringSliceAdditionalSpecFns;
use crate::strutil::bytes_eq;
use crate::strutil::comma_space;
use crate::strutil::find_idx;
use crate::strutil::is_ws;
use crate::strutil::join_spec;
use crate::strutil::lemma_find_idx;
use crate::strutil::lemma_find_idx_is;
use crate::strutil::lower;
use crate::strutil::lower_spec;
use crate::strutil::needs_quote;
use crate::strutil::needs_quote_spec;
use crate::strutil::split;
use crate::strutil::split_spec;
use crate::strutil::trim;
use crate::strutil::trim_spec;
use crate::strutil::unquote;
use crate::strutil::unquote_spec;

verus! {

/// The view of a directive map: name/value pairs, names unique.
pub type CcView = Seq<(Seq<u8>, Option<Seq<u8>>)>;

/// The view of an optional byte string.
pub open spec fn opt_view(v: Option<Vec<u8>>) -> Option<Seq<u8>> {
    match v {
        None => None,
        Some(x) => Some(x@),
    }
}

/// The value stored under `k`, if the directive is present.
pub open spec fn cc_get(cc: CcView, k: Seq<u8>) -> Option<Option<Seq<u8>>>
    decreases cc.len(),
{
    if cc.len() == 0 {
        None
    } else if cc[0].0 == k {
        Some(cc[0].1)
    } else {
        cc_get(cc.subrange(1, cc.len() as int), k)
    }
}

/// Whether the directive `k` is present.
pub open spec fn cc_contains(cc: CcView, k: Seq<u8>) -> bool {
    cc_get(cc, k) is Some
}

/// The map with the directive `k` removed.
pub open spec fn cc_remove(cc: CcView, k: Seq<u8>) -> CcView {
    cc.filter(|p: (Seq<u8>, Option<Seq<u8>>)| p.0 != k)
}

/// The map with `k` set to `v`: replaced in place when present,
/// appended otherwise.
pub open spec fn cc_set(cc: CcView, k: Seq<u8>, v: Option<Seq<u8>>) -> CcView
    decreases cc.len(),
{
    if cc.len() == 0 {
        seq![(k, v)]
    } else if cc[0].0 == k {
        seq![(k, v)] + cc.subrange(1, cc.len() as int)
    } else {
        seq![cc[0]] + cc_set(cc.subrange(1, cc.len() as int), k, v)
    }
}

/// One raw token of a `Cache-Control` value, parsed: the lower-cased
/// trimmed name and the trimmed value as written (quotes still present).
/// `None` when the token is empty or has an empty name.
pub open spec fn parse_token_spec(part: Seq<u8>) -> Option<(Seq<u8>, Option<Seq<u8>>)> {
    if trim_spec(part).len() == 0 {
        None
    } else {
        let i = find_idx(part, 0x3d);
        if 0 <= i < part.len() {
            let k = lower_spec(trim_spec(part.subrange(0, i)));
            if k.len() == 0 {
                None
            } else {
                Some((k, Some(trim_spec(part.subrange(i + 1, part.len() as int)))))
            }
        } else {
            Some((lower_spec(trim_spec(part)), None))
        }
    }
}

/// The value as stored: unquoted when written.
pub open spec fn unquote_opt(v: Option<Seq<u8>>) -> Option<Seq<u8>> {
    match v {
        None => None,
        Some(x) => Some(unquote_spec(x)),
    }
}

/// One parsed token folded into the map: a new name is stored with its
/// value unquoted; a repeated name keeps its first value, and clears the
/// valid flag when the raw value differs from what is stored.
pub open spec fn cc_add_token(
    st: (CcView, bool),
    k: Seq<u8>,
    v: Option<Seq<u8>>,
) -> (CcView, bool) {
    match cc_get(st.0, k) {
        Some(stored) => if stored == v {
            st
        } else {
            (st.0, false)
        },
        None => (st.0.push((k, unquote_opt(v))), st.1),
    }
}

/// The comma-separated parts of one header value folded into the map.
pub open spec fn cc_parse_parts(st: (CcView, bool), parts: Seq<Seq<u8>>) -> (CcView, bool)
    decreases parts.len(),
{
    if parts.len() == 0 {
        st
    } else {
        let st1 = match parse_token_spec(parts[0]) {
            None => st,
            Some((k, v)) => cc_add_token(st, k, v),
        };
        cc_parse_parts(st1, parts.subrange(1, parts.len() as int))
    }
}

/// One header value folded into the map.
pub open spec fn cc_parse_value(st: (CcView, bool), value: Seq<u8>) -> (CcView, bool) {
    cc_parse_parts(st, split_spec(value, 0x2c))
}

/// Every header value folded into the map, in order.
pub open spec fn cc_parse_values(st: (CcView, bool), values: Seq<Seq<u8>>) -> (CcView, bool)
    decreases values.len(),
{
    if values.len() == 0 {
        st
    } else {
        cc_parse_values(cc_parse_value(st, values[0]), values.subrange(1, values.len() as int))
    }
}

/// The raw parse of a header's values: the map, and whether every
/// repeated directive agreed with its stored value.
pub open spec fn cc_parse_raw(values: Seq<Seq<u8>>) -> (CcView, bool) {
    cc_parse_values((Seq::empty(), true), values)
}

pub open spec fn must_revalidate_key() -> Seq<u8> {
    ("must-revalidate").spec_bytes()
}

/// A header's values parsed into a directive map; a conflicting
/// duplicate forces an implicit `must-revalidate`.
pub open spec fn cc_parse_spec(values: Seq<Seq<u8>>) -> CcView {
    let st = cc_parse_raw(values);
    if st.1 {
        st.0
    } else {
        cc_set(st.0, must_revalidate_key(), None)
    }
}

/// Whether the values hold no conflicting duplicate directive.
pub open spec fn cc_valid(values: Seq<Seq<u8>>) -> bool {
    cc_parse_raw(values).1
}

/// A directive value as emitted: quoted when empty or holding a byte
/// that is not an ASCII letter or digit.
pub open spec fn emit_value_spec(v: Seq<u8>) -> Seq<u8> {
    if needs_quote_spec(v) {
        seq![0x22u8] + v + seq![0x22u8]
    } else {
        v
    }
}

/// One directive as emitted: `name` or `name=value`.
pub open spec fn emit_token_spec(p: (Seq<u8>, Option<Seq<u8>>)) -> Seq<u8> {
    match p.1 {
        None => p.0,
        Some(x) => p.0 + seq![0x3du8] + emit_value_spec(x),
    }
}

/// The whole map formatted: directives joined with `", "`.
pub open spec fn format_cc_spec(cc: CcView) -> Seq<u8> {
    join_spec(cc.map_values(|p: (Seq<u8>, Option<Seq<u8>>)| emit_token_spec(p)))
}

proof fn lemma_cc_get_skip(cc: CcView, k: Seq<u8>, i: int)
    requires
        0 <= i <= cc.len(),
        forall|j: int| 0 <= j < i ==> cc[j].0 != k,
    ensures
        cc_get(cc, k) == cc_get(cc.subrange(i, cc.len() as int), k),
    decreases i,
{
    if i > 0 {
        let t = cc.subrange(1, cc.len() as int);
        lemma_cc_get_skip(t, k, i - 1);
        assert(t.subrange(i - 1, t.len() as int) =~= cc.subrange(i, cc.len() as int));
    } else {
        assert(cc.subrange(0, cc.len() as int) =~= cc);
    }
}

proof fn lemma_cc_get_at(cc: CcView, k: Seq<u8>, i: int)
    requires
        0 <= i < cc.len(),
        cc[i].0 == k,
        forall|j: int| 0 <= j < i ==> cc[j].0 != k,
    ensures
        cc_get(cc, k) == Some(cc[i].1),
{
    lemma_cc_get_skip(cc, k, i);
    let t = cc.subrange(i, cc.len() as int);
    assert(t[0] == cc[i]);
}

proof fn lemma_cc_get_none(cc: CcView, k: Seq<u8>)
    requires
        forall|j: int| 0 <= j < cc.len() ==> cc[j].0 != k,
    ensures
        cc_get(cc, k) is None,
{
    lemma_cc_get_skip(cc, k, cc.len() as int);
}

/// `cc_get` finds an entry exactly when one carries the name.
pub proof fn lemma_cc_contains_index(cc: CcView, k: Seq<u8>)
    ensures
        cc_contains(cc, k) <==> exists|i: int| 0 <= i < cc.len() && cc[i].0 == k,
    decreases cc.len(),
{
    if cc.len() > 0 {
        let t = cc.subrange(1, cc.len() as int);
        lemma_cc_contains_index(t, k);
        if cc[0].0 != k {
            if cc_contains(cc, k) {
                let i = choose|i: int| 0 <= i < t.len() && t[i].0 == k;
                assert(cc[i + 1].0 == k);
            }
            if exists|i: int| 0 <= i < cc.len() && cc[i].0 == k {
                let i = choose|i: int| 0 <= i < cc.len() && cc[i].0 == k;
                assert(t[i - 1].0 == k);
            }
        }
    }
}

/// A `Cache-Control` directive map.
#[derive(Debug)]
pub struct CacheControl {
    entries: Vec<(Vec<u8>, Option<Vec<u8>>)>,
}

impl View for CacheControl {
    type V = CcView;

    closed spec fn view(&self) -> CcView {
        self.entries@.map_values(|p: (Vec<u8>, Option<Vec<u8>>)| (p.0@, opt_view(p.1)))
    }
}

fn copy_opt(v: &Option<Vec<u8>>) -> (r: Option<Vec<u8>>)
    ensures
        opt_view(r) == opt_view(*v),
{
    match v {
        None => None,
        Some(x) => Some(slice_to_vec(x.as_slice())),
    }
}

fn opt_eq(a: &Option<Vec<u8>>, b: &Option<Vec<u8>>) -> (r: bool)
    ensures
        r == (opt_view(*a) == opt_view(*b)),
{
    match (a, b) {
        (None, None) => true,
        (Some(x), Some(y)) => {
            let e = bytes_eq(x.as_slice(), y.as_slice());
            proof {
                if x@ == y@ {
                    assert(opt_view(*a) == opt_view(*b));
                }
            }
            e
        },
        _ => false,
    }
}

impl CacheControl {
    /// An empty directive map.
    pub fn new() -> (r: CacheControl)
        ensures
            r@ == Seq::<(Seq<u8>, Option<Seq<u8>>)>::empty(),
    {
        let c = CacheControl { entries: Vec::new() };
        proof {
            assert(c@ =~= Seq::<(Seq<u8>, Option<Seq<u8>>)>::empty());
        }
        c
    }

    /// How many directives are stored.
    pub fn len(&self) -> (r: usize)
        ensures
            r == self@.len(),
    {
        self.entries.len()
    }

    /// The directive at position `i`.
    pub fn entry_at(&self, i: usize) -> (r: &(Vec<u8>, Option<Vec<u8>>))
        requires
            i < self@.len(),
        ensures
            (r.0@, opt_view(r.1)) == self@[i as int],
    {
        &self.entries[i]
    }

    /// Whether the directive is present.
    pub fn contains_key(&self, k: &[u8]) -> (r: bool)
        ensures
            r == cc_contains(self@, k@),
    {
        let mut i: usize = 0;
        while i < self.entries.len()
            invariant
                0 <= i <= self@.len(),
                forall|j: int| 0 <= j < i ==> self@[j].0 != k@,
            decreases self@.len() - i,
        {
            if bytes_eq(self.entries[i].0.as_slice(), k) {
                proof {
                    lemma_cc_get_at(self@, k@, i as int);
                }
                return true;
            }
            i = i + 1;
        }
        proof {
            lemma_cc_get_none(self@, k@);
        }
        false
    }

    /// The value of the directive: `None` when absent, `Some(None)` for a
    /// bare directive, `Some(Some(v))` for `name=v`.
    pub fn get_val(&self, k: &[u8]) -> (r: Option<Option<Vec<u8>>>)
        ensures
            (match r {
                None => cc_get(self@, k@) is None,
                Some(v) => cc_get(self@, k@) == Some(opt_view(v)),
            }),
    {
        let mut i: usize = 0;
        while i < self.entries.len()
            invariant
                0 <= i <= self@.len(),
                forall|j: int| 0 <= j < i ==> self@[j].0 != k@,
            decreases self@.len() - i,
        {
            if bytes_eq(self.entries[i].0.as_slice(), k) {
                proof {
                    lemma_cc_get_at(self@, k@, i as int);
                }
                return Some(copy_opt(&self.entries[i].1));
            }
            i = i + 1;
        }
        proof {
            lemma_cc_get_none(self@, k@);
        }
        None
    }

    /// Remove the directive, when present.
    pub fn remove_key(&mut self, k: &[u8])
        ensures
            final(self)@ == cc_remove(old(self)@, k@),
    {
        let ghost h = old(self)@;
        let ghost pred = |p: (Seq<u8>, Option<Seq<u8>>)| p.0 != k@;
        let mut out: Vec<(Vec<u8>, Option<Vec<u8>>)> = Vec::new();
        let mut i: usize = 0;
        proof {
            reveal(Seq::filter);
            assert(out@.map_values(|p: (Vec<u8>, Option<Vec<u8>>)| (p.0@, opt_view(p.1)))
                =~= h.subrange(0, 0).filter(pred));
        }
        while i < self.entries.len()
            invariant
                0 <= i <= h.len(),
                h == self@,
                pred == (|p: (Seq<u8>, Option<Seq<u8>>)| p.0 != k@),
                out@.map_values(|p: (Vec<u8>, Option<Vec<u8>>)| (p.0@, opt_view(p.1)))
                    =~= h.subrange(0, i as int).filter(pred),
            decreases h.len() - i,
        {
            let ghost old_out = out@.map_values(
                |p: (Vec<u8>, Option<Vec<u8>>)| (p.0@, opt_view(p.1)),
            );
            if !bytes_eq(self.entries[i].0.as_slice(), k) {
                let n = slice_to_vec(self.entries[i].0.as_slice());
                let v = copy_opt(&self.entries[i].1);
                out.push((n, v));
            }
            proof {
                reveal(Seq::filter);
                let sub1 = h.subrange(0, i + 1);
                assert(sub1.drop_last() =~= h.subrange(0, i as int));
                assert(sub1.last() == h[i as int]);
                if h[i as int].0 != k@ {
                    assert(out@.map_values(|p: (Vec<u8>, Option<Vec<u8>>)| (p.0@, opt_view(p.1)))
                        =~= old_out.push(h[i as int]));
                }
                assert(out@.map_values(|p: (Vec<u8>, Option<Vec<u8>>)| (p.0@, opt_view(p.1)))
                    =~= sub1.filter(pred));
            }
            i = i + 1;
        }
        proof {
            assert(h.subrange(0, h.len() as int) =~= h);
        }
        self.entries = out;
    }

    /// Set the directive to `v`: replaced in place when present,
    /// appended otherwise.
    pub fn set(&mut self, k: Vec<u8>, v: Option<Vec<u8>>)
        ensures
            final(self)@ == cc_set(old(self)@, k@, opt_view(v)),
    {
        let ghost h = old(self)@;
        let mut i: usize = 0;
        while i < self.entries.len()
            invariant
                0 <= i <= h.len(),
                h == self@,
                h == old(self)@,
                forall|j: int| 0 <= j < i ==> self@[j].0 != k@,
            decreases h.len() - i,
        {
            if bytes_eq(self.entries[i].0.as_slice(), k.as_slice()) {
                let mut out: Vec<(Vec<u8>, Option<Vec<u8>>)> = Vec::new();
                let mut j: usize = 0;
                while j < self.entries.len()
                    invariant
                        0 <= j <= h.len(),
                        h == self@,
                        i < h.len(),
                        h[i as int].0 == k@,
                        forall|l: int| 0 <= l < i ==> self@[l].0 != k@,
                        out@.map_values(|p: (Vec<u8>, Option<Vec<u8>>)| (p.0@, opt_view(p.1)))
                            =~= cc_set_prefix(h, k@, opt_view(v), j as int),
                    decreases h.len() - j,
                {
                    let ghost old_out = out@.map_values(
                        |p: (Vec<u8>, Option<Vec<u8>>)| (p.0@, opt_view(p.1)),
                    );
                    if j == i {
                        let kk = slice_to_vec(k.as_slice());
                        let vv = copy_opt(&v);
                        out.push((kk, vv));
                    } else {
                        let n = slice_to_vec(self.entries[j].0.as_slice());
                        let w = copy_opt(&self.entries[j].1);
                        out.push((n, w));
                    }
                    proof {
                        if j == i {
                            assert(out@.map_values(
                                |p: (Vec<u8>, Option<Vec<u8>>)| (p.0@, opt_view(p.1)),
                            ) =~= old_out.push((k@, opt_view(v))));
                        } else {
                            assert(out@.map_values(
                                |p: (Vec<u8>, Option<Vec<u8>>)| (p.0@, opt_view(p.1)),
                            ) =~= old_out.push(h[j as int]));
                        }
                    }
                    j = j + 1;
                }
                proof {
                    lemma_cc_set_prefix_full(h, k@, opt_view(v), i as int);
                    assert(out@.map_values(|p: (Vec<u8>, Option<Vec<u8>>)| (p.0@, opt_view(p.1)))
                        =~= cc_set_prefix(h, k@, opt_view(v), h.len() as int));
                    assert(out@.map_values(|p: (Vec<u8>, Option<Vec<u8>>)| (p.0@, opt_view(p.1)))
                        == cc_set(h, k@, opt_view(v)));
                }
                self.entries = out;
                proof {
                    assert(self@ == cc_set(h, k@, opt_view(v)));
                }
                return ;
            }
            i = i + 1;
        }
        let ghost kv = k@;
        self.entries.push((k, v));
        proof {
            assert(self@ =~= h.push((kv, opt_view(v))));
            lemma_cc_set_absent(h, kv, opt_view(v));
        }
    }
}

impl CacheControl {
    fn push_entry(&mut self, k: Vec<u8>, v: Option<Vec<u8>>)
        ensures
            final(self)@ == old(self)@.push((k@, opt_view(v))),
    {
        let ghost h = self@;
        let ghost kv = k@;
        let ghost vv = opt_view(v);
        self.entries.push((k, v));
        proof {
            assert(self@ =~= h.push((kv, vv)));
        }
    }

    fn add_token(&mut self, valid: bool, k: Vec<u8>, v: Option<Vec<u8>>) -> (r: bool)
        ensures
            (final(self)@, r) == cc_add_token((old(self)@, valid), k@, opt_view(v)),
    {
        let stored = self.get_val(k.as_slice());
        match stored {
            Some(sv) => {
                if opt_eq(&sv, &v) {
                    valid
                } else {
                    false
                }
            },
            None => {
                let uv = match v {
                    None => None,
                    Some(x) => Some(unquote(x.as_slice())),
                };
                proof {
                    assert(opt_view(uv) == unquote_opt(opt_view(v)));
                }
                self.push_entry(k, uv);
                valid
            },
        }
    }

    /// Parse the values of a `Cache-Control` header into a directive map.
    pub fn parse(values: &Vec<Vec<u8>>) -> (r: CacheControl)
        ensures
            r@ == cc_parse_spec(values@.map_values(|v: Vec<u8>| v@)),
    {
        let ghost vs = values@.map_values(|v: Vec<u8>| v@);
        let ghost target = cc_parse_raw(vs);
        let mut cc = CacheControl::new();
        let mut valid: bool = true;
        let mut i: usize = 0;
        proof {
            assert(vs.subrange(0, vs.len() as int) =~= vs);
        }
        while i < values.len()
            invariant
                0 <= i <= vs.len(),
                vs == values@.map_values(|v: Vec<u8>| v@),
                target == cc_parse_raw(vs),
                cc_parse_values((cc@, valid), vs.subrange(i as int, vs.len() as int)) == target,
            decreases vs.len() - i,
        {
            let ghost st_entry = (cc@, valid);
            let parts = split(values[i].as_slice(), 0x2c);
            let ghost ps = parts@.map_values(|v: Vec<u8>| v@);
            let mut j: usize = 0;
            proof {
                assert(ps.subrange(0, ps.len() as int) =~= ps);
                assert(ps == split_spec(vs[i as int], 0x2c));
            }
            while j < parts.len()
                invariant
                    0 <= j <= ps.len(),
                    ps == parts@.map_values(|v: Vec<u8>| v@),
                    cc_parse_parts((cc@, valid), ps.subrange(j as int, ps.len() as int))
                        == cc_parse_parts(st_entry, ps),
                decreases ps.len() - j,
            {
                let ghost st_before = (cc@, valid);
                let ghost rest = ps.subrange(j as int, ps.len() as int);
                let tok = parse_token(parts[j].as_slice());
                match tok {
                    None => {},
                    Some((k, v)) => {
                        valid = cc.add_token(valid, k, v);
                    },
                }
                proof {
                    assert(rest[0] == ps[j as int]);
                    assert(rest.subrange(1, rest.len() as int) =~= ps.subrange(
                        j + 1,
                        ps.len() as int,
                    ));
                    assert(cc_parse_parts((cc@, valid), ps.subrange(j + 1, ps.len() as int))
                        == cc_parse_parts(st_before, rest));
                }
                j = j + 1;
            }
            proof {
                assert(ps.subrange(ps.len() as int, ps.len() as int) =~= Seq::<Seq<u8>>::empty());
                assert((cc@, valid) == cc_parse_value(st_entry, vs[i as int]));
                let rest = vs.subrange(i as int, vs.len() as int);
                assert(rest[0] == vs[i as int]);
                assert(rest.subrange(1, rest.len() as int) =~= vs.subrange(
                    i + 1,
                    vs.len() as int,
                ));
            }
            i = i + 1;
        }
        proof {
            assert(vs.subrange(vs.len() as int, vs.len() as int) =~= Seq::<Seq<u8>>::empty());
            assert((cc@, valid) == target);
        }
        if !valid {
            let k = slice_to_vec(("must-revalidate").as_bytes());
            cc.set(k, None);
        }
        cc
    }
}

fn parse_token(part: &[u8]) -> (r: Option<(Vec<u8>, Option<Vec<u8>>)>)
    ensures
        (match r {
            None => parse_token_spec(part@) is None,
            Some(kv) => parse_token_spec(part@) == Some((kv.0@, opt_view(kv.1))),
        }),
{
    let t = trim(part);
    if t.len() == 0 {
        return None;
    }
    let i = find_from_start(part, 0x3d);
    if i < part.len() {
        let k = lower(trim(&part[0..i]).as_slice());
        if k.len() == 0 {
            None
        } else {
            let v = trim(&part[i + 1..part.len()]);
            Some((k, Some(v)))
        }
    } else {
        Some((lower(t.as_slice()), None))
    }
}

fn find_from_start(s: &[u8], c: u8) -> (r: usize)
    ensures
        r == find_idx(s@, c),
        0 <= find_idx(s@, c) <= s@.len(),
{
    proof {
        lemma_find_idx(s@, c);
    }
    let mut i: usize = 0;
    while i < s.len() && s[i] != c
        invariant
            0 <= i <= s@.len(),
            forall|j: int| 0 <= j < i ==> s@[j] != c,
        decreases s@.len() - i,
    {
        i = i + 1;
    }
    proof {
        lemma_find_idx_is(s@, c, i as int);
    }
    i
}

/// Format a directive map as one `Cache-Control` header value.
pub fn format_cache_control(cc: &CacheControl) -> (r: Vec<u8>)
    ensures
        r@ == format_cc_spec(cc@),
{
    let ghost es = cc@.map_values(|p: (Seq<u8>, Option<Seq<u8>>)| emit_token_spec(p));
    let mut out: Vec<u8> = Vec::new();
    let mut i: usize = 0;
    while i < cc.len()
        invariant
            0 <= i <= cc@.len(),
            es == cc@.map_values(|p: (Seq<u8>, Option<Seq<u8>>)| emit_token_spec(p)),
            out@ == join_spec(es.subrange(0, i as int)),
        decreases cc@.len() - i,
    {
        let ghost old_out = out@;
        if !out.is_empty() {
            out.push(0x2c);
            out.push(0x20);
        }
        let e = cc.entry_at(i);
        out.extend_from_slice(e.0.as_slice());
        match &e.1 {
            None => {},
            Some(v) => {
                out.push(0x3d);
                if needs_quote(v.as_slice()) {
                    out.push(0x22);
                    out.extend_from_slice(v.as_slice());
                    out.push(0x22);
                } else {
                    out.extend_from_slice(v.as_slice());
                }
            },
        }
        proof {
            if old_out.len() == 0 {
                assert(out@ =~= old_out + emit_token_spec(cc@[i as int]));
            } else {
                assert(out@ =~= old_out + comma_space() + emit_token_spec(cc@[i as int]));
            }
            assert(es.subrange(0, i + 1).drop_last() =~= es.subrange(0, i as int));
            assert(es.subrange(0, i + 1).last() == es[i as int]);
        }
        i = i + 1;
    }
    proof {
        assert(es.subrange(0, es.len() as int) =~= es);
    }
    out
}

/// What `cc_set` looks like cut off after `j` positions, for a map whose
/// first entry named `k` sits at `i`.
pub open spec fn cc_set_prefix(cc: CcView, k: Seq<u8>, v: Option<Seq<u8>>, j: int) -> CcView {
    Seq::new(
        j as nat,
        |l: int|
            if cc[l].0 == k && (forall|m: int| 0 <= m < l ==> cc[m].0 != k) {
                (k, v)
            } else {
                cc[l]
            },
    )
}

proof fn lemma_cc_set_prefix_full(cc: CcView, k: Seq<u8>, v: Option<Seq<u8>>, i: int)
    requires
        0 <= i < cc.len(),
        cc[i].0 == k,
        forall|j: int| 0 <= j < i ==> cc[j].0 != k,
    ensures
        cc_set(cc, k, v) == cc_set_prefix(cc, k, v, cc.len() as int),
    decreases i,
{
    if i == 0 {
        assert(cc_set(cc, k, v) == seq![(k, v)] + cc.subrange(1, cc.len() as int));
        assert(cc_set(cc, k, v) =~= cc_set_prefix(cc, k, v, cc.len() as int));
    } else {
        let t = cc.subrange(1, cc.len() as int);
        lemma_cc_set_prefix_full(t, k, v, i - 1);
        assert(cc_set(cc, k, v) == seq![cc[0]] + cc_set(t, k, v));
        assert(cc_set(cc, k, v) =~= cc_set_prefix(cc, k, v, cc.len() as int)) by {
            assert(forall|l: int|
                0 <= l < t.len() ==> t[l] == cc[l + 1]);
        }
    }
}

proof fn lemma_cc_set_absent(cc: CcView, k: Seq<u8>, v: Option<Seq<u8>>)
    requires
        forall|j: int| 0 <= j < cc.len() ==> cc[j].0 != k,
    ensures
        cc_set(cc, k, v) == cc.push((k, v)),
    decreases cc.len(),
{
    if cc.len() == 0 {
        assert(cc_set(cc, k, v) =~= cc.push((k, v)));
    } else {
        let t = cc.subrange(1, cc.len() as int);
        lemma_cc_set_absent(t, k, v);
        assert(cc_set(cc, k, v) =~= cc.push((k, v)));
    }
}

} // verus!
