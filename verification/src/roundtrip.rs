//! The directive formatter undoes nothing the parser did: reparsing a
//! formatted directive map yields the map again.
//!
//! The shape every parsed map has (`cc_wf`) is established first; the
//! round-trip law builds on it.

use vstd::prelude::*;
use crate::cachecontrol::cc_add_token;
use crate::cachecontrol::cc_contains;
use crate::cachecontrol::cc_get;
use crate::cachecontrol::cc_parse_parts;
use crate::cachecontrol::cc_parse_raw;
use crate::cachecontrol::cc_parse_spec;
use crate::cachecontrol::cc_parse_value;
use crate::cachecontrol::cc_parse_values;
use crate::cachecontrol::cc_valid;
use crate::cachecontrol::emit_token_spec;
use crate::cachecontrol::emit_value_spec;
use crate::cachecontrol::format_cc_spec;
use crate::cachecontrol::lemma_cc_contains_index;
use crate::cachecontrol::parse_token_spec;
use crate::cachecontrol::unquote_opt;
use crate::cachecontrol::CcView;
use crate::headers::lemma_lower_idempotent;
use crate::strutil::comma_space;
use crate::strutil::find_idx;
use crate::strutil::is_alnum;
use crate::strutil::is_ws;
use crate::strutil::join_spec;
use crate::strutil::lemma_find_idx;
use crate::strutil::lemma_find_idx_is;
use crate::strutil::lemma_join_left;
use crate::strutil::lemma_lower_no_byte;
use crate::strutil::lemma_split_first;
use crate::strutil::lemma_split_parts_no_byte;
use crate::strutil::lemma_split_single;
use crate::strutil::lemma_trim_all_ws_empty;
use crate::strutil::lemma_trim_no_byte;
use crate::strutil::lemma_trim_of_trimmed;
use crate::strutil::lemma_trim_props;
use crate::strutil::lemma_trim_ws_prefix;
use crate::strutil::lemma_unquote_no_byte;
use crate::strutil::lower_spec;
use crate::strutil::needs_quote_spec;
use crate::strutil::no_byte;
use crate::strutil::split_spec;
use crate::strutil::trim_spec;
use crate::strutil::unquote_spec;

verus! {

/// The shape of an entry the parser stores: a non-empty, lower-case,
/// trimmed name free of `,` and `=`, and a value free of `,`.
pub open spec fn cc_entry_wf(p: (Seq<u8>, Option<Seq<u8>>)) -> bool {
    &&& p.0.len() > 0
    &&& p.0 == lower_spec(p.0)
    &&& p.0 == trim_spec(p.0)
    &&& no_byte(p.0, 0x2c)
    &&& no_byte(p.0, 0x3d)
    &&& (match p.1 {
        None => true,
        Some(v) => no_byte(v, 0x2c),
    })
}

/// The shape of a parsed directive map: well-formed entries, unique names.
pub open spec fn cc_wf(cc: CcView) -> bool {
    &&& forall|i: int| 0 <= i < cc.len() ==> cc_entry_wf(#[trigger] cc[i])
    &&& forall|i: int, j: int| 0 <= i < j < cc.len() ==> cc[i].0 != cc[j].0
}

proof fn lemma_lower_keeps_ws_ends(t: Seq<u8>)
    requires
        t.len() == 0 || (!is_ws(t[0]) && !is_ws(t[t.len() - 1])),
    ensures
        lower_spec(t).len() == 0 || (!is_ws(lower_spec(t)[0]) && !is_ws(
            lower_spec(t)[lower_spec(t).len() - 1],
        )),
{
    if t.len() > 0 {
        assert(lower_spec(t)[0] == crate::strutil::byte_lower(t[0]));
        assert(lower_spec(t)[t.len() - 1] == crate::strutil::byte_lower(t[t.len() - 1]));
    }
}

/// What the parser stores for a token of a comma-free part is a
/// well-formed entry.
proof fn lemma_parsed_key_wf(part: Seq<u8>)
    requires
        no_byte(part, 0x2c),
    ensures
        (match parse_token_spec(part) {
            None => true,
            Some(kv) => cc_entry_wf((kv.0, unquote_opt(kv.1))),
        }),
{
    if parse_token_spec(part) is Some {
        let i = find_idx(part, 0x3d);
        lemma_find_idx(part, 0x3d);
        if 0 <= i < part.len() {
            let sub = part.subrange(0, i);
            assert(no_byte(sub, 0x2c)) by {
                assert(forall|j: int| 0 <= j < sub.len() ==> sub[j] == part[j]);
            }
            assert(no_byte(sub, 0x3d)) by {
                assert(forall|j: int| 0 <= j < sub.len() ==> sub[j] == part[j]);
            }
            let t = trim_spec(sub);
            lemma_trim_no_byte(sub, 0x2c);
            lemma_trim_no_byte(sub, 0x3d);
            lemma_trim_props(sub);
            let k = lower_spec(t);
            lemma_lower_no_byte(t, 0x2c);
            lemma_lower_no_byte(t, 0x3d);
            lemma_lower_idempotent(t);
            lemma_lower_keeps_ws_ends(t);
            lemma_trim_of_trimmed(k);
            let raw = trim_spec(part.subrange(i + 1, part.len() as int));
            assert(no_byte(part.subrange(i + 1, part.len() as int), 0x2c)) by {
                assert(forall|j: int|
                    0 <= j < part.len() - i - 1 ==> #[trigger] part.subrange(
                        i + 1,
                        part.len() as int,
                    )[j] == part[j + i + 1]);
            }
            lemma_trim_no_byte(part.subrange(i + 1, part.len() as int), 0x2c);
            lemma_unquote_no_byte(raw, 0x2c);
        } else {
            let t = trim_spec(part);
            lemma_trim_no_byte(part, 0x2c);
            lemma_trim_props(part);
            assert(no_byte(part, 0x3d)) by {
                assert(forall|j: int| 0 <= j < part.len() ==> part[j] != 0x3d);
            }
            lemma_trim_no_byte(part, 0x3d);
            let k = lower_spec(t);
            lemma_lower_no_byte(t, 0x2c);
            lemma_lower_no_byte(t, 0x3d);
            lemma_lower_idempotent(t);
            lemma_lower_keeps_ws_ends(t);
            lemma_trim_of_trimmed(k);
        }
    }
}

proof fn lemma_token_step_wf(st: (CcView, bool), part: Seq<u8>)
    requires
        cc_wf(st.0),
        no_byte(part, 0x2c),
    ensures
        (match parse_token_spec(part) {
            None => cc_wf(st.0),
            Some(kv) => cc_wf(cc_add_token(st, kv.0, kv.1).0),
        }),
{
    lemma_parsed_key_wf(part);
    match parse_token_spec(part) {
        None => {},
        Some(kv) => {
            let (k, v) = kv;
            match cc_get(st.0, k) {
                Some(_) => {},
                None => {
                    let r = st.0.push((k, unquote_opt(v)));
                    lemma_cc_contains_index(st.0, k);
                    assert(forall|i: int| 0 <= i < st.0.len() ==> st.0[i].0 != k);
                    assert(forall|i: int| 0 <= i < st.0.len() ==> r[i] == st.0[i]);
                    assert(r[st.0.len() as int] == (k, unquote_opt(v)));
                    assert(cc_entry_wf(r[st.0.len() as int]));
                },
            }
        },
    }
}

proof fn lemma_parse_parts_wf(st: (CcView, bool), parts: Seq<Seq<u8>>)
    requires
        cc_wf(st.0),
        forall|i: int| 0 <= i < parts.len() ==> no_byte(#[trigger] parts[i], 0x2c),
    ensures
        cc_wf(cc_parse_parts(st, parts).0),
    decreases parts.len(),
{
    if parts.len() > 0 {
        lemma_token_step_wf(st, parts[0]);
        let st1 = match parse_token_spec(parts[0]) {
            None => st,
            Some(kv) => cc_add_token(st, kv.0, kv.1),
        };
        let tail = parts.subrange(1, parts.len() as int);
        assert(forall|i: int| 0 <= i < tail.len() ==> tail[i] == parts[i + 1]);
        lemma_parse_parts_wf(st1, tail);
    }
}

proof fn lemma_parse_values_wf(st: (CcView, bool), values: Seq<Seq<u8>>)
    requires
        cc_wf(st.0),
    ensures
        cc_wf(cc_parse_values(st, values).0),
    decreases values.len(),
{
    if values.len() > 0 {
        lemma_split_parts_no_byte(values[0], 0x2c);
        lemma_parse_parts_wf(st, split_spec(values[0], 0x2c));
        lemma_parse_values_wf(
            cc_parse_value(st, values[0]),
            values.subrange(1, values.len() as int),
        );
    }
}

/// Whatever the header said, the raw parse yields a map of well-formed,
/// uniquely named entries.
pub proof fn lemma_parse_raw_wf(values: Seq<Seq<u8>>)
    ensures
        cc_wf(cc_parse_raw(values).0),
{
    lemma_parse_values_wf((Seq::empty(), true), values);
}

proof fn lemma_emit_token_shape(e: (Seq<u8>, Option<Seq<u8>>))
    requires
        cc_entry_wf(e),
    ensures
        no_byte(emit_token_spec(e), 0x2c),
        emit_token_spec(e).len() > 0,
        !is_ws(emit_token_spec(e)[0]),
        !is_ws(emit_token_spec(e)[emit_token_spec(e).len() - 1]),
{
    let k = e.0;
    lemma_trim_props(k);
    match e.1 {
        None => {},
        Some(x) => {
            let ev = emit_value_spec(x);
            let tok = k + seq![0x3du8] + ev;
            if needs_quote_spec(x) {
                assert(ev[ev.len() - 1] == 0x22);
                assert(forall|i: int|
                    1 <= i < ev.len() - 1 ==> ev[i] == x[i - 1]);
                assert(no_byte(ev, 0x2c));
            } else {
                assert(x.len() > 0);
                assert(forall|i: int| 0 <= i < x.len() ==> is_alnum(x[i]));
                assert(!is_ws(ev[ev.len() - 1]));
            }
            assert(tok[0] == k[0]);
            assert(tok[tok.len() - 1] == ev[ev.len() - 1]);
            assert(no_byte(tok, 0x2c)) by {
                assert(forall|i: int| 0 <= i < k.len() ==> tok[i] == k[i]);
                assert(tok[k.len() as int] == 0x3d);
                assert(forall|i: int|
                    k.len() + 1 <= i < tok.len() ==> tok[i] == ev[i - k.len() - 1]);
            }
        },
    }
}

/// The raw value a formatted token reparses to.
pub open spec fn emit_raw(v: Option<Seq<u8>>) -> Option<Seq<u8>> {
    match v {
        None => None,
        Some(x) => Some(emit_value_spec(x)),
    }
}

proof fn lemma_unquote_emit(x: Seq<u8>)
    ensures
        unquote_spec(emit_value_spec(x)) == x,
{
    if needs_quote_spec(x) {
        let ev = seq![0x22u8] + x + seq![0x22u8];
        assert(ev[0] == 0x22 && ev[ev.len() - 1] == 0x22);
        assert(ev.subrange(1, ev.len() - 1) =~= x);
    } else {
        assert(x.len() > 0 && is_alnum(x[0]));
    }
}

/// A formatted token, preceded by whitespace, parses back to its name
/// and its emitted value.
proof fn lemma_parse_emit_token(pre: Seq<u8>, e: (Seq<u8>, Option<Seq<u8>>))
    requires
        cc_entry_wf(e),
        forall|i: int| 0 <= i < pre.len() ==> is_ws(#[trigger] pre[i]),
    ensures
        parse_token_spec(pre + emit_token_spec(e)) == Some((e.0, emit_raw(e.1))),
{
    let k = e.0;
    let tok = emit_token_spec(e);
    let w = pre + tok;
    lemma_emit_token_shape(e);
    lemma_trim_ws_prefix(pre, tok);
    lemma_trim_of_trimmed(tok);
    assert(trim_spec(w) == tok);
    lemma_trim_props(k);
    match e.1 {
        None => {
            assert(forall|j: int| 0 <= j < pre.len() ==> w[j] == pre[j] && w[j] != 0x3d);
            assert(forall|j: int|
                pre.len() <= j < w.len() ==> w[j] == k[j - pre.len()] && w[j] != 0x3d);
            lemma_find_idx_is(w, 0x3d, w.len() as int);
            lemma_lower_idempotent(k);
        },
        Some(x) => {
            let ev = emit_value_spec(x);
            let i = pre.len() + k.len();
            assert(w[i as int] == 0x3d);
            assert(forall|j: int| 0 <= j < pre.len() ==> w[j] == pre[j] && w[j] != 0x3d);
            assert(forall|j: int|
                pre.len() <= j < i ==> w[j] == k[j - pre.len()] && w[j] != 0x3d);
            lemma_find_idx_is(w, 0x3d, i as int);
            assert(w.subrange(0, i as int) =~= pre + k);
            lemma_trim_ws_prefix(pre, k);
            lemma_trim_of_trimmed(k);
            lemma_lower_idempotent(k);
            assert(lower_spec(trim_spec(pre + k)) == k);
            assert(w.subrange(i as int + 1, w.len() as int) =~= ev);
            if needs_quote_spec(x) {
                assert(ev[0] == 0x22 && ev[ev.len() - 1] == 0x22);
                assert(!is_ws(ev[0]) && !is_ws(ev[ev.len() - 1]));
            } else {
                assert(x.len() > 0);
                assert(is_alnum(ev[0]) && is_alnum(ev[ev.len() - 1]));
            }
            lemma_trim_of_trimmed(ev);
        },
    }
}

/// Reparsing formatted entries, token by token, appends exactly those
/// entries to the accumulator and keeps the valid flag.
proof fn lemma_reparse_fold(acc: CcView, valid: bool, pre: Seq<u8>, es: CcView)
    requires
        forall|i: int| 0 <= i < es.len() ==> cc_entry_wf(#[trigger] es[i]),
        forall|i: int| 0 <= i < es.len() ==> !cc_contains(acc, #[trigger] es[i].0),
        forall|i: int, j: int| 0 <= i < j < es.len() ==> es[i].0 != es[j].0,
        forall|i: int| 0 <= i < pre.len() ==> is_ws(#[trigger] pre[i]),
    ensures
        cc_parse_parts(
            (acc, valid),
            split_spec(
                pre + join_spec(es.map_values(|p: (Seq<u8>, Option<Seq<u8>>)| emit_token_spec(p))),
                0x2c,
            ),
        ) == (acc + es, valid),
    decreases es.len(),
{
    let ts = es.map_values(|p: (Seq<u8>, Option<Seq<u8>>)| emit_token_spec(p));
    if es.len() == 0 {
        assert(join_spec(ts) == Seq::<u8>::empty());
        assert(pre + join_spec(ts) =~= pre);
        assert(no_byte(pre, 0x2c));
        lemma_split_single(pre, 0x2c);
        lemma_trim_all_ws_empty(pre);
        let parts = seq![pre];
        assert(parse_token_spec(parts[0]) is None);
        assert(parts.subrange(1, parts.len() as int) =~= Seq::<Seq<u8>>::empty());
        assert(cc_parse_parts((acc, valid), Seq::<Seq<u8>>::empty()) == (acc, valid));
        assert(cc_parse_parts((acc, valid), parts) == (acc, valid));
        assert(acc + es =~= acc);
    } else {
        let e = es[0];
        let rest = es.subrange(1, es.len() as int);
        assert(forall|i: int| 0 <= i < ts.len() ==> ts[i] == emit_token_spec(es[i]));
        assert(forall|i: int| 0 <= i < ts.len() ==> #[trigger] ts[i].len() > 0) by {
            assert forall|i: int| 0 <= i < ts.len() implies #[trigger] ts[i].len() > 0 by {
                lemma_emit_token_shape(es[i]);
            }
        }
        lemma_join_left(ts);
        lemma_emit_token_shape(e);
        lemma_parse_emit_token(pre, e);
        lemma_cc_contains_index(acc, e.0);
        let acc1 = acc.push((e.0, unquote_opt(emit_raw(e.1))));
        assert(unquote_opt(emit_raw(e.1)) == e.1) by {
            match e.1 {
                None => {},
                Some(x) => {
                    lemma_unquote_emit(x);
                },
            }
        }
        assert(acc1 =~= acc.push(e));
        if es.len() == 1 {
            let w = pre + join_spec(ts);
            assert(join_spec(ts) == ts[0]);
            assert(no_byte(w, 0x2c)) by {
                assert(forall|j: int| 0 <= j < pre.len() ==> w[j] == pre[j]);
                assert(forall|j: int|
                    pre.len() <= j < w.len() ==> w[j] == ts[0][j - pre.len()]);
            }
            lemma_split_single(w, 0x2c);
            let parts = seq![w];
            assert(parse_token_spec(parts[0]) == Some((e.0, emit_raw(e.1))));
            assert(cc_get(acc, e.0) is None);
            assert(cc_add_token((acc, valid), e.0, emit_raw(e.1)) == (acc.push(e), valid));
            assert(parts.subrange(1, parts.len() as int) =~= Seq::<Seq<u8>>::empty());
            assert(cc_parse_parts((acc.push(e), valid), Seq::<Seq<u8>>::empty()) == (
                acc.push(e),
                valid,
            ));
            assert(cc_parse_parts((acc, valid), parts) == (acc.push(e), valid));
            assert(acc + es =~= acc.push(e));
        } else {
            let tail_ts = ts.subrange(1, ts.len() as int);
            assert(join_spec(ts) == ts[0] + comma_space() + join_spec(tail_ts));
            assert(tail_ts =~= rest.map_values(
                |p: (Seq<u8>, Option<Seq<u8>>)| emit_token_spec(p),
            )) by {
                assert(forall|i: int|
                    0 <= i < rest.len() ==> tail_ts[i] == emit_token_spec(es[i + 1])
                        && rest[i] == es[i + 1]);
            }
            let a = pre + ts[0];
            let b = seq![0x20u8] + join_spec(tail_ts);
            assert(pre + join_spec(ts) =~= a + seq![0x2cu8] + b);
            assert(no_byte(a, 0x2c)) by {
                assert(forall|j: int| 0 <= j < pre.len() ==> a[j] == pre[j]);
                assert(forall|j: int|
                    pre.len() <= j < a.len() ==> a[j] == ts[0][j - pre.len()]);
            }
            lemma_split_first(a, b, 0x2c);
            let parts = seq![a] + split_spec(b, 0x2c);
            assert(parts[0] == a);
            assert(parse_token_spec(a) == Some((e.0, emit_raw(e.1))));
            assert(cc_get(acc, e.0) is None);
            assert(cc_add_token((acc, valid), e.0, emit_raw(e.1)) == (acc.push(e), valid));
            assert(forall|i: int| 0 <= i < rest.len() ==> cc_entry_wf(#[trigger] rest[i]));
            assert(forall|i: int|
                0 <= i < rest.len() ==> !cc_contains(acc.push(e), #[trigger] rest[i].0)) by {
                assert forall|i: int|
                    0 <= i < rest.len() implies !cc_contains(acc.push(e), #[trigger] rest[i].0) by {
                    lemma_cc_contains_index(acc.push(e), rest[i].0);
                    lemma_cc_contains_index(acc, rest[i].0);
                    if cc_contains(acc.push(e), rest[i].0) {
                        let j = choose|j: int|
                            0 <= j < acc.push(e).len() && acc.push(e)[j].0 == rest[i].0;
                        if j < acc.len() {
                            assert(acc[j].0 == rest[i].0);
                        } else {
                            assert(e.0 == rest[i].0);
                            assert(es[0].0 == es[i + 1].0);
                        }
                    }
                }
            }
            assert(forall|i: int, j: int|
                0 <= i < j < rest.len() ==> rest[i].0 != rest[j].0) by {
                assert(forall|i: int, j: int|
                    0 <= i < j < rest.len() ==> rest[i] == es[i + 1] && rest[j] == es[j + 1]);
            }
            lemma_reparse_fold(acc.push(e), valid, seq![0x20u8], rest);
            assert(b == seq![0x20u8] + join_spec(
                rest.map_values(|p: (Seq<u8>, Option<Seq<u8>>)| emit_token_spec(p)),
            ));
            assert(parts.subrange(1, parts.len() as int) =~= split_spec(b, 0x2c));
            assert(cc_parse_parts((acc, valid), parts) == (acc.push(e) + rest, valid));
            assert(acc + es =~= acc.push(e) + rest);
        }
    }
}

/// The directive parser is idempotent across the formatter: a header
/// without conflicting duplicates, once parsed, formatted, and parsed
/// again, yields the directive map it first parsed to.
pub proof fn lemma_parse_format_roundtrip(values: Seq<Seq<u8>>)
    requires
        cc_valid(values),
    ensures
        cc_parse_spec(seq![format_cc_spec(cc_parse_spec(values))]) == cc_parse_spec(values),
{
    let m = cc_parse_spec(values);
    lemma_parse_raw_wf(values);
    assert(m == cc_parse_raw(values).0);
    assert(cc_wf(m));
    let f = format_cc_spec(m);
    assert(forall|i: int| 0 <= i < m.len() ==> !cc_contains(Seq::empty(), #[trigger] m[i].0));
    lemma_reparse_fold(Seq::empty(), true, Seq::empty(), m);
    assert(Seq::<u8>::empty() + f =~= f);
    assert(cc_parse_parts((Seq::empty(), true), split_spec(f, 0x2c)) == (
        Seq::<(Seq<u8>, Option<Seq<u8>>)>::empty() + m,
        true,
    ));
    assert(Seq::<(Seq<u8>, Option<Seq<u8>>)>::empty() + m =~= m);
    let vs = seq![f];
    assert(vs[0] == f);
    assert(vs.subrange(1, vs.len() as int) =~= Seq::<Seq<u8>>::empty());
    let st1 = cc_parse_value((Seq::empty(), true), f);
    assert(cc_parse_values(st1, Seq::<Seq<u8>>::empty()) == st1);
    assert(cc_parse_raw(vs) == st1);
    assert(st1 == (m, true));
    assert(cc_parse_raw(vs) == (m, true));
}

} // verus!
