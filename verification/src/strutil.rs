//! Byte-string helpers shared by the header and directive logic: ASCII
//! whitespace trimming, lowercasing, splitting, joining, decimal numbers.
//!
//! Header text is handled as bytes; every helper has an exact functional
//! specification over `Seq<u8>`.

use vstd::prelude::*;
use vstd::slice::slice_to_vec;

verus! {

/// ASCII whitespace, the set `u8::is_ascii_whitespace` accepts.
pub open spec fn is_ws(b: u8) -> bool {
    b == 0x20 || b == 0x09 || b == 0x0a || b == 0x0c || b == 0x0d
}

fn ws(b: u8) -> (r: bool)
    ensures
        r == is_ws(b),
{
    b == 0x20 || b == 0x09 || b == 0x0a || b == 0x0c || b == 0x0d
}

/// `s` with its leading ASCII whitespace removed.
pub open spec fn trim_start_spec(s: Seq<u8>) -> Seq<u8>
    decreases s.len(),
{
    if s.len() > 0 && is_ws(s[0]) {
        trim_start_spec(s.subrange(1, s.len() as int))
    } else {
        s
    }
}

/// `s` with its trailing ASCII whitespace removed.
pub open spec fn trim_end_spec(s: Seq<u8>) -> Seq<u8>
    decreases s.len(),
{
    if s.len() > 0 && is_ws(s[s.len() - 1]) {
        trim_end_spec(s.subrange(0, s.len() - 1))
    } else {
        s
    }
}

/// `s` with leading and trailing ASCII whitespace removed.
pub open spec fn trim_spec(s: Seq<u8>) -> Seq<u8> {
    trim_end_spec(trim_start_spec(s))
}

proof fn lemma_trim_start_skip(s: Seq<u8>, i: int)
    requires
        0 <= i <= s.len(),
        forall|j: int| 0 <= j < i ==> is_ws(s[j]),
    ensures
        trim_start_spec(s) == trim_start_spec(s.subrange(i, s.len() as int)),
    decreases i,
{
    if i > 0 {
        let t = s.subrange(1, s.len() as int);
        lemma_trim_start_skip(t, i - 1);
        assert(t.subrange(i - 1, t.len() as int) =~= s.subrange(i, s.len() as int));
    } else {
        assert(s.subrange(0, s.len() as int) =~= s);
    }
}

proof fn lemma_trim_end_skip(s: Seq<u8>, j: int)
    requires
        0 <= j <= s.len(),
        forall|k: int| j <= k < s.len() ==> is_ws(s[k]),
    ensures
        trim_end_spec(s) == trim_end_spec(s.subrange(0, j)),
    decreases s.len() - j,
{
    if j < s.len() {
        let t = s.subrange(0, s.len() - 1);
        lemma_trim_end_skip(t, j);
        assert(t.subrange(0, j) =~= s.subrange(0, j));
    } else {
        assert(s.subrange(0, s.len() as int) =~= s);
    }
}

/// A byte string with no whitespace at either end is already trimmed.
pub proof fn lemma_trim_of_trimmed(s: Seq<u8>)
    requires
        s.len() == 0 || (!is_ws(s[0]) && !is_ws(s[s.len() - 1])),
    ensures
        trim_spec(s) == s,
{
}

/// Trimming leaves no whitespace at either end.
pub proof fn lemma_trim_props(s: Seq<u8>)
    ensures
        trim_spec(s).len() == 0 || (!is_ws(trim_spec(s)[0]) && !is_ws(
            trim_spec(s)[trim_spec(s).len() - 1],
        )),
    decreases s.len(),
{
    lemma_trim_start_props(s);
    lemma_trim_end_props(trim_start_spec(s));
    let t = trim_start_spec(s);
    let u = trim_end_spec(t);
    if u.len() > 0 {
        lemma_trim_end_prefix(t);
        assert(u[0] == t[0]);
    }
}

proof fn lemma_trim_start_props(s: Seq<u8>)
    ensures
        trim_start_spec(s).len() == 0 || !is_ws(trim_start_spec(s)[0]),
        trim_start_spec(s).len() <= s.len(),
    decreases s.len(),
{
    if s.len() > 0 && is_ws(s[0]) {
        lemma_trim_start_props(s.subrange(1, s.len() as int));
    }
}

proof fn lemma_trim_end_props(s: Seq<u8>)
    ensures
        trim_end_spec(s).len() == 0 || !is_ws(trim_end_spec(s)[trim_end_spec(s).len() - 1]),
        trim_end_spec(s).len() <= s.len(),
    decreases s.len(),
{
    if s.len() > 0 && is_ws(s[s.len() - 1]) {
        lemma_trim_end_props(s.subrange(0, s.len() - 1));
    }
}

proof fn lemma_trim_end_prefix(s: Seq<u8>)
    ensures
        trim_end_spec(s).len() <= s.len(),
        forall|i: int| 0 <= i < trim_end_spec(s).len() ==> trim_end_spec(s)[i] == s[i],
    decreases s.len(),
{
    if s.len() > 0 && is_ws(s[s.len() - 1]) {
        let t = s.subrange(0, s.len() - 1);
        lemma_trim_end_prefix(t);
        assert(forall|i: int|
            0 <= i < trim_end_spec(s).len() ==> trim_end_spec(s)[i] == t[i] && t[i] == s[i]);
    }
}

/// Trim ASCII whitespace from both ends of a byte string.
pub fn trim(s: &[u8]) -> (r: Vec<u8>)
    ensures
        r@ == trim_spec(s@),
{
    let mut i: usize = 0;
    while i < s.len() && ws(s[i])
        invariant
            0 <= i <= s@.len(),
            forall|j: int| 0 <= j < i ==> is_ws(s@[j]),
        decreases s@.len() - i,
    {
        i = i + 1;
    }
    let mut j: usize = s.len();
    while j > i && ws(s[j - 1])
        invariant
            i <= j <= s@.len(),
            forall|k: int| j <= k < s@.len() ==> is_ws(s@[k]),
        decreases j,
    {
        j = j - 1;
    }
    proof {
        lemma_trim_start_skip(s@, i as int);
        let t = s@.subrange(i as int, s@.len() as int);
        lemma_trim_end_skip(t, j - i);
        assert(t.subrange(0, j - i) =~= s@.subrange(i as int, j as int));
        let u = s@.subrange(i as int, j as int);
        if j > i {
            assert(u[u.len() - 1] == s@[j - 1]);
        }
    }
    slice_to_vec(&s[i..j])
}

/// An upper-case ASCII letter mapped to lower case; everything else unchanged.
pub open spec fn byte_lower(b: u8) -> u8 {
    if 0x41 <= b <= 0x5a {
        (b + 0x20) as u8
    } else {
        b
    }
}

/// The byte string with ASCII letters lowercased.
pub open spec fn lower_spec(s: Seq<u8>) -> Seq<u8> {
    s.map_values(|b: u8| byte_lower(b))
}

/// Lowercase the ASCII letters of a byte string.
pub fn lower(s: &[u8]) -> (r: Vec<u8>)
    ensures
        r@ == lower_spec(s@),
{
    let mut out: Vec<u8> = Vec::new();
    let mut i: usize = 0;
    while i < s.len()
        invariant
            0 <= i <= s@.len(),
            out@ =~= lower_spec(s@.subrange(0, i as int)),
        decreases s@.len() - i,
    {
        let b = s[i];
        if 0x41 <= b && b <= 0x5a {
            out.push(b + 0x20);
        } else {
            out.push(b);
        }
        proof {
            assert(s@.subrange(0, i + 1).map_values(|b: u8| byte_lower(b)) =~= s@.subrange(
                0,
                i as int,
            ).map_values(|b: u8| byte_lower(b)).push(byte_lower(s@[i as int])));
        }
        i = i + 1;
    }
    proof {
        assert(s@.subrange(0, s@.len() as int) =~= s@);
    }
    out
}

/// ASCII decimal digit.
pub open spec fn is_digit(b: u8) -> bool {
    0x30 <= b <= 0x39
}

/// ASCII letter or digit.
pub open spec fn is_alnum(b: u8) -> bool {
    is_digit(b) || (0x41 <= b <= 0x5a) || (0x61 <= b <= 0x7a)
}

/// The integer a string of decimal digits denotes.
pub open spec fn digits_val(s: Seq<u8>) -> int
    decreases s.len(),
{
    if s.len() == 0 {
        0
    } else {
        digits_val(s.drop_last()) * 10 + (s.last() - 0x30)
    }
}

pub open spec fn all_digits(s: Seq<u8>) -> bool {
    forall|i: int| 0 <= i < s.len() ==> is_digit(s[i])
}

proof fn lemma_digits_val_nonneg(s: Seq<u8>)
    requires
        all_digits(s),
    ensures
        digits_val(s) >= 0,
    decreases s.len(),
{
    if s.len() > 0 {
        assert(all_digits(s.drop_last())) by {
            assert(forall|i: int|
                0 <= i < s.len() - 1 ==> s.drop_last()[i] == s[i] && is_digit(s[i]));
        }
        lemma_digits_val_nonneg(s.drop_last());
    }
}

/// A string of decimal digits read as a `u64`: `None` when empty, when a
/// byte is not a digit, or when the value does not fit.
pub open spec fn parse_digits_spec(s: Seq<u8>) -> Option<u64> {
    if s.len() > 0 && all_digits(s) && digits_val(s) <= u64::MAX {
        Some(digits_val(s) as u64)
    } else {
        None
    }
}

/// A decimal integer in the form `u64::from_str` accepts: an optional
/// leading `+`, then one or more digits, `None` on overflow.
pub open spec fn parse_u64_spec(s: Seq<u8>) -> Option<u64> {
    if s.len() > 0 && s[0] == 0x2b {
        parse_digits_spec(s.subrange(1, s.len() as int))
    } else {
        parse_digits_spec(s)
    }
}

fn parse_digits(s: &[u8], from: usize) -> (r: Option<u64>)
    requires
        from <= s@.len(),
    ensures
        r == parse_digits_spec(s@.subrange(from as int, s@.len() as int)),
{
    let ghost t = s@.subrange(from as int, s@.len() as int);
    if from == s.len() {
        return None;
    }
    let mut acc: u64 = 0;
    let mut i: usize = from;
    while i < s.len()
        invariant
            from <= i <= s@.len(),
            from < s@.len(),
            t == s@.subrange(from as int, s@.len() as int),
            all_digits(t.subrange(0, i - from)),
            acc == digits_val(t.subrange(0, i - from)),
        decreases s@.len() - i,
    {
        let b = s[i];
        if !(0x30 <= b && b <= 0x39) {
            proof {
                assert(t[i - from] == s@[i as int]);
                assert(!is_digit(t[i - from]));
            }
            return None;
        }
        let d: u64 = (b - 0x30) as u64;
        if acc > (u64::MAX - d) / 10 {
            proof {
                let p = t.subrange(0, i - from);
                let q = t.subrange(0, i + 1 - from);
                assert(q.drop_last() =~= p);
                assert(q.last() == s@[i as int]);
                assert(digits_val(q) == acc * 10 + d);
                assert(acc * 10 + d > u64::MAX) by (nonlinear_arith)
                    requires
                        acc > (u64::MAX - d) / 10,
                        0 <= d <= 9,
                {}
                lemma_digits_prefix_overflow(t, i + 1 - from);
            }
            return None;
        }
        proof {
            let p = t.subrange(0, i - from);
            let q = t.subrange(0, i + 1 - from);
            assert(q.drop_last() =~= p);
            assert(q.last() == s@[i as int]);
            assert(acc * 10 + d <= u64::MAX) by (nonlinear_arith)
                requires
                    acc <= (u64::MAX - d) / 10,
                    0 <= d <= 9,
            {}
        }
        acc = acc * 10 + d;
        i = i + 1;
    }
    proof {
        assert(t.subrange(0, t.len() as int) =~= t);
    }
    Some(acc)
}

proof fn lemma_digits_prefix_overflow(s: Seq<u8>, k: int)
    requires
        0 <= k <= s.len(),
        all_digits(s.subrange(0, k)),
        digits_val(s.subrange(0, k)) > u64::MAX,
    ensures
        !all_digits(s) || digits_val(s) > u64::MAX,
    decreases s.len() - k,
{
    if k < s.len() {
        if is_digit(s[k]) {
            let p = s.subrange(0, k);
            let q = s.subrange(0, k + 1);
            assert(q.drop_last() =~= p);
            assert(all_digits(q)) by {
                assert(forall|i: int| 0 <= i < k ==> q[i] == p[i] && is_digit(p[i]));
            }
            lemma_digits_val_nonneg(p);
            assert(digits_val(q) == digits_val(p) * 10 + (q.last() - 0x30));
            assert(digits_val(p) * 10 >= digits_val(p)) by (nonlinear_arith)
                requires
                    digits_val(p) >= 0,
            {}
            lemma_digits_prefix_overflow(s, k + 1);
        } else {
            assert(!all_digits(s));
        }
    } else {
        assert(s.subrange(0, k) =~= s);
    }
}

/// Parse a decimal `u64` as `str::parse::<u64>` would.
pub fn parse_u64(s: &[u8]) -> (r: Option<u64>)
    ensures
        r == parse_u64_spec(s@),
{
    proof {
        assert(s@.subrange(0, s@.len() as int) =~= s@);
    }
    if s.len() > 0 && s[0] == 0x2b {
        parse_digits(s, 1)
    } else {
        parse_digits(s, 0)
    }
}

/// The decimal digits of a non-negative integer, most significant first.
pub open spec fn dec_spec(n: int) -> Seq<u8>
    decreases n,
{
    if n < 10 {
        seq![(0x30 + if n >= 0 { n } else { 0 }) as u8]
    } else {
        dec_spec(n / 10).push((0x30 + n % 10) as u8)
    }
}

/// Write a `u64` in decimal.
pub fn u64_to_dec(n: u64) -> (r: Vec<u8>)
    ensures
        r@ == dec_spec(n as int),
    decreases n,
{
    if n < 10 {
        let mut out: Vec<u8> = Vec::new();
        out.push(0x30 + (n as u8));
        proof {
            assert(out@ =~= dec_spec(n as int));
        }
        out
    } else {
        let mut out = u64_to_dec(n / 10);
        out.push(0x30 + ((n % 10) as u8));
        out
    }
}

/// `p` is a prefix of `s`.
pub open spec fn starts_with_spec(s: Seq<u8>, p: Seq<u8>) -> bool {
    p.len() <= s.len() && s.subrange(0, p.len() as int) == p
}

/// Whether `p` is a prefix of `s`.
pub fn starts_with(s: &[u8], p: &[u8]) -> (r: bool)
    ensures
        r == starts_with_spec(s@, p@),
{
    if p.len() > s.len() {
        return false;
    }
    let mut i: usize = 0;
    while i < p.len()
        invariant
            0 <= i <= p@.len() <= s@.len(),
            forall|j: int| 0 <= j < i ==> s@[j] == p@[j],
        decreases p@.len() - i,
    {
        if s[i] != p[i] {
            proof {
                assert(s@.subrange(0, p@.len() as int)[i as int] != p@[i as int]);
            }
            return false;
        }
        i = i + 1;
    }
    proof {
        assert(s@.subrange(0, p@.len() as int) =~= p@);
    }
    true
}

/// Whether two byte strings are equal.
pub fn bytes_eq(a: &[u8], b: &[u8]) -> (r: bool)
    ensures
        r == (a@ == b@),
{
    if a.len() != b.len() {
        return false;
    }
    let mut i: usize = 0;
    while i < a.len()
        invariant
            0 <= i <= a@.len() == b@.len(),
            forall|j: int| 0 <= j < i ==> a@[j] == b@[j],
        decreases a@.len() - i,
    {
        if a[i] != b[i] {
            return false;
        }
        i = i + 1;
    }
    proof {
        assert(a@ =~= b@);
    }
    true
}

/// One pair of surrounding double quotes removed, when present.
pub open spec fn unquote_spec(s: Seq<u8>) -> Seq<u8> {
    if s.len() >= 2 && s[0] == 0x22 && s[s.len() - 1] == 0x22 {
        s.subrange(1, s.len() - 1)
    } else {
        s
    }
}

/// Strip one pair of surrounding double quotes, when present.
pub fn unquote(s: &[u8]) -> (r: Vec<u8>)
    ensures
        r@ == unquote_spec(s@),
{
    if s.len() >= 2 && s[0] == 0x22 && s[s.len() - 1] == 0x22 {
        slice_to_vec(&s[1..s.len() - 1])
    } else {
        slice_to_vec(s)
    }
}

/// Index of the first occurrence of `c` in `s`, or `s.len()` when absent.
pub open spec fn find_idx(s: Seq<u8>, c: u8) -> int
    decreases s.len(),
{
    if s.len() == 0 {
        0
    } else if s[0] == c {
        0
    } else {
        1 + find_idx(s.subrange(1, s.len() as int), c)
    }
}

pub proof fn lemma_find_idx(s: Seq<u8>, c: u8)
    ensures
        0 <= find_idx(s, c) <= s.len(),
        find_idx(s, c) < s.len() ==> s[find_idx(s, c)] == c,
        forall|j: int| 0 <= j < find_idx(s, c) ==> s[j] != c,
    decreases s.len(),
{
    if s.len() > 0 && s[0] != c {
        let t = s.subrange(1, s.len() as int);
        lemma_find_idx(t, c);
        assert(forall|j: int| 1 <= j < find_idx(s, c) ==> s[j] == t[j - 1] && t[j - 1] != c);
    }
}

pub proof fn lemma_find_idx_is(s: Seq<u8>, c: u8, i: int)
    requires
        0 <= i <= s.len(),
        i < s.len() ==> s[i] == c,
        forall|j: int| 0 <= j < i ==> s[j] != c,
    ensures
        find_idx(s, c) == i,
    decreases s.len(),
{
    if s.len() > 0 && s[0] != c {
        let t = s.subrange(1, s.len() as int);
        lemma_find_idx_is(t, c, i - 1);
    }
}

/// `s` split at every occurrence of `c`; no part contains `c`.
pub open spec fn split_spec(s: Seq<u8>, c: u8) -> Seq<Seq<u8>>
    decreases s.len(),
{
    let i = find_idx(s, c);
    if 0 <= i < s.len() {
        seq![s.subrange(0, i)] + split_spec(s.subrange(i + 1, s.len() as int), c)
    } else {
        seq![s]
    }
}

fn find_from(s: &[u8], c: u8, from: usize) -> (r: usize)
    requires
        from <= s@.len(),
    ensures
        from <= r <= s@.len(),
        r - from == find_idx(s@.subrange(from as int, s@.len() as int), c),
{
    let mut i: usize = from;
    while i < s.len() && s[i] != c
        invariant
            from <= i <= s@.len(),
            forall|j: int| from <= j < i ==> s@[j] != c,
        decreases s@.len() - i,
    {
        i = i + 1;
    }
    proof {
        let t = s@.subrange(from as int, s@.len() as int);
        lemma_find_idx_is(t, c, i - from);
    }
    i
}

/// Split a byte string at every occurrence of `c`.
pub fn split(s: &[u8], c: u8) -> (r: Vec<Vec<u8>>)
    ensures
        r@.map_values(|v: Vec<u8>| v@) == split_spec(s@, c),
{
    let mut out: Vec<Vec<u8>> = Vec::new();
    let mut pos: usize = 0;
    proof {
        assert(s@.subrange(0, s@.len() as int) =~= s@);
        assert(out@.map_values(|v: Vec<u8>| v@) + split_spec(s@, c) =~= split_spec(s@, c));
    }
    loop
        invariant
            pos <= s@.len(),
            split_spec(s@, c) == out@.map_values(|v: Vec<u8>| v@) + split_spec(
                s@.subrange(pos as int, s@.len() as int),
                c,
            ),
        ensures
            out@.map_values(|v: Vec<u8>| v@) == split_spec(s@, c),
        decreases s@.len() - pos,
    {
        let ghost rest = s@.subrange(pos as int, s@.len() as int);
        let ghost old_map = out@.map_values(|v: Vec<u8>| v@);
        let i = find_from(s, c, pos);
        if i < s.len() {
            proof {
                lemma_find_idx(rest, c);
                assert(rest.subrange(0, i - pos) =~= s@.subrange(pos as int, i as int));
                assert(rest.subrange(i - pos + 1, rest.len() as int) =~= s@.subrange(
                    i + 1,
                    s@.len() as int,
                ));
            }
            out.push(slice_to_vec(&s[pos..i]));
            proof {
                assert(out@.map_values(|v: Vec<u8>| v@) =~= old_map.push(s@.subrange(
                    pos as int,
                    i as int,
                )));
            }
            pos = i + 1;
        } else {
            proof {
                assert(rest.subrange(0, rest.len() as int) =~= rest);
            }
            out.push(slice_to_vec(&s[pos..s.len()]));
            proof {
                assert(out@.map_values(|v: Vec<u8>| v@) =~= old_map.push(rest));
                assert(out@.map_values(|v: Vec<u8>| v@) =~= split_spec(s@, c));
            }
            return out;
        }
    }
}

/// Split at commas and trim each part.
pub open spec fn split_trim_spec(s: Seq<u8>) -> Seq<Seq<u8>> {
    split_spec(s, 0x2c).map_values(|p: Seq<u8>| trim_spec(p))
}

/// Split a header value at commas, trimming each part.
pub fn split_trim(s: &[u8]) -> (r: Vec<Vec<u8>>)
    ensures
        r@.map_values(|v: Vec<u8>| v@) == split_trim_spec(s@),
{
    let parts = split(s, 0x2c);
    let mut out: Vec<Vec<u8>> = Vec::new();
    let mut i: usize = 0;
    while i < parts.len()
        invariant
            0 <= i <= parts@.len(),
            parts@.map_values(|v: Vec<u8>| v@) == split_spec(s@, 0x2c),
            out@.map_values(|v: Vec<u8>| v@) =~= split_spec(s@, 0x2c).subrange(
                0,
                i as int,
            ).map_values(|p: Seq<u8>| trim_spec(p)),
        decreases parts@.len() - i,
    {
        out.push(trim(parts[i].as_slice()));
        proof {
            let m = split_spec(s@, 0x2c);
            assert(m.subrange(0, i + 1).map_values(|p: Seq<u8>| trim_spec(p)) =~= m.subrange(
                0,
                i as int,
            ).map_values(|p: Seq<u8>| trim_spec(p)).push(trim_spec(m[i as int])));
        }
        i = i + 1;
    }
    proof {
        assert(split_spec(s@, 0x2c).subrange(0, split_spec(s@, 0x2c).len() as int) =~= split_spec(
            s@,
            0x2c,
        ));
    }
    out
}

/// The separator used when header parts are joined: a comma and a space.
pub open spec fn comma_space() -> Seq<u8> {
    seq![0x2cu8, 0x20u8]
}

/// Parts joined with `", "`; a part is preceded by the separator only
/// when something has been written already, so leading empty parts
/// leave no trace.
pub open spec fn join_spec(parts: Seq<Seq<u8>>) -> Seq<u8>
    decreases parts.len(),
{
    if parts.len() == 0 {
        Seq::empty()
    } else {
        let pre = join_spec(parts.drop_last());
        if pre.len() == 0 {
            pre + parts.last()
        } else {
            pre + comma_space() + parts.last()
        }
    }
}

/// Join byte strings with `", "`.
pub fn join(parts: &Vec<Vec<u8>>) -> (r: Vec<u8>)
    ensures
        r@ == join_spec(parts@.map_values(|v: Vec<u8>| v@)),
{
    let mut out: Vec<u8> = Vec::new();
    let mut i: usize = 0;
    while i < parts.len()
        invariant
            0 <= i <= parts@.len(),
            out@ == join_spec(parts@.map_values(|v: Vec<u8>| v@).subrange(0, i as int)),
        decreases parts@.len() - i,
    {
        let ghost m = parts@.map_values(|v: Vec<u8>| v@);
        if !out.is_empty() {
            out.push(0x2c);
            out.push(0x20);
        }
        out.extend_from_slice(parts[i].as_slice());
        proof {
            assert(m.subrange(0, i + 1).drop_last() =~= m.subrange(0, i as int));
            assert(m.subrange(0, i + 1).last() == m[i as int]);
            assert(out@ =~= join_spec(m.subrange(0, i + 1)));
        }
        i = i + 1;
    }
    proof {
        let m = parts@.map_values(|v: Vec<u8>| v@);
        assert(m.subrange(0, m.len() as int) =~= m);
    }
    out
}

/// `s` with every leading copy of `p` removed.
pub open spec fn strip_prefix_all_spec(s: Seq<u8>, p: Seq<u8>) -> Seq<u8>
    decreases s.len(),
{
    if p.len() > 0 && starts_with_spec(s, p) {
        strip_prefix_all_spec(s.subrange(p.len() as int, s.len() as int), p)
    } else {
        s
    }
}

/// Remove every leading copy of `p` from `s`.
pub fn strip_prefix_all(s: &[u8], p: &[u8]) -> (r: Vec<u8>)
    ensures
        r@ == strip_prefix_all_spec(s@, p@),
{
    if p.len() == 0 {
        return slice_to_vec(s);
    }
    let mut from: usize = 0;
    proof {
        assert(s@.subrange(0, s@.len() as int) =~= s@);
    }
    loop
        invariant
            from <= s@.len(),
            p@.len() > 0,
            strip_prefix_all_spec(s@, p@) == strip_prefix_all_spec(
                s@.subrange(from as int, s@.len() as int),
                p@,
            ),
        ensures
            from <= s@.len(),
            strip_prefix_all_spec(s@, p@) == s@.subrange(from as int, s@.len() as int),
        decreases s@.len() - from,
    {
        let ghost rest = s@.subrange(from as int, s@.len() as int);
        if starts_with(&s[from..s.len()], p) {
            proof {
                assert(rest.subrange(p@.len() as int, rest.len() as int) =~= s@.subrange(
                    from + p@.len(),
                    s@.len() as int,
                ));
            }
            from = from + p.len();
        } else {
            break;
        }
    }
    slice_to_vec(&s[from..s.len()])
}

/// No occurrence of the byte `c` anywhere in `s`.
pub open spec fn no_byte(s: Seq<u8>, c: u8) -> bool {
    forall|i: int| 0 <= i < s.len() ==> s[i] != c
}

proof fn lemma_trim_start_no_byte(s: Seq<u8>, c: u8)
    requires
        no_byte(s, c),
    ensures
        no_byte(trim_start_spec(s), c),
    decreases s.len(),
{
    if s.len() > 0 && is_ws(s[0]) {
        let t = s.subrange(1, s.len() as int);
        assert(no_byte(t, c)) by {
            assert(forall|i: int| 0 <= i < t.len() ==> t[i] == s[i + 1]);
        }
        lemma_trim_start_no_byte(t, c);
    }
}

proof fn lemma_trim_end_no_byte(s: Seq<u8>, c: u8)
    requires
        no_byte(s, c),
    ensures
        no_byte(trim_end_spec(s), c),
    decreases s.len(),
{
    if s.len() > 0 && is_ws(s[s.len() - 1]) {
        let t = s.subrange(0, s.len() - 1);
        assert(no_byte(t, c)) by {
            assert(forall|i: int| 0 <= i < t.len() ==> t[i] == s[i]);
        }
        lemma_trim_end_no_byte(t, c);
    }
}

/// Trimming cannot introduce a byte.
pub proof fn lemma_trim_no_byte(s: Seq<u8>, c: u8)
    requires
        no_byte(s, c),
    ensures
        no_byte(trim_spec(s), c),
{
    lemma_trim_start_no_byte(s, c);
    lemma_trim_end_no_byte(trim_start_spec(s), c);
}

/// A byte string of nothing but whitespace trims to nothing.
pub proof fn lemma_trim_all_ws_empty(s: Seq<u8>)
    requires
        forall|i: int| 0 <= i < s.len() ==> is_ws(s[i]),
    ensures
        trim_spec(s).len() == 0,
{
    lemma_trim_start_skip(s, s.len() as int);
    assert(s.subrange(s.len() as int, s.len() as int) =~= Seq::<u8>::empty());
}

/// Leading whitespace does not change what trimming yields.
pub proof fn lemma_trim_ws_prefix(pre: Seq<u8>, s: Seq<u8>)
    requires
        forall|i: int| 0 <= i < pre.len() ==> is_ws(pre[i]),
    ensures
        trim_spec(pre + s) == trim_spec(s),
{
    let w = pre + s;
    assert(forall|i: int| 0 <= i < pre.len() ==> is_ws(w[i]));
    lemma_trim_start_skip(w, pre.len() as int);
    assert(w.subrange(pre.len() as int, w.len() as int) =~= s);
    lemma_trim_start_skip(s, 0);
    assert(s.subrange(0, s.len() as int) =~= s);
}

/// Lower-casing cannot introduce a byte that is not a lower-case letter.
pub proof fn lemma_lower_no_byte(s: Seq<u8>, c: u8)
    requires
        no_byte(s, c),
        !(0x61 <= c <= 0x7a),
    ensures
        no_byte(lower_spec(s), c),
{
    assert(forall|i: int|
        0 <= i < s.len() ==> #[trigger] lower_spec(s)[i] == byte_lower(s[i]));
}

/// Unquoting cannot introduce a byte.
pub proof fn lemma_unquote_no_byte(s: Seq<u8>, c: u8)
    requires
        no_byte(s, c),
    ensures
        no_byte(unquote_spec(s), c),
{
    if s.len() >= 2 && s[0] == 0x22 && s[s.len() - 1] == 0x22 {
        let t = s.subrange(1, s.len() - 1);
        assert(forall|i: int| 0 <= i < t.len() ==> t[i] == s[i + 1]);
    }
}

/// A join of non-empty parts is non-empty.
pub proof fn lemma_join_nonempty(parts: Seq<Seq<u8>>)
    requires
        parts.len() > 0,
        forall|i: int| 0 <= i < parts.len() ==> #[trigger] parts[i].len() > 0,
    ensures
        join_spec(parts).len() > 0,
    decreases parts.len(),
{
    if parts.len() > 1 {
        assert(forall|i: int|
            0 <= i < parts.drop_last().len() ==> #[trigger] parts.drop_last()[i].len() > 0);
        lemma_join_nonempty(parts.drop_last());
    }
}

/// A join of non-empty parts taken apart at the front.
pub proof fn lemma_join_left(parts: Seq<Seq<u8>>)
    requires
        parts.len() > 0,
        forall|i: int| 0 <= i < parts.len() ==> #[trigger] parts[i].len() > 0,
    ensures
        parts.len() == 1 ==> join_spec(parts) == parts[0],
        parts.len() > 1 ==> join_spec(parts) == parts[0] + comma_space() + join_spec(
            parts.subrange(1, parts.len() as int),
        ),
    decreases parts.len(),
{
    if parts.len() == 1 {
        assert(join_spec(parts.drop_last()).len() == 0);
        assert(join_spec(parts.drop_last()) + parts.last() =~= parts[0]);
    } else {
        let dl = parts.drop_last();
        assert(forall|i: int| 0 <= i < dl.len() ==> #[trigger] dl[i].len() > 0);
        lemma_join_left(dl);
        lemma_join_nonempty(dl);
        let tail = parts.subrange(1, parts.len() as int);
        assert(forall|i: int| 0 <= i < tail.len() ==> #[trigger] tail[i].len() > 0);
        if parts.len() == 2 {
            assert(join_spec(parts) == join_spec(dl) + comma_space() + parts.last());
            assert(dl =~= seq![parts[0]]);
            assert(tail =~= seq![parts[1]]);
            lemma_join_left(tail);
            assert(join_spec(parts) =~= parts[0] + comma_space() + join_spec(tail));
        } else {
            assert(join_spec(parts) == join_spec(dl) + comma_space() + parts.last());
            assert(join_spec(dl) == dl[0] + comma_space() + join_spec(
                dl.subrange(1, dl.len() as int),
            ));
            lemma_join_left(tail);
            assert(tail.len() > 1);
            assert(join_spec(tail) == tail[0] + comma_space() + join_spec(
                tail.subrange(1, tail.len() as int),
            )) by {
                lemma_join_left(tail);
            }
            assert(tail.drop_last() =~= dl.subrange(1, dl.len() as int));
            assert(tail.subrange(1, tail.len() as int) =~= parts.subrange(
                2,
                parts.len() as int,
            ));
            lemma_join_nonempty(tail.drop_last());
            assert(join_spec(tail) == join_spec(tail.drop_last()) + comma_space() + tail.last());
            assert(join_spec(parts) =~= parts[0] + comma_space() + join_spec(tail));
        }
    }
}

/// Splitting at the first separator, when the head holds none.
pub proof fn lemma_split_first(a: Seq<u8>, b: Seq<u8>, c: u8)
    requires
        no_byte(a, c),
    ensures
        split_spec(a + seq![c] + b, c) == seq![a] + split_spec(b, c),
{
    let w = a + seq![c] + b;
    assert(w[a.len() as int] == c);
    assert(forall|j: int| 0 <= j < a.len() ==> w[j] == a[j] && w[j] != c);
    lemma_find_idx_is(w, c, a.len() as int);
    assert(w.subrange(0, a.len() as int) =~= a);
    assert(w.subrange(a.len() as int + 1, w.len() as int) =~= b);
}

/// A byte string without the separator splits into itself alone.
pub proof fn lemma_split_single(s: Seq<u8>, c: u8)
    requires
        no_byte(s, c),
    ensures
        split_spec(s, c) == seq![s],
{
    lemma_find_idx_is(s, c, s.len() as int);
}

/// No part of a split holds the separator.
pub proof fn lemma_split_parts_no_byte(s: Seq<u8>, c: u8)
    ensures
        forall|i: int|
            0 <= i < split_spec(s, c).len() ==> no_byte(#[trigger] split_spec(s, c)[i], c),
    decreases s.len(),
{
    lemma_find_idx(s, c);
    let k = find_idx(s, c);
    if 0 <= k < s.len() {
        let hd = s.subrange(0, k);
        let tl = s.subrange(k + 1, s.len() as int);
        assert(no_byte(hd, c)) by {
            assert(forall|j: int| 0 <= j < hd.len() ==> hd[j] == s[j]);
        }
        lemma_split_parts_no_byte(tl, c);
        assert(forall|i: int|
            1 <= i < split_spec(s, c).len() ==> #[trigger] split_spec(s, c)[i] == split_spec(
                tl,
                c,
            )[i - 1]);
    } else {
        assert(no_byte(split_spec(s, c)[0], c));
    }
}

/// A formatted directive value must be quoted: it is empty or holds a
/// byte that is not an ASCII letter or digit.
pub open spec fn needs_quote_spec(v: Seq<u8>) -> bool {
    v.len() == 0 || exists|i: int| 0 <= i < v.len() && !is_alnum(v[i])
}

/// Whether a directive value needs surrounding quotes when formatted.
pub fn needs_quote(v: &[u8]) -> (r: bool)
    ensures
        r == needs_quote_spec(v@),
{
    if v.len() == 0 {
        return true;
    }
    let mut i: usize = 0;
    while i < v.len()
        invariant
            0 <= i <= v@.len(),
            forall|j: int| 0 <= j < i ==> is_alnum(v@[j]),
        decreases v@.len() - i,
    {
        let b = v[i];
        if !((0x30 <= b && b <= 0x39) || (0x41 <= b && b <= 0x5a) || (0x61 <= b && b <= 0x7a)) {
            return true;
        }
        i = i + 1;
    }
    false
}

/// `sub` occurs somewhere in `s`.
pub open spec fn contains_sub_spec(s: Seq<u8>, sub: Seq<u8>) -> bool {
    exists|i: int|
        0 <= i <= s.len() - sub.len() && #[trigger] s.subrange(i, i + sub.len() as int) == sub
}

/// Whether `sub` occurs somewhere in `s`.
pub fn contains_bytes(s: &[u8], sub: &[u8]) -> (r: bool)
    ensures
        r == contains_sub_spec(s@, sub@),
{
    if sub.len() == 0 {
        proof {
            assert(s@.subrange(0, 0 + sub@.len() as int) =~= sub@);
        }
        return true;
    }
    if sub.len() > s.len() {
        return false;
    }
    let mut i: usize = 0;
    while i <= s.len() - sub.len()
        invariant
            0 < sub@.len() <= s@.len(),
            0 <= i <= s@.len() - sub@.len() + 1,
            forall|j: int| 0 <= j < i ==> #[trigger] s@.subrange(j, j + sub@.len() as int) != sub@,
        decreases s@.len() - sub@.len() + 1 - i,
    {
        if starts_with(&s[i..s.len()], sub) {
            proof {
                assert(s@.subrange(i as int, s@.len() as int).subrange(0, sub@.len() as int)
                    =~= s@.subrange(i as int, i as int + sub@.len() as int));
            }
            return true;
        }
        proof {
            assert(s@.subrange(i as int, i as int + sub@.len() as int) =~= s@.subrange(
                i as int,
                s@.len() as int,
            ).subrange(0, sub@.len() as int));
        }
        i = i + 1;
    }
    false
}

} // verus!
