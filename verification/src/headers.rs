//! An HTTP header map modelled as an ordered list of name/value pairs of
//! bytes, with names held in lower case.
//!
//! `get` returns the first value of a name, `insert` replaces every value
//! of a name, `append` adds one more; this mirrors how a real header map
//! behaves under the operations the cache logic uses.

use vstd::prelude::*;
use vstd::slice::slice_to_vec;
use vstd::string::StringSliceAdditionalSpecFns;
use crate::strutil::lower;
use crate::strutil::lower_spec;
use crate::strutil::bytes_eq;

verus! {

/// The view of a header map: name/value pairs in insertion order.
pub type HView = Seq<(Seq<u8>, Seq<u8>)>;

/// The view of one stored pair.
pub open spec fn pair_view(p: (Vec<u8>, Vec<u8>)) -> (Seq<u8>, Seq<u8>) {
    (p.0@, p.1@)
}

/// Every value stored under `n`, in order.
pub open spec fn h_all(h: HView, n: Seq<u8>) -> Seq<Seq<u8>> {
    h.filter(|p: (Seq<u8>, Seq<u8>)| p.0 == n).map_values(|p: (Seq<u8>, Seq<u8>)| p.1)
}

/// The first value stored under `n`, if any.
pub open spec fn h_get(h: HView, n: Seq<u8>) -> Option<Seq<u8>> {
    if h_all(h, n).len() > 0 {
        Some(h_all(h, n)[0])
    } else {
        None
    }
}

/// Whether any value is stored under `n`.
pub open spec fn h_contains(h: HView, n: Seq<u8>) -> bool {
    exists|i: int| 0 <= i < h.len() && h[i].0 == n
}

/// The map with every value of `n` removed.
pub open spec fn h_remove(h: HView, n: Seq<u8>) -> HView {
    h.filter(|p: (Seq<u8>, Seq<u8>)| p.0 != n)
}

/// The map with every value of `n` replaced by the single value `v`.
pub open spec fn h_insert(h: HView, n: Seq<u8>, v: Seq<u8>) -> HView {
    h_remove(h, n).push((n, v))
}

/// All names are lower-case: the well-formedness every operation keeps.
pub open spec fn h_wf(h: HView) -> bool {
    forall|i: int| 0 <= i < h.len() ==> #[trigger] h[i].0 == lower_spec(h[i].0)
}

/// Removing a name never adds entries for another.
pub proof fn lemma_h_remove_contains(h: HView, n: Seq<u8>, m: Seq<u8>)
    ensures
        h_contains(h_remove(h, n), m) ==> h_contains(h, m),
        h_contains(h_remove(h, n), n) == false,
    decreases h.len(),
{
    reveal(Seq::filter);
    if h.len() > 0 {
        lemma_h_remove_contains(h.drop_last(), n, m);
        assert(forall|i: int|
            0 <= i < h.drop_last().len() ==> h.drop_last()[i] == h[i]);
        let r = h_remove(h, n);
        let rd = h_remove(h.drop_last(), n);
        if h_contains(r, m) && !(h.last().0 != n && h.last().0 == m) {
            let i = choose|i: int| 0 <= i < r.len() && r[i].0 == m;
            if h.last().0 != n {
                if i < rd.len() {
                    assert(h_contains(rd, m));
                } else {
                    assert(r[i] == h.last());
                }
            } else {
                assert(h_contains(rd, m));
            }
        }
    }
}

/// Removing one name leaves the presence of every other unchanged.
pub proof fn lemma_h_remove_keeps(h: HView, n: Seq<u8>, m: Seq<u8>)
    requires
        m != n,
    ensures
        h_contains(h_remove(h, n), m) <==> h_contains(h, m),
    decreases h.len(),
{
    reveal(Seq::filter);
    lemma_h_remove_contains(h, n, m);
    if h.len() > 0 {
        lemma_h_remove_keeps(h.drop_last(), n, m);
        let r = h_remove(h, n);
        let rd = h_remove(h.drop_last(), n);
        if h_contains(h, m) {
            let i = choose|i: int| 0 <= i < h.len() && h[i].0 == m;
            if i < h.len() - 1 {
                assert(h.drop_last()[i].0 == m);
                assert(h_contains(rd, m));
                let j = choose|j: int| 0 <= j < rd.len() && rd[j].0 == m;
                if h.last().0 != n {
                    assert(r == rd.push(h.last()));
                    assert(r[j].0 == m);
                } else {
                    assert(r == rd);
                }
            } else {
                assert(h.last().0 == m);
                if h.last().0 != n {
                    assert(r == rd.push(h.last()));
                    assert(r[r.len() - 1].0 == m);
                }
            }
        }
    }
}

/// What an insertion holds: the inserted name, and whatever of the rest
/// survived the removal.
pub proof fn lemma_h_insert_contains(h: HView, m: Seq<u8>, v: Seq<u8>, n: Seq<u8>)
    ensures
        h_contains(h_insert(h, m, v), m),
        n != m ==> (h_contains(h_insert(h, m, v), n) <==> h_contains(h, n)),
{
    let r = h_insert(h, m, v);
    assert(r[r.len() - 1].0 == m);
    if n != m {
        lemma_h_remove_keeps(h, m, n);
        let rm = h_remove(h, m);
        if h_contains(rm, n) {
            let i = choose|i: int| 0 <= i < rm.len() && rm[i].0 == n;
            assert(r[i].0 == n);
        }
        if h_contains(r, n) {
            let i = choose|i: int| 0 <= i < r.len() && r[i].0 == n;
            assert(i < rm.len());
            assert(rm[i].0 == n);
        }
    }
}

pub proof fn lemma_h_remove_wf(h: HView, n: Seq<u8>)
    requires
        h_wf(h),
    ensures
        h_wf(h_remove(h, n)),
    decreases h.len(),
{
    reveal(Seq::filter);
    if h.len() > 0 {
        assert(h_wf(h.drop_last())) by {
            assert(forall|i: int|
                0 <= i < h.len() - 1 ==> h.drop_last()[i] == h[i]);
        }
        lemma_h_remove_wf(h.drop_last(), n);
        let r = h_remove(h, n);
        let rd = h_remove(h.drop_last(), n);
        if h.last().0 != n {
            assert(r == rd.push(h.last()));
            assert(h.last().0 == lower_spec(h.last().0));
            assert(forall|i: int| 0 <= i < rd.len() ==> r[i] == rd[i]);
        }
    }
}

/// An HTTP header map: names lower-cased, values raw bytes.
#[derive(Debug)]
pub struct Headers {
    entries: Vec<(Vec<u8>, Vec<u8>)>,
}

impl View for Headers {
    type V = HView;

    closed spec fn view(&self) -> HView {
        self.entries@.map_values(|p: (Vec<u8>, Vec<u8>)| pair_view(p))
    }
}

impl Headers {
    /// An empty header map.
    pub fn new() -> (r: Headers)
        ensures
            r@ == Seq::<(Seq<u8>, Seq<u8>)>::empty(),
            h_wf(r@),
    {
        let h = Headers { entries: Vec::new() };
        proof {
            assert(h@ =~= Seq::<(Seq<u8>, Seq<u8>)>::empty());
        }
        h
    }

    /// Add one header; the name is lower-cased, the value kept as is.
    pub fn add(&mut self, name: &str, value: &str)
        ensures
            final(self)@ == old(self)@.push((lower_spec(name.spec_bytes()), value.spec_bytes())),
            h_wf(old(self)@) ==> h_wf(final(self)@),
    {
        let n = lower(name.as_bytes());
        let v = slice_to_vec(value.as_bytes());
        proof {
            lemma_lower_idempotent(name.spec_bytes());
        }
        self.push_pair(n, v);
    }

    /// Append a pair whose name is already lower-case bytes.
    pub fn push_pair(&mut self, name: Vec<u8>, value: Vec<u8>)
        ensures
            final(self)@ == old(self)@.push((name@, value@)),
            h_wf(old(self)@) && name@ == lower_spec(name@) ==> h_wf(final(self)@),
    {
        let ghost oldv = self@;
        let ghost nv = name@;
        self.entries.push((name, value));
        proof {
            assert(self@ =~= oldv.push((nv, value@)));
            if h_wf(oldv) && nv == lower_spec(nv) {
                assert(forall|i: int|
                    0 <= i < oldv.len() ==> self@[i] == oldv[i]);
                assert(self@[oldv.len() as int].0 == nv);
            }
        }
    }

    /// How many pairs are stored.
    pub fn len(&self) -> (r: usize)
        ensures
            r == self@.len(),
    {
        self.entries.len()
    }

    /// The pair at position `i`.
    pub fn pair_at(&self, i: usize) -> (r: &(Vec<u8>, Vec<u8>))
        requires
            i < self@.len(),
        ensures
            (r.0@, r.1@) == self@[i as int],
    {
        &self.entries[i]
    }

    /// Whether any value is stored under this lower-case name.
    pub fn contains_name(&self, name: &[u8]) -> (r: bool)
        ensures
            r == h_contains(self@, name@),
    {
        let mut i: usize = 0;
        while i < self.entries.len()
            invariant
                0 <= i <= self@.len(),
                forall|j: int| 0 <= j < i ==> self@[j].0 != name@,
            decreases self@.len() - i,
        {
            if bytes_eq(self.entries[i].0.as_slice(), name) {
                proof {
                    assert(self@[i as int].0 == name@);
                }
                return true;
            }
            i = i + 1;
        }
        false
    }

    /// The first value stored under this lower-case name.
    pub fn get_first(&self, name: &[u8]) -> (r: Option<Vec<u8>>)
        ensures
            (match r {
                Some(v) => h_get(self@, name@) == Some(v@),
                None => h_get(self@, name@) is None,
            }),
    {
        let ghost h = self@;
        let ghost pred = |p: (Seq<u8>, Seq<u8>)| p.0 == name@;
        let mut i: usize = 0;
        while i < self.entries.len()
            invariant
                0 <= i <= h.len(),
                h == self@,
                h.subrange(0, i as int).filter(pred) =~= Seq::<(Seq<u8>, Seq<u8>)>::empty(),
                pred == (|p: (Seq<u8>, Seq<u8>)| p.0 == name@),
            decreases h.len() - i,
        {
            if bytes_eq(self.entries[i].0.as_slice(), name) {
                proof {
                    reveal(Seq::filter);
                    let sub1 = h.subrange(0, i + 1);
                    assert(sub1.drop_last() =~= h.subrange(0, i as int));
                    assert(sub1.last() == h[i as int]);
                    assert(sub1.filter(pred) =~= seq![h[i as int]]);
                    assert(h =~= sub1 + h.subrange(i + 1, h.len() as int));
                    Seq::filter_distributes_over_add(sub1, h.subrange(i + 1, h.len() as int), pred);
                    assert(h.filter(pred)[0] == h[i as int]);
                    assert(h_all(h, name@)[0] == h[i as int].1);
                }
                return Some(slice_to_vec(self.entries[i].1.as_slice()));
            }
            proof {
                reveal(Seq::filter);
                let sub1 = h.subrange(0, i + 1);
                assert(sub1.drop_last() =~= h.subrange(0, i as int));
                assert(sub1.last() == h[i as int]);
                assert(sub1.filter(pred) =~= Seq::<(Seq<u8>, Seq<u8>)>::empty());
            }
            i = i + 1;
        }
        proof {
            assert(h.subrange(0, h.len() as int) =~= h);
        }
        None
    }

    /// Every value stored under this lower-case name, in order.
    pub fn get_all_vals(&self, name: &[u8]) -> (r: Vec<Vec<u8>>)
        ensures
            r@.map_values(|v: Vec<u8>| v@) == h_all(self@, name@),
    {
        let ghost h = self@;
        let ghost pred = |p: (Seq<u8>, Seq<u8>)| p.0 == name@;
        let mut out: Vec<Vec<u8>> = Vec::new();
        let mut i: usize = 0;
        proof {
            reveal(Seq::filter);
            assert(out@.map_values(|v: Vec<u8>| v@) =~= h_all(h.subrange(0, 0), name@));
        }
        while i < self.entries.len()
            invariant
                0 <= i <= h.len(),
                h == self@,
                pred == (|p: (Seq<u8>, Seq<u8>)| p.0 == name@),
                out@.map_values(|v: Vec<u8>| v@) =~= h_all(h.subrange(0, i as int), name@),
            decreases h.len() - i,
        {
            let ghost old_out = out@.map_values(|v: Vec<u8>| v@);
            if bytes_eq(self.entries[i].0.as_slice(), name) {
                out.push(slice_to_vec(self.entries[i].1.as_slice()));
            }
            proof {
                reveal(Seq::filter);
                let sub1 = h.subrange(0, i + 1);
                assert(sub1.drop_last() =~= h.subrange(0, i as int));
                assert(sub1.last() == h[i as int]);
                if h[i as int].0 == name@ {
                    assert(sub1.filter(pred) =~= h.subrange(0, i as int).filter(pred).push(
                        h[i as int],
                    ));
                    assert(out@.map_values(|v: Vec<u8>| v@) =~= old_out.push(h[i as int].1));
                    assert(out@.map_values(|v: Vec<u8>| v@) =~= h_all(sub1, name@));
                } else {
                    assert(sub1.filter(pred) =~= h.subrange(0, i as int).filter(pred));
                    assert(out@.map_values(|v: Vec<u8>| v@) =~= h_all(sub1, name@));
                }
            }
            i = i + 1;
        }
        proof {
            assert(h.subrange(0, h.len() as int) =~= h);
        }
        out
    }

    /// Remove every value stored under this lower-case name.
    pub fn remove_name(&mut self, name: &[u8])
        ensures
            final(self)@ == h_remove(old(self)@, name@),
            h_wf(old(self)@) ==> h_wf(final(self)@),
    {
        let ghost h = old(self)@;
        let ghost pred = |p: (Seq<u8>, Seq<u8>)| p.0 != name@;
        let mut out: Vec<(Vec<u8>, Vec<u8>)> = Vec::new();
        let mut i: usize = 0;
        proof {
            reveal(Seq::filter);
            assert(out@.map_values(|p: (Vec<u8>, Vec<u8>)| pair_view(p)) =~= h.subrange(
                0,
                0,
            ).filter(pred));
        }
        while i < self.entries.len()
            invariant
                0 <= i <= h.len(),
                h == self@,
                pred == (|p: (Seq<u8>, Seq<u8>)| p.0 != name@),
                out@.map_values(|p: (Vec<u8>, Vec<u8>)| pair_view(p)) =~= h.subrange(
                    0,
                    i as int,
                ).filter(pred),
            decreases h.len() - i,
        {
            let ghost old_out = out@.map_values(|p: (Vec<u8>, Vec<u8>)| pair_view(p));
            if !bytes_eq(self.entries[i].0.as_slice(), name) {
                let n = slice_to_vec(self.entries[i].0.as_slice());
                let v = slice_to_vec(self.entries[i].1.as_slice());
                out.push((n, v));
            }
            proof {
                reveal(Seq::filter);
                let sub1 = h.subrange(0, i + 1);
                assert(sub1.drop_last() =~= h.subrange(0, i as int));
                assert(sub1.last() == h[i as int]);
                if h[i as int].0 != name@ {
                    assert(out@.map_values(|p: (Vec<u8>, Vec<u8>)| pair_view(p)) =~= old_out.push(
                        h[i as int],
                    ));
                    assert(out@.map_values(|p: (Vec<u8>, Vec<u8>)| pair_view(p)) =~= sub1.filter(
                        pred,
                    ));
                } else {
                    assert(out@.map_values(|p: (Vec<u8>, Vec<u8>)| pair_view(p)) =~= sub1.filter(
                        pred,
                    ));
                }
            }
            i = i + 1;
        }
        proof {
            assert(h.subrange(0, h.len() as int) =~= h);
        }
        self.entries = out;
        proof {
            if h_wf(h) {
                lemma_h_remove_wf(h, name@);
            }
        }
    }

    /// Replace every value of this lower-case name with one value.
    pub fn insert_pair(&mut self, name: Vec<u8>, value: Vec<u8>)
        ensures
            final(self)@ == h_insert(old(self)@, name@, value@),
            h_wf(old(self)@) && name@ == lower_spec(name@) ==> h_wf(final(self)@),
    {
        self.remove_name(name.as_slice());
        self.push_pair(name, value);
    }

    /// An identical copy of the header map.
    pub fn duplicate(&self) -> (r: Headers)
        ensures
            r@ == self@,
    {
        let mut out = Headers::new();
        let mut i: usize = 0;
        while i < self.len()
            invariant
                0 <= i <= self@.len(),
                out@ =~= self@.subrange(0, i as int),
            decreases self@.len() - i,
        {
            let p = self.pair_at(i);
            let n = slice_to_vec(p.0.as_slice());
            let v = slice_to_vec(p.1.as_slice());
            out.push_pair(n, v);
            proof {
                assert(out@ =~= self@.subrange(0, i + 1));
            }
            i = i + 1;
        }
        proof {
            assert(self@.subrange(0, self@.len() as int) =~= self@);
        }
        out
    }

    /// The first value stored under the name, given in any ASCII case.
    pub fn get_value(&self, name: &str) -> (r: Option<Vec<u8>>)
        ensures
            (match r {
                Some(v) => h_get(self@, lower_spec(name.spec_bytes())) == Some(v@),
                None => h_get(self@, lower_spec(name.spec_bytes())) is None,
            }),
    {
        let n = lower(name.as_bytes());
        self.get_first(n.as_slice())
    }
}

/// Lower-casing is idempotent.
pub proof fn lemma_lower_idempotent(s: Seq<u8>)
    ensures
        lower_spec(lower_spec(s)) == lower_spec(s),
{
    assert(lower_spec(lower_spec(s)) =~= lower_spec(s));
}

} // verus!
