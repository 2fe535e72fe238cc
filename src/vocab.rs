//! The feature vocabulary: every feature name once, in code-point order,
//! with the empty name, the bias bucket, first.

use vstd::prelude::*;

use crate::features::views;
use crate::text::chars_of;

verus! {

/// Lexicographic order of strings by code point.
pub open spec fn seq_lt(a: Seq<char>, b: Seq<char>) -> bool
    decreases a.len(),
{
    if b.len() == 0 {
        false
    } else if a.len() == 0 {
        true
    } else if a[0] != b[0] {
        a[0] < b[0]
    } else {
        seq_lt(a.drop_first(), b.drop_first())
    }
}

/// `a` is before `b` or equal to it.
pub open spec fn seq_le(a: Seq<char>, b: Seq<char>) -> bool {
    seq_lt(a, b) || a == b
}

/// Every string of `s` is before the next.
pub open spec fn strictly_sorted(s: Seq<Seq<char>>) -> bool {
    forall|i: int, j: int| 0 <= i < j < s.len() ==> seq_lt(s[i], s[j])
}

proof fn lemma_lt_trans(a: Seq<char>, b: Seq<char>, c: Seq<char>)
    requires
        seq_lt(a, b),
        seq_lt(b, c),
    ensures
        seq_lt(a, c),
    decreases a.len(),
{
    if a.len() > 0 && a[0] == b[0] && b[0] == c[0] {
        lemma_lt_trans(a.drop_first(), b.drop_first(), c.drop_first());
    }
}

proof fn lemma_push_contains(a: Seq<Seq<char>>, x: Seq<char>)
    ensures
        forall|s: Seq<char>| #[trigger] a.push(x).contains(s) <==> (a.contains(s) || s == x),
{
    assert forall|s: Seq<char>| #[trigger] a.push(x).contains(s) <==> (a.contains(s) || s == x) by {
        if a.push(x).contains(s) {
            let i = choose|i: int| 0 <= i < a.push(x).len() && a.push(x)[i] == s;
            if i < a.len() {
                assert(a[i] == s);
            }
        }
        if a.contains(s) {
            let i = choose|i: int| 0 <= i < a.len() && a[i] == s;
            assert(a.push(x)[i] == s);
        }
        if s == x {
            assert(a.push(x)[a.len() as int] == s);
        }
    }
}

/// Relies on `slice::sort` from std and `Ord for String`, which orders
/// strings lexicographically by code point: the same strings, ascending.
#[verifier::external_body]
pub(crate) fn sort_strings(v: &mut Vec<String>)
    ensures
        views(final(v)@).to_multiset() == views(old(v)@).to_multiset(),
        forall|i: int, j: int|
            0 <= i < j < final(v)@.len() ==> seq_le(#[trigger] final(v)@[i]@, #[trigger] final(v)@[j]@),
{
    v.sort();
}

/// The vocabulary of a list of feature names: the empty name and every
/// name, each once, in code-point order. The empty name comes first.
pub fn vocabulary(names: &Vec<String>) -> (r: Vec<String>)
    ensures
        r@.len() > 0,
        r@[0]@ == Seq::<char>::empty(),
        strictly_sorted(views(r@)),
        forall|s: Seq<char>|
            #[trigger] views(r@).contains(s) <==> (s == Seq::<char>::empty() || views(
                names@,
            ).contains(s)),
{
    broadcast use vstd::seq_lib::group_to_multiset_ensures;

    let mut v: Vec<String> = Vec::new();
    v.push(String::new());
    let mut k: usize = 0;
    while k < names.len()
        invariant
            k <= names.len(),
            views(v@) == seq![Seq::<char>::empty()] + views(names@).take(k as int),
        decreases names.len() - k,
    {
        let ghost v0 = v@;
        v.push(names[k].clone());
        assert(views(v@) =~= views(v0).push(names@[k as int]@));
        assert(views(names@).take(k + 1) =~= views(names@).take(k as int).push(names@[k as int]@));
        k = k + 1;
    }
    assert(views(names@).take(k as int) =~= views(names@));
    let ghost all = views(v@);
    assert forall|s: Seq<char>| all.contains(s) <==> (s == Seq::<char>::empty() || views(
        names@,
    ).contains(s)) by {
        if all.contains(s) {
            let i = choose|i: int| 0 <= i < all.len() && all[i] == s;
            if i > 0 {
                assert(views(names@)[i - 1] == s);
            }
        }
        if s == Seq::<char>::empty() {
            assert(all[0] == s);
        }
        if views(names@).contains(s) {
            let i = choose|i: int| 0 <= i < views(names@).len() && views(names@)[i] == s;
            assert(all[i + 1] == s);
        }
    }
    sort_strings(&mut v);
    assert forall|s: Seq<char>| #[trigger] views(v@).contains(s) <==> all.contains(s) by {
        assert(views(v@).contains(s) <==> views(v@).to_multiset().count(s) > 0);
        assert(all.contains(s) <==> all.to_multiset().count(s) > 0);
    }
    let mut r: Vec<String> = Vec::new();
    let mut p: usize = 0;
    while p < v.len()
        invariant
            p <= v.len(),
            forall|i: int, j: int| 0 <= i < j < v@.len() ==> seq_le(#[trigger] v@[i]@, #[trigger] v@[j]@),
            strictly_sorted(views(r@)),
            p == 0 <==> r@.len() == 0,
            p > 0 ==> r@[r@.len() - 1]@ == v@[p - 1]@,
            forall|i: int| 0 <= i < r@.len() ==> exists|q: int| 0 <= q < p && #[trigger] r@[i]@ == v@[q]@,
            forall|s: Seq<char>| #[trigger] views(r@).contains(s) <==> views(v@).take(p as int).contains(s),
            forall|s: Seq<char>|
                #[trigger] views(v@).contains(s) <==> (s == Seq::<char>::empty() || views(
                    names@,
                ).contains(s)),
        decreases v.len() - p,
    {
        let ghost r0 = r@;
        assert(views(v@).take(p + 1) =~= views(v@).take(p as int).push(v@[p as int]@));
        proof {
            lemma_push_contains(views(v@).take(p as int), v@[p as int]@);
            lemma_push_contains(views(r0), v@[p as int]@);
        }
        if p == 0 || !crate::text::str_eq(r[r.len() - 1].as_str(), v[p].as_str()) {
            let ghost x = v@[p as int]@;
            if p > 0 {
                assert(seq_le(v@[p - 1]@, v@[p as int]@));
            }
            r.push(v[p].clone());
            assert(views(r@) =~= views(r0).push(x));
            assert forall|i: int, j: int| 0 <= i < j < views(r@).len() implies seq_lt(
                views(r@)[i],
                views(r@)[j],
            ) by {
                if j == r0.len() {
                    let q = choose|q: int| 0 <= q < p && #[trigger] r0[i]@ == v@[q]@;
                    if q < p - 1 {
                        assert(seq_le(v@[q]@, v@[p - 1]@));
                        if v@[q]@ != v@[p - 1]@ {
                            lemma_lt_trans(v@[q]@, v@[p - 1]@, x);
                        }
                    }
                }
            }
            assert forall|i: int| 0 <= i < r@.len() implies exists|q: int|
                0 <= q < p + 1 && #[trigger] r@[i]@ == v@[q]@ by {
                if i < r0.len() {
                    let q = choose|q: int| 0 <= q < p && #[trigger] r0[i]@ == v@[q]@;
                    assert(r@[i]@ == v@[q]@);
                } else {
                    assert(r@[i]@ == v@[p as int]@);
                }
            }
        } else {
            assert forall|i: int| 0 <= i < r@.len() implies exists|q: int|
                0 <= q < p + 1 && #[trigger] r@[i]@ == v@[q]@ by {
                let q = choose|q: int| 0 <= q < p && #[trigger] r@[i]@ == v@[q]@;
            }
            assert(views(r@).contains(v@[p as int]@)) by {
                assert(views(r@)[r@.len() - 1] == v@[p as int]@);
            }
        }
        p = p + 1;
    }
    assert(views(v@).take(p as int) =~= views(v@));
    assert(views(v@).contains(Seq::<char>::empty()));
    assert(views(r@).contains(Seq::<char>::empty()));
    proof {
        let z = choose|i: int| 0 <= i < views(r@).len() && views(r@)[i] == Seq::<char>::empty();
        if z > 0 {
            assert(seq_lt(views(r@)[0], views(r@)[z]));
        }
    }
    r
}

proof fn lemma_lt_irreflexive(a: Seq<char>)
    ensures
        !seq_lt(a, a),
    decreases a.len(),
{
    if a.len() > 0 {
        lemma_lt_irreflexive(a.drop_first());
    }
}

proof fn lemma_lt_total(a: Seq<char>, b: Seq<char>)
    ensures
        seq_lt(a, b) || seq_lt(b, a) || a == b,
    decreases a.len(),
{
    if a.len() > 0 && b.len() > 0 && a[0] == b[0] {
        lemma_lt_total(a.drop_first(), b.drop_first());
        if a.drop_first() == b.drop_first() {
            assert(a =~= seq![a[0]] + a.drop_first());
            assert(b =~= seq![b[0]] + b.drop_first());
        }
    } else if a.len() == 0 && b.len() == 0 {
        assert(a =~= b);
    }
}

/// Whether `a` comes before `b` in code-point order.
fn str_lt(a: &str, b: &str) -> (r: bool)
    ensures
        r == seq_lt(a@, b@),
{
    let ca = chars_of(a);
    let cb = chars_of(b);
    let mut k: usize = 0;
    assert(a@.subrange(0, a@.len() as int) =~= a@);
    assert(b@.subrange(0, b@.len() as int) =~= b@);
    while k < ca.len() && k < cb.len() && ca[k] == cb[k]
        invariant
            ca@ == a@,
            cb@ == b@,
            k <= ca.len(),
            k <= cb.len(),
            seq_lt(a@, b@) == seq_lt(
                a@.subrange(k as int, a@.len() as int),
                b@.subrange(k as int, b@.len() as int),
            ),
        decreases ca.len() - k,
    {
        let ghost x = a@.subrange(k as int, a@.len() as int);
        let ghost y = b@.subrange(k as int, b@.len() as int);
        assert(x.drop_first() =~= a@.subrange(k + 1, a@.len() as int));
        assert(y.drop_first() =~= b@.subrange(k + 1, b@.len() as int));
        k = k + 1;
    }
    let ghost x = a@.subrange(k as int, a@.len() as int);
    let ghost y = b@.subrange(k as int, b@.len() as int);
    if k == cb.len() {
        assert(y.len() == 0);
        false
    } else if k == ca.len() {
        assert(x.len() == 0);
        true
    } else {
        assert(x[0] == ca@[k as int] && y[0] == cb@[k as int]);
        ca[k] < cb[k]
    }
}

/// The position of `name` in a list without duplicates.
pub open spec fn position_in(names: Seq<Seq<char>>, name: Seq<char>) -> int {
    choose|p: int| 0 <= p < names.len() && names[p] == name
}

/// The positions of the known names among `attrs`, in order; unknown names
/// are passed over.
pub open spec fn known_positions(names: Seq<Seq<char>>, attrs: Seq<Seq<char>>) -> Seq<usize>
    decreases attrs.len(),
{
    if attrs.len() == 0 {
        seq![]
    } else {
        let prev = known_positions(names, attrs.drop_last());
        if names.contains(attrs.last()) {
            prev.push(position_in(names, attrs.last()) as usize)
        } else {
            prev
        }
    }
}

/// Adding a name that the vocabulary does not hold to a list of attributes
/// leaves the known positions, and so every score built from them, as they were.
pub proof fn lemma_unknown_attribute_neutral(
    names: Seq<Seq<char>>,
    attrs: Seq<Seq<char>>,
    x: Seq<char>,
)
    requires
        !names.contains(x),
    ensures
        known_positions(names, attrs.push(x)) == known_positions(names, attrs),
{
    assert(attrs.push(x).drop_last() =~= attrs);
}

/// The names of a learner's features by position, with a sorted view for lookup.
pub struct FeatureIndex {
    names: Vec<String>,
    sorted: Vec<(String, usize)>,
}

impl FeatureIndex {
    /// The names by position.
    pub closed spec fn view(&self) -> Seq<Seq<char>> {
        views(self.names@)
    }

    /// The sorted view is in strict code-point order and pairs each name
    /// with its position, every position once.
    pub closed spec fn wf(&self) -> bool {
        &&& self.sorted@.len() == self.names@.len()
        &&& forall|i: int, j: int|
            0 <= i < j < self.sorted@.len() ==> seq_lt(
                #[trigger] self.sorted@[i].0@,
                #[trigger] self.sorted@[j].0@,
            )
        &&& forall|k: int|
            0 <= k < self.sorted@.len() ==> (#[trigger] self.sorted@[k]).1 < self.names@.len()
                && self.names@[self.sorted@[k].1 as int]@ == self.sorted@[k].0@
        &&& forall|p: int| 0 <= p < self.names@.len() ==> #[trigger] self.entry_for(p)
    }

    /// Some entry of the sorted view points at position `p`.
    closed spec fn entry_for(&self, p: int) -> bool {
        exists|k: int| 0 <= k < self.sorted@.len() && #[trigger] self.sorted@[k].1 == p
    }

    /// The names of a well-formed index are all different.
    pub proof fn lemma_no_duplicates(&self)
        requires
            self.wf(),
        ensures
            self@.no_duplicates(),
    {
        assert forall|p: int, q: int|
            0 <= p < self@.len() && 0 <= q < self@.len() && p != q implies self@[p] != self@[q] by {
            assert(self.entry_for(p));
            assert(self.entry_for(q));
            let kp = choose|k: int| 0 <= k < self.sorted@.len() && #[trigger] self.sorted@[k].1 == p;
            let kq = choose|k: int| 0 <= k < self.sorted@.len() && #[trigger] self.sorted@[k].1 == q;
            if kp < kq {
                assert(seq_lt(self.sorted@[kp].0@, self.sorted@[kq].0@));
                lemma_lt_irreflexive(self@[p]);
            } else {
                assert(seq_lt(self.sorted@[kq].0@, self.sorted@[kp].0@));
                lemma_lt_irreflexive(self@[p]);
            }
        }
    }

    /// An index over `names`, which must be in strict code-point order;
    /// `None` where they are not.
    pub fn new(names: Vec<String>) -> (r: Option<FeatureIndex>)
        ensures
            strictly_sorted(views(names@)) ==> (r matches Some(ix) && ix.wf() && ix@ == views(
                names@,
            )),
            !strictly_sorted(views(names@)) ==> r is None,
    {
        let mut sorted: Vec<(String, usize)> = Vec::new();
        let mut k: usize = 0;
        while k < names.len()
            invariant
                k <= names.len(),
                sorted@.len() == k,
                forall|i: int| 0 <= i < k ==> (#[trigger] sorted@[i]).1 == i && sorted@[i].0@ == names@[i]@,
                forall|i: int, j: int| 0 <= i < j < k ==> seq_lt(names@[i]@, names@[j]@),
            decreases names.len() - k,
        {
            if k > 0 && !str_lt(names[k - 1].as_str(), names[k].as_str()) {
                assert(!strictly_sorted(views(names@))) by {
                    assert(!seq_lt(views(names@)[k - 1], views(names@)[k as int]));
                }
                return None;
            }
            assert forall|i: int, j: int| 0 <= i < j < k + 1 implies seq_lt(names@[i]@, names@[j]@) by {
                if j == k && i < k - 1 {
                    lemma_lt_trans(names@[i]@, names@[k - 1]@, names@[j]@);
                }
            }
            sorted.push((names[k].clone(), k));
            k = k + 1;
        }
        let ix = FeatureIndex { names, sorted };
        assert forall|p: int| 0 <= p < ix.names@.len() implies #[trigger] ix.entry_for(p) by {
            assert(ix.sorted@[p].1 == p);
        }
        assert(strictly_sorted(views(ix.names@)));
        Some(ix)
    }

    /// The number of names.
    pub fn len(&self) -> (r: usize)
        ensures
            r == self@.len(),
    {
        self.names.len()
    }

    /// The name at position `p`.
    pub fn name(&self, p: usize) -> (r: &String)
        requires
            p < self@.len(),
        ensures
            r@ == self@[p as int],
    {
        &self.names[p]
    }

    /// The position of `name`, if the index holds it.
    pub fn position(&self, name: &str) -> (r: Option<usize>)
        requires
            self.wf(),
        ensures
            self@.contains(name@) ==> (r matches Some(p) && p == position_in(self@, name@)),
            !self@.contains(name@) ==> r is None,
    {
        proof {
            self.lemma_no_duplicates();
        }
        let mut lo: usize = 0;
        let mut hi: usize = self.sorted.len();
        while lo < hi
            invariant
                self.wf(),
                self@.no_duplicates(),
                lo <= hi <= self.sorted@.len(),
                forall|k: int| 0 <= k < lo ==> seq_lt(#[trigger] self.sorted@[k].0@, name@),
                forall|k: int| hi <= k < self.sorted@.len() ==> seq_lt(name@, #[trigger] self.sorted@[k].0@),
            decreases hi - lo,
        {
            let mid = lo + (hi - lo) / 2;
            let entry = &self.sorted[mid];
            if crate::text::str_eq(entry.0.as_str(), name) {
                let p = entry.1;
                proof {
                    assert(self@[p as int] == name@);
                    assert(self@.contains(name@));
                    let q = position_in(self@, name@);
                    assert(self@[q] == name@);
                    assert(q == p);
                }
                return Some(p);
            } else if str_lt(entry.0.as_str(), name) {
                assert forall|k: int| 0 <= k < mid + 1 implies seq_lt(#[trigger] self.sorted@[k].0@, name@) by {
                    if k < mid {
                        lemma_lt_trans(self.sorted@[k].0@, self.sorted@[mid as int].0@, name@);
                    }
                }
                lo = mid + 1;
            } else {
                proof {
                    lemma_lt_total(self.sorted@[mid as int].0@, name@);
                }
                assert forall|k: int| mid <= k < self.sorted@.len() implies seq_lt(name@, #[trigger] self.sorted@[k].0@) by {
                    if k > mid {
                        lemma_lt_trans(name@, self.sorted@[mid as int].0@, self.sorted@[k].0@);
                    }
                }
                hi = mid;
            }
        }
        assert forall|p: int| 0 <= p < self@.len() implies self@[p] != name@ by {
            assert(self.entry_for(p));
            let k = choose|k: int| 0 <= k < self.sorted@.len() && #[trigger] self.sorted@[k].1 == p;
            if k < lo {
                assert(seq_lt(self.sorted@[k].0@, name@));
            } else {
                assert(seq_lt(name@, self.sorted@[k].0@));
            }
            lemma_lt_irreflexive(name@);
        }
        None
    }

    /// The positions of the known names among `attrs`, in order.
    pub fn positions_of(&self, attrs: &Vec<String>) -> (r: Vec<usize>)
        requires
            self.wf(),
        ensures
            r@ == known_positions(self@, views(attrs@)),
            forall|k: int| 0 <= k < r@.len() ==> #[trigger] r@[k] < self@.len(),
    {
        let mut r: Vec<usize> = Vec::new();
        let mut k: usize = 0;
        proof {
            self.lemma_no_duplicates();
        }
        assert(views(attrs@).take(0) =~= Seq::<Seq<char>>::empty());
        while k < attrs.len()
            invariant
                self.wf(),
                self@.no_duplicates(),
                k <= attrs.len(),
                r@ == known_positions(self@, views(attrs@).take(k as int)),
                forall|j: int| 0 <= j < r@.len() ==> #[trigger] r@[j] < self@.len(),
            decreases attrs.len() - k,
        {
            let ghost t = views(attrs@).take(k + 1);
            assert(t.drop_last() =~= views(attrs@).take(k as int));
            assert(t.last() == attrs@[k as int]@);
            match self.position(attrs[k].as_str()) {
                Some(p) => {
                    proof {
                        let q = position_in(self@, attrs@[k as int]@);
                        assert(0 <= q < self@.len());
                    }
                    r.push(p);
                },
                None => {},
            }
            k = k + 1;
        }
        assert(views(attrs@).take(k as int) =~= views(attrs@));
        r
    }

    /// Adds `name` at the next position; a name already held is left where it is.
    /// Returns its position.
    pub fn insert(&mut self, name: String) -> (r: usize)
        requires
            old(self).wf(),
        ensures
            final(self).wf(),
            old(self)@.contains(name@) ==> final(self)@ == old(self)@ && r == position_in(
                old(self)@,
                name@,
            ),
            !old(self)@.contains(name@) ==> final(self)@ == old(self)@.push(name@) && r == old(
                self,
            )@.len(),
    {
        match self.position(name.as_str()) {
            Some(p) => {
                return p;
            },
            None => {},
        }
        let n = self.names.len();
        let mut lo: usize = 0;
        while lo < self.sorted.len() && str_lt(self.sorted[lo].0.as_str(), name.as_str())
            invariant
                self == old(self),
                self.wf(),
                lo <= self.sorted@.len(),
                forall|k: int| 0 <= k < lo ==> seq_lt(#[trigger] self.sorted@[k].0@, name@),
            decreases self.sorted@.len() - lo,
        {
            lo = lo + 1;
        }
        let ghost s0 = self.sorted@;
        let ghost n0 = self.names@;
        assert forall|p: int| 0 <= p < n0.len() implies n0[p]@ != name@ by {
            assert(views(n0)[p] == n0[p]@);
        }
        if lo < self.sorted.len() {
            proof {
                lemma_lt_total(s0[lo as int].0@, name@);
                let p = s0[lo as int].1 as int;
                assert(n0[p]@ == s0[lo as int].0@);
            }
        }
        self.sorted.insert(lo, (name.clone(), n));
        self.names.push(name);
        proof {
            let s1 = self.sorted@;
            assert(s1 == s0.insert(lo as int, (s1[lo as int].0, n)));
            assert forall|i: int, j: int| 0 <= i < j < s1.len() implies seq_lt(
                #[trigger] s1[i].0@,
                #[trigger] s1[j].0@,
            ) by {
                if j < lo {
                } else if j == lo {
                } else if i < lo {
                    assert(s1[j] == s0[j - 1]);
                    if lo < s0.len() {
                        if lo < j - 1 {
                            lemma_lt_trans(name@, s0[lo as int].0@, s0[j - 1].0@);
                        }
                        lemma_lt_trans(s0[i].0@, name@, s0[j - 1].0@);
                    }
                } else if i == lo {
                    assert(s1[j] == s0[j - 1]);
                    if lo < j - 1 {
                        lemma_lt_trans(name@, s0[lo as int].0@, s0[j - 1].0@);
                    }
                } else {
                    assert(s1[i] == s0[i - 1]);
                    assert(s1[j] == s0[j - 1]);
                }
            }
            assert forall|k: int| 0 <= k < s1.len() implies (#[trigger] s1[k]).1 < self.names@.len()
                && self.names@[s1[k].1 as int]@ == s1[k].0@ by {
                if k < lo {
                    assert(s1[k] == s0[k]);
                } else if k > lo {
                    assert(s1[k] == s0[k - 1]);
                }
            }
            assert forall|p: int| 0 <= p < self.names@.len() implies #[trigger] self.entry_for(p) by {
                if p == n {
                    assert(s1[lo as int].1 == p);
                } else {
                    assert(old(self).entry_for(p));
                    let k = choose|k: int| 0 <= k < s0.len() && #[trigger] s0[k].1 == p;
                    if k < lo {
                        assert(s1[k].1 == p);
                    } else {
                        assert(s1[k + 1].1 == p);
                    }
                }
            }
            assert(self@ =~= old(self)@.push(self.names@[n as int]@));
        }
        n
    }
}

} // verus!
