//! Small string helpers shared by the modules.

use vstd::prelude::*;
use vstd::std_specs::iter::IteratorSpec;
use vstd::string::*;

verus! {

/// Relies on `char::to_string` from std: the one-character string.
#[verifier::external_body]
pub(crate) fn char_to_string(c: char) -> (r: String)
    ensures
        r@ == seq![c],
{
    c.to_string()
}

/// `prefix` followed by `a`.
pub(crate) fn join1(prefix: &str, a: &str) -> (r: String)
    ensures
        r@ == prefix@ + a@,
{
    let mut s = String::from_str(prefix);
    s.append(a);
    s
}

/// `prefix` followed by `a` and `b`.
pub(crate) fn join2(prefix: &str, a: &str, b: &str) -> (r: String)
    ensures
        r@ == prefix@ + a@ + b@,
{
    let mut s = String::from_str(prefix);
    s.append(a);
    s.append(b);
    s
}

/// `prefix` followed by `a`, `b` and `c`.
pub(crate) fn join3(prefix: &str, a: &str, b: &str, c: &str) -> (r: String)
    ensures
        r@ == prefix@ + a@ + b@ + c@,
{
    let mut s = String::from_str(prefix);
    s.append(a);
    s.append(b);
    s.append(c);
    s
}

/// `prefix` followed by `a`, `b`, `c` and `d`.
pub(crate) fn join4(prefix: &str, a: &str, b: &str, c: &str, d: &str) -> (r: String)
    ensures
        r@ == prefix@ + a@ + b@ + c@ + d@,
{
    let mut s = join3(prefix, a, b, c);
    s.append(d);
    s
}

/// The characters of `s`, in order.
pub(crate) fn chars_of(s: &str) -> (r: Vec<char>)
    ensures
        r@ == s@,
{
    broadcast use vstd::string::axiom_spec_iter, vstd::string::next_postcondition;

    let mut it = s.chars();
    let mut r: Vec<char> = Vec::new();
    loop
        invariant
            r@ + it.remaining() == s@,
            it.decrease() is Some,
        decreases it.decrease()->0,
    {
        match it.next() {
            Some(c) => {
                r.push(c);
            },
            None => {
                assert(r@ =~= s@);
                return r;
            },
        }
    }
}

/// Whether two strings hold the same characters.
pub(crate) fn str_eq(a: &str, b: &str) -> (r: bool)
    ensures
        r == (a@ == b@),
{
    let ca = chars_of(a);
    let cb = chars_of(b);
    if ca.len() != cb.len() {
        return false;
    }
    let mut k: usize = 0;
    while k < ca.len()
        invariant
            ca@ == a@,
            cb@ == b@,
            ca.len() == cb.len(),
            k <= ca.len(),
            forall|j: int| 0 <= j < k ==> ca@[j] == cb@[j],
        decreases ca.len() - k,
    {
        if ca[k] != cb[k] {
            assert(a@[k as int] != b@[k as int]);
            return false;
        }
        k = k + 1;
    }
    assert(ca@ =~= cb@);
    true
}

/// The string of the characters `cs[lo..hi]`.
pub(crate) fn string_of(cs: &Vec<char>, lo: usize, hi: usize) -> (r: String)
    requires
        lo <= hi <= cs.len(),
    ensures
        r@ == cs@.subrange(lo as int, hi as int),
{
    let mut r = String::new();
    let mut k: usize = lo;
    while k < hi
        invariant
            lo <= k <= hi <= cs.len(),
            r@ == cs@.subrange(lo as int, k as int),
        decreases hi - k,
    {
        let c = char_to_string(cs[k]);
        r.append(c.as_str());
        assert(r@ =~= cs@.subrange(lo as int, k + 1));
        k = k + 1;
    }
    r
}

} // verus!
