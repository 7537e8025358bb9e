//! Identifiers are byte strings (`Vec<u8>`).  This module gives the
//! element-wise view of a sequence of identifiers and the small executable
//! helpers (equality, copying, membership) the rest of the crate builds on.

use vstd::prelude::*;
use vstd::slice::slice_to_vec;
use vstd::std_specs::cmp::PartialEqSpec;

verus! {

/// The element-wise view of a sequence of viewable values.
pub open spec fn seq_views<T: View>(s: Seq<T>) -> Seq<T::V> {
    Seq::new(s.len(), |i: int| s[i]@)
}

pub broadcast proof fn lemma_seq_views_push<T: View>(s: Seq<T>, x: T)
    ensures
        #[trigger] seq_views(s.push(x)) == seq_views(s).push(x@),
{
    assert(seq_views(s.push(x)) =~= seq_views(s).push(x@));
}

pub broadcast proof fn lemma_seq_views_add<T: View>(a: Seq<T>, b: Seq<T>)
    ensures
        #[trigger] seq_views(a + b) == seq_views(a) + seq_views(b),
{
    assert(seq_views(a + b) =~= seq_views(a) + seq_views(b));
}

/// Membership in a sequence extended by one element.
pub proof fn lemma_contains_push<T>(s: Seq<T>, x: T, y: T)
    ensures
        s.push(x).contains(y) <==> s.contains(y) || x == y,
{
    if s.contains(y) {
        let i = choose|i: int| 0 <= i < s.len() && s[i] == y;
        assert(s.push(x)[i] == y);
    }
    if x == y {
        assert(s.push(x)[s.len() as int] == y);
    }
    if s.push(x).contains(y) {
        let i = choose|i: int| 0 <= i < s.push(x).len() && s.push(x)[i] == y;
        if i < s.len() {
            assert(s[i] == y);
        }
    }
}

/// Exec equality of two identifiers agrees with view equality.
pub fn ids_eq(a: &Vec<u8>, b: &Vec<u8>) -> (r: bool)
    ensures
        r == (a@ == b@),
{
    let r = a == b;
    proof {
        if a@ == b@ {
            assert(a.eq_spec(b));
        }
        if r {
            assert(a@ =~= b@);
        }
    }
    r
}

/// A fresh copy of one identifier.
pub fn copy_id(v: &Vec<u8>) -> (r: Vec<u8>)
    ensures
        r@ == v@,
{
    slice_to_vec(v.as_slice())
}

/// A fresh copy of a list of identifiers.
pub fn copy_ids(v: &Vec<Vec<u8>>) -> (r: Vec<Vec<u8>>)
    ensures
        seq_views(r@) == seq_views(v@),
{
    let mut r: Vec<Vec<u8>> = Vec::new();
    let mut i: usize = 0;
    while i < v.len()
        invariant
            i <= v.len(),
            r@.len() == i,
            forall|j: int| 0 <= j < i ==> r@[j]@ == v@[j]@,
        decreases v.len() - i,
    {
        r.push(copy_id(&v[i]));
        i = i + 1;
    }
    proof {
        assert(seq_views(r@) =~= seq_views(v@));
    }
    r
}

/// Whether a list of identifiers contains the given one.
pub fn contains_id(v: &Vec<Vec<u8>>, id: &Vec<u8>) -> (r: bool)
    ensures
        r == seq_views(v@).contains(id@),
{
    let mut i: usize = 0;
    while i < v.len()
        invariant
            i <= v.len(),
            forall|j: int| 0 <= j < i ==> v@[j]@ != id@,
        decreases v.len() - i,
    {
        if ids_eq(&v[i], id) {
            proof {
                assert(seq_views(v@)[i as int] == id@);
            }
            return true;
        }
        i = i + 1;
    }
    proof {
        assert forall|j: int| 0 <= j < seq_views(v@).len() implies seq_views(v@)[j] != id@ by {
            assert(seq_views(v@)[j] == v@[j]@);
        }
    }
    false
}

} // verus!
