//! Short lists of block indices, stored inline while they are small.

use smallvec::SmallVec;
use vstd::prelude::*;

verus! {

/// A list of block indices backed by `smallvec::SmallVec` with two inline slots.
///
/// The storage is opaque to the verifier; [`list_items`] names what it holds.
#[verifier::external_body]
#[derive(Debug)]
pub struct IndexList {
    inner: SmallVec<[usize; 2]>,
}

/// The items of an [`IndexList`], in insertion order.
pub uninterp spec fn list_items(l: IndexList) -> Seq<usize>;

/// Calls `SmallVec::new`: the new list holds nothing.
#[verifier::external_body]
pub(crate) fn list_new() -> (l: IndexList)
    ensures
        list_items(l) == Seq::<usize>::empty(),
{
    IndexList { inner: SmallVec::new() }
}

/// Calls `SmallVec::push`: the item is appended behind the ones already held.
#[verifier::external_body]
pub(crate) fn list_push(l: &mut IndexList, x: usize)
    ensures
        list_items(*final(l)) == list_items(*old(l)).push(x),
{
    l.inner.push(x)
}

/// Calls `SmallVec::len`: the number of items held.
#[verifier::external_body]
pub(crate) fn list_len(l: &IndexList) -> (n: usize)
    ensures
        n == list_items(*l).len(),
{
    l.inner.len()
}

/// Calls the `Index::index` of `SmallVec` with a position that is in range: the
/// item at that position.
#[verifier::external_body]
pub(crate) fn list_get(l: &IndexList, i: usize) -> (x: usize)
    requires
        i < list_items(*l).len(),
    ensures
        x == list_items(*l)[i as int],
{
    l.inner[i]
}

/// `s` with `x` appended unless it already occurs.
pub open spec fn insert_unique(s: Seq<usize>, x: usize) -> Seq<usize> {
    if s.contains(x) {
        s
    } else {
        s.push(x)
    }
}

/// Whether `x` occurs in the list.
pub fn list_contains(l: &IndexList, x: usize) -> (found: bool)
    ensures
        found == list_items(*l).contains(x),
{
    let n = list_len(l);
    let mut i: usize = 0;
    while i < n
        invariant
            n == list_items(*l).len(),
            i <= n,
            forall|j: int| 0 <= j < i ==> list_items(*l)[j] != x,
        decreases n - i,
    {
        if list_get(l, i) == x {
            return true;
        }
        i += 1;
    }
    false
}

/// Appends `x` unless it is already in the list.
pub fn list_insert_unique(l: &mut IndexList, x: usize)
    ensures
        list_items(*final(l)) == insert_unique(list_items(*old(l)), x),
{
    if !list_contains(l, x) {
        list_push(l, x);
    }
}

/// Copies the items into a vector, in order.
pub fn list_to_vec(l: &IndexList) -> (v: Vec<usize>)
    ensures
        v@ == list_items(*l),
{
    let n = list_len(l);
    let mut v: Vec<usize> = Vec::new();
    let mut i: usize = 0;
    while i < n
        invariant
            n == list_items(*l).len(),
            i <= n,
            v@ == list_items(*l).subrange(0, i as int),
        decreases n - i,
    {
        v.push(list_get(l, i));
        i += 1;
        assert(v@ == list_items(*l).subrange(0, i as int));
    }
    assert(list_items(*l).subrange(0, n as int) == list_items(*l));
    v
}

} // verus!
