use vstd::prelude::*;
use vstd::seq_lib::*;

use crate::dimension::Dimension;
use crate::entity::{AsEntity, Entity};

verus! {

/// The coordinate of the body that `t` presents, along `dim`.
pub open spec fn coord_of<T: AsEntity>(t: T, dim: Dimension) -> int {
    t.entity().coord(dim)
}

/// `v` is the largest coordinate along `dim` among the bodies of `s`.
pub open spec fn is_max_coord<T: AsEntity>(s: Seq<T>, dim: Dimension, v: int) -> bool {
    &&& forall|i: int| 0 <= i < s.len() ==> coord_of(#[trigger] s[i], dim) <= v
    &&& exists|i: int| 0 <= i < s.len() && coord_of(#[trigger] s[i], dim) == v
}

/// `v` is the smallest coordinate along `dim` among the bodies of `s`.
pub open spec fn is_min_coord<T: AsEntity>(s: Seq<T>, dim: Dimension, v: int) -> bool {
    &&& forall|i: int| 0 <= i < s.len() ==> v <= coord_of(#[trigger] s[i], dim)
    &&& exists|i: int| 0 <= i < s.len() && coord_of(#[trigger] s[i], dim) == v
}

/// The element at `mid` splits `s` along `dim`: nothing before it is greater, nothing after
/// it is smaller.
pub open spec fn split_at_median<T: AsEntity>(s: Seq<T>, dim: Dimension, mid: int) -> bool {
    &&& 0 <= mid < s.len()
    &&& forall|i: int| 0 <= i < mid ==> coord_of(#[trigger] s[i], dim) <= coord_of(s[mid], dim)
    &&& forall|i: int| mid < i < s.len() ==> coord_of(s[mid], dim) <= coord_of(#[trigger] s[i], dim)
}

/// Returns the largest and the smallest coordinate along `dim` of the given bodies.
pub fn max_min<T: AsEntity>(dim: Dimension, entities: &[T]) -> (r: (i32, i32))
    requires
        entities@.len() > 0,
    ensures
        is_max_coord(entities@, dim, r.0 as int),
        is_min_coord(entities@, dim, r.1 as int),
{
    let first = entities[0].as_entity().get_dim(dim);
    let mut hi: i32 = first;
    let mut lo: i32 = first;
    let mut i: usize = 1;
    while i < entities.len()
        invariant
            1 <= i <= entities@.len(),
            forall|k: int| 0 <= k < i ==> coord_of(#[trigger] entities@[k], dim) <= hi,
            forall|k: int| 0 <= k < i ==> lo <= coord_of(#[trigger] entities@[k], dim),
            exists|k: int| 0 <= k < i && coord_of(#[trigger] entities@[k], dim) == hi,
            exists|k: int| 0 <= k < i && coord_of(#[trigger] entities@[k], dim) == lo,
        decreases entities@.len() - i,
    {
        let c = entities[i].as_entity().get_dim(dim);
        if c > hi {
            hi = c;
        }
        if c < lo {
            lo = c;
        }
        i = i + 1;
    }
    (hi, lo)
}

/// Returns the largest and smallest x, y and z coordinates of the given bodies, as
/// `(x_max, x_min, y_max, y_min, z_max, z_min)`.
pub fn max_min_xyz<T: AsEntity>(entities: &[T]) -> (r: (i32, i32, i32, i32, i32, i32))
    requires
        entities@.len() > 0,
    ensures
        is_max_coord(entities@, Dimension::X, r.0 as int),
        is_min_coord(entities@, Dimension::X, r.1 as int),
        is_max_coord(entities@, Dimension::Y, r.2 as int),
        is_min_coord(entities@, Dimension::Y, r.3 as int),
        is_max_coord(entities@, Dimension::Z, r.4 as int),
        is_min_coord(entities@, Dimension::Z, r.5 as int),
{
    let (x_max, x_min) = max_min(Dimension::X, entities);
    let (y_max, y_min) = max_min(Dimension::Y, entities);
    let (z_max, z_min) = max_min(Dimension::Z, entities);
    (x_max, x_min, y_max, y_min, z_max, z_min)
}

/// Returns the extent of the given bodies along x, y and z (largest minus smallest
/// coordinate).
pub fn xyz_distances<T: AsEntity>(entities: &[T]) -> (r: (u64, u64, u64))
    requires
        entities@.len() > 0,
    ensures
        exists|hi: int, lo: int|
            is_max_coord(entities@, Dimension::X, hi) && is_min_coord(entities@, Dimension::X, lo)
                && r.0 == hi - lo,
        exists|hi: int, lo: int|
            is_max_coord(entities@, Dimension::Y, hi) && is_min_coord(entities@, Dimension::Y, lo)
                && r.1 == hi - lo,
        exists|hi: int, lo: int|
            is_max_coord(entities@, Dimension::Z, hi) && is_min_coord(entities@, Dimension::Z, lo)
                && r.2 == hi - lo,
{
    let (x_max, x_min, y_max, y_min, z_max, z_min) = max_min_xyz(entities);
    proof {
        assert(x_min <= x_max) by {
            let k = choose|k: int| 0 <= k < entities@.len() && coord_of(#[trigger] entities@[k], Dimension::X) == x_max;
        }
        assert(y_min <= y_max) by {
            let k = choose|k: int| 0 <= k < entities@.len() && coord_of(#[trigger] entities@[k], Dimension::Y) == y_max;
        }
        assert(z_min <= z_max) by {
            let k = choose|k: int| 0 <= k < entities@.len() && coord_of(#[trigger] entities@[k], Dimension::Z) == z_max;
        }
    }
    (
        (x_max as i64 - x_min as i64) as u64,
        (y_max as i64 - y_min as i64) as u64,
        (z_max as i64 - z_min as i64) as u64,
    )
}

/// Relies on `<[T]>::swap`: the two elements trade places, nothing else changes; it panics
/// only on an index out of bounds.
#[verifier::external_body]
fn swap_entries<T>(v: &mut Vec<T>, i: usize, j: usize)
    requires
        i < old(v)@.len(),
        j < old(v)@.len(),
    ensures
        final(v)@ == old(v)@.update(i as int, old(v)@[j as int]).update(j as int, old(v)@[i as int]),
{
    v.swap(i, j)
}

/// Exchanging two elements keeps the multiset of a sequence.
proof fn lemma_swap_multiset<T>(s: Seq<T>, i: int, j: int)
    requires
        0 <= i < s.len(),
        0 <= j < s.len(),
    ensures
        s.update(i, s[j]).update(j, s[i]).to_multiset() == s.to_multiset(),
{
    broadcast use
        to_multiset_update,
        to_multiset_contains,
        vstd::multiset::group_multiset_axioms,
        vstd::multiset::group_multiset_properties;

    let m = s.to_multiset();
    let t = s.update(i, s[j]);
    if i == j {
        assert(s.update(i, s[j]).update(j, s[i]) =~= s);
    } else {
        assert(t.len() == s.len());
        assert(t[j] == s[j]);
        assert(s.contains(s[i]));
        assert(m.count(s[i]) > 0);
        let m1 = m.insert(s[j]).remove(s[i]);
        assert(t.to_multiset() == m1);
        assert(t.update(j, s[i]).to_multiset() == m1.insert(s[i]).remove(s[j]));
        assert(m1.insert(s[i]).remove(s[j]) =~= m);
    }
}

/// Reorders `pts` so that the element at index `len / 2` is a median along `dim`: nothing
/// before it is greater and nothing after it is smaller along that axis. Quickselect with the
/// first element of each range as pivot. Returns the median coordinate and its index.
pub fn find_median<T: AsEntity>(dim: Dimension, pts: &mut Vec<T>) -> (r: (i32, usize))
    requires
        old(pts)@.len() > 0,
    ensures
        final(pts)@.to_multiset() == old(pts)@.to_multiset(),
        final(pts)@.len() == old(pts)@.len(),
        r.1 == old(pts)@.len() / 2,
        r.0 == coord_of(final(pts)@[r.1 as int], dim),
        split_at_median(final(pts)@, dim, r.1 as int),
{
    let n = pts.len();
    let mid = n / 2;
    let mut start: usize = 0;
    let mut end: usize = n;
    loop
        invariant
            pts@.len() == n,
            n == old(pts)@.len(),
            mid == n / 2,
            start <= mid < end <= n,
            pts@.to_multiset() == old(pts)@.to_multiset(),
            forall|i: int, j: int|
                0 <= i < start <= j < n ==> coord_of(#[trigger] pts@[i], dim) <= coord_of(
                    #[trigger] pts@[j],
                    dim,
                ),
            forall|i: int, j: int|
                0 <= i < end <= j < n ==> coord_of(#[trigger] pts@[i], dim) <= coord_of(
                    #[trigger] pts@[j],
                    dim,
                ),
        decreases end - start,
    {
        let pivot = pts[start].as_entity().get_dim(dim);
        let mut low: usize = start + 1;
        let mut high: usize = end - 1;
        while low <= high
            invariant
                pts@.len() == n,
                n == old(pts)@.len(),
                start <= mid < end <= n,
                start < low <= high + 1 <= end,
                pivot == coord_of(pts@[start as int], dim),
                pts@.to_multiset() == old(pts)@.to_multiset(),
                forall|k: int| start < k < low ==> coord_of(#[trigger] pts@[k], dim) < pivot,
                forall|k: int| high < k < end ==> pivot <= coord_of(#[trigger] pts@[k], dim),
                forall|i: int, j: int|
                    0 <= i < start <= j < n ==> coord_of(#[trigger] pts@[i], dim) <= coord_of(
                        #[trigger] pts@[j],
                        dim,
                    ),
                forall|i: int, j: int|
                    0 <= i < end <= j < n ==> coord_of(#[trigger] pts@[i], dim) <= coord_of(
                        #[trigger] pts@[j],
                        dim,
                    ),
            decreases high + 1 - low,
        {
            if pts[low].as_entity().get_dim(dim) < pivot {
                low = low + 1;
            } else {
                proof {
                    lemma_swap_multiset(pts@, low as int, high as int);
                }
                swap_entries(pts, low, high);
                high = high - 1;
            }
        }
        proof {
            lemma_swap_multiset(pts@, start as int, high as int);
        }
        swap_entries(pts, start, high);
        if high == mid {
            return (pts[mid].as_entity().get_dim(dim), mid);
        } else if high < mid {
            start = high + 1;
        } else {
            end = high;
        }
    }
}

/// Two sequences with the same multiset hold the same elements.
pub proof fn lemma_same_elements<T>(a: Seq<T>, b: Seq<T>)
    requires
        a.to_multiset() == b.to_multiset(),
    ensures
        forall|i: int| 0 <= i < b.len() ==> a.contains(#[trigger] b[i]),
        forall|i: int| 0 <= i < a.len() ==> b.contains(#[trigger] a[i]),
{
    broadcast use to_multiset_contains;

    assert forall|i: int| 0 <= i < b.len() implies a.contains(#[trigger] b[i]) by {
        assert(b.contains(b[i]));
        assert(b.to_multiset().count(b[i]) > 0);
    }
    assert forall|i: int| 0 <= i < a.len() implies b.contains(#[trigger] a[i]) by {
        assert(a.contains(a[i]));
        assert(a.to_multiset().count(a[i]) > 0);
    }
}

/// A largest coordinate is unique.
pub proof fn lemma_max_unique<T: AsEntity>(s: Seq<T>, d: Dimension, u: int, v: int)
    requires
        is_max_coord(s, d, u),
        is_max_coord(s, d, v),
    ensures
        u == v,
{
    let i = choose|i: int| 0 <= i < s.len() && coord_of(#[trigger] s[i], d) == u;
    let j = choose|j: int| 0 <= j < s.len() && coord_of(#[trigger] s[j], d) == v;
}

/// A smallest coordinate is unique.
pub proof fn lemma_min_unique<T: AsEntity>(s: Seq<T>, d: Dimension, u: int, v: int)
    requires
        is_min_coord(s, d, u),
        is_min_coord(s, d, v),
    ensures
        u == v,
{
    let i = choose|i: int| 0 <= i < s.len() && coord_of(#[trigger] s[i], d) == u;
    let j = choose|j: int| 0 <= j < s.len() && coord_of(#[trigger] s[j], d) == v;
}

/// The largest and smallest coordinates along `d` do not depend on order.
pub proof fn lemma_extremes_carry<T: AsEntity>(a: Seq<T>, b: Seq<T>, d: Dimension, hi: int, lo: int)
    requires
        a.to_multiset() == b.to_multiset(),
        is_max_coord(a, d, hi),
        is_min_coord(a, d, lo),
    ensures
        is_max_coord(b, d, hi),
        is_min_coord(b, d, lo),
{
    lemma_same_elements(a, b);
    assert forall|i: int| 0 <= i < b.len() implies coord_of(#[trigger] b[i], d) <= hi && lo
        <= coord_of(b[i], d) by {
        assert(a.contains(b[i]));
    }
    let ih = choose|i: int| 0 <= i < a.len() && coord_of(#[trigger] a[i], d) == hi;
    let il = choose|i: int| 0 <= i < a.len() && coord_of(#[trigger] a[i], d) == lo;
    assert(b.contains(a[ih]));
    assert(b.contains(a[il]));
}

} // verus!
