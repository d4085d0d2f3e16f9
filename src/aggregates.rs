use vstd::prelude::*;
use vstd::seq_lib::*;

use crate::dimension::Dimension;
use crate::entity::AsEntity;
use crate::utilities::coord_of;

verus! {

/// The sum of `f` over the elements of `s`.
pub open spec fn sum_over<T>(s: Seq<T>, f: spec_fn(T) -> int) -> int
    decreases s.len(),
{
    if s.len() == 0 {
        0
    } else {
        sum_over(s.drop_last(), f) + f(s.last())
    }
}

/// The mass of the body that `t` presents.
pub open spec fn mass_of<T: AsEntity>(t: T) -> int {
    t.entity().mass as int
}

/// The mass moment (mass times coordinate) of the body that `t` presents, along `dim`.
pub open spec fn moment_of<T: AsEntity>(t: T, dim: Dimension) -> int {
    mass_of(t) * coord_of(t, dim)
}

/// The total mass of the bodies of `s`.
pub open spec fn total_mass_of<T: AsEntity>(s: Seq<T>) -> int {
    sum_over(s, |t: T| mass_of(t))
}

/// The sum of the mass moments of the bodies of `s` along `dim`; divided by the total mass it
/// gives the center of mass.
pub open spec fn moment_sum<T: AsEntity>(s: Seq<T>, dim: Dimension) -> int {
    sum_over(s, |t: T| moment_of(t, dim))
}

/// `v` is the largest radius among the bodies of `s`.
pub open spec fn is_max_radius<T: AsEntity>(s: Seq<T>, v: int) -> bool {
    &&& forall|i: int| 0 <= i < s.len() ==> (#[trigger] s[i]).entity().radius <= v
    &&& exists|i: int| 0 <= i < s.len() && (#[trigger] s[i]).entity().radius == v
}

/// Every body of `s` has a positive mass.
pub open spec fn all_massive<T: AsEntity>(s: Seq<T>) -> bool {
    forall|i: int| 0 <= i < s.len() ==> (#[trigger] s[i]).entity().mass > 0
}

/// A sum splits over a concatenation.
pub proof fn lemma_sum_concat<T>(a: Seq<T>, b: Seq<T>, f: spec_fn(T) -> int)
    ensures
        sum_over(a + b, f) == sum_over(a, f) + sum_over(b, f),
    decreases b.len(),
{
    if b.len() == 0 {
        assert(a + b =~= a);
    } else {
        assert((a + b).drop_last() =~= a + b.drop_last());
        lemma_sum_concat(a, b.drop_last(), f);
    }
}

/// The sum equals a left fold that adds `f` of each element.
proof fn lemma_sum_is_fold<T>(s: Seq<T>, f: spec_fn(T) -> int)
    ensures
        sum_over(s, f) == s.fold_left(0, |acc: int, t: T| acc + f(t)),
    decreases s.len(),
{
    if s.len() > 0 {
        lemma_sum_is_fold(s.drop_last(), f);
    }
}

/// A sum does not depend on the order of the elements.
pub proof fn lemma_sum_permutation<T>(a: Seq<T>, b: Seq<T>, f: spec_fn(T) -> int)
    requires
        a.to_multiset() == b.to_multiset(),
    ensures
        sum_over(a, f) == sum_over(b, f),
{
    let g = |acc: int, t: T| acc + f(t);
    assert(commutative_foldl(g));
    lemma_fold_left_permutation(a, b, g, 0);
    lemma_sum_is_fold(a, f);
    lemma_sum_is_fold(b, f);
}

/// A sum of terms that each lie in `[lo, hi]` lies in `[len * lo, len * hi]`.
pub proof fn lemma_sum_bounds<T>(s: Seq<T>, f: spec_fn(T) -> int, lo: int, hi: int)
    requires
        forall|i: int| 0 <= i < s.len() ==> lo <= f(#[trigger] s[i]) <= hi,
    ensures
        s.len() * lo <= sum_over(s, f) <= s.len() * hi,
    decreases s.len(),
{
    if s.len() > 0 {
        let t = s.drop_last();
        assert forall|i: int| 0 <= i < t.len() implies lo <= f(#[trigger] t[i]) <= hi by {
            assert(t[i] == s[i]);
        }
        lemma_sum_bounds(t, f, lo, hi);
        assert(f(s.last()) == f(s[s.len() - 1]));
        assert(s.len() * lo == t.len() * lo + lo) by (nonlinear_arith)
            requires s.len() == t.len() + 1;
        assert(s.len() * hi == t.len() * hi + hi) by (nonlinear_arith)
            requires s.len() == t.len() + 1;
    }
}

/// A sum of terms each at most `c` times the mass is at most `c` times the total mass; and at
/// least, for terms each at least that.
pub proof fn lemma_moment_within<T: AsEntity>(s: Seq<T>, dim: Dimension, lo: int, hi: int)
    requires
        forall|i: int| 0 <= i < s.len() ==> lo <= coord_of(#[trigger] s[i], dim) <= hi,
        all_massive(s),
    ensures
        lo * total_mass_of(s) <= moment_sum(s, dim) <= hi * total_mass_of(s),
    decreases s.len(),
{
    if s.len() > 0 {
        let t = s.drop_last();
        assert forall|i: int| 0 <= i < t.len() implies lo <= coord_of(#[trigger] t[i], dim) <= hi by {
            assert(t[i] == s[i]);
        }
        assert(all_massive(t)) by {
            assert forall|i: int| 0 <= i < t.len() implies (#[trigger] t[i]).entity().mass > 0 by {
                assert(t[i] == s[i]);
            }
        }
        lemma_moment_within(t, dim, lo, hi);
        let e = s.last();
        assert(e == s[s.len() - 1]);
        let m = mass_of(e);
        let c = coord_of(e, dim);
        assert(lo * m <= m * c <= hi * m) by (nonlinear_arith)
            requires lo <= c <= hi, m > 0;
        assert(lo * total_mass_of(s) == lo * total_mass_of(t) + lo * m) by (nonlinear_arith)
            requires total_mass_of(s) == total_mass_of(t) + m;
        assert(hi * total_mass_of(s) == hi * total_mass_of(t) + hi * m) by (nonlinear_arith)
            requires total_mass_of(s) == total_mass_of(t) + m;
    }
}

} // verus!
