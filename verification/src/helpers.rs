use vstd::prelude::*;
use vstd::laws_cmp::obeys_cmp;
use vstd::laws_cmp::obeys_cmp_ord;
use vstd::laws_cmp::obeys_cmp_partial_ord;
use vstd::laws_cmp::obeys_partial_cmp_spec_properties;
use vstd::laws_eq::obeys_eq_spec_properties;
use vstd::std_specs::cmp::OrdSpec;
use vstd::std_specs::cmp::PartialEqSpec;
use vstd::std_specs::cmp::PartialOrdIs;
use vstd::std_specs::cmp::PartialOrdSpec;

verus! {

/// Whether `r` holds the three values of `t`, in any order.
pub open spec fn same_three<T>(t: (T, T, T), r: (T, T, T)) -> bool {
    ||| r == (t.0, t.1, t.2)
    ||| r == (t.0, t.2, t.1)
    ||| r == (t.1, t.0, t.2)
    ||| r == (t.1, t.2, t.0)
    ||| r == (t.2, t.0, t.1)
    ||| r == (t.2, t.1, t.0)
}

/// Where the order of `T` is lawful, of two values one is not greater
/// than the other, and what is not greater than a value that is not
/// greater than a third is not greater than the third.
pub proof fn lemma_not_greater<T: Ord>(x: T, y: T, z: T)
    requires
        obeys_cmp::<T>(),
    ensures
        !x.is_gt(&y) ==> x.is_le(&y),
        x.is_gt(&y) ==> y.is_le(&x),
        x.is_le(&y) && y.is_le(&z) ==> x.is_le(&z),
{
    reveal(obeys_cmp_ord);
    reveal(obeys_cmp_partial_ord);
    reveal(obeys_partial_cmp_spec_properties);
    reveal(obeys_eq_spec_properties);
    assert(x.partial_cmp_spec(&y) == Some(x.cmp_spec(&y)));
    assert(y.partial_cmp_spec(&x) == Some(y.cmp_spec(&x)));
    assert(x.partial_cmp_spec(&z) == Some(x.cmp_spec(&z)));
    if x.is_le(&y) && y.is_le(&z) {
        if x.is_lt(&y) {
            lemma_less_through_equal::<T>(x, y, z);
        } else if y.is_lt(&z) {
            // x and y are equal: what is greater than y is greater than x.
            assert(x.eq_spec(&y));
            if z.is_lt(&x) {
                lemma_less_through_equal::<T>(z, x, y);
                assert(z.partial_cmp_spec(&y) == Some(z.cmp_spec(&y)));
            } else if z.eq_spec(&x) {
                assert(z.eq_spec(&y));
                assert(y.eq_spec(&z));
            }
            assert(z.partial_cmp_spec(&x) == Some(z.cmp_spec(&x)));
        } else {
            assert(x.eq_spec(&y) && y.eq_spec(&z));
            assert(x.eq_spec(&z));
        }
    }
}

/// Where the order of `T` is lawful, what is less than a value that is
/// not less than a third is less than that third as well.
pub proof fn lemma_less_through_equal<T: Ord>(x: T, y: T, z: T)
    requires
        obeys_cmp::<T>(),
        x.is_lt(&y),
        y.is_le(&z),
    ensures
        x.is_lt(&z),
{
    reveal(obeys_cmp_ord);
    reveal(obeys_cmp_partial_ord);
    reveal(obeys_partial_cmp_spec_properties);
    reveal(obeys_eq_spec_properties);
    assert(x.partial_cmp_spec(&z) == Some(x.cmp_spec(&z)));
    assert(z.partial_cmp_spec(&x) == Some(z.cmp_spec(&x)));
    assert(y.partial_cmp_spec(&x) == Some(y.cmp_spec(&x)));
    if y.eq_spec(&z) {
        if x.eq_spec(&z) {
            assert(z.eq_spec(&y));
            assert(x.eq_spec(&y));
        } else if z.is_lt(&x) {
            assert(x.is_gt(&z));
            assert(y.is_gt(&x));
            assert(z.partial_cmp_spec(&y) == Some(z.cmp_spec(&y)));
            assert(z.is_lt(&y));
        }
    } else {
        assert(y.is_lt(&z));
    }
}

/// The three values in rising order.
pub fn ordered_3tuple<T: Ord + Copy>(t: (T, T, T)) -> (r: (T, T, T))
    ensures
        same_three(t, r),
        obeys_cmp::<T>() ==> r.0.is_le(&r.1) && r.1.is_le(&r.2),
{
    let (u, v, w) = t;
    let (a, b) = if u > v {
        (v, u)
    } else {
        (u, v)
    };
    let (b, c) = if b > w {
        (w, b)
    } else {
        (b, w)
    };
    let (a, b) = if a > b {
        (b, a)
    } else {
        (a, b)
    };
    proof {
        if obeys_cmp::<T>() {
            reveal(obeys_cmp_partial_ord);
            lemma_not_greater::<T>(u, v, w);
            lemma_not_greater::<T>(v, u, w);
            lemma_not_greater::<T>(u, w, v);
            lemma_not_greater::<T>(v, w, u);
            lemma_not_greater::<T>(w, u, v);
            lemma_not_greater::<T>(w, v, u);
            lemma_not_greater::<T>(a, b, c);
        }
    }
    (a, b, c)
}

/// The two values with the greater one first, so that `(u, v)` and
/// `(v, u)` give the same pair.
pub fn ordered_2tuple<T: Ord + Copy>(u: T, v: T) -> (r: (T, T))
    ensures
        r == (u, v) || r == (v, u),
        T::obeys_partial_cmp_spec() ==> r == (if u.is_gt(&v) {
            (u, v)
        } else {
            (v, u)
        }),
{
    if u > v {
        (u, v)
    } else {
        (v, u)
    }
}

} // verus!
