//! The ordering that the tree keeps, as a relation on values, and what it
//! means for a sequence to respect it.

use std::cmp::Ordering;
use vstd::std_specs::cmp::{OrdSpec, PartialEqSpec, PartialOrdSpec};
use vstd::prelude::*;

verus! {

/// `a` is at or before `b`: the meaning of `a <= b` on values of `T`.
pub open spec fn le<T: PartialOrd>(a: T, b: T) -> bool {
    a.partial_cmp_spec(&b) matches Some(Ordering::Less | Ordering::Equal)
}

/// Any two values are comparable one way or the other.
pub open spec fn total<T: PartialOrd>() -> bool {
    forall|a: T, b: T| #[trigger] le(a, b) || le(b, a)
}

/// `le` chains.
pub open spec fn transitive<T: PartialOrd>() -> bool {
    forall|a: T, b: T, c: T| #[trigger] le(a, b) && #[trigger] le(b, c) ==> le(a, c)
}

/// Every element of `s` is at or before `bound`.
pub open spec fn all_le<T: PartialOrd>(s: Seq<T>, bound: T) -> bool {
    forall|i: int| 0 <= i < s.len() ==> le(#[trigger] s[i], bound)
}

/// No element of `s` is at or before `bound`; under a total order, every
/// element is strictly after it.
pub open spec fn all_after<T: PartialOrd>(s: Seq<T>, bound: T) -> bool {
    forall|i: int| 0 <= i < s.len() ==> !le(#[trigger] s[i], bound)
}

/// `s` never steps down.
pub open spec fn sorted<T: PartialOrd>(s: Seq<T>) -> bool {
    forall|i: int, j: int| 0 <= i < j < s.len() ==> le(#[trigger] s[i], #[trigger] s[j])
}

/// `s` with `v` placed just before the first element that `v` is at or
/// before; at the end where there is none. A value that ties with elements
/// already present lands in front of them.
pub open spec fn insert_ordered<T: PartialOrd>(s: Seq<T>, v: T) -> Seq<T>
    decreases s.len(),
{
    if s.len() == 0 {
        seq![v]
    } else if le(v, s[0]) {
        seq![v] + s
    } else {
        seq![s[0]] + insert_ordered(s.drop_first(), v)
    }
}

/// The values of `input`, placed one after the other by `insert_ordered`.
pub open spec fn insertion_sorted<T: PartialOrd>(input: Seq<T>) -> Seq<T>
    decreases input.len(),
{
    if input.len() == 0 {
        Seq::empty()
    } else {
        insert_ordered(insertion_sorted(input.drop_last()), input.last())
    }
}

/// A type whose comparisons follow vstd's laws, and whose `==` is equality of
/// values, is ordered totally and its order chains. The primitive integers
/// are such types.
pub proof fn lemma_lawful_order_is_total<T: Ord>()
    requires
        vstd::laws_cmp::obeys_cmp::<T>(),
        vstd::laws_eq::obeys_concrete_eq::<T>(),
    ensures
        T::obeys_partial_cmp_spec(),
        total::<T>(),
        transitive::<T>(),
{
    reveal(vstd::laws_cmp::obeys_partial_cmp_spec_properties);
    reveal(vstd::laws_cmp::obeys_cmp_partial_ord);
    reveal(vstd::laws_cmp::obeys_cmp_ord);
    reveal(vstd::laws_eq::obeys_concrete_eq);
    assert forall|a: T, b: T| #[trigger] le(a, b) || le(b, a) by {
        assert(a.partial_cmp_spec(&b) == Some(a.cmp_spec(&b)));
        if a.partial_cmp_spec(&b) == Some(Ordering::Greater) {
            assert(b.partial_cmp_spec(&a) == Some(Ordering::Less));
        }
    }
    assert forall|a: T, b: T, c: T| #[trigger] le(a, b) && #[trigger] le(b, c) implies le(
        a,
        c,
    ) by {
        if a.partial_cmp_spec(&b) == Some(Ordering::Equal) {
            assert(a.eq_spec(&b));
            assert(a == b);
        } else if b.partial_cmp_spec(&c) == Some(Ordering::Equal) {
            assert(b.eq_spec(&c));
            assert(b == c);
        } else {
            assert(a.partial_cmp_spec(&c) == Some(Ordering::Less));
        }
    }
}

/// Placing a value in front of a run that starts at or after it leaves the
/// run alone.
pub proof fn lemma_insert_ordered_before<T: PartialOrd>(a: Seq<T>, b: Seq<T>, v: T)
    requires
        b.len() > 0,
        le(v, b[0]),
    ensures
        insert_ordered(a + b, v) == insert_ordered(a, v) + b,
    decreases a.len(),
{
    if a.len() == 0 {
        assert(a + b =~= b);
        assert(insert_ordered(a, v) + b =~= seq![v] + b);
    } else if le(v, a[0]) {
        assert(seq![v] + (a + b) =~= (seq![v] + a) + b);
    } else {
        lemma_insert_ordered_before(a.drop_first(), b, v);
        assert((a + b).drop_first() =~= a.drop_first() + b);
        assert(seq![a[0]] + (insert_ordered(a.drop_first(), v) + b) =~= (seq![a[0]]
            + insert_ordered(a.drop_first(), v)) + b);
    }
}

/// A value that is at or before nothing in `a` is placed past all of `a`.
pub proof fn lemma_insert_ordered_past<T: PartialOrd>(a: Seq<T>, b: Seq<T>, v: T)
    requires
        forall|i: int| 0 <= i < a.len() ==> !le(v, #[trigger] a[i]),
    ensures
        insert_ordered(a + b, v) == a + insert_ordered(b, v),
    decreases a.len(),
{
    if a.len() == 0 {
        assert(a + b =~= b);
        assert(a + insert_ordered(b, v) =~= insert_ordered(b, v));
    } else {
        assert(!le(v, a[0]));
        assert forall|i: int| 0 <= i < a.drop_first().len() implies !le(
            v,
            #[trigger] a.drop_first()[i],
        ) by {
            assert(a.drop_first()[i] == a[i + 1]);
        }
        lemma_insert_ordered_past(a.drop_first(), b, v);
        assert((a + b).drop_first() =~= a.drop_first() + b);
        assert(seq![a[0]] + (a.drop_first() + insert_ordered(b, v)) =~= a + insert_ordered(b, v));
    }
}

} // verus!
