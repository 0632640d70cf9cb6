//! The state space: the distinct observed elements in ascending order.

use vstd::laws_cmp::*;
use vstd::laws_eq::*;
use vstd::prelude::*;
use vstd::std_specs::cmp::{OrdSpec, PartialEqSpec, PartialOrdSpec};
use core::cmp::Ordering;

verus! {

/// `a` comes strictly before `b` under the element type's order.
pub open spec fn before<T: Ord>(a: T, b: T) -> bool {
    a.cmp_spec(&b) == Ordering::Less
}

/// `a` and `b` are equal under the element type's order.
pub open spec fn same<T: Ord>(a: T, b: T) -> bool {
    a.cmp_spec(&b) == Ordering::Equal
}

/// Every element of `s` comes strictly before every later one: `s` is
/// sorted and holds no two equal elements.
pub open spec fn strictly_ascending<T: Ord>(s: Seq<T>) -> bool {
    forall|i: int, j: int| 0 <= i < j < s.len() ==> before(#[trigger] s[i], #[trigger] s[j])
}

/// Some element of `s` equals `x`.
pub open spec fn covers<T: Ord>(s: Seq<T>, x: T) -> bool {
    exists|k: int| 0 <= k < s.len() && same(#[trigger] s[k], x)
}

/// `states` is the state space of `elements`: ascending without repeats,
/// made of elements of the input, and covering every one of them.
pub open spec fn is_state_space<T: Ord>(states: Seq<T>, elements: Seq<T>) -> bool {
    &&& strictly_ascending(states)
    &&& forall|k: int| 0 <= k < states.len() ==> elements.contains(#[trigger] states[k])
    &&& forall|k: int| 0 <= k < elements.len() ==> covers(states, #[trigger] elements[k])
}

/// The facts about `cmp` that the proofs below use.
pub open spec fn order_laws<T: Ord>() -> bool {
    &&& T::obeys_cmp_spec()
    &&& forall|a: T, b: T| #[trigger] before(a, b) <==> b.cmp_spec(&a) == Ordering::Greater
    &&& forall|a: T| #[trigger] same(a, a)
    &&& forall|a: T, b: T| #[trigger] same(a, b) ==> same(b, a)
    &&& forall|a: T, b: T, c: T| #[trigger] before(a, b) && #[trigger] before(b, c) ==> before(a, c)
    &&& forall|a: T, b: T, c: T| #[trigger] same(a, b) && #[trigger] same(b, c) ==> same(a, c)
}

/// A lawful `Ord` gives the facts of `order_laws`.
pub proof fn lemma_order_laws<T: Ord>()
    requires
        obeys_cmp::<T>(),
    ensures
        order_laws::<T>(),
{
    reveal(obeys_cmp_partial_ord);
    reveal(obeys_cmp_ord);
    reveal(obeys_partial_cmp_spec_properties);
    reveal(obeys_eq_spec_properties);
    assert forall|a: T, b: T| #[trigger] before(a, b) <==> b.cmp_spec(&a) == Ordering::Greater by {
        assert(a.partial_cmp_spec(&b) == Some(a.cmp_spec(&b)));
        assert(b.partial_cmp_spec(&a) == Some(b.cmp_spec(&a)));
    }
    assert forall|a: T| #[trigger] same(a, a) by {
        assert(a.partial_cmp_spec(&a) == Some(a.cmp_spec(&a)));
    }
    assert forall|a: T, b: T| #[trigger] same(a, b) implies same(b, a) by {
        assert(a.partial_cmp_spec(&b) == Some(a.cmp_spec(&b)));
        assert(b.partial_cmp_spec(&a) == Some(b.cmp_spec(&a)));
        assert(a.eq_spec(&b));
    }
    assert forall|a: T, b: T, c: T| #[trigger] before(a, b) && #[trigger] before(b, c) implies before(a, c) by {
        assert(a.partial_cmp_spec(&b) == Some(a.cmp_spec(&b)));
        assert(b.partial_cmp_spec(&c) == Some(b.cmp_spec(&c)));
        assert(a.partial_cmp_spec(&c) == Some(a.cmp_spec(&c)));
    }
    assert forall|a: T, b: T, c: T| #[trigger] same(a, b) && #[trigger] same(b, c) implies same(a, c) by {
        assert(a.partial_cmp_spec(&b) == Some(a.cmp_spec(&b)));
        assert(b.partial_cmp_spec(&c) == Some(b.cmp_spec(&c)));
        assert(a.partial_cmp_spec(&c) == Some(a.cmp_spec(&c)));
        assert(a.eq_spec(&b));
        assert(b.eq_spec(&c));
        assert(a.eq_spec(&c));
    }
}


/// Two equal elements cannot both appear in an ascending sequence.
pub proof fn lemma_unique_position<T: Ord>(s: Seq<T>, x: T, i: int, j: int)
    requires
        order_laws::<T>(),
        strictly_ascending(s),
        0 <= i < s.len(),
        0 <= j < s.len(),
        same(s[i], x),
        same(s[j], x),
    ensures
        i == j,
{
    if i < j {
        assert(before(s[i], s[j]));
        assert(same(x, s[j]));
        assert(same(s[i], s[j]));
    } else if j < i {
        assert(before(s[j], s[i]));
        assert(same(x, s[i]));
        assert(same(s[j], s[i]));
    }
}

/// The position of the first element of `states` that does not come
/// before `x`.
fn first_not_before<T: Copy + Ord>(states: &Vec<T>, x: &T) -> (p: usize)
    requires
        order_laws::<T>(),
    ensures
        p <= states.len(),
        forall|i: int| 0 <= i < p ==> before(#[trigger] states@[i], *x),
        p < states.len() ==> !before(states@[p as int], *x),
{
    let mut p: usize = 0;
    while p < states.len() && matches!(states[p].cmp(x), Ordering::Less)
        invariant
            order_laws::<T>(),
            p <= states.len(),
            forall|i: int| 0 <= i < p ==> before(#[trigger] states@[i], *x),
        decreases states.len() - p,
    {
        p = p + 1;
    }
    p
}

/// Builds the state space of `elements`: each distinct element once, in
/// ascending order.
pub fn state_space<T: Copy + Ord>(elements: &[T]) -> (states: Vec<T>)
    requires
        obeys_cmp::<T>(),
    ensures
        is_state_space(states@, elements@),
{
    proof {
        lemma_order_laws::<T>();
    }
    let mut states: Vec<T> = Vec::new();
    let mut k: usize = 0;
    while k < elements.len()
        invariant
            order_laws::<T>(),
            k <= elements.len(),
            strictly_ascending(states@),
            forall|i: int| 0 <= i < states.len() ==> elements@.contains(#[trigger] states@[i]),
            forall|i: int| 0 <= i < k ==> covers(states@, #[trigger] elements@[i]),
        decreases elements.len() - k,
    {
        let x = elements[k];
        let p = first_not_before(&states, &x);
        if p < states.len() && matches!(states[p].cmp(&x), Ordering::Equal) {
            assert(same(states@[p as int], x));
            assert(covers(states@, elements@[k as int]));
        } else {
            let ghost prev = states@;
            assert(p < prev.len() ==> before(x, prev[p as int]));
            states.insert(p, x);
            assert(states@ =~= prev.insert(p as int, x));
            assert forall|i: int, j: int| 0 <= i < j < states@.len() implies before(
                #[trigger] states@[i],
                #[trigger] states@[j],
            ) by {
                if j < p {
                    assert(before(prev[i], prev[j]));
                } else if j == p {
                    assert(before(prev[i], x));
                } else if i < p {
                    assert(before(prev[i], prev[j - 1]));
                } else if i == p {
                    if j - 1 > p {
                        assert(before(prev[p as int], prev[j - 1]));
                    }
                } else {
                    assert(before(prev[i - 1], prev[j - 1]));
                }
            }
            assert forall|i: int| 0 <= i < states.len() implies elements@.contains(
                #[trigger] states@[i],
            ) by {
                if i < p {
                    assert(elements@.contains(prev[i]));
                } else if i == p {
                    assert(elements@[k as int] == x);
                } else {
                    assert(elements@.contains(prev[i - 1]));
                }
            }
            assert forall|i: int| 0 <= i < k implies covers(states@, #[trigger] elements@[i]) by {
                assert(covers(prev, elements@[i]));
                let w = choose|w: int| 0 <= w < prev.len() && same(#[trigger] prev[w], elements@[i]);
                if w < p {
                    assert(states@[w] == prev[w]);
                } else {
                    assert(states@[w + 1] == prev[w]);
                }
            }
            assert(same(states@[p as int], x));
            assert(covers(states@, elements@[k as int]));
        }
        k = k + 1;
    }
    states
}

/// The position of `x` in `states`, if it is there.
pub fn state_index<T: Copy + Ord>(states: &Vec<T>, x: &T) -> (r: Option<usize>)
    requires
        obeys_cmp::<T>(),
    ensures
        match r {
            Some(i) => i < states.len() && same(states@[i as int], *x),
            None => !covers(states@, *x),
        },
{
    proof {
        lemma_order_laws::<T>();
    }
    let mut i: usize = 0;
    while i < states.len()
        invariant
            order_laws::<T>(),
            i <= states.len(),
            forall|j: int| 0 <= j < i ==> !same(#[trigger] states@[j], *x),
        decreases states.len() - i,
    {
        if matches!(states[i].cmp(x), Ordering::Equal) {
            return Some(i);
        }
        i = i + 1;
    }
    None
}

} // verus!
