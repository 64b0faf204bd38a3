//! Shared pieces of the flattening of feeds into rows.

use vstd::prelude::*;

verus! {

/// The concatenation of `f` over `xs`, in order.
pub open spec fn concat_map<T, U>(xs: Seq<T>, f: spec_fn(T) -> Seq<U>) -> Seq<U>
    decreases xs.len(),
{
    if xs.len() == 0 {
        Seq::empty()
    } else {
        concat_map(xs.drop_last(), f) + f(xs.last())
    }
}

pub proof fn lemma_concat_map_take<T, U>(xs: Seq<T>, i: int, f: spec_fn(T) -> Seq<U>)
    requires
        0 <= i < xs.len(),
    ensures
        concat_map(xs.take(i + 1), f) == concat_map(xs.take(i), f) + f(xs[i]),
{
    assert(xs.take(i + 1).drop_last() =~= xs.take(i));
}

pub proof fn lemma_concat_map_all<T, U>(xs: Seq<T>, f: spec_fn(T) -> Seq<U>)
    ensures
        concat_map(xs.take(xs.len() as int), f) == concat_map(xs, f),
{
    assert(xs.take(xs.len() as int) =~= xs);
}

/// A copy of an optional string.
pub fn clone_opt(o: &Option<String>) -> (r: Option<String>)
    ensures
        r.deep_view() == o.deep_view(),
{
    match o {
        Some(s) => Some(s.clone()),
        None => None,
    }
}

/// The values of a list, or a single `None` where the list is empty, so that
/// an empty list still gives one row.
pub open spec fn or_none<T>(xs: Seq<T>) -> Seq<Option<T>> {
    if xs.len() == 0 {
        seq![None]
    } else {
        xs.map_values(|x: T| Some(x))
    }
}

/// What `ensure_nonempty` returns, seen through the values of its items.
pub proof fn lemma_nonempty_view<T: DeepView>(inp: Seq<T>, r: Seq<Option<T>>)
    requires
        inp.len() == 0 ==> r == seq![None::<T>],
        inp.len() > 0 ==> r == inp.map_values(|x: T| Some(x)),
    ensures
        Seq::new(r.len(), |i: int| r[i].deep_view()) == or_none(
            Seq::new(inp.len(), |i: int| inp[i].deep_view()),
        ),
{
    let dv = Seq::new(inp.len(), |i: int| inp[i].deep_view());
    if inp.len() == 0 {
        assert(Seq::new(r.len(), |i: int| r[i].deep_view()) =~= seq![None::<T::V>]);
    } else {
        assert(Seq::new(r.len(), |i: int| r[i].deep_view()) =~= dv.map_values(|x: T::V| Some(x)));
    }
}


/// Where `f` gives `k` items for each of `xs`, the concatenation holds
/// `k` items for each of `xs`.
pub proof fn lemma_concat_map_len<T, U>(xs: Seq<T>, f: spec_fn(T) -> Seq<U>, k: nat)
    requires
        forall|i: int| 0 <= i < xs.len() ==> (#[trigger] f(xs[i])).len() == k,
    ensures
        concat_map(xs, f).len() == xs.len() * k,
    decreases xs.len(),
{
    if xs.len() > 0 {
        let init = xs.drop_last();
        assert forall|i: int| 0 <= i < init.len() implies (#[trigger] f(init[i])).len() == k by {
            assert(init[i] == xs[i]);
        }
        lemma_concat_map_len(init, f, k);
        assert(f(xs[xs.len() - 1]).len() == k);
        let n = xs.len();
        assert((n - 1) * k + k == n * k) by (nonlinear_arith);
    }
}

/// Where every item that `f` gives satisfies `p`, so does every item of the
/// concatenation.
pub proof fn lemma_concat_map_all_satisfy<T, U>(xs: Seq<T>, f: spec_fn(T) -> Seq<U>, p: spec_fn(U) -> bool)
    requires
        forall|i: int, j: int| 0 <= i < xs.len() && 0 <= j < f(xs[i]).len() ==> #[trigger] p(f(xs[i])[j]),
    ensures
        forall|j: int| 0 <= j < concat_map(xs, f).len() ==> #[trigger] p(concat_map(xs, f)[j]),
    decreases xs.len(),
{
    if xs.len() > 0 {
        let init = xs.drop_last();
        assert forall|i: int, j: int| 0 <= i < init.len() && 0 <= j < f(init[i]).len() implies #[trigger] p(f(init[i])[j]) by {
            assert(init[i] == xs[i]);
        }
        lemma_concat_map_all_satisfy(init, f, p);
        let front = concat_map(init, f);
        let back = f(xs.last());
        assert forall|j: int| 0 <= j < concat_map(xs, f).len() implies #[trigger] p(concat_map(xs, f)[j]) by {
            if j < front.len() {
                assert(concat_map(xs, f)[j] == front[j]);
            } else {
                assert(concat_map(xs, f)[j] == back[j - front.len()]);
                assert(p(f(xs[xs.len() - 1])[j - front.len()]));
            }
        }
    }
}

} // verus!
