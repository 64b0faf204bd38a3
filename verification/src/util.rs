//! Helpers for lists that must not be empty.

use vstd::prelude::*;

verus! {

/// The values of `inp` wrapped in `Some`, or one `None` if it is empty.
pub fn ensure_nonempty<T>(inp: Vec<T>) -> (r: Vec<Option<T>>)
    ensures
        inp@.len() == 0 ==> r@ == seq![None::<T>],
        inp@.len() > 0 ==> r@ == inp@.map_values(|x: T| Some(x)),
{
    if inp.len() == 0 {
        let mut r: Vec<Option<T>> = Vec::new();
        r.push(None);
        assert(r@ =~= seq![None::<T>]);
        r
    } else {
        let mut r: Vec<Option<T>> = Vec::new();
        let mut rest = inp;
        let ghost all = rest@;
        let mut taken: Vec<T> = Vec::new();
        // take the values from the back, then restore their order
        while rest.len() > 0
            invariant
                all == rest@ + taken@.reverse(),
            decreases rest@.len(),
        {
            let ghost before_rest = rest@;
            let ghost before_taken = taken@;
            let x = rest.pop().unwrap();
            taken.push(x);
            assert(before_rest =~= rest@.push(x));
            assert(taken@.reverse() =~= seq![x] + before_taken.reverse());
        }
        assert(taken@.reverse() =~= all);
        while taken.len() > 0
            invariant
                r@.len() + taken@.len() == all.len(),
                forall|i: int| 0 <= i < r@.len() ==> r@[i] == Some(all[i]),
                forall|i: int| 0 <= i < taken@.len() ==> taken@[i] == all[all.len() - 1 - i],
            decreases taken@.len(),
        {
            let ghost n = r@.len();
            let x = taken.pop().unwrap();
            assert(x == all[n as int]);
            r.push(Some(x));
        }
        assert(r@ =~= all.map_values(|x: T| Some(x)));
        r
    }
}

} // verus!
