//! Access to two particles of one array at once, by index.
use vstd::prelude::*;

verus! {

/// Elements `i` and `j` of `v`, both mutable; the indices must differ.
pub fn pair_mut<T>(v: &mut Vec<T>, i: usize, j: usize) -> (r: (&mut T, &mut T))
    requires
        i < old(v)@.len(),
        j < old(v)@.len(),
        i != j,
    ensures
        *r.0 == old(v)@[i as int],
        *r.1 == old(v)@[j as int],
        final(v)@ == old(v)@.update(i as int, *final(r.0)).update(j as int, *final(r.1)),
{
    if i < j {
        let (low, high) = v.as_mut_slice().split_at_mut(j);
        let (_, from_i) = low.split_at_mut(i);
        let a = from_i.first_mut().unwrap();
        let b = high.first_mut().unwrap();
        (a, b)
    } else {
        let (low, high) = v.as_mut_slice().split_at_mut(i);
        let (_, from_j) = low.split_at_mut(j);
        let b = from_j.first_mut().unwrap();
        let a = high.first_mut().unwrap();
        (a, b)
    }
}

} // verus!
