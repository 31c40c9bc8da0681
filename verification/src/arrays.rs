//! Building fixed-size arrays one element at a time.

use vstd::prelude::*;

verus! {

/// `<[T; N] as TryFrom<Vec<T>>>::try_from`: a vector of exactly `N` items
/// becomes the array of those items, in the same order.
#[verifier::external_body]
fn vec_into_array<T, const N: usize>(items: Vec<T>) -> (out: [T; N])
    requires
        items@.len() == N,
    ensures
        out@ == items@,
{
    items.try_into().ok().unwrap()
}

/// Builds `[cb(0), cb(1), .., cb(N - 1)]`, calling `cb` once per index in
/// increasing order. Every cell is written before the array is handed out.
pub fn array_from_fn<F, T, const N: usize>(mut cb: F) -> (out: [T; N]) where
    F: FnMut(usize) -> T,

    requires
        forall|i: usize| i < N ==> call_requires(cb, (i,)),
    ensures
        out@.len() == N,
        forall|i: int| 0 <= i < N ==> call_ensures(cb, (i as usize,), #[trigger] out@[i]),
{
    broadcast use vstd::function::group_function_axioms;

    let ghost initial = cb;
    let mut items: Vec<T> = Vec::new();
    let mut idx: usize = 0;
    while idx < N
        invariant
            idx <= N,
            cb == initial,
            items@.len() == idx,
            forall|i: usize| i < N ==> call_requires(cb, (i,)),
            forall|i: int| 0 <= i < idx ==> call_ensures(cb, (i as usize,), #[trigger] items@[i]),
        decreases N - idx,
    {
        let res = cb(idx);
        items.push(res);
        idx += 1;
    }
    vec_into_array(items)
}

} // verus!
