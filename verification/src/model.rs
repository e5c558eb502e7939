//! The mathematical model that the contracts of this crate are stated over.

use vstd::prelude::*;

verus! {

/// The least number of groups of `d` items that hold `n` items: `n / d`
/// rounded up. Zero where `d` is zero.
pub open spec fn ceil_div(n: nat, d: nat) -> nat {
    if d == 0 {
        0
    } else {
        ((n + d - 1) / (d as int)) as nat
    }
}

/// The `k`-th chunk of `input` when it is cut every `size` items: the items
/// at positions `k * size` up to, and without, `(k + 1) * size`, as far as
/// `input` reaches.
pub open spec fn chunk_at<T>(input: Seq<T>, size: nat, k: int) -> Seq<T> {
    let end = if (k + 1) * size <= input.len() {
        (k + 1) * size
    } else {
        input.len() as int
    };
    input.subrange(k * size, end)
}

/// `input` cut into consecutive chunks of `size` items; the last chunk holds
/// what is left.
pub open spec fn chunked<T>(input: Seq<T>, size: nat) -> Seq<Seq<T>> {
    Seq::new(ceil_div(input.len(), size), |k: int| chunk_at(input, size, k))
}

/// The contents of a vector of vectors.
pub open spec fn parts_view<T>(parts: Seq<Vec<T>>) -> Seq<Seq<T>> {
    Seq::new(parts.len(), |k: int| parts[k]@)
}

/// The parts that the workers handed back, each where its worker succeeded.
pub open spec fn successes<R, E>(outcomes: Seq<Result<Vec<R>, E>>) -> Seq<Seq<R>> {
    Seq::new(outcomes.len(), |k: int| outcomes[k]->Ok_0@)
}

/// The worker at position `i` failed and none before it did.
pub open spec fn is_first_failure<P, E>(outcomes: Seq<Result<P, E>>, i: int) -> bool {
    &&& 0 <= i < outcomes.len()
    &&& outcomes[i] is Err
    &&& forall|j: int| 0 <= j < i ==> (#[trigger] outcomes[j]) is Ok
}

/// `output` is an image of `input` under `f`: as long as `input`, and at
/// each position a value that `f` may return for the item at that position.
pub open spec fn maps_to<T, R, F: Fn(T) -> R>(f: F, input: Seq<T>, output: Seq<R>) -> bool {
    &&& output.len() == input.len()
    &&& forall|i: int|
        0 <= i < input.len() ==> call_ensures(f, (input[i],), #[trigger] output[i])
}

/// `f` accepts every item of `input`.
pub open spec fn accepts_all<T, R, F: Fn(T) -> R>(f: F, input: Seq<T>) -> bool {
    forall|i: int| 0 <= i < input.len() ==> call_requires(f, (#[trigger] input[i],))
}

/// `f` returns one value for each argument.
pub open spec fn deterministic<T, R, F: Fn(T) -> R>(f: F) -> bool {
    forall|x: T, y: R, z: R|
        #![trigger call_ensures(f, (x,), y), call_ensures(f, (x,), z)]
        call_ensures(f, (x,), y) && call_ensures(f, (x,), z) ==> y == z
}

} // verus!
