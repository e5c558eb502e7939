//! Cutting an input into the chunks that the workers get.

use crate::model::{ceil_div, chunk_at, chunked, parts_view};
use vstd::prelude::*;

verus! {

/// `ceil_div(n, d)` groups of `d` items hold `n` items, and one group fewer
/// does not; no item takes no group.
pub proof fn lemma_ceil_div_covers(n: nat, d: nat)
    requires
        d > 0,
    ensures
        ceil_div(n, d) * d >= n,
        n > 0 ==> ceil_div(n, d) > 0 && (ceil_div(n, d) - 1) * d < n,
        n == 0 ==> ceil_div(n, d) == 0,
{
    let m: int = n + d - 1;
    let c: int = m / (d as int);
    vstd::arithmetic::div_mod::lemma_fundamental_div_mod(m, d as int);
    vstd::arithmetic::div_mod::lemma_mod_bound(m, d as int);
    vstd::arithmetic::div_mod::lemma_div_pos_is_pos(m, d as int);
    assert(c * d == d * c) by (nonlinear_arith);
    assert((c - 1) * d == c * d - d) by (nonlinear_arith);
}

/// No number of groups below `ceil_div(n, d)` holds `n` items.
pub proof fn lemma_ceil_div_is_least(n: nat, d: nat, c: nat)
    requires
        d > 0,
        c * d >= n,
    ensures
        c >= ceil_div(n, d),
{
    lemma_ceil_div_covers(n, d);
    let least: int = ceil_div(n, d) as int;
    if c < least {
        assert(c * d <= (least - 1) * d) by (nonlinear_arith)
            requires
                c <= least - 1,
                d > 0,
        ;
    }
}

/// The size of the chunks when `len` items are spread over `threads_count`
/// workers: `len / threads_count`, rounded up.
pub fn chunk_size(len: usize, threads_count: usize) -> (size: usize)
    requires
        threads_count > 0,
    ensures
        size == ceil_div(len as nat, threads_count as nat),
{
    let whole: usize = len / threads_count;
    let left: usize = len % threads_count;
    proof {
        let n: int = len as int;
        let d: int = threads_count as int;
        vstd::arithmetic::div_mod::lemma_fundamental_div_mod(n, d);
        assert(d * (n / d) == (n / d) * d) by (nonlinear_arith);
        if left == 0 {
            vstd::arithmetic::div_mod::lemma_fundamental_div_mod_converse(
                n + d - 1,
                d,
                n / d,
                d - 1,
            );
        } else {
            assert((n / d + 1) * d == (n / d) * d + d) by (nonlinear_arith);
            vstd::arithmetic::div_mod::lemma_fundamental_div_mod_converse(
                n + d - 1,
                d,
                n / d + 1,
                n % d - 1,
            );
            assert((n / d) * d >= n / d) by (nonlinear_arith)
                requires
                    n / d >= 0,
                    d >= 1,
            ;
        }
    }
    if left == 0 {
        whole
    } else {
        whole + 1
    }
}

/// Cuts `input` into consecutive chunks of `size` items, in order; the last
/// chunk holds what is left and is never empty. Joined in order the chunks
/// give the input back.
pub fn split_chunks<T>(input: Vec<T>, size: usize) -> (chunks: Vec<Vec<T>>)
    requires
        size > 0,
    ensures
        parts_view(chunks@) == chunked(input@, size as nat),
        parts_view(chunks@).flatten() == input@,
        forall|k: int| 0 <= k < chunks.len() ==> 0 < (#[trigger] chunks[k]).len() <= size,
        forall|k: int| 0 <= k < chunks.len() - 1 ==> (#[trigger] chunks[k]).len() == size,
{
    let ghost items = input@;
    let mut chunks: Vec<Vec<T>> = Vec::new();
    let mut current: Vec<T> = Vec::new();
    proof {
        assert(chunks.len() * size == 0) by (nonlinear_arith)
            requires
                chunks.len() == 0,
        ;
        assert(current@ =~= items.subrange(0, 0));
    }
    for x in it: input
        invariant
            size > 0,
            it.seq() == items,
            it.index() == chunks.len() * size + current.len(),
            current.len() <= size,
            it.index() > 0 ==> current.len() > 0,
            forall|j: int|
                0 <= j < chunks.len() ==> (#[trigger] chunks[j])@ == chunk_at(
                    items,
                    size as nat,
                    j,
                ),
            current@ == items.subrange(chunks.len() * size, it.index() as int),
    {
        if current.len() == size {
            proof {
                assert((chunks.len() + 1) * size == chunks.len() * size + size)
                    by (nonlinear_arith);
            }
            chunks.push(current);
            current = Vec::new();
        }
        current.push(x);
        proof {
            assert(current@ =~= items.subrange(chunks.len() * size, it.index() + 1));
        }
    }
    let ghost full = chunks.len();
    proof {
        assert((full + 1) * size == full * size + size) by (nonlinear_arith);
        assert(items.len() == 0 ==> full == 0) by (nonlinear_arith)
            requires
                items.len() == full * size + current.len(),
                size > 0,
        ;
        lemma_count_of_chunks(items.len(), size as nat, full as nat);
    }
    if current.len() > 0 {
        chunks.push(current);
    }
    proof {
        assert(parts_view(chunks@) =~= chunked(items, size as nat));
        lemma_chunked_flatten(items, size as nat);
        assert forall|k: int| 0 <= k < chunks.len() implies 0 < (#[trigger] chunks[k]).len()
            <= size && (k < chunks.len() - 1 ==> chunks[k].len() == size) by {
            lemma_chunk_lengths(items, size as nat, k);
            assert(parts_view(chunks@)[k] == chunks[k]@);
        }
    }
    chunks
}

/// Cuts `input` into the chunks that `threads_count` workers get: chunks of
/// `chunk_size(input.len(), threads_count)` items, in order. There are at
/// most `threads_count` chunks and none is empty; joined in order they give
/// the input back.
pub fn partition<T>(input: Vec<T>, threads_count: usize) -> (chunks: Vec<Vec<T>>)
    requires
        threads_count > 0,
    ensures
        parts_view(chunks@) == chunked(
            input@,
            ceil_div(input.len() as nat, threads_count as nat),
        ),
        parts_view(chunks@).flatten() == input@,
        chunks.len() <= threads_count,
        forall|k: int|
            0 <= k < chunks.len() ==> 0 < (#[trigger] chunks[k]).len() <= ceil_div(
                input.len() as nat,
                threads_count as nat,
            ),
{
    let ghost items = input@;
    let size: usize = chunk_size(input.len(), threads_count);
    if size == 0 {
        proof {
            lemma_ceil_div_covers(items.len(), threads_count as nat);
            assert(parts_view(Seq::<Vec<T>>::empty()) =~= chunked(items, 0));
            assert(Seq::<Seq<T>>::empty().flatten() =~= items);
        }
        return Vec::new();
    }
    let chunks: Vec<Vec<T>> = split_chunks(input, size);
    proof {
        lemma_chunk_count_bounded(items.len(), threads_count as nat);
    }
    chunks
}

/// `n` items that fill `full` groups of `d` and leave at most `d` over take
/// `full` groups where nothing is left, and one more otherwise.
proof fn lemma_count_of_chunks(n: nat, d: nat, full: nat)
    requires
        d > 0,
        full * d <= n <= full * d + d,
        n == full * d ==> n == 0,
    ensures
        ceil_div(n, d) == if n == 0 {
            0
        } else {
            full + 1
        },
{
    if n == 0 {
        lemma_ceil_div_covers(n, d);
    } else {
        assert((full + 1) * d == full * d + d) by (nonlinear_arith);
        vstd::arithmetic::div_mod::lemma_fundamental_div_mod_converse(
            n + d - 1,
            d as int,
            (full + 1) as int,
            n - full * d - 1,
        );
    }
}

/// Every chunk holds at least one item and at most `size`, and every chunk
/// but the last holds exactly `size`. A chunk starts inside the input, and a
/// chunk of `size` items ends inside it.
pub proof fn lemma_chunk_lengths<T>(input: Seq<T>, size: nat, k: int)
    requires
        size > 0,
        0 <= k < chunked(input, size).len(),
    ensures
        0 < chunked(input, size)[k].len() <= size,
        k + 1 < chunked(input, size).len() ==> chunked(input, size)[k].len() == size,
        chunked(input, size)[k].len() == size ==> (k + 1) * size <= input.len(),
        k * size < input.len(),
{
    let count: int = ceil_div(input.len(), size) as int;
    lemma_ceil_div_covers(input.len(), size);
    assert((k + 1) * size == k * size + size) by (nonlinear_arith);
    assert(k * size <= (count - 1) * size) by (nonlinear_arith)
        requires
            k <= count - 1,
            size > 0,
    ;
    assert(k * size >= 0) by (nonlinear_arith)
        requires
            k >= 0,
            size > 0,
    ;
    if k + 1 < count {
        assert((k + 1) * size <= (count - 1) * size) by (nonlinear_arith)
            requires
                k + 1 <= count - 1,
                size > 0,
        ;
    }
}

/// A chunk is a contiguous run of the input: its `i`-th item is the input's
/// item at `k * size + i`.
pub proof fn lemma_chunk_items<T>(input: Seq<T>, size: nat, k: int, i: int)
    requires
        size > 0,
        0 <= k < chunked(input, size).len(),
        0 <= i < chunked(input, size)[k].len(),
    ensures
        0 <= k * size + i < input.len(),
        chunked(input, size)[k][i] == input[k * size + i],
{
    lemma_chunk_lengths(input, size, k);
    assert(k * size >= 0) by (nonlinear_arith)
        requires
            k >= 0,
            size > 0,
    ;
    assert((k + 1) * size == k * size + size) by (nonlinear_arith);
}

/// The first `m` chunks, joined in order, are the items before the `m`-th
/// chunk.
proof fn lemma_chunk_prefix<T>(input: Seq<T>, size: nat, m: int)
    requires
        size > 0,
        0 <= m <= chunked(input, size).len(),
    ensures
        chunked(input, size).take(m).flatten() == input.take(
            if m * size <= input.len() {
                m * size
            } else {
                input.len() as int
            },
        ),
    decreases m,
{
    let chunks = chunked(input, size);
    if m == 0 {
        assert(m * size == 0) by (nonlinear_arith)
            requires
                m == 0,
        ;
        assert(chunks.take(m) =~= Seq::<Seq<T>>::empty());
        assert(chunks.take(m).flatten() =~= input.take(0));
    } else {
        lemma_chunk_prefix(input, size, m - 1);
        lemma_chunk_lengths(input, size, m - 1);
        assert(m * size == (m - 1) * size + size) by (nonlinear_arith);
        assert(chunks.take(m) =~= chunks.take(m - 1).push(chunks[m - 1]));
        chunks.take(m - 1).lemma_flatten_push(chunks[m - 1]);
        let end: int = if m * size <= input.len() {
            m * size
        } else {
            input.len() as int
        };
        assert(input.take((m - 1) * size) + input.subrange((m - 1) * size, end) =~= input.take(
            end,
        ));
    }
}

/// The chunks partition the input: joined in order they give it back, with
/// no item lost, repeated or moved.
pub proof fn lemma_chunked_flatten<T>(input: Seq<T>, size: nat)
    requires
        size > 0,
    ensures
        chunked(input, size).flatten() == input,
{
    let chunks = chunked(input, size);
    lemma_chunk_prefix(input, size, chunks.len() as int);
    lemma_ceil_div_covers(input.len(), size);
    assert(chunks.take(chunks.len() as int) =~= chunks);
    assert(input.take(input.len() as int) =~= input);
}

/// Chunks of `ceil_div(n, p)` items never number more than `p`: no more
/// workers are needed than there are threads.
pub proof fn lemma_chunk_count_bounded(n: nat, p: nat)
    requires
        p > 0,
    ensures
        ceil_div(n, ceil_div(n, p)) <= p,
{
    lemma_ceil_div_covers(n, p);
    if n > 0 {
        assert(p * ceil_div(n, p) == ceil_div(n, p) * p) by (nonlinear_arith);
        lemma_ceil_div_is_least(n, ceil_div(n, p), p);
    }
}

} // verus!
