//! The mapper: one worker's share, the joining of the shares, and the whole
//! map with its choice between one pass and chunks.

use crate::chunking::{lemma_chunk_items, partition};
use crate::model::{
    accepts_all, ceil_div, chunked, deterministic, is_first_failure, maps_to, parts_view,
    successes,
};
use vstd::prelude::*;

verus! {

/// Inputs shorter than this are mapped in one pass, with no worker.
pub const THRESHOLD: usize = 5;

/// Whether an input of `len` items is mapped in one pass on the calling
/// thread: it is, exactly when `len` is below [`THRESHOLD`].
pub fn runs_inline(len: usize) -> (inline: bool)
    ensures
        inline == (len < THRESHOLD),
{
    len < THRESHOLD
}

/// Applies `f` to every item of `chunk`, in order. This is the work of one
/// worker, and the whole work for an input that runs inline.
pub fn map_chunk<T, R, F: Fn(T) -> R>(chunk: Vec<T>, f: &F) -> (out: Vec<R>)
    requires
        accepts_all(*f, chunk@),
    ensures
        maps_to(*f, chunk@, out@),
{
    let ghost items = chunk@;
    let mut out: Vec<R> = Vec::new();
    for x in it: chunk
        invariant
            it.seq() == items,
            accepts_all(*f, items),
            out.len() == it.index(),
            forall|i: int| 0 <= i < out.len() ==> call_ensures(*f, (items[i],), #[trigger] out[i]),
    {
        let y: R = f(x);
        out.push(y);
    }
    out
}

/// Joins the workers' results in the order of their chunks.
pub fn join_parts<R>(parts: Vec<Vec<R>>) -> (out: Vec<R>)
    ensures
        out@ == parts_view(parts@).flatten(),
{
    let ghost all = parts_view(parts@);
    let mut out: Vec<R> = Vec::new();
    proof {
        assert(all.take(0) =~= Seq::<Seq<R>>::empty());
        assert(out@ =~= all.take(0).flatten());
    }
    for part in it: parts
        invariant
            it.seq() == parts@,
            all == parts_view(parts@),
            out@ == all.take(it.index() as int).flatten(),
    {
        let ghost k = it.index() as int;
        let mut part = part;
        proof {
            assert(all.take(k + 1) =~= all.take(k).push(part@));
            all.take(k).lemma_flatten_push(part@);
        }
        out.append(&mut part);
    }
    proof {
        assert(all.take(all.len() as int) =~= all);
    }
    out
}

/// Settles what the workers handed back, once every one of them has been
/// waited for. Where none failed, the parts are joined in the order of their
/// chunks. Where one failed there is no output, not even in part: the
/// failure of the first worker that failed, in the order of the chunks, is
/// handed on.
pub fn join_outcomes<R, E>(outcomes: Vec<Result<Vec<R>, E>>) -> (result: Result<Vec<R>, E>)
    ensures
        match result {
            Ok(out) => {
                &&& forall|k: int| 0 <= k < outcomes.len() ==> (#[trigger] outcomes[k]) is Ok
                &&& out@ == successes(outcomes@).flatten()
            },
            Err(failure) => exists|i: int|
                is_first_failure(outcomes@, i) && #[trigger] outcomes[i] == Err::<Vec<R>, E>(
                    failure,
                ),
        },
{
    let ghost all = outcomes@;
    let ghost mut at: int = 0;
    let mut parts: Vec<Vec<R>> = Vec::new();
    let mut first: Option<E> = None;
    for outcome in it: outcomes
        invariant
            it.seq() == all,
            first is None ==> parts.len() == it.index(),
            first is None ==> forall|k: int|
                0 <= k < it.index() ==> (#[trigger] all[k]) is Ok && all[k]->Ok_0@ == parts[k]@,
            first is Some ==> is_first_failure(all, at) && all[at] == Err::<Vec<R>, E>(
                first->Some_0,
            ),
    {
        match outcome {
            Ok(part) => {
                if first.is_none() {
                    parts.push(part);
                }
            },
            Err(failure) => {
                if first.is_none() {
                    proof {
                        at = it.index() as int;
                    }
                    first = Some(failure);
                }
            },
        }
    }
    match first {
        Some(failure) => Err(failure),
        None => {
            proof {
                assert(parts_view(parts@) =~= successes(all));
            }
            Ok(join_parts(parts))
        },
    }
}

/// Images of two inputs, joined, are an image of the joined inputs.
proof fn lemma_maps_to_append<T, R, F: Fn(T) -> R>(
    f: F,
    left: Seq<T>,
    left_out: Seq<R>,
    right: Seq<T>,
    right_out: Seq<R>,
)
    requires
        maps_to(f, left, left_out),
        maps_to(f, right, right_out),
    ensures
        maps_to(f, left + right, left_out + right_out),
{
    assert forall|i: int| 0 <= i < (left + right).len() implies call_ensures(
        f,
        ((left + right)[i],),
        #[trigger] (left_out + right_out)[i],
    ) by {
        if i < left.len() {
            assert((left_out + right_out)[i] == left_out[i]);
        } else {
            assert((left + right)[i] == right[i - left.len()]);
            assert((left_out + right_out)[i] == right_out[i - left.len()]);
        }
    }
}

/// Wherever the input is cut, and whoever maps which chunk: if each part is
/// an image of its chunk, the parts joined in the chunks' order are an image
/// of the chunks joined, item for item.
pub proof fn lemma_parts_assemble<T, R, F: Fn(T) -> R>(
    f: F,
    chunks: Seq<Seq<T>>,
    parts: Seq<Seq<R>>,
)
    requires
        parts.len() == chunks.len(),
        forall|k: int| 0 <= k < chunks.len() ==> maps_to(f, #[trigger] chunks[k], parts[k]),
    ensures
        maps_to(f, chunks.flatten(), parts.flatten()),
    decreases chunks.len(),
{
    if chunks.len() == 0 {
        assert(chunks.flatten() =~= Seq::<T>::empty());
        assert(parts.flatten() =~= Seq::<R>::empty());
    } else {
        let head = chunks.drop_last();
        let head_out = parts.drop_last();
        assert forall|k: int| 0 <= k < head.len() implies maps_to(
            f,
            #[trigger] head[k],
            head_out[k],
        ) by {
            assert(head[k] == chunks[k]);
            assert(head_out[k] == parts[k]);
        }
        lemma_parts_assemble(f, head, head_out);
        assert(chunks =~= head.push(chunks.last()));
        assert(parts =~= head_out.push(parts.last()));
        head.lemma_flatten_push(chunks.last());
        head_out.lemma_flatten_push(parts.last());
        assert(maps_to(f, chunks[chunks.len() - 1], parts[chunks.len() - 1]));
        lemma_maps_to_append(f, head.flatten(), head_out.flatten(), chunks.last(), parts.last());
    }
}

/// A function that returns one value for each argument has one image of
/// each input: two runs on the same input give the same output, whatever
/// the chunks were and in whatever order the workers ran.
pub proof fn lemma_output_unique<T, R, F: Fn(T) -> R>(
    f: F,
    input: Seq<T>,
    first: Seq<R>,
    second: Seq<R>,
)
    requires
        deterministic(f),
        maps_to(f, input, first),
        maps_to(f, input, second),
    ensures
        first == second,
{
    assert forall|i: int| 0 <= i < first.len() implies first[i] == second[i] by {
        assert(call_ensures(f, (input[i],), first[i]));
        assert(call_ensures(f, (input[i],), second[i]));
    }
    assert(first =~= second);
}

/// Where `f` computes the function `g`, an image of `input` under `f` is
/// `g` applied to each item of `input`, in order.
pub proof fn lemma_output_is_map<T, R, F: Fn(T) -> R>(
    f: F,
    g: spec_fn(T) -> R,
    input: Seq<T>,
    output: Seq<R>,
)
    requires
        forall|x: T, y: R| #[trigger] call_ensures(f, (x,), y) ==> y == g(x),
        maps_to(f, input, output),
    ensures
        output == input.map_values(g),
{
    assert(output =~= input.map_values(g));
}

/// Maps `f` over `input`: the output holds, at each position, what `f`
/// returns for the input's item at that position.
///
/// An input shorter than [`THRESHOLD`] is mapped in one pass. A longer one
/// is cut by [`partition`] into at most `threads_count` chunks, each chunk is
/// mapped by [`map_chunk`], and the parts are joined by [`join_parts`].
/// `threads_count` is read only for such an input. The chunks are mapped one
/// after another on the calling thread; a caller that owns threads gives
/// each chunk to a worker instead and settles the results with
/// [`join_outcomes`]. By `lemma_parts_assemble` that output is an image of
/// the input too, and by `lemma_output_unique` the same one where `f` is
/// deterministic.
pub fn compute<T, R, F: Fn(T) -> R>(input: Vec<T>, f: F, threads_count: usize) -> (output: Vec<R>)
    requires
        accepts_all(f, input@),
        input.len() >= THRESHOLD ==> threads_count > 0,
    ensures
        output.len() == input.len(),
        maps_to(f, input@, output@),
{
    if runs_inline(input.len()) {
        return map_chunk(input, &f);
    }
    let ghost items = input@;
    let ghost size = ceil_div(items.len(), threads_count as nat);
    let chunks: Vec<Vec<T>> = partition(input, threads_count);
    let ghost shares = parts_view(chunks@);
    let mut parts: Vec<Vec<R>> = Vec::new();
    for chunk in it: chunks
        invariant
            it.seq() == chunks@,
            shares == parts_view(chunks@),
            shares == chunked(items, size),
            size > 0,
            accepts_all(f, items),
            parts.len() == it.index(),
            forall|k: int|
                0 <= k < parts.len() ==> maps_to(f, #[trigger] shares[k], parts_view(parts@)[k]),
    {
        let ghost k = it.index() as int;
        proof {
            assert(chunk@ == shares[k]);
            assert forall|i: int| 0 <= i < chunk.len() implies call_requires(
                f,
                (#[trigger] chunk[i],),
            ) by {
                lemma_chunk_items(items, size, k, i);
            }
        }
        let ghost before = parts@;
        let part: Vec<R> = map_chunk(chunk, &f);
        parts.push(part);
        proof {
            assert forall|j: int| 0 <= j < parts.len() implies maps_to(
                f,
                #[trigger] shares[j],
                parts_view(parts@)[j],
            ) by {
                if j < k {
                    assert(parts_view(parts@)[j] == parts_view(before)[j]);
                }
            }
        }
    }
    proof {
        lemma_parts_assemble(f, shares, parts_view(parts@));
    }
    join_parts(parts)
}

} // verus!
