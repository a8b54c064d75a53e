//! Constructors of sequences: arithmetic progressions, repetitions and
//! concatenations.

use crate::property::{at_most, comparison_known};
use core::ops::{Add, Range, Sub};
use vstd::prelude::*;
use vstd::std_specs::ops::{AddSpec, SubSpec};

verus! {

/// An arithmetic progression: it starts at `start`, grows by `step` and stops
/// before it passes `end`.
#[derive(Debug, Clone, Copy)]
pub struct SeqParams<T> {
    pub start: T,
    pub end: T,
    pub step: T,
}

impl<T: Copy + Sub<Output = T>> SeqParams<T> {
    /// The progression over a half-open range in steps of `one`: it stops at
    /// the value that is `one` below the end of the range.
    pub fn from_range(value: Range<T>, one: T) -> (params: Self)
        requires
            value.end.sub_req(one),
        ensures
            params.start == value.start,
            params.step == one,
            T::obeys_sub_spec() ==> params.end == value.end.sub_spec(one),
    {
        SeqParams { start: value.start, end: value.end - one, step: one }
    }
}

/// The term of the progression at position `k`.
pub open spec fn term<T: Add<Output = T>>(start: T, step: T, k: nat) -> T
    decreases k,
{
    if k == 0 {
        start
    } else {
        term(start, step, (k - 1) as nat).add_spec(step)
    }
}

/// The progression has `count` terms: each of the first `count` terms is at
/// most `end` and can be stepped from, and the term behind them is not at most
/// `end`.
pub open spec fn stops_after<T: PartialOrd + Add<Output = T>>(
    params: SeqParams<T>,
    count: nat,
) -> bool {
    &&& forall|k: nat|
        k < count ==> at_most(#[trigger] term(params.start, params.step, k), params.end) && term(
            params.start,
            params.step,
            k,
        ).add_req(params.step)
    &&& !at_most(term(params.start, params.step, count), params.end)
}

/// The terms of the progression, from `start` up to the last one that is at
/// most `end`.
pub fn seq<T: Copy + PartialOrd + Add<Output = T>>(params: SeqParams<T>) -> (out: Vec<T>)
    requires
        comparison_known::<T>(),
        T::obeys_add_spec(),
        exists|count: nat| stops_after(params, count),
    ensures
        stops_after(params, out@.len()),
        forall|k: int|
            0 <= k < out@.len() ==> #[trigger] out@[k] == term(params.start, params.step, k as nat),
{
    let ghost count = choose|count: nat| stops_after(params, count);
    let mut out: Vec<T> = Vec::new();
    let mut curr = params.start;
    while curr <= params.end
        invariant
            comparison_known::<T>(),
            T::obeys_add_spec(),
            stops_after(params, count),
            out@.len() <= count,
            curr == term(params.start, params.step, out@.len()),
            forall|k: int|
                0 <= k < out@.len() ==> #[trigger] out@[k] == term(
                    params.start,
                    params.step,
                    k as nat,
                ),
        decreases count - out@.len(),
    {
        out.push(curr);
        curr = curr + params.step;
    }
    out
}

/// A value and how often to repeat it.
#[derive(Debug, Clone, Copy)]
pub struct RepParams<T> {
    pub value: T,
    pub times: usize,
}

/// `count` copies of `value`.
pub open spec fn repeated<T>(value: T, count: nat) -> Seq<T> {
    Seq::new(count, |i: int| value)
}

/// `times` copies of `value`.
pub fn rep<T: Copy>(params: RepParams<T>) -> (out: Vec<T>)
    ensures
        out@ == repeated(params.value, params.times as nat),
{
    let mut out: Vec<T> = Vec::with_capacity(params.times);
    while out.len() < params.times
        invariant
            out@.len() <= params.times,
            forall|i: int| 0 <= i < out@.len() ==> out@[i] == params.value,
        decreases params.times - out@.len(),
    {
        out.push(params.value);
    }
    assert(out@ =~= repeated(params.value, params.times as nat));
    out
}

/// The given sequences one after the other.
pub open spec fn concatenated<T>(parts: Seq<&[T]>) -> Seq<T>
    decreases parts.len(),
{
    if parts.len() == 0 {
        Seq::empty()
    } else {
        concatenated(parts.drop_last()) + parts.last()@
    }
}

/// Concatenates the given vectors.
pub fn c<T: Copy>(vectors: &[&[T]]) -> (out: Vec<T>)
    ensures
        out@ == concatenated(vectors@),
{
    let mut out: Vec<T> = Vec::new();
    let mut j: usize = 0;
    assert(vectors@.take(0) =~= Seq::<&[T]>::empty());
    while j < vectors.len()
        invariant
            j <= vectors@.len(),
            out@ == concatenated(vectors@.take(j as int)),
        decreases vectors@.len() - j,
    {
        let part = vectors[j];
        let ghost so_far = out@;
        proof {
            assert(vectors@.take(j + 1).drop_last() =~= vectors@.take(j as int));
        }
        let mut k: usize = 0;
        while k < part.len()
            invariant
                k <= part@.len(),
                out@ == so_far + part@.take(k as int),
            decreases part@.len() - k,
        {
            out.push(part[k]);
            k += 1;
            assert(out@ =~= so_far + part@.take(k as int));
        }
        assert(part@.take(k as int) =~= part@);
        j += 1;
    }
    assert(vectors@.take(j as int) =~= vectors@);
    out
}

} // verus!
