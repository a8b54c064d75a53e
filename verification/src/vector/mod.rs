//! One-dimensional sequences: constructors, recycling element-wise
//! operations, reductions and ordering.

pub mod constructor;
pub mod ops;

pub use constructor::{c, rep, RepParams, SeqParams};

pub use ops::{
    add, all, all_eq, all_eq_no_scale, and, any, auto_scale, binomial, can_recycle, circle_zip,
    cumsum, div, eq, extend_to_len, factorial, gt, lt, max, mean, min, modulo, mul, neg, neq, not,
    or, pmax, pmin, prod, recyclable, recycle, recycled_len, sort, sub, subset, sum, var, which,
    wrapping_incr, xor, AllEqParams,
};

use constructor::repeated;
use core::ops::Range;
use vstd::prelude::*;

verus! {

/// `dst` with the positions from `start` up to `end` overwritten by `src`,
/// which is walked cyclically from its first element.
pub open spec fn overwritten<T>(dst: Seq<T>, start: int, end: int, src: Seq<T>) -> Seq<T> {
    Seq::new(
        dst.len(),
        |i: int|
            if start <= i < end {
                recycle(src, i - start)
            } else {
                dst[i]
            },
    )
}

/// Writes `src` over the positions `index` of `dst`.
///
/// The length of the range is a multiple of the length of `src`. Where the
/// range starts inside `dst`, `src` is written cyclically over the part of the
/// range that lies inside `dst`, whose length stays as it is. Where the range
/// starts at or behind the end of `dst`, `dst` grows up to the start of the
/// range by copies of one value that `fill` gives, and `src`, which has the
/// length of the range, is appended.
pub fn set<T: Copy, F: Fn() -> T>(dst: &mut Vec<T>, index: Range<usize>, src: &[T], fill: F)
    requires
        index.start <= index.end,
        src@.len() == 0 ==> index.start == index.end,
        src@.len() > 0 ==> ((index.end - index.start) as nat) % src@.len() == 0,
        index.start >= old(dst)@.len() ==> src@.len() == index.end - index.start && call_requires(
            fill,
            (),
        ),
    ensures
        index.start < old(dst)@.len() ==> final(dst)@ == overwritten(
            old(dst)@,
            index.start as int,
            index.end as int,
            src@,
        ),
        index.start >= old(dst)@.len() ==> exists|value: T|
            {
                &&& call_ensures(fill, (), value)
                &&& final(dst)@ == old(dst)@ + repeated(
                    value,
                    (index.start - old(dst)@.len()) as nat,
                ) + src@
            },
{
    let start = index.start;
    let end = index.end;
    let ghost before = dst@;
    if start < dst.len() {
        let new_end = if dst.len() < end {
            dst.len()
        } else {
            end
        };
        if src.len() == 0 {
            assert(dst@ =~= overwritten(before, start as int, end as int, src@));
            return ;
        }
        let mut pos: usize = start;
        let mut src_i: usize = 0;
        proof {
            vstd::arithmetic::div_mod::lemma_small_mod(0, src@.len());
        }
        while pos < new_end
            invariant
                src@.len() > 0,
                start <= pos <= new_end,
                new_end <= dst@.len(),
                dst@.len() == before.len(),
                src_i == (pos - start) % (src@.len() as int),
                forall|i: int|
                    0 <= i < dst@.len() ==> #[trigger] dst@[i] == (if start <= i < pos {
                        recycle(src@, i - start)
                    } else {
                        before[i]
                    }),
            decreases new_end - pos,
        {
            proof {
                ops::lemma_mod_step(pos - start, src@.len() as int);
            }
            dst.set(pos, src[src_i]);
            src_i = wrapping_incr(src_i, src.len());
            pos += 1;
        }
        assert(dst@ =~= overwritten(before, start as int, end as int, src@));
        return ;
    }
    let value = fill();
    while dst.len() < start
        invariant
            before.len() <= dst@.len() <= start,
            dst@ == before + repeated(value, (dst@.len() - before.len()) as nat),
        decreases start - dst@.len(),
    {
        dst.push(value);
        assert(dst@ =~= before + repeated(value, (dst@.len() - before.len()) as nat));
    }
    let ghost filled = dst@;
    let mut src_i: usize = 0;
    while src_i < src.len()
        invariant
            src_i <= src@.len(),
            dst@ == filled + src@.take(src_i as int),
        decreases src@.len() - src_i,
    {
        dst.push(src[src_i]);
        src_i += 1;
        assert(dst@ =~= filled + src@.take(src_i as int));
    }
    assert(src@.take(src_i as int) =~= src@);
}

} // verus!
