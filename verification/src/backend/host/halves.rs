//! Numbers stored in another precision than they are computed in.

use vstd::prelude::*;

use crate::backend::host::ops;
use crate::backend::host::slabs::{self, fits_in, ReadError, Rows};

verus! {

/// Numbers converted one by one.
pub open spec fn converted<A, B, F: Fn(A) -> B>(convert: F, list: Seq<A>) -> Seq<B> {
    Seq::new(list.len(), |i: int| ops::of1(convert, list[i]))
}

/// Reads the head of a buffer, each number widened.
pub fn read_widened<A: Copy, B, F: Fn(A) -> B>(widen: &F, src: &[A], out: &mut Vec<B>) -> (result:
    Result<(), ReadError>)
    requires
        ops::is_op1(*widen),
    ensures
        match result {
            Err(e) => src@.len() < old(out)@.len() && e.asked == old(out)@.len() && e.held
                == src@.len() && final(out)@ == old(out)@,
            Ok(()) => src@.len() >= old(out)@.len() && final(out)@ == converted(
                *widen,
                src@.take(old(out)@.len() as int),
            ),
        },
{
    let (held, asked): (usize, usize) = (src.len(), out.len());
    if held < asked {
        return Err(ReadError { asked, held });
    }
    let mut i: usize = 0;
    while i < asked
        invariant
            i <= asked <= held,
            held == src@.len(),
            out@.len() == asked,
            ops::is_op1(*widen),
            forall|j: int| 0 <= j < i ==> #[trigger] out@[j] == ops::of1(*widen, src@[j]),
        decreases asked - i,
    {
        out.set(i, widen(src[i]));
        i = i + 1;
    }
    assert(out@ =~= converted(*widen, src@.take(asked as int)));
    Ok(())
}

/// A block copied between rows of two buffers, each number narrowed.
pub fn store_rows<A: Copy, B: Copy, F: Fn(A) -> B>(
    narrow: &F,
    from: &[A],
    src: Rows,
    into: &mut Vec<B>,
    dst: Rows,
    rows: usize,
    width: usize,
) -> (fits: bool)
    requires
        rows > 0,
        ops::is_op1(*narrow),
    ensures
        fits == (slabs::block_fits(from@.len(), src, rows as nat, width as nat)
            && slabs::block_fits(old(into)@.len(), dst, rows as nat, width as nat)),
        final(into)@ == (if fits {
            slabs::rows_laid(
                converted(*narrow, from@),
                src,
                old(into)@,
                dst,
                rows as nat,
                width as nat,
            )
        } else {
            old(into)@
        }),
{
    if !fits_in(from.len(), src, rows, width) || !fits_in(into.len(), dst, rows, width) {
        return false;
    }
    let ghost before = into@;
    let ghost narrowed = converted(*narrow, from@);
    let (given, held): (usize, usize) = (from.len(), into.len());
    let mut r: usize = 0;
    while r < rows
        invariant
            r <= rows,
            given == from@.len(),
            held == before.len(),
            ops::is_op1(*narrow),
            narrowed == converted(*narrow, from@),
            slabs::block_fits(from@.len(), src, rows as nat, width as nat),
            slabs::block_fits(before.len(), dst, rows as nat, width as nat),
            into@.len() == before.len(),
            into@ == slabs::rows_laid(narrowed, src, before, dst, r as nat, width as nat),
        decreases rows - r,
    {
        proof {
            slabs::lemma_row_within(src, r as int, rows as int);
            slabs::lemma_row_within(dst, r as int, rows as int);
        }
        let a: usize = src.offset + r * src.pitch;
        let b: usize = dst.offset + r * dst.pitch;
        let ghost now = into@;
        let mut c: usize = 0;
        while c < width
            invariant
                c <= width,
                a + width <= given,
                b + width <= held,
                given == from@.len(),
                held == now.len(),
                ops::is_op1(*narrow),
                narrowed == converted(*narrow, from@),
                into@.len() == now.len(),
                forall|j: int|
                    0 <= j < c ==> #[trigger] into@[b + j] == ops::of1(*narrow, from@[a + j]),
                forall|j: int|
                    0 <= j < now.len() && !(b <= j < b + c) ==> #[trigger] into@[j] == now[j],
            decreases width - c,
        {
            into.set(b + c, narrow(from[a + c]));
            c = c + 1;
        }
        proof {
            let row = narrowed.subrange(a as int, a + width);
            assert forall|i: int| 0 <= i < now.len() implies into@[i] == slabs::laid(
                now,
                b as int,
                row,
            )[i] by {
                if b <= i < b + width {
                    assert(into@[b + (i - b)] == ops::of1(*narrow, from@[a + (i - b)]));
                }
            }
            assert(into@ =~= slabs::laid(now, b as int, row));
        }
        r = r + 1;
    }
    true
}

} // verus!
