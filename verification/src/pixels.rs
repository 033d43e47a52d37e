//! Raw sample handling between capture and labeling.
//!
//! A capture hands back a flat buffer of signed samples. Before a frame is
//! built from it, the software intensity window drops out-of-band values
//! to zero, and the buffer is reshaped into grid rows of the device's
//! pixel width.

use vstd::prelude::*;

verus! {

/// A sample after the software intensity window: values above the high
/// bound (when one is in force) and values below the low bound drop to
/// zero.
pub open spec fn windowed(v: i16, low: i16, high: i16, use_high: bool) -> i16 {
    let v1 = if use_high && v > high {
        0i16
    } else {
        v
    };
    if v1 < low {
        0i16
    } else {
        v1
    }
}

/// Applies the software intensity window to every sample of a captured
/// buffer.
pub fn apply_thresholds(buf: Vec<i16>, low: i16, high: i16, use_high: bool) -> (r: Vec<i16>)
    ensures
        r@.len() == buf@.len(),
        forall|k: int|
            0 <= k < buf@.len() ==> #[trigger] r@[k] == windowed(buf@[k], low, high, use_high),
{
    let ghost buf0 = buf@;
    let mut buf = buf;
    let n = buf.len();
    let mut k: usize = 0;
    while k < n
        invariant
            k <= n,
            n == buf@.len(),
            buf@.len() == buf0.len(),
            forall|q: int| 0 <= q < k ==> #[trigger] buf@[q] == windowed(buf0[q], low, high, use_high),
            forall|q: int| k <= q < n ==> #[trigger] buf@[q] == buf0[q],
        decreases n - k,
    {
        let v = buf[k];
        let v1 = if use_high && v > high {
            0i16
        } else {
            v
        };
        let v2 = if v1 < low {
            0i16
        } else {
            v1
        };
        buf[k] = v2;
        k = k + 1;
    }
    buf
}

/// The buffer cut into consecutive rows of `width` samples; the last row
/// keeps whatever remainder is left.
pub open spec fn chunks_of(buf: Seq<i16>, width: int) -> Seq<Seq<i16>>
    recommends
        width > 0,
    decreases buf.len(),
        when width > 0
{
    if buf.len() == 0 {
        Seq::empty()
    } else if buf.len() <= width {
        seq![buf]
    } else {
        seq![buf.take(width)] + chunks_of(buf.skip(width), width)
    }
}

/// Reshapes a flat captured buffer into grid rows of the device's pixel
/// width.
pub fn reshape(buf: &Vec<i16>, width: usize) -> (grid: Vec<Vec<i16>>)
    requires
        width > 0,
    ensures
        crate::frame::rows_view(grid@) == chunks_of(buf@, width as int),
{
    let n = buf.len();
    let mut grid: Vec<Vec<i16>> = Vec::new();
    let mut start: usize = 0;
    proof {
        assert(buf@.skip(0) =~= buf@);
        assert(crate::frame::rows_view(grid@) =~= Seq::<Seq<i16>>::empty());
    }
    while start < n
        invariant
            start <= n,
            n == buf@.len(),
            width > 0,
            chunks_of(buf@, width as int) =~= crate::frame::rows_view(grid@) + chunks_of(
                buf@.skip(start as int),
                width as int,
            ),
        decreases n - start,
    {
        let end = if n - start < width {
            n
        } else {
            start + width
        };
        let mut row: Vec<i16> = Vec::new();
        let mut t: usize = start;
        while t < end
            invariant
                start <= t <= end <= n,
                n == buf@.len(),
                row@ =~= buf@.subrange(start as int, t as int),
            decreases end - t,
        {
            row.push(buf[t]);
            t = t + 1;
        }
        let ghost grid0 = grid@;
        grid.push(row);
        proof {
            let rest = buf@.skip(start as int);
            assert(row@ =~= buf@.subrange(start as int, end as int));
            if n - start < width {
                assert(rest.len() <= width);
                assert(row@ =~= rest);
                assert(chunks_of(rest, width as int) =~= seq![rest]);
                assert(buf@.skip(end as int).len() == 0);
            } else {
                assert(row@ =~= rest.take(width as int));
                assert(buf@.skip(end as int) =~= rest.skip(width as int));
            }
            assert(crate::frame::rows_view(grid@) =~= crate::frame::rows_view(grid0).push(row@));
            assert(chunks_of(buf@, width as int) =~= crate::frame::rows_view(grid@) + chunks_of(
                buf@.skip(end as int),
                width as int,
            ));
        }
        start = end;
    }
    proof {
        assert(buf@.skip(n as int).len() == 0);
        assert(chunks_of(buf@, width as int) =~= crate::frame::rows_view(grid@));
    }
    grid
}

} // verus!
