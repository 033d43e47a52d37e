//! Text rendering for the raw-matrix persistence sink.
//!
//! In raw-matrix mode the sink writes one line per grid row, the samples
//! as space-separated decimal numbers, and a ten-dash separator line
//! between frames. The rendering to ASCII bytes is done here; the sink
//! only writes the bytes out.

use vstd::prelude::*;

verus! {

/// The decimal digits of `n`, most significant first, as ASCII bytes;
/// empty for zero and negatives.
pub open spec fn dec_digits(n: int) -> Seq<u8>
    decreases n,
{
    if n <= 0 {
        Seq::empty()
    } else {
        dec_digits(n / 10).push((48 + n % 10) as u8)
    }
}

/// The ASCII text of a signed sample: a minus sign for negatives, then
/// the decimal digits of the magnitude.
pub open spec fn spec_i16_text(v: int) -> Seq<u8> {
    if v == 0 {
        seq![48u8]
    } else if v > 0 {
        dec_digits(v)
    } else {
        seq![45u8] + dec_digits(-v)
    }
}

/// Renders one sample as decimal ASCII text.
pub fn i16_text(v: i16) -> (r: Vec<u8>)
    ensures
        r@ == spec_i16_text(v as int),
{
    let mut x: i32 = v as i32;
    let neg = x < 0;
    if neg {
        x = -x;
    }
    let ghost x0 = x as int;
    let mut out: Vec<u8> = Vec::new();
    if x == 0 {
        out.push(48);
    } else {
        while x > 0
            invariant
                0 <= x <= x0,
                x0 <= 0x8000,
                dec_digits(x0) == dec_digits(x as int) + out@,
            decreases x,
        {
            let ghost xold = x as int;
            let ghost out0 = out@;
            let d = (x % 10) as u8 + 48;
            out.insert(0, d);
            x = x / 10;
            proof {
                assert(out@ =~= seq![d] + out0);
                assert(dec_digits(xold) == dec_digits(xold / 10).push(d));
                assert(dec_digits(xold / 10).push(d) + out0 =~= dec_digits(xold / 10) + (seq![d]
                    + out0));
            }
        }
        proof {
            assert(dec_digits(0) =~= Seq::<u8>::empty());
            assert(dec_digits(x0) =~= out@);
        }
    }
    if neg {
        let ghost out1 = out@;
        out.insert(0, 45);
        proof {
            assert(out@ =~= seq![45u8] + out1);
        }
    }
    out
}

/// One line of the raw-matrix sink: the row's samples as decimal text
/// separated by single spaces.
pub open spec fn spec_row_text(row: Seq<i16>) -> Seq<u8>
    decreases row.len(),
{
    if row.len() == 0 {
        Seq::empty()
    } else if row.len() == 1 {
        spec_i16_text(row[0] as int)
    } else {
        spec_row_text(row.drop_last()) + seq![32u8] + spec_i16_text(row.last() as int)
    }
}

/// Renders one grid row for the raw-matrix sink.
pub fn render_row(row: &Vec<i16>) -> (r: Vec<u8>)
    ensures
        r@ == spec_row_text(row@),
{
    let n = row.len();
    let mut out: Vec<u8> = Vec::new();
    let mut k: usize = 0;
    proof {
        assert(row@.take(0) =~= Seq::<i16>::empty());
    }
    while k < n
        invariant
            k <= n,
            n == row@.len(),
            out@ == spec_row_text(row@.take(k as int)),
        decreases n - k,
    {
        let ghost outp = out@;
        let mut t = i16_text(row[k]);
        if k > 0 {
            out.push(32);
        }
        out.append(&mut t);
        proof {
            assert(row@.take(k + 1).drop_last() =~= row@.take(k as int));
            assert(row@.take(k + 1).last() == row@[k as int]);
            if k == 0 {
                assert(row@.take(1)[0] == row@[0]);
                assert(out@ =~= spec_i16_text(row@[0] as int));
            } else {
                assert(out@ =~= outp + seq![32u8] + spec_i16_text(row@[k as int] as int));
            }
        }
        k = k + 1;
    }
    proof {
        assert(row@.take(n as int) =~= row@);
    }
    out
}

/// The ten-dash separator line written between frames of the raw-matrix
/// sink.
pub fn separator_line() -> (r: Vec<u8>)
    ensures
        r@.len() == 10,
        forall|k: int| 0 <= k < 10 ==> r@[k] == 45u8,
{
    let mut out: Vec<u8> = Vec::new();
    let mut k: usize = 0;
    while k < 10
        invariant
            k <= 10,
            out@.len() == k,
            forall|q: int| 0 <= q < k ==> out@[q] == 45u8,
        decreases 10 - k,
    {
        out.push(45);
        k = k + 1;
    }
    out
}

} // verus!
