//! Framing of the output image.
//!
//! The renderer writes a binary PPM file: the header `P6\n{width}
//! {height}\n255\n`, followed by three bytes per pixel.  The pixel bytes
//! are tone-mapped radiance — the renderer's arithmetic — but the header is
//! exact text, and it is built and proved here, down to the decimal digits
//! of the two dimensions.

use vstd::prelude::*;

verus! {

/// The decimal digits of `n`, most significant first, as ASCII bytes.
pub open spec fn dec_bytes(n: int) -> Seq<u8>
    decreases n,
{
    if n < 10 {
        seq![(48 + n) as u8]
    } else {
        dec_bytes(n / 10).push((48 + n % 10) as u8)
    }
}

/// The header of a binary PPM image: `P6\n`, the width, a space, the
/// height, then `\n255\n` (255 being the maximum channel value).
pub open spec fn spec_ppm_header(width: int, height: int) -> Seq<u8> {
    seq![80u8, 54u8, 10u8] + dec_bytes(width) + seq![32u8] + dec_bytes(height) + seq![
        10u8,
        50u8,
        53u8,
        53u8,
        10u8,
    ]
}

/// Append the decimal digits of `n` to `out`.
fn push_decimal(out: &mut Vec<u8>, n: u64)
    ensures
        final(out)@ == old(out)@ + dec_bytes(n as int),
{
    let mut rev: Vec<u8> = Vec::new();
    let mut m: u64 = n;
    while m >= 10
        invariant
            dec_bytes(n as int) == dec_bytes(m as int) + rev@.reverse(),
        decreases m,
    {
        let ghost pre = rev@;
        rev.push((m % 10) as u8 + 48);
        proof {
            assert(dec_bytes(m as int) == dec_bytes(m as int / 10).push((48 + m as int % 10) as u8));
            assert(rev@.reverse() =~= seq![(48 + m as int % 10) as u8] + pre.reverse());
            assert(dec_bytes(m as int) + pre.reverse() =~= dec_bytes(m as int / 10) + rev@.reverse());
        }
        m = m / 10;
    }
    let ghost pre = rev@;
    rev.push(m as u8 + 48);
    proof {
        assert(dec_bytes(m as int) =~= seq![(48 + m as int) as u8]);
        assert(rev@.reverse() =~= dec_bytes(m as int) + pre.reverse());
        assert(dec_bytes(n as int) == rev@.reverse());
    }
    let ghost start = out@;
    let mut i: usize = rev.len();
    while i > 0
        invariant
            i <= rev@.len(),
            out@ == start + rev@.subrange(i as int, rev@.len() as int).reverse(),
        decreases i,
    {
        let ghost before = out@;
        i = i - 1;
        out.push(rev[i]);
        proof {
            assert(rev@.subrange(i as int, rev@.len() as int).reverse() =~= rev@.subrange(
                i + 1,
                rev@.len() as int,
            ).reverse().push(rev@[i as int]));
            assert(out@ =~= start + rev@.subrange(i as int, rev@.len() as int).reverse());
        }
    }
    proof {
        assert(rev@.subrange(0, rev@.len() as int) =~= rev@);
    }
}

/// Build the exact header of a binary PPM image of the given dimensions.
pub fn ppm_header(width: u16, height: u16) -> (r: Vec<u8>)
    ensures
        r@ == spec_ppm_header(width as int, height as int),
{
    let mut out: Vec<u8> = Vec::new();
    out.push(80);
    out.push(54);
    out.push(10);
    push_decimal(&mut out, width as u64);
    out.push(32);
    push_decimal(&mut out, height as u64);
    out.push(10);
    out.push(50);
    out.push(53);
    out.push(53);
    out.push(10);
    proof {
        assert(out@ =~= spec_ppm_header(width as int, height as int));
    }
    out
}

} // verus!
