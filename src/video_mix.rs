//! The per-byte crossfade a video mixer applies to two pictures, one plane
//! row at a time (one byte per pixel per plane).
use vstd::prelude::*;

verus! {

/// Byte `a` weighted by `fade` and byte `b` by `255 - fade`, out of 255.
pub open spec fn spec_crossfade(a: u8, b: u8, fade: u8) -> int {
    (a as int * fade as int + b as int * (255 - fade as int)) / 255
}

proof fn lemma_crossfade_bounds(a: u8, b: u8, fade: u8)
    ensures
        0 <= a as int * fade as int + b as int * (255 - fade as int) <= 255 * 255,
        0 <= spec_crossfade(a, b, fade) <= 255,
{
    let (x, y, f) = (a as int, b as int, fade as int);
    assert(0 <= x * f <= 255 * f) by (nonlinear_arith)
        requires
            0 <= x <= 255,
            0 <= f <= 255,
    ;
    assert(0 <= y * (255 - f) <= 255 * (255 - f)) by (nonlinear_arith)
        requires
            0 <= y <= 255,
            0 <= f <= 255,
    ;
}

/// Writes the crossfade of the first `len` bytes of `a` and `b` into the
/// first `len` bytes of `out`, leaving the rest of `out` as it was.
pub fn crossfade_line(out: &mut Vec<u8>, a: &Vec<u8>, b: &Vec<u8>, len: usize, fade: u8)
    requires
        len <= old(out)@.len(),
        len <= a@.len(),
        len <= b@.len(),
    ensures
        final(out)@.len() == old(out)@.len(),
        forall|x: int| 0 <= x < len ==> #[trigger] final(out)@[x] as int == spec_crossfade(a@[x], b@[x], fade),
        forall|x: int| len <= x < old(out)@.len() ==> #[trigger] final(out)@[x] == old(out)@[x],
{
    let f = fade as u16;
    let mut x: usize = 0;
    while x < len
        invariant
            len <= out@.len(),
            len <= a@.len(),
            len <= b@.len(),
            out@.len() == old(out)@.len(),
            f == fade as u16,
            x <= len,
            forall|y: int| 0 <= y < x ==> #[trigger] out@[y] as int == spec_crossfade(a@[y], b@[y], fade),
            forall|y: int| x <= y < old(out)@.len() ==> #[trigger] out@[y] == old(out)@[y],
        decreases len - x,
    {
        proof {
            lemma_crossfade_bounds(a@[x as int], b@[x as int], fade);
            let (p, q, r) = (a@[x as int] as int, b@[x as int] as int, f as int);
            assert(0 <= p * r <= 255 * 255) by (nonlinear_arith)
                requires
                    0 <= p <= 255,
                    0 <= r <= 255,
            ;
            assert(0 <= q * (255 - r) <= 255 * 255) by (nonlinear_arith)
                requires
                    0 <= q <= 255,
                    0 <= r <= 255,
            ;
        }
        let a_part = a[x] as u16 * f;
        let b_part = b[x] as u16 * (255 - f);
        let mixed = (a_part + b_part) / 255;
        out.set(x, mixed as u8);
        x = x + 1;
    }
}

} // verus!
