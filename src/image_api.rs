use vstd::prelude::*;

verus! {

/// A source of square cover images, fetched by width in pixels.
pub trait ImageApi {
    /// The encoded bytes of a square image `width` pixels wide, or a description of the
    /// failure.
    fn get_square_image(&self, width: usize) -> Result<Vec<u8>, String>;
}

/// `w` is at most the square root of `8 * length / 3`.
pub open spec fn fits_root(length: nat, w: nat) -> bool {
    3 * (w * w) <= 8 * length
}

proof fn lemma_root_monotone(length: nat, a: nat, b: nat)
    requires
        a <= b,
        !fits_root(length, a),
    ensures
        !fits_root(length, b),
{
    assert(a * a <= b * b) by (nonlinear_arith)
        requires
            a <= b,
    ;
}

fn root_fits(l: u128, w: u128) -> (r: bool)
    requires
        w <= 2502,
        l <= 0xffff_ffff_ffff_ffff,
    ensures
        r == fits_root(l as nat, w as nat),
{
    assert(w * w <= 2502 * 2502) by (nonlinear_arith)
        requires
            w <= 2502,
    ;
    3 * (w * w) <= 8 * l
}

/// Width of the square cover image to request for a payload of `length` bytes: twice the
/// integer square root of `8 * length / 3`, raised to 200 when not above it and cut to
/// 5000.
pub fn get_square_image_width_from_bytes(length: usize) -> (r: usize)
    ensures
        200 <= r <= 5000,
        !fits_root(length as nat, 101) ==> r == 200,
        fits_root(length as nat, 2501) ==> r == 5000,
        fits_root(length as nat, 101) && !fits_root(length as nat, 2501) ==> {
            &&& r % 2 == 0
            &&& fits_root(length as nat, (r / 2) as nat)
            &&& !fits_root(length as nat, (r / 2 + 1) as nat)
        },
{
    let l: u128 = length as u128;
    let mut w: u128 = 0;
    let mut grow = root_fits(l, 1);
    while w < 2501 && grow
        invariant
            l == length,
            w <= 2501,
            l <= 0xffff_ffff_ffff_ffff,
            fits_root(length as nat, w as nat),
            grow == fits_root(length as nat, (w + 1) as nat),
        decreases 2501 - w,
    {
        w = w + 1;
        grow = root_fits(l, w + 1);
    }
    if w == 2501 {
        proof {
            if !fits_root(length as nat, 101) {
                lemma_root_monotone(length as nat, 101, 2501);
            }
        }
        5000
    } else {
        assert(!fits_root(length as nat, (w + 1) as nat));
        if w <= 100 {
            proof {
                lemma_root_monotone(length as nat, (w + 1) as nat, 101);
            }
            200
        } else {
            proof {
                if !fits_root(length as nat, 101) {
                    lemma_root_monotone(length as nat, 101, w as nat);
                }
                if fits_root(length as nat, 2501) {
                    lemma_root_monotone(length as nat, (w + 1) as nat, 2501);
                }
            }
            (2 * w) as usize
        }
    }
}

} // verus!
