//! Row-major RGBA8 raster model shared by every frame producer: a frame of
//! `width * height` pixels is the concatenation, in row-major order, of the
//! four bytes of each pixel.

use vstd::prelude::*;

verus! {

/// The bytes of the first `n` pixels of a row-major raster of the given
/// `width`, where `pixel(x, y)` gives the four RGBA bytes of pixel `(x, y)`.
pub open spec fn raster_prefix(width: nat, n: nat, pixel: spec_fn(nat, nat) -> Seq<u8>) -> Seq<u8>
    decreases n,
{
    if n == 0 || width == 0 {
        Seq::empty()
    } else {
        raster_prefix(width, (n - 1) as nat, pixel) + pixel(
            ((n - 1) as nat % width) as nat,
            ((n - 1) as nat / width) as nat,
        )
    }
}

/// The full `width * height` raster.
pub open spec fn raster(width: nat, height: nat, pixel: spec_fn(nat, nat) -> Seq<u8>) -> Seq<u8> {
    raster_prefix(width, width * height, pixel)
}

/// Pixel index `y * width + x` (with `x < width`) recovers `x` as its remainder
/// and `y` as its quotient.
pub proof fn lemma_row_major_index(width: nat, x: nat, y: nat)
    requires
        x < width,
    ensures
        (y * width + x) % width == x,
        (y * width + x) / width == y,
{
    vstd::arithmetic::div_mod::lemma_fundamental_div_mod_converse(
        (y * width + x) as int,
        width as int,
        y as int,
        x as int,
    );
}

/// Appending pixel `(x, y)` to the raster prefix that ends just before it
/// extends the prefix by one pixel.
pub proof fn lemma_raster_step(
    width: nat,
    x: nat,
    y: nat,
    pixel: spec_fn(nat, nat) -> Seq<u8>,
)
    requires
        x < width,
    ensures
        raster_prefix(width, y * width + x + 1, pixel) == raster_prefix(width, y * width + x, pixel)
            + pixel(x, y),
{
    lemma_row_major_index(width, x, y);
    assert((y * width + x + 1 - 1) as nat == y * width + x);
}

/// A row ends where the next one begins.
pub proof fn lemma_row_end(width: nat, y: nat)
    ensures
        y * width + width == (y + 1) * width,
{
    vstd::arithmetic::mul::lemma_mul_is_distributive_add_other_way(width as int, y as int, 1);
}

/// Every pixel contributes four bytes, so a prefix of `n` pixels has `4 * n` bytes
/// when each pixel has four bytes.
pub proof fn lemma_raster_len(width: nat, n: nat, pixel: spec_fn(nat, nat) -> Seq<u8>)
    requires
        width > 0,
        forall|x: nat, y: nat| #[trigger] pixel(x, y).len() == 4,
    ensures
        raster_prefix(width, n, pixel).len() == 4 * n,
    decreases n,
{
    if n > 0 {
        lemma_raster_len(width, (n - 1) as nat, pixel);
    }
}

/// With four-byte pixels, bytes `4k .. 4k + 4` of a raster prefix of `n > k`
/// pixels are pixel `k`, at column `k % width` of row `k / width`.
pub proof fn lemma_raster_pixel(width: nat, n: nat, pixel: spec_fn(nat, nat) -> Seq<u8>, k: nat)
    requires
        width > 0,
        k < n,
        forall|x: nat, y: nat| #[trigger] pixel(x, y).len() == 4,
    ensures
        raster_prefix(width, n, pixel).subrange(4 * k as int, 4 * k as int + 4) == pixel(k % width, k / width),
    decreases n,
{
    let prev = raster_prefix(width, (n - 1) as nat, pixel);
    let last = pixel(((n - 1) as nat % width) as nat, ((n - 1) as nat / width) as nat);
    lemma_raster_len(width, (n - 1) as nat, pixel);
    assert(raster_prefix(width, n, pixel) == prev + last);
    if k == n - 1 {
        assert((prev + last).subrange(4 * k as int, 4 * k as int + 4) =~= last);
    } else {
        lemma_raster_pixel(width, (n - 1) as nat, pixel, k);
        assert((prev + last).subrange(4 * k as int, 4 * k as int + 4) =~= prev.subrange(4 * k as int, 4 * k as int + 4));
    }
}

} // verus!
