//! Geometry of the tiles of a tile-compressed image (10.1.1).
use vstd::arithmetic::div_mod::lemma_fundamental_div_mod;
use vstd::arithmetic::mul::{lemma_mul_is_associative, lemma_mul_inequality};
use vstd::prelude::*;

verus! {

/// `ceil(a / b)`.
pub open spec fn ceil_div(a: nat, b: nat) -> nat {
    if b == 0 {
        0
    } else {
        a / b + if a % b == 0 {
            0nat
        } else {
            1nat
        }
    }
}

/// Number of tiles along axis `d`.
pub open spec fn ntiles(img: Seq<u64>, tile: Seq<u64>, d: int) -> nat {
    ceil_div(img[d] as nat, tile[d] as nat)
}

/// Product of `s[0..k]`.
pub open spec fn prefix_product(s: Seq<u64>, k: nat) -> nat
    decreases k,
{
    if k == 0 {
        1
    } else {
        prefix_product(s, (k - 1) as nat) * s[k - 1] as nat
    }
}

/// Product of the number of tiles along the axes `0..k`.
pub open spec fn tiles_product(img: Seq<u64>, tile: Seq<u64>, k: nat) -> nat
    decreases k,
{
    if k == 0 {
        1
    } else {
        tiles_product(img, tile, (k - 1) as nat) * ntiles(img, tile, k - 1)
    }
}

/// What is left of flat tile index `t` after unravelling the axes `0..d`
/// (axis 0 varies fastest).
pub open spec fn tile_rest(img: Seq<u64>, tile: Seq<u64>, t: nat, d: nat) -> nat
    decreases d,
{
    if d == 0 {
        t
    } else {
        let r = tile_rest(img, tile, t, (d - 1) as nat);
        let n = ntiles(img, tile, d - 1);
        if n == 0 {
            0
        } else {
            r / n
        }
    }
}

/// Coordinate along axis `d` (in tiles) of the tile with flat index `t`.
pub open spec fn tile_coord(img: Seq<u64>, tile: Seq<u64>, t: nat, d: nat) -> nat {
    let n = ntiles(img, tile, d as int);
    if n == 0 {
        0
    } else {
        tile_rest(img, tile, t, d) % n
    }
}

/// First pixel coordinate along axis `d` of tile `t`.
pub open spec fn tile_start(img: Seq<u64>, tile: Seq<u64>, t: nat, d: nat) -> nat {
    tile_coord(img, tile, t, d) * tile[d as int] as nat
}

/// Extent along axis `d` of tile `t`: the tile size, clamped at the image edge.
pub open spec fn tile_extent(img: Seq<u64>, tile: Seq<u64>, t: nat, d: nat) -> nat {
    let start = tile_start(img, tile, t, d);
    let room = img[d as int] as int - start;
    if (tile[d as int] as int) < room {
        tile[d as int] as nat
    } else if room < 0 {
        0
    } else {
        room as nat
    }
}

/// Product of the extents of tile `t` along the axes `d..`.
pub open spec fn extents_from(img: Seq<u64>, tile: Seq<u64>, t: nat, d: nat) -> nat
    decreases img.len() - d,
{
    if d >= img.len() {
        1
    } else {
        tile_extent(img, tile, t, d) * extents_from(img, tile, t, d + 1)
    }
}

/// Number of pixels of tile `t`.
pub open spec fn tile_pixels(img: Seq<u64>, tile: Seq<u64>, t: nat) -> nat {
    extents_from(img, tile, t, 0)
}

/// Offset in the image (axis 0 varies fastest) of the pixel of tile `t`
/// whose local index, after unravelling the axes `0..d`, is `rest`,
/// counting only the axes `d..`.
pub open spec fn offset_from(img: Seq<u64>, tile: Seq<u64>, t: nat, d: nat, rest: nat) -> nat
    decreases img.len() - d,
{
    if d >= img.len() {
        0
    } else {
        let a = tile_extent(img, tile, t, d);
        let x = if a == 0 {
            0
        } else {
            rest % a
        };
        let next = if a == 0 {
            0
        } else {
            rest / a
        };
        (tile_start(img, tile, t, d) + x) * prefix_product(img, d) + offset_from(
            img,
            tile,
            t,
            d + 1,
            next,
        )
    }
}

/// Index in the image of pixel `k` of tile `t`, the pixels of a tile being
/// numbered with axis 0 varying fastest.
pub open spec fn pixel_offset(img: Seq<u64>, tile: Seq<u64>, t: nat, k: nat) -> nat {
    offset_from(img, tile, t, 0, k)
}

/// `out` after the first `k` pixels of tile `t` have been written to their
/// places, in order.
pub open spec fn placed(img: Seq<u64>, tile: Seq<u64>, t: nat, pixels: Seq<i32>, out: Seq<i32>, k: nat) -> Seq<i32>
    decreases k,
{
    if k == 0 {
        out
    } else {
        placed(img, tile, t, pixels, out, (k - 1) as nat).update(
            pixel_offset(img, tile, t, (k - 1) as nat) as int,
            pixels[k - 1],
        )
    }
}


proof fn lemma_coord_in_image(a: nat, b: nat, c: nat)
    requires
        b > 0,
        c < ceil_div(a, b),
    ensures
        c * b < a,
        c * b + 1 <= a,
{
    lemma_fundamental_div_mod(a as int, b as int);
    assert(c * b < a) by (nonlinear_arith)
        requires
            b > 0,
            c < a / b + if a % b == 0 { 0nat } else { 1nat },
            a == b * (a / b) + a % b,
            0 <= a % b < b,
    {
        if a % b == 0 {
            assert(c <= a / b - 1);
            assert(c * b <= (a / b - 1) * b);
        } else {
            assert(c <= a / b);
            assert(c * b <= (a / b) * b);
        }
    }
}

pub proof fn lemma_extent_positive(img: Seq<u64>, tile: Seq<u64>, t: nat, d: nat)
    requires
        d < img.len(),
        d < tile.len(),
        tile[d as int] > 0,
        img[d as int] > 0,
    ensures
        ntiles(img, tile, d as int) > 0,
        1 <= tile_extent(img, tile, t, d) <= tile[d as int],
        tile_start(img, tile, t, d) + tile_extent(img, tile, t, d) <= img[d as int],
{
    let n = ntiles(img, tile, d as int);
    assert(n > 0) by (nonlinear_arith)
        requires
            n == (img[d as int] as nat) / (tile[d as int] as nat) + if (img[d as int] as nat) % (tile[d as int] as nat) == 0 { 0nat } else { 1nat },
            img[d as int] > 0,
            tile[d as int] > 0,
    {
        if (img[d as int] as nat) / (tile[d as int] as nat) == 0 {
            assert((img[d as int] as nat) % (tile[d as int] as nat) == img[d as int] as nat);
        }
    }
    lemma_coord_in_image(img[d as int] as nat, tile[d as int] as nat, tile_coord(img, tile, t, d));
}


proof fn lemma_extents_positive(img: Seq<u64>, tile: Seq<u64>, t: nat, d: nat)
    requires
        img.len() == tile.len(),
        forall|e: int| 0 <= e < tile.len() ==> tile[e] > 0,
        forall|e: int| 0 <= e < img.len() ==> img[e] > 0,
    ensures
        extents_from(img, tile, t, d) >= 1,
    decreases img.len() - d,
{
    if d < img.len() {
        lemma_extents_positive(img, tile, t, d + 1);
        lemma_extent_positive(img, tile, t, d);
        assert(tile_extent(img, tile, t, d) * extents_from(img, tile, t, d + 1) >= 1) by (nonlinear_arith)
            requires
                tile_extent(img, tile, t, d) >= 1,
                extents_from(img, tile, t, d + 1) >= 1,
        ;
    }
}

pub proof fn lemma_prefix_product_positive(s: Seq<u64>, k: nat)
    requires
        k <= s.len(),
        forall|e: int| 0 <= e < s.len() ==> s[e] > 0,
    ensures
        prefix_product(s, k) >= 1,
    decreases k,
{
    if k > 0 {
        lemma_prefix_product_positive(s, (k - 1) as nat);
        let p = prefix_product(s, (k - 1) as nat);
        assert(p * s[k - 1] as nat >= 1) by (nonlinear_arith)
            requires
                p >= 1,
                s[k - 1] > 0,
        ;
    }
}

pub proof fn lemma_prefix_product_monotone(s: Seq<u64>, j: nat, k: nat)
    requires
        j <= k <= s.len(),
        forall|e: int| 0 <= e < s.len() ==> s[e] > 0,
    ensures
        1 <= prefix_product(s, j) <= prefix_product(s, k),
    decreases k,
{
    lemma_prefix_product_positive(s, j);
    if j < k {
        lemma_prefix_product_monotone(s, j, (k - 1) as nat);
        let p = prefix_product(s, (k - 1) as nat);
        assert(p <= p * s[k - 1] as nat) by (nonlinear_arith)
            requires
                p >= 1,
                s[k - 1] > 0,
        ;
    }
}

proof fn lemma_factor_bound(p: nat, f: nat, q: nat)
    requires
        p >= 1,
        q >= 1,
        p * f * q <= usize::MAX,
    ensures
        f <= p * f <= usize::MAX,
{
    assert(f <= p * f <= p * f * q) by (nonlinear_arith)
        requires
            p >= 1,
            q >= 1,
    ;
}

/// Whether the shapes `img` and `tile` have one size per axis, every tile
/// size and every image size positive.
pub open spec fn valid_tiling(img: Seq<u64>, tile: Seq<u64>) -> bool {
    &&& img.len() == tile.len()
    &&& forall|d: int| 0 <= d < tile.len() ==> tile[d] > 0
    &&& forall|d: int| 0 <= d < img.len() ==> img[d] > 0
}

/// There are no more tiles along an axis than pixels.
proof fn lemma_ntiles_at_most(a: nat, b: nat)
    requires
        b >= 1,
    ensures
        ceil_div(a, b) <= a,
{
    lemma_fundamental_div_mod(a as int, b as int);
    assert(ceil_div(a, b) <= a) by (nonlinear_arith)
        requires
            b >= 1,
            a == b * (a / b) + a % b,
            0 <= a % b < b,
            ceil_div(a, b) == a / b + if a % b == 0 {
                0nat
            } else {
                1nat
            },
    {
        if b == 1 {
            assert(a % b == 0);
        } else if a % b != 0 {
            assert(a / b + 1 <= a);
        }
    }
}

/// Along the first `k` axes there are no more tiles than pixels.
pub proof fn lemma_tiles_at_most_pixels(img: Seq<u64>, tile: Seq<u64>, k: nat)
    requires
        valid_tiling(img, tile),
        k <= img.len(),
    ensures
        tiles_product(img, tile, k) <= prefix_product(img, k),
    decreases k,
{
    if k > 0 {
        lemma_tiles_at_most_pixels(img, tile, (k - 1) as nat);
        let d = k - 1;
        lemma_ntiles_at_most(img[d] as nat, tile[d] as nat);
        let a = tiles_product(img, tile, (k - 1) as nat);
        let b = prefix_product(img, (k - 1) as nat);
        let c = ntiles(img, tile, d);
        let e = img[d] as nat;
        assert(a * c <= b * e) by (nonlinear_arith)
            requires
                a <= b,
                c <= e,
        ;
    }
}

/// The pixels of a tile along the axes from `d` on, times the pixels of the
/// image along the axes before `d`, are at most the pixels of the image.
proof fn lemma_extents_within(img: Seq<u64>, tile: Seq<u64>, t: nat, d: nat)
    requires
        valid_tiling(img, tile),
        d <= img.len(),
    ensures
        extents_from(img, tile, t, d) * prefix_product(img, d) <= prefix_product(img, img.len()),
    decreases img.len() - d,
{
    if d < img.len() {
        lemma_extents_within(img, tile, t, d + 1);
        lemma_extent_positive(img, tile, t, d);
        let x = tile_extent(img, tile, t, d);
        let e = extents_from(img, tile, t, d + 1);
        let p = prefix_product(img, d);
        let m = img[d as int] as nat;
        assert(extents_from(img, tile, t, d) == x * e);
        assert(prefix_product(img, d + 1) == p * m);
        assert(x * e * p <= e * (p * m)) by (nonlinear_arith)
            requires
                x <= m,
        ;
        assert(extents_from(img, tile, t, d) * p == x * e * p);
        assert(e * prefix_product(img, d + 1) == e * (p * m));
        assert(e * prefix_product(img, d + 1) <= prefix_product(img, img.len()));
    } else {
        assert(extents_from(img, tile, t, d) == 1);
    }
}

/// A tile has no more pixels than the image.
pub proof fn lemma_tile_pixels_within(img: Seq<u64>, tile: Seq<u64>, t: nat)
    requires
        valid_tiling(img, tile),
    ensures
        tile_pixels(img, tile, t) <= prefix_product(img, img.len()),
{
    lemma_extents_within(img, tile, t, 0);
    assert(prefix_product(img, 0) == 1);
    assert(tile_pixels(img, tile, t) * 1 == tile_pixels(img, tile, t));
}

/// The place of pixel `rest` of the part of a tile along the axes from `d`
/// on stays below the pixels of the image less those before `d`.
proof fn lemma_offset_within(img: Seq<u64>, tile: Seq<u64>, t: nat, d: nat, rest: nat)
    requires
        valid_tiling(img, tile),
        d <= img.len(),
        rest < extents_from(img, tile, t, d),
    ensures
        offset_from(img, tile, t, d, rest) + prefix_product(img, d) <= prefix_product(
            img,
            img.len(),
        ),
    decreases img.len() - d,
{
    if d == img.len() {
    } else {
        lemma_extent_positive(img, tile, t, d);
        let a = tile_extent(img, tile, t, d);
        let e = extents_from(img, tile, t, d + 1);
        let x = rest % a;
        let next = rest / a;
        lemma_fundamental_div_mod(rest as int, a as int);
        assert(next < e) by (nonlinear_arith)
            requires
                a >= 1,
                rest == a * next + x,
                x >= 0,
                rest < a * e,
        ;
        lemma_offset_within(img, tile, t, d + 1, next);
        let s = tile_start(img, tile, t, d);
        let p = prefix_product(img, d);
        let m = img[d as int] as nat;
        assert((s + x) * p + p <= p * m) by (nonlinear_arith)
            requires
                s + a <= m,
                x < a,
        ;
    }
}

/// Putting the pixels of a tile in place keeps the length of the image.
pub proof fn lemma_placed_len(img: Seq<u64>, tile: Seq<u64>, t: nat, pixels: Seq<i32>, out: Seq<i32>, k: nat)
    requires
        forall|j: nat| j < k ==> #[trigger] pixel_offset(img, tile, t, j) < out.len(),
    ensures
        placed(img, tile, t, pixels, out, k).len() == out.len(),
    decreases k,
{
    if k > 0 {
        lemma_placed_len(img, tile, t, pixels, out, (k - 1) as nat);
        assert(pixel_offset(img, tile, t, (k - 1) as nat) < out.len());
    }
}

/// An image with an empty axis has no pixels and no tiles.
pub proof fn lemma_empty_axis(img: Seq<u64>, tile: Seq<u64>, d: int, k: nat)
    requires
        img.len() == tile.len(),
        forall|e: int| 0 <= e < tile.len() ==> tile[e] > 0,
        0 <= d < k <= img.len(),
        img[d] == 0,
    ensures
        prefix_product(img, k) == 0,
        tiles_product(img, tile, k) == 0,
    decreases k,
{
    if k > d + 1 {
        lemma_empty_axis(img, tile, d, (k - 1) as nat);
    } else {
        assert(ntiles(img, tile, d) == 0) by {
            vstd::arithmetic::div_mod::lemma_basic_div(0, tile[d] as int);
        }
    }
    let p = prefix_product(img, (k - 1) as nat);
    let v = img[k - 1] as nat;
    assert(p * v == 0) by (nonlinear_arith)
        requires
            p == 0 || v == 0,
    ;
    let q = tiles_product(img, tile, (k - 1) as nat);
    let w = ntiles(img, tile, k - 1);
    assert(q * w == 0) by (nonlinear_arith)
        requires
            q == 0 || w == 0,
    ;
}

/// Whether `tile` is a tiling of an image of shape `img`: one tile size per
/// axis, each of them positive.
pub open spec fn tiles_image(img: Seq<u64>, tile: Seq<u64>) -> bool {
    &&& img.len() == tile.len()
    &&& forall|d: int| 0 <= d < tile.len() ==> tile[d] > 0
}

/// Every pixel of every tile lands inside the image.
pub proof fn tile_pixels_land_in_image(img: Seq<u64>, tile: Seq<u64>, t: nat, k: nat)
    requires
        tiles_image(img, tile),
        valid_tiling(img, tile) || t < tiles_product(img, tile, img.len()),
        k < tile_pixels(img, tile, t),
    ensures
        pixel_offset(img, tile, t, k) < prefix_product(img, img.len()),
{
    if !valid_tiling(img, tile) {
        let d = choose|d: int| 0 <= d < img.len() && !(img[d] > 0);
        lemma_empty_axis(img, tile, d, img.len());
    }
    lemma_offset_within(img, tile, t, 0, k);
}

/// Regular tiling of an image: the tile size along each axis and the image size.
#[derive(Debug, Clone, PartialEq, Eq)]
pub struct TileGeometry {
    /// Image dimensions [ZNAXIS1, ZNAXIS2, ...]
    pub image_shape: Vec<u64>,
    /// Tile dimensions [ZTILE1, ZTILE2, ...].
    pub tile_shape: Vec<u64>,
}

impl TileGeometry {
    /// One tile size per image axis, and every tile size positive.
    pub open spec fn well_formed(&self) -> bool {
        &&& self.image_shape@.len() == self.tile_shape@.len()
        &&& forall|d: int| 0 <= d < self.tile_shape@.len() ==> self.tile_shape@[d] > 0
    }

    /// Every image axis non-empty.
    pub open spec fn non_empty(&self) -> bool {
        forall|d: int| 0 <= d < self.image_shape@.len() ==> self.image_shape@[d] > 0
    }

    pub fn naxis(&self) -> (n: usize)
        ensures
            n == self.image_shape@.len(),
    {
        self.image_shape.len()
    }

    /// Number of tiles along axis n (1-based). 10.1.1
    pub fn ntiles_along(&self, n: usize) -> (r: u64)
        requires
            1 <= n <= self.image_shape@.len(),
            n <= self.tile_shape@.len(),
            self.tile_shape@[n - 1] > 0,
        ensures
            r == ntiles(self.image_shape@, self.tile_shape@, n - 1),
    {
        let a = self.image_shape[n - 1];
        let b = self.tile_shape[n - 1];
        if a % b == 0 {
            a / b
        } else {
            proof {
                lemma_fundamental_div_mod(a as int, b as int);
                assert(a / b < 0xFFFF_FFFF_FFFF_FFFFu64) by (nonlinear_arith)
                    requires
                        a == b * (a / b) + a % b,
                        a % b != 0,
                        b > 0,
                        a <= 0xFFFF_FFFF_FFFF_FFFFu64,
                ;
            }
            a / b + 1
        }
    }

    /// Number of pixels in tile `tile_index`, accounting for partial edge tiles.
    ///
    /// `tile_index` is the flat tile index (0..`total_tiles()`), matching the
    /// binary table row number.
    pub fn tile_n_pixels(&self, tile_index: u64) -> (r: usize)
        requires
            self.well_formed(),
            self.non_empty(),
            tile_pixels(self.image_shape@, self.tile_shape@, tile_index as nat) <= usize::MAX,
        ensures
            r == tile_pixels(self.image_shape@, self.tile_shape@, tile_index as nat),
    {
        let ghost img = self.image_shape@;
        let ghost tile = self.tile_shape@;
        let ghost t = tile_index as nat;
        let mut n: usize = 1;
        let mut remaining = tile_index;
        let mut d: usize = 0;
        while d < self.image_shape.len()
            invariant
                self.well_formed(),
                self.non_empty(),
                img == self.image_shape@,
                tile == self.tile_shape@,
                t == tile_index,
                d <= img.len(),
                remaining == tile_rest(img, tile, t, d as nat),
                n >= 1,
                n * extents_from(img, tile, t, d as nat) == tile_pixels(img, tile, t),
                tile_pixels(img, tile, t) <= usize::MAX,
            decreases img.len() - d,
        {
            proof {
                lemma_extent_positive(img, tile, t, d as nat);
                lemma_extents_positive(img, tile, t, (d + 1) as nat);
            }
            let nt = self.ntiles_along(d + 1);
            let td = remaining % nt;
            remaining = remaining / nt;
            proof {
                lemma_coord_in_image(img[d as int] as nat, tile[d as int] as nat, td as nat);
            }
            let room = self.image_shape[d] - td * self.tile_shape[d];
            let ext = if self.tile_shape[d] < room {
                self.tile_shape[d]
            } else {
                room
            };
            assert(ext == tile_extent(img, tile, t, d as nat));
            proof {
                let rest = extents_from(img, tile, t, (d + 1) as nat);
                assert(extents_from(img, tile, t, d as nat) == ext * rest);
                lemma_mul_is_associative(n as int, ext as int, rest as int);
                lemma_factor_bound(n as nat, ext as nat, rest);
            }
            n = n * ext as usize;
            d = d + 1;
        }
        assert(extents_from(img, tile, t, d as nat) == 1);
        let ghost rest = extents_from(img, tile, t, d as nat);
        assert(n * rest == n) by (nonlinear_arith)
            requires
                rest == 1,
        ;
        n
    }

    /// Copy `pixels` from tile `tile_index` into their places in `output`.
    ///
    /// `tile_index` is the flat tile index (0..`total_tiles()`), matching the
    /// binary table row number. Tiles are ordered with axis 0 varying fastest,
    /// and so are the pixels within a tile. Edge tiles may be smaller than
    /// `tile_shape` but still occupy the same slot. Pixel `k` of the tile goes
    /// to `pixel_offset(k)`; the rest of `output` is left as it was.
    pub fn place_tile(&self, pixels: &[i32], tile_index: u64, output: &mut [i32])
        requires
            self.well_formed(),
            self.non_empty(),
            self.image_shape@.len() >= 1,
            prefix_product(self.image_shape@, (self.image_shape@.len() - 1) as nat) <= usize::MAX,
            pixels@.len() >= tile_pixels(self.image_shape@, self.tile_shape@, tile_index as nat),
            forall|k: nat|
                k < tile_pixels(self.image_shape@, self.tile_shape@, tile_index as nat)
                    ==> #[trigger] pixel_offset(self.image_shape@, self.tile_shape@, tile_index as nat, k)
                    < old(output)@.len(),
        ensures
            final(output)@ == placed(
                self.image_shape@,
                self.tile_shape@,
                tile_index as nat,
                pixels@,
                old(output)@,
                tile_pixels(self.image_shape@, self.tile_shape@, tile_index as nat),
            ),
    {
        let ghost img = self.image_shape@;
        let ghost tile = self.tile_shape@;
        let ghost t = tile_index as nat;
        let ndim = self.image_shape.len();
        let mut starts: Vec<u64> = Vec::new();
        let mut extents: Vec<u64> = Vec::new();
        let mut strides: Vec<usize> = Vec::new();
        let mut remaining = tile_index;
        let mut stride: usize = 1;
        let mut d: usize = 0;
        proof {
            lemma_prefix_product_monotone(img, 0, (ndim - 1) as nat);
        }
        while d < ndim
            invariant
                self.well_formed(),
                self.non_empty(),
                img == self.image_shape@,
                tile == self.tile_shape@,
                t == tile_index,
                ndim == img.len(),
                ndim >= 1,
                d <= ndim,
                prefix_product(img, (ndim - 1) as nat) <= usize::MAX,
                remaining == tile_rest(img, tile, t, d as nat),
                d < ndim ==> stride == prefix_product(img, d as nat),
                starts@.len() == d,
                extents@.len() == d,
                strides@.len() == d,
                forall|e: int| 0 <= e < d ==> starts@[e] == tile_start(img, tile, t, e as nat),
                forall|e: int| 0 <= e < d ==> extents@[e] == tile_extent(img, tile, t, e as nat),
                forall|e: int| 0 <= e < d ==> strides@[e] == prefix_product(img, e as nat),
            decreases ndim - d,
        {
            proof {
                lemma_extent_positive(img, tile, t, d as nat);
            }
            let nt = self.ntiles_along(d + 1);
            let td = remaining % nt;
            remaining = remaining / nt;
            proof {
                lemma_coord_in_image(img[d as int] as nat, tile[d as int] as nat, td as nat);
            }
            let start = td * self.tile_shape[d];
            let room = self.image_shape[d] - start;
            let ext = if self.tile_shape[d] < room {
                self.tile_shape[d]
            } else {
                room
            };
            starts.push(start);
            extents.push(ext);
            strides.push(stride);
            if d + 1 < ndim {
                proof {
                    lemma_prefix_product_monotone(img, (d + 1) as nat, (ndim - 1) as nat);
                    lemma_prefix_product_positive(img, d as nat);
                    assert(prefix_product(img, (d + 1) as nat) == stride * img[d as int]);
                    lemma_factor_bound(stride as nat, img[d as int] as nat, 1);
                }
                stride = stride * self.image_shape[d] as usize;
            }
            d = d + 1;
        }
        let plen = pixels.len();
        assert(plen == pixels@.len());
        let count = self.tile_n_pixels(tile_index);
        let mut k: usize = 0;
        while k < count
            invariant
                self.well_formed(),
                self.non_empty(),
                img == self.image_shape@,
                tile == self.tile_shape@,
                t == tile_index,
                ndim == img.len(),
                count == tile_pixels(img, tile, t),
                k <= count,
                pixels@.len() >= count,
                starts@.len() == ndim,
                extents@.len() == ndim,
                strides@.len() == ndim,
                forall|e: int| 0 <= e < ndim ==> starts@[e] == tile_start(img, tile, t, e as nat),
                forall|e: int| 0 <= e < ndim ==> extents@[e] == tile_extent(img, tile, t, e as nat),
                forall|e: int| 0 <= e < ndim ==> strides@[e] == prefix_product(img, e as nat),
                forall|j: nat| j < count ==> #[trigger] pixel_offset(img, tile, t, j) < output@.len(),
                output@ == placed(img, tile, t, pixels@, old(output)@, k as nat),
            decreases count - k,
        {
            let mut idx: usize = 0;
            let mut rest: u64 = k as u64;
            let mut e: usize = 0;
            let ghost target = pixel_offset(img, tile, t, k as nat);
            assert(target < output@.len());
            let olen = output.len();
            assert(olen == output@.len());
            while e < ndim
                invariant
                    self.well_formed(),
                    self.non_empty(),
                    img == self.image_shape@,
                    tile == self.tile_shape@,
                    ndim == img.len(),
                    e <= ndim,
                    starts@.len() == ndim,
                    extents@.len() == ndim,
                    strides@.len() == ndim,
                    forall|f: int| 0 <= f < ndim ==> starts@[f] == tile_start(img, tile, t, f as nat),
                    forall|f: int| 0 <= f < ndim ==> extents@[f] == tile_extent(img, tile, t, f as nat),
                    forall|f: int| 0 <= f < ndim ==> strides@[f] == prefix_product(img, f as nat),
                    idx + offset_from(img, tile, t, e as nat, rest as nat) == target,
                    target < olen,
                decreases ndim - e,
            {
                proof {
                    lemma_extent_positive(img, tile, t, e as nat);
                    lemma_prefix_product_monotone(img, e as nat, e as nat);
                }
                let a = extents[e];
                let ghost old_rest = rest;
                let x = rest % a;
                rest = rest / a;
                let c = starts[e] + x;
                proof {
                    assert(offset_from(img, tile, t, e as nat, old_rest as nat) == c * strides@[e as int]
                        + offset_from(img, tile, t, (e + 1) as nat, rest as nat));
                    assert(c * strides@[e as int] >= c) by (nonlinear_arith)
                        requires
                            strides@[e as int] >= 1,
                    ;
                }
                idx = idx + (c as usize) * strides[e];
                e = e + 1;
            }
            output[idx] = pixels[k];
            k = k + 1;
        }
    }

    /// Total number of tiles across all axes.
    pub fn total_tiles(&self) -> (r: u64)
        requires
            self.well_formed(),
            forall|k: nat|
                k <= self.image_shape@.len() ==> #[trigger] tiles_product(
                    self.image_shape@,
                    self.tile_shape@,
                    k,
                ) <= u64::MAX,
        ensures
            r == tiles_product(self.image_shape@, self.tile_shape@, self.image_shape@.len()),
    {
        let mut p: u64 = 1;
        let mut n: usize = 0;
        while n < self.image_shape.len()
            invariant
                self.well_formed(),
                0 <= n <= self.image_shape@.len(),
                p == tiles_product(self.image_shape@, self.tile_shape@, n as nat),
                forall|k: nat|
                    k <= self.image_shape@.len() ==> #[trigger] tiles_product(
                        self.image_shape@,
                        self.tile_shape@,
                        k,
                    ) <= u64::MAX,
            decreases self.image_shape@.len() - n,
        {
            let f = self.ntiles_along(n + 1);
            assert(tiles_product(self.image_shape@, self.tile_shape@, (n + 1) as nat) == p * f);
            assert(tiles_product(self.image_shape@, self.tile_shape@, (n + 1) as nat) <= u64::MAX);
            p = p * f;
            n = n + 1;
        }
        p
    }
}

} // verus!
