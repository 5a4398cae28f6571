//! How the tiles of a tile-compressed image make up the image: no two
//! pixels of the tiles land in the same place, and every place of the image
//! receives a pixel.
use vstd::arithmetic::div_mod::{lemma_div_denominator, lemma_fundamental_div_mod, lemma_fundamental_div_mod_converse};
use vstd::prelude::*;

use super::tiles::{
    extents_from, lemma_empty_axis, ntiles, offset_from, pixel_offset, prefix_product, tile_coord,
    tile_extent, tile_pixels, tile_rest, tile_start, tiles_image, tiles_product, valid_tiling,
};

verus! {

/// `offset_from` divided by the pixels of the axes before `d`: the image
/// coordinates from axis `d` on, as a mixed-radix number.
pub open spec fn offset_quot(img: Seq<u64>, tile: Seq<u64>, t: nat, d: nat, rest: nat) -> nat
    decreases img.len() - d,
{
    if d >= img.len() {
        0
    } else {
        let a = tile_extent(img, tile, t, d);
        let x = if a == 0 {
            0
        } else {
            rest % a
        };
        let next = if a == 0 {
            0
        } else {
            rest / a
        };
        (tile_start(img, tile, t, d) + x) + img[d as int] as nat * offset_quot(
            img,
            tile,
            t,
            d + 1,
            next,
        )
    }
}

/// What is left of pixel number `k` of tile `t` once the axes before `e`
/// have taken their share.
pub open spec fn rest_at(img: Seq<u64>, tile: Seq<u64>, t: nat, k: nat, e: nat) -> nat
    decreases e,
{
    if e == 0 {
        k
    } else {
        let a = tile_extent(img, tile, t, (e - 1) as nat);
        if a == 0 {
            0
        } else {
            rest_at(img, tile, t, k, (e - 1) as nat) / a
        }
    }
}

/// The coordinate along axis `e` of the place `o` of the image.
pub open spec fn image_coord(img: Seq<u64>, o: nat, e: nat) -> nat {
    (o / prefix_product(img, e)) % (img[e as int] as nat)
}

/// The coordinate along axis `e` of pixel `k` of tile `t`, within the tile.
pub open spec fn tile_digit(img: Seq<u64>, tile: Seq<u64>, t: nat, k: nat, e: nat) -> nat {
    rest_at(img, tile, t, k, e) % tile_extent(img, tile, t, e)
}

proof fn lemma_prefix_positive(img: Seq<u64>, d: nat)
    requires
        d <= img.len(),
        forall|e: int| 0 <= e < img.len() ==> img[e] > 0,
    ensures
        prefix_product(img, d) >= 1,
    decreases d,
{
    if d > 0 {
        lemma_prefix_positive(img, (d - 1) as nat);
        let p = prefix_product(img, (d - 1) as nat);
        let m = img[d - 1] as nat;
        assert(p * m >= 1) by (nonlinear_arith)
            requires
                p >= 1,
                m >= 1,
        ;
    }
}

/// `offset_from` is the pixels of the axes before `d` times `offset_quot`.
proof fn lemma_offset_quot(img: Seq<u64>, tile: Seq<u64>, t: nat, d: nat, rest: nat)
    requires
        d <= img.len(),
    ensures
        offset_from(img, tile, t, d, rest) == prefix_product(img, d) * offset_quot(
            img,
            tile,
            t,
            d,
            rest,
        ),
    decreases img.len() - d,
{
    if d < img.len() {
        let a = tile_extent(img, tile, t, d);
        let next = if a == 0 {
            0
        } else {
            rest / a
        };
        let x = if a == 0 {
            0
        } else {
            rest % a
        };
        lemma_offset_quot(img, tile, t, d + 1, next);
        let p = prefix_product(img, d);
        let m = img[d as int] as nat;
        let c = tile_start(img, tile, t, d) + x;
        let q = offset_quot(img, tile, t, d + 1, next);
        assert(prefix_product(img, d + 1) == p * m);
        assert(offset_from(img, tile, t, d, rest) == c * p + offset_from(img, tile, t, d + 1, next));
        assert(offset_quot(img, tile, t, d, rest) == c + m * q);
        assert(c * p + (p * m) * q == p * (c + m * q)) by (nonlinear_arith);
    } else {
        assert(offset_from(img, tile, t, d, rest) == 0);
        assert(offset_quot(img, tile, t, d, rest) == 0);
        assert(prefix_product(img, d) * 0 == 0) by (nonlinear_arith);
    }
}

/// Along axis `d`, a pixel of a tile lies below the image size.
proof fn lemma_coord_below(img: Seq<u64>, tile: Seq<u64>, t: nat, d: nat, rest: nat)
    requires
        valid_tiling(img, tile),
        d < img.len(),
    ensures
        tile_extent(img, tile, t, d) >= 1,
        tile_extent(img, tile, t, d) <= tile[d as int],
        tile_start(img, tile, t, d) + rest % tile_extent(img, tile, t, d) < img[d as int],
{
    super::tiles::lemma_extent_positive(img, tile, t, d);
    let a = tile_extent(img, tile, t, d);
    lemma_fundamental_div_mod(rest as int, a as int);
}

/// The image coordinates from axis `e` on of pixel `k` of tile `t` are
/// what the place of the pixel leaves after the axes before `e`.
proof fn lemma_quot_at(img: Seq<u64>, tile: Seq<u64>, t: nat, k: nat, e: nat)
    requires
        valid_tiling(img, tile),
        e <= img.len(),
    ensures
        offset_quot(img, tile, t, 0, k) / prefix_product(img, e) == offset_quot(
            img,
            tile,
            t,
            e,
            rest_at(img, tile, t, k, e),
        ),
    decreases e,
{
    if e > 0 {
        let d = (e - 1) as nat;
        lemma_quot_at(img, tile, t, k, d);
        lemma_prefix_positive(img, d);
        let r = rest_at(img, tile, t, k, d);
        lemma_coord_below(img, tile, t, d, r);
        let a = tile_extent(img, tile, t, d);
        let m = img[d as int] as nat;
        let c = tile_start(img, tile, t, d) + r % a;
        let q = offset_quot(img, tile, t, e, r / a);
        assert(offset_quot(img, tile, t, d, r) == c + m * q);
        assert(c + m * q == q * m + c) by (nonlinear_arith);
        lemma_fundamental_div_mod_converse((q * m + c) as int, m as int, q as int, c as int);
        assert(rest_at(img, tile, t, k, e) == r / a);
        lemma_div_denominator(
            offset_quot(img, tile, t, 0, k) as int,
            prefix_product(img, d) as int,
            m as int,
        );
        assert(prefix_product(img, e) == prefix_product(img, d) * m);
        let q0 = offset_quot(img, tile, t, 0, k);
        assert(q0 / prefix_product(img, d) == c + m * q);
        assert((c + m * q) / m == q);
        assert(q0 / prefix_product(img, e) == q);
    } else {
        assert(prefix_product(img, 0) == 1);
        assert(offset_quot(img, tile, t, 0, k) / 1 == offset_quot(img, tile, t, 0, k));
    }
}

/// The coordinate along axis `e` of the place of pixel `k` of tile `t` is
/// the start of the tile along that axis plus the pixel's coordinate in it.
pub proof fn lemma_image_coord(img: Seq<u64>, tile: Seq<u64>, t: nat, k: nat, e: nat)
    requires
        valid_tiling(img, tile),
        e < img.len(),
    ensures
        image_coord(img, pixel_offset(img, tile, t, k), e) == tile_start(img, tile, t, e)
            + tile_digit(img, tile, t, k, e),
        tile_digit(img, tile, t, k, e) < tile_extent(img, tile, t, e),
{
    lemma_offset_quot(img, tile, t, 0, k);
    assert(prefix_product(img, 0) == 1);
    assert(1 * offset_quot(img, tile, t, 0, k) == offset_quot(img, tile, t, 0, k));
    assert(pixel_offset(img, tile, t, k) == offset_quot(img, tile, t, 0, k));
    lemma_quot_at(img, tile, t, k, e);
    let r = rest_at(img, tile, t, k, e);
    lemma_coord_below(img, tile, t, e, r);
    let a = tile_extent(img, tile, t, e);
    let m = img[e as int] as nat;
    let c = tile_start(img, tile, t, e) + r % a;
    let q = offset_quot(img, tile, t, e + 1, r / a);
    assert(offset_quot(img, tile, t, e, r) == c + m * q);
    assert(c + m * q == q * m + c) by (nonlinear_arith);
    lemma_fundamental_div_mod_converse((q * m + c) as int, m as int, q as int, c as int);
    lemma_fundamental_div_mod(r as int, a as int);
}

/// A tile's coordinates and a pixel's coordinates within it are read back
/// from the image coordinate: the tile size goes into it the tile's
/// coordinate times, with the pixel's coordinate left over.
proof fn lemma_split_coord(img: Seq<u64>, tile: Seq<u64>, t: nat, k: nat, e: nat)
    requires
        valid_tiling(img, tile),
        e < img.len(),
    ensures
        ({
            let c = tile_start(img, tile, t, e) + tile_digit(img, tile, t, k, e);
            &&& c / (tile[e as int] as nat) == tile_coord(img, tile, t, e)
            &&& c % (tile[e as int] as nat) == tile_digit(img, tile, t, k, e)
        }),
{
    lemma_image_coord(img, tile, t, k, e);
    lemma_coord_below(img, tile, t, e, rest_at(img, tile, t, k, e));
    let b = tile[e as int] as nat;
    let x = tile_digit(img, tile, t, k, e);
    let s = tile_coord(img, tile, t, e);
    assert(tile_start(img, tile, t, e) == s * b);
    lemma_fundamental_div_mod_converse((s * b + x) as int, b as int, s as int, x as int);
}

/// There is at least one tile along each axis.
proof fn lemma_ntiles_positive(img: Seq<u64>, tile: Seq<u64>, e: nat)
    requires
        valid_tiling(img, tile),
        e < img.len(),
    ensures
        ntiles(img, tile, e as int) >= 1,
{
    super::tiles::lemma_extent_positive(img, tile, 0, e);
}

/// The tiles along the axes before `e` take `t` down to `t` divided by
/// their number.
proof fn lemma_tile_rest(img: Seq<u64>, tile: Seq<u64>, t: nat, e: nat)
    requires
        valid_tiling(img, tile),
        e <= img.len(),
    ensures
        tiles_product(img, tile, e) >= 1,
        tile_rest(img, tile, t, e) == t / tiles_product(img, tile, e),
    decreases e,
{
    if e > 0 {
        let d = (e - 1) as nat;
        lemma_tile_rest(img, tile, t, d);
        lemma_ntiles_positive(img, tile, d);
        let n = ntiles(img, tile, d as int);
        let p = tiles_product(img, tile, d);
        lemma_div_denominator(t as int, p as int, n as int);
        assert(p * n >= 1) by (nonlinear_arith)
            requires
                p >= 1,
                n >= 1,
        ;
    } else {
        assert(t / 1 == t);
    }
}

/// Tiles with the same coordinate along every axis from `e` on, and below
/// the number of tiles, have the same rest at `e`.
proof fn lemma_same_tile(img: Seq<u64>, tile: Seq<u64>, t1: nat, t2: nat, e: nat)
    requires
        valid_tiling(img, tile),
        e <= img.len(),
        t1 < tiles_product(img, tile, img.len()),
        t2 < tiles_product(img, tile, img.len()),
        forall|f: nat|
            e <= f < img.len() ==> #[trigger] tile_coord(img, tile, t1, f) == tile_coord(
                img,
                tile,
                t2,
                f,
            ),
    ensures
        tile_rest(img, tile, t1, e) == tile_rest(img, tile, t2, e),
    decreases img.len() - e,
{
    if e == img.len() {
        lemma_tile_rest(img, tile, t1, e);
        lemma_tile_rest(img, tile, t2, e);
        vstd::arithmetic::div_mod::lemma_basic_div(t1 as int, tiles_product(img, tile, e) as int);
        vstd::arithmetic::div_mod::lemma_basic_div(t2 as int, tiles_product(img, tile, e) as int);
    } else {
        lemma_same_tile(img, tile, t1, t2, e + 1);
        lemma_ntiles_positive(img, tile, e);
        let n = ntiles(img, tile, e as int);
        let r1 = tile_rest(img, tile, t1, e);
        let r2 = tile_rest(img, tile, t2, e);
        lemma_fundamental_div_mod(r1 as int, n as int);
        lemma_fundamental_div_mod(r2 as int, n as int);
        assert(tile_coord(img, tile, t1, e) == tile_coord(img, tile, t2, e));
    }
}

/// Pixels of one tile with the same coordinate along every axis from `e` on
/// have the same rest at `e`.
proof fn lemma_same_pixel(img: Seq<u64>, tile: Seq<u64>, t: nat, k1: nat, k2: nat, e: nat)
    requires
        valid_tiling(img, tile),
        e <= img.len(),
        k1 < tile_pixels(img, tile, t),
        k2 < tile_pixels(img, tile, t),
        forall|f: nat|
            e <= f < img.len() ==> #[trigger] tile_digit(img, tile, t, k1, f) == tile_digit(
                img,
                tile,
                t,
                k2,
                f,
            ),
    ensures
        rest_at(img, tile, t, k1, e) == rest_at(img, tile, t, k2, e),
    decreases img.len() - e,
{
    lemma_rest_below(img, tile, t, k1, e);
    lemma_rest_below(img, tile, t, k2, e);
    if e < img.len() {
        lemma_same_pixel(img, tile, t, k1, k2, e + 1);
        let a = tile_extent(img, tile, t, e);
        lemma_coord_below(img, tile, t, e, 0);
        let r1 = rest_at(img, tile, t, k1, e);
        let r2 = rest_at(img, tile, t, k2, e);
        lemma_fundamental_div_mod(r1 as int, a as int);
        lemma_fundamental_div_mod(r2 as int, a as int);
        assert(tile_digit(img, tile, t, k1, e) == tile_digit(img, tile, t, k2, e));
    }
}

/// What is left of a pixel number at `e` is below the pixels of the tile
/// along the axes from `e` on.
proof fn lemma_rest_below(img: Seq<u64>, tile: Seq<u64>, t: nat, k: nat, e: nat)
    requires
        valid_tiling(img, tile),
        e <= img.len(),
        k < tile_pixels(img, tile, t),
    ensures
        rest_at(img, tile, t, k, e) < extents_from(img, tile, t, e),
    decreases e,
{
    if e > 0 {
        let d = (e - 1) as nat;
        lemma_rest_below(img, tile, t, k, d);
        lemma_coord_below(img, tile, t, d, 0);
        let a = tile_extent(img, tile, t, d);
        let r = rest_at(img, tile, t, k, d);
        let x = extents_from(img, tile, t, e);
        assert(extents_from(img, tile, t, d) == a * x);
        lemma_fundamental_div_mod(r as int, a as int);
        assert(r / a < x) by (nonlinear_arith)
            requires
                a >= 1,
                r < a * x,
                r == a * (r / a) + r % a,
                r % a >= 0,
        ;
    }
}

/// `tile_pixels_do_not_collide` for an image with no empty axis.
proof fn lemma_no_collision(
    img: Seq<u64>,
    tile: Seq<u64>,
    t1: nat,
    k1: nat,
    t2: nat,
    k2: nat,
)
    requires
        valid_tiling(img, tile),
        t1 < tiles_product(img, tile, img.len()),
        t2 < tiles_product(img, tile, img.len()),
        k1 < tile_pixels(img, tile, t1),
        k2 < tile_pixels(img, tile, t2),
        pixel_offset(img, tile, t1, k1) == pixel_offset(img, tile, t2, k2),
    ensures
        t1 == t2,
        k1 == k2,
{
    assert forall|f: nat| 0 <= f < img.len() implies #[trigger] tile_coord(img, tile, t1, f)
        == tile_coord(img, tile, t2, f) by {
        lemma_image_coord(img, tile, t1, k1, f);
        lemma_image_coord(img, tile, t2, k2, f);
        lemma_split_coord(img, tile, t1, k1, f);
        lemma_split_coord(img, tile, t2, k2, f);
    }
    lemma_same_tile(img, tile, t1, t2, 0);
    assert(t1 == t2);
    assert forall|f: nat| 0 <= f < img.len() implies #[trigger] tile_digit(img, tile, t1, k1, f)
        == tile_digit(img, tile, t1, k2, f) by {
        lemma_image_coord(img, tile, t1, k1, f);
        lemma_image_coord(img, tile, t1, k2, f);
    }
    lemma_same_pixel(img, tile, t1, k1, k2, 0);
}

/// Places below the pixels of the image with the same coordinates along
/// every axis from `e` on leave the same quotient by the pixels of the axes
/// before `e`.
proof fn lemma_same_place(img: Seq<u64>, o1: nat, o2: nat, e: nat)
    requires
        e <= img.len(),
        forall|d: int| 0 <= d < img.len() ==> img[d] > 0,
        o1 < prefix_product(img, img.len()),
        o2 < prefix_product(img, img.len()),
        forall|f: nat| e <= f < img.len() ==> #[trigger] image_coord(img, o1, f) == image_coord(
            img,
            o2,
            f,
        ),
    ensures
        o1 / prefix_product(img, e) == o2 / prefix_product(img, e),
    decreases img.len() - e,
{
    lemma_prefix_positive(img, e);
    if e == img.len() {
        vstd::arithmetic::div_mod::lemma_basic_div(o1 as int, prefix_product(img, e) as int);
        vstd::arithmetic::div_mod::lemma_basic_div(o2 as int, prefix_product(img, e) as int);
    } else {
        lemma_same_place(img, o1, o2, e + 1);
        let p = prefix_product(img, e);
        let m = img[e as int] as nat;
        assert(prefix_product(img, e + 1) == p * m);
        lemma_div_denominator(o1 as int, p as int, m as int);
        lemma_div_denominator(o2 as int, p as int, m as int);
        lemma_fundamental_div_mod((o1 / p) as int, m as int);
        lemma_fundamental_div_mod((o2 / p) as int, m as int);
        assert(image_coord(img, o1, e) == image_coord(img, o2, e));
    }
}

/// The tile number whose coordinates along the axes from `e` on are those
/// of the tile that holds place `i`.
pub open spec fn tile_number_from(img: Seq<u64>, tile: Seq<u64>, i: nat, e: nat) -> nat
    decreases img.len() - e,
{
    if e >= img.len() {
        0
    } else {
        image_coord(img, i, e) / (tile[e as int] as nat) + ntiles(img, tile, e as int)
            * tile_number_from(img, tile, i, e + 1)
    }
}

/// The number, within tile `t`, of the pixel whose coordinates along the
/// axes from `e` on are those of place `i`.
pub open spec fn pixel_number_from(img: Seq<u64>, tile: Seq<u64>, t: nat, i: nat, e: nat) -> nat
    decreases img.len() - e,
{
    if e >= img.len() {
        0
    } else {
        image_coord(img, i, e) % (tile[e as int] as nat) + tile_extent(img, tile, t, e)
            * pixel_number_from(img, tile, t, i, e + 1)
    }
}

/// The tile coordinate of place `i` along axis `e` is below the number of
/// tiles along it.
proof fn lemma_tile_coord_below(img: Seq<u64>, tile: Seq<u64>, i: nat, e: nat)
    requires
        valid_tiling(img, tile),
        e < img.len(),
    ensures
        image_coord(img, i, e) / (tile[e as int] as nat) < ntiles(img, tile, e as int),
{
    let c = image_coord(img, i, e);
    let b = tile[e as int] as nat;
    let m = img[e as int] as nat;
    lemma_fundamental_div_mod(m as int, b as int);
    lemma_fundamental_div_mod(c as int, b as int);
    vstd::arithmetic::div_mod::lemma_mod_bound((i / prefix_product(img, e)) as int, m as int);
    assert(c < m);
    assert(c / b < ntiles(img, tile, e as int)) by (nonlinear_arith)
        requires
            b >= 1,
            c < m,
            c == b * (c / b) + c % b,
            m == b * (m / b) + m % b,
            0 <= c % b < b,
            0 <= m % b < b,
            ntiles(img, tile, e as int) == m / b + if m % b == 0 {
                0nat
            } else {
                1nat
            },
    {
        if c / b > m / b {
            assert(c / b >= m / b + 1);
            assert(b * (c / b) >= b * (m / b) + b);
        } else if c / b == m / b && m % b == 0 {
            assert(b * (c / b) == m);
        }
    }
}

/// The tile of place `i` has the rest `tile_number_from` along each axis.
proof fn lemma_tile_number(img: Seq<u64>, tile: Seq<u64>, i: nat, e: nat)
    requires
        valid_tiling(img, tile),
        e <= img.len(),
    ensures
        tile_rest(img, tile, tile_number_from(img, tile, i, 0), e) == tile_number_from(
            img,
            tile,
            i,
            e,
        ),
    decreases e,
{
    if e > 0 {
        let d = (e - 1) as nat;
        lemma_tile_number(img, tile, i, d);
        lemma_tile_coord_below(img, tile, i, d);
        lemma_ntiles_positive(img, tile, d);
        let n = ntiles(img, tile, d as int);
        let s = image_coord(img, i, d) / (tile[d as int] as nat);
        let q = tile_number_from(img, tile, i, e);
        assert(s + n * q == q * n + s) by (nonlinear_arith);
        lemma_fundamental_div_mod_converse((q * n + s) as int, n as int, q as int, s as int);
    }
}

/// The pixel of place `i` in its tile has the rest `pixel_number_from`
/// along each axis.
proof fn lemma_pixel_number(img: Seq<u64>, tile: Seq<u64>, t: nat, i: nat, e: nat)
    requires
        valid_tiling(img, tile),
        e <= img.len(),
        forall|f: nat| f < img.len() ==> image_coord(img, i, f) / (tile[f as int] as nat)
            == #[trigger] tile_coord(img, tile, t, f),
    ensures
        rest_at(img, tile, t, pixel_number_from(img, tile, t, i, 0), e) == pixel_number_from(
            img,
            tile,
            t,
            i,
            e,
        ),
    decreases e,
{
    if e > 0 {
        let d = (e - 1) as nat;
        lemma_pixel_number(img, tile, t, i, d);
        lemma_digit_below(img, tile, t, i, d);
        let a = tile_extent(img, tile, t, d);
        let x = image_coord(img, i, d) % (tile[d as int] as nat);
        let q = pixel_number_from(img, tile, t, i, e);
        assert(x + a * q == q * a + x) by (nonlinear_arith);
        lemma_fundamental_div_mod_converse((q * a + x) as int, a as int, q as int, x as int);
    }
}

/// Along axis `e`, the coordinate of place `i` within the tile that holds
/// it is below the tile's extent there.
proof fn lemma_digit_below(img: Seq<u64>, tile: Seq<u64>, t: nat, i: nat, e: nat)
    requires
        valid_tiling(img, tile),
        e < img.len(),
        forall|f: nat| f < img.len() ==> image_coord(img, i, f) / (tile[f as int] as nat)
            == #[trigger] tile_coord(img, tile, t, f),
    ensures
        image_coord(img, i, e) % (tile[e as int] as nat) < tile_extent(img, tile, t, e),
        tile_extent(img, tile, t, e) >= 1,
        image_coord(img, i, e) == tile_start(img, tile, t, e) + image_coord(img, i, e) % (
        tile[e as int] as nat),
{
    let c = image_coord(img, i, e);
    let b = tile[e as int] as nat;
    let m = img[e as int] as nat;
    assert(tile_coord(img, tile, t, e) == c / b);
    lemma_fundamental_div_mod(c as int, b as int);
    vstd::arithmetic::div_mod::lemma_mod_bound((i / prefix_product(img, e)) as int, m as int);
    assert(tile_start(img, tile, t, e) == (c / b) * b);
    assert(c == (c / b) * b + c % b) by (nonlinear_arith)
        requires
            c == b * (c / b) + c % b,
    ;
    lemma_coord_below(img, tile, t, e, 0);
}

/// The pixel number built from place `i` is below the pixels of the tile
/// along the axes from `e` on.
proof fn lemma_pixel_number_below(img: Seq<u64>, tile: Seq<u64>, t: nat, i: nat, e: nat)
    requires
        valid_tiling(img, tile),
        e <= img.len(),
        forall|f: nat| f < img.len() ==> image_coord(img, i, f) / (tile[f as int] as nat)
            == #[trigger] tile_coord(img, tile, t, f),
    ensures
        pixel_number_from(img, tile, t, i, e) < extents_from(img, tile, t, e),
    decreases img.len() - e,
{
    if e < img.len() {
        lemma_pixel_number_below(img, tile, t, i, e + 1);
        lemma_digit_below(img, tile, t, i, e);
        let a = tile_extent(img, tile, t, e);
        let x = image_coord(img, i, e) % (tile[e as int] as nat);
        let q = pixel_number_from(img, tile, t, i, e + 1);
        let r = extents_from(img, tile, t, e + 1);
        assert(x + a * q < a * r) by (nonlinear_arith)
            requires
                x < a,
                q < r,
        {
            assert(a * q <= a * (r - 1));
        }
    }
}

/// `every_place_gets_a_pixel` for an image with no empty axis.
proof fn lemma_every_place(img: Seq<u64>, tile: Seq<u64>, i: nat)
    requires
        valid_tiling(img, tile),
        i < prefix_product(img, img.len()),
    ensures
        exists|t: nat, k: nat|
            t < tiles_product(img, tile, img.len()) && k < tile_pixels(img, tile, t)
                && #[trigger] pixel_offset(img, tile, t, k) == i,
{
    let t = tile_number_from(img, tile, i, 0);
    assert forall|f: nat| f < img.len() implies image_coord(img, i, f) / (tile[f as int] as nat)
        == #[trigger] tile_coord(img, tile, t, f) by {
        lemma_tile_number(img, tile, i, f);
        lemma_tile_coord_below(img, tile, i, f);
        lemma_ntiles_positive(img, tile, f);
        let n = ntiles(img, tile, f as int);
        let s = image_coord(img, i, f) / (tile[f as int] as nat);
        let q = tile_number_from(img, tile, i, f + 1);
        assert(s + n * q == q * n + s) by (nonlinear_arith);
        lemma_fundamental_div_mod_converse((q * n + s) as int, n as int, q as int, s as int);
    }
    lemma_tile_number(img, tile, i, img.len());
    lemma_tile_rest(img, tile, t, img.len());
    let tp = tiles_product(img, tile, img.len());
    lemma_fundamental_div_mod(t as int, tp as int);
    vstd::arithmetic::div_mod::lemma_mod_bound(t as int, tp as int);
    assert(tile_number_from(img, tile, i, img.len()) == 0);
    let z = t / tp;
    assert(z == 0);
    assert(tp * z == 0) by (nonlinear_arith)
        requires
            z == 0,
    ;
    assert(t < tp);
    let k = pixel_number_from(img, tile, t, i, 0);
    lemma_pixel_number_below(img, tile, t, i, 0);
    super::tiles::tile_pixels_land_in_image(img, tile, t, k);
    assert forall|f: nat| 0 <= f < img.len() implies #[trigger] image_coord(
        img,
        pixel_offset(img, tile, t, k),
        f,
    ) == image_coord(img, i, f) by {
        lemma_image_coord(img, tile, t, k, f);
        lemma_pixel_number(img, tile, t, i, f);
        lemma_digit_below(img, tile, t, i, f);
        let a = tile_extent(img, tile, t, f);
        let x = image_coord(img, i, f) % (tile[f as int] as nat);
        let q = pixel_number_from(img, tile, t, i, f + 1);
        assert(x + a * q == q * a + x) by (nonlinear_arith);
        lemma_fundamental_div_mod_converse((q * a + x) as int, a as int, q as int, x as int);
    }
    lemma_same_place(img, pixel_offset(img, tile, t, k), i, 0);
    assert(prefix_product(img, 0) == 1);
    assert(pixel_offset(img, tile, t, k) / 1 == pixel_offset(img, tile, t, k));
    assert(i / 1 == i);
}

/// Either the image has an empty axis, and then it has neither pixels nor
/// tiles, or the tiling is valid.
proof fn lemma_empty_or_valid(img: Seq<u64>, tile: Seq<u64>)
    requires
        tiles_image(img, tile),
    ensures
        valid_tiling(img, tile) || (prefix_product(img, img.len()) == 0 && tiles_product(
            img,
            tile,
            img.len(),
        ) == 0),
{
    if !valid_tiling(img, tile) {
        let d = choose|d: int| 0 <= d < img.len() && !(img[d] > 0);
        lemma_empty_axis(img, tile, d, img.len());
    }
}

/// No two pixels of the tiles land in the same place of the image: the place
/// of a pixel determines its tile and its number in the tile.
pub proof fn tile_pixels_do_not_collide(
    img: Seq<u64>,
    tile: Seq<u64>,
    t1: nat,
    k1: nat,
    t2: nat,
    k2: nat,
)
    requires
        tiles_image(img, tile),
        t1 < tiles_product(img, tile, img.len()),
        t2 < tiles_product(img, tile, img.len()),
        k1 < tile_pixels(img, tile, t1),
        k2 < tile_pixels(img, tile, t2),
        pixel_offset(img, tile, t1, k1) == pixel_offset(img, tile, t2, k2),
    ensures
        t1 == t2,
        k1 == k2,
{
    lemma_empty_or_valid(img, tile);
    lemma_no_collision(img, tile, t1, k1, t2, k2);
}

/// Every place of the image receives a pixel of some tile.
pub proof fn every_place_gets_a_pixel(img: Seq<u64>, tile: Seq<u64>, i: nat)
    requires
        tiles_image(img, tile),
        i < prefix_product(img, img.len()),
    ensures
        exists|t: nat, k: nat|
            t < tiles_product(img, tile, img.len()) && k < tile_pixels(img, tile, t)
                && #[trigger] pixel_offset(img, tile, t, k) == i,
{
    lemma_empty_or_valid(img, tile);
    lemma_every_place(img, tile, i);
}

} // verus!
