//! Remapping a buffer of RGBA pixels onto a palette.

use vstd::prelude::*;
use crate::color_space::{ColorSpace, RgbSpace, rgb_squared_distance};

verus! {

/// The index that the keys name nearest: the first of the least keys that
/// are not `None`, or `None` where every key is `None`.
pub open spec fn nearest_index(keys: Seq<Option<u64>>) -> Option<int>
    decreases keys.len(),
{
    if keys.len() == 0 {
        None
    } else {
        let prev = nearest_index(keys.drop_last());
        match keys.last() {
            None => prev,
            Some(k) => match prev {
                None => Some(keys.len() - 1),
                Some(j) => match keys[j] {
                    Some(b) => if k < b {
                        Some(keys.len() - 1)
                    } else {
                        prev
                    },
                    None => Some(keys.len() - 1),
                },
            },
        }
    }
}

/// `c` with its alpha replaced by `a`.
pub open spec fn with_alpha(c: [u8; 4], a: u8) -> [u8; 4] {
    [c[0], c[1], c[2], a]
}

/// What a pixel becomes, given the keys of the palette colours: a
/// transparent pixel stays; any other takes the red, green and blue of the
/// nearest palette colour (or keeps its own where no key is finite) and
/// keeps its alpha.
pub open spec fn remapped(pixel: [u8; 4], palette: Seq<[u8; 4]>, keys: Seq<Option<u64>>) -> [u8; 4] {
    if pixel[3] == 0 {
        pixel
    } else {
        match nearest_index(keys) {
            Some(j) => with_alpha(palette[j], pixel[3]),
            None => pixel,
        }
    }
}

/// The number of positions at which two pixel sequences differ.
pub open spec fn changed_count(before: Seq<[u8; 4]>, after: Seq<[u8; 4]>) -> nat
    decreases before.len(),
{
    if before.len() == 0 {
        0
    } else {
        changed_count(before.drop_last(), after.subrange(0, before.len() - 1)) + if before.last()
            == after[before.len() - 1] {
            0nat
        } else {
            1nat
        }
    }
}

/// The keys of a pixel against each palette colour in a colour space.
pub open spec fn keys_for<S: ColorSpace + ?Sized>(space: &S, pixel: [u8; 4], palette: Seq<[u8; 4]>) -> Seq<Option<u64>> {
    Seq::new(palette.len(), |j: int| space.key_of(pixel, palette[j]))
}

/// What every pixel becomes when remapped onto the palette in a colour
/// space (see [`remapped`]).
pub open spec fn remapped_all<S: ColorSpace + ?Sized>(space: &S, pixels: Seq<[u8; 4]>, palette: Seq<[u8; 4]>) -> Seq<[u8; 4]> {
    Seq::new(pixels.len(), |i: int| remapped(pixels[i], palette, keys_for(space, pixels[i], palette)))
}

/// The number of pixels that a remapping changed.
pub struct RemapStats {
    pub pixels_changed: u64,
}

/// The outcome of processing one image.
pub struct ProcessResult {
    pub pixels_changed: u64,
}

/// Whether two colours are equal.
pub fn same_color(a: &[u8; 4], b: &[u8; 4]) -> (r: bool)
    ensures
        r == (*a == *b),
{
    let r = a[0] == b[0] && a[1] == b[1] && a[2] == b[2] && a[3] == b[3];
    if r {
        assert(*a =~= *b);
    }
    r
}

/// The index of the nearest palette colour by the keys (see
/// [`nearest_index`]).
pub fn nearest(keys: &[Option<u64>]) -> (r: Option<usize>)
    ensures
        match r {
            Some(j) => nearest_index(keys@) == Some(j as int),
            None => nearest_index(keys@) is None,
        },
{
    let mut best: Option<usize> = None;
    let mut best_key: u64 = 0;
    let mut j: usize = 0;
    while j < keys.len()
        invariant
            j <= keys@.len(),
            match best {
                Some(b) => nearest_index(keys@.subrange(0, j as int)) == Some(b as int) && b < j
                    && keys@[b as int] == Some(best_key),
                None => nearest_index(keys@.subrange(0, j as int)) is None,
            },
        decreases keys@.len() - j,
    {
        proof {
            assert(keys@.subrange(0, j + 1).drop_last() =~= keys@.subrange(0, j as int));
        }
        match keys[j] {
            Some(k) => {
                match best {
                    None => {
                        best = Some(j);
                        best_key = k;
                    },
                    Some(_) => {
                        if k < best_key {
                            best = Some(j);
                            best_key = k;
                        }
                    },
                }
            },
            None => {},
        }
        j += 1;
    }
    proof {
        assert(keys@.subrange(0, keys@.len() as int) =~= keys@);
    }
    best
}

/// What one pixel becomes, given the keys of the palette colours in the
/// colour space: see [`remapped`].
pub fn remap_pixel(pixel: &[u8; 4], palette: &[[u8; 4]], keys: &[Option<u64>]) -> (r: [u8; 4])
    requires
        keys@.len() == palette@.len(),
    ensures
        r == remapped(*pixel, palette@, keys@),
{
    if pixel[3] == 0 {
        return *pixel;
    }
    proof {
        lemma_nearest_index_bounds(keys@);
    }
    match nearest(keys) {
        Some(j) => {
            let c = palette[j];
            let r = [c[0], c[1], c[2], pixel[3]];
            assert(r =~= with_alpha(c, pixel[3]));
            r
        },
        None => *pixel,
    }
}

/// The nearest index is in range and names a key that is not `None`.
pub proof fn lemma_nearest_index_bounds(keys: Seq<Option<u64>>)
    ensures
        nearest_index(keys) matches Some(j) ==> 0 <= j < keys.len() && keys[j] is Some,
        nearest_index(keys) is None <==> (forall|i: int| 0 <= i < keys.len() ==> keys[i] is None),
    decreases keys.len(),
{
    if keys.len() > 0 {
        lemma_nearest_index_bounds(keys.drop_last());
        if nearest_index(keys) is None {
            assert forall|i: int| 0 <= i < keys.len() implies keys[i] is None by {
                if i < keys.len() - 1 {
                    assert(keys.drop_last()[i] == keys[i]);
                }
            }
        }
        if forall|i: int| 0 <= i < keys.len() ==> keys[i] is None {
            assert forall|i: int| 0 <= i < keys.len() - 1 implies keys.drop_last()[i] is None by {
                assert(keys[i] is None);
            }
            assert(keys[keys.len() - 1] is None);
        }
    }
}

/// Remaps every pixel onto the palette in the given colour space.
///
/// A transparent pixel (alpha 0) is left as it is. Any other pixel takes the
/// red, green and blue of the nearest palette colour (the first of equally
/// near ones) and keeps its own alpha; the palette's alpha is ignored.
/// The count is the number of pixels that differ afterwards.
pub fn remap_pixels<S: ColorSpace + ?Sized>(pixels: &mut Vec<[u8; 4]>, palette: &[[u8; 4]], color_space: &S) -> (stats: RemapStats)
    requires
        palette@.len() > 0,
    ensures
        final(pixels)@ == remapped_all(color_space, old(pixels)@, palette@),
        stats.pixels_changed == changed_count(old(pixels)@, final(pixels)@),
{
    let ghost before = pixels@;
    let n = pixels.len();
    let mut keys: Vec<Option<u64>> = Vec::new();
    let mut pixels_changed: u64 = 0;
    let mut i: usize = 0;
    while i < n
        invariant
            n == before.len(),
            pixels@.len() == n,
            i <= n,
            forall|k: int| i <= k < n ==> pixels@[k] == before[k],
            forall|k: int|
                0 <= k < i ==> pixels@[k] == #[trigger] remapped_all(color_space, before, palette@)[k],
            pixels_changed == changed_count(before.subrange(0, i as int), pixels@.subrange(0, i as int)),
            pixels_changed <= i,
        decreases n - i,
    {
        let pixel = pixels[i];
        let q = if pixel[3] == 0 {
            pixel
        } else {
            keys.clear();
            let mut j: usize = 0;
            while j < palette.len()
                invariant
                    j <= palette@.len(),
                    keys@.len() == j,
                    forall|t: int|
                        0 <= t < j ==> keys@[t] == #[trigger] keys_for(color_space, pixel, palette@)[t],
                decreases palette@.len() - j,
            {
                let k = color_space.distance_key(&pixel, &palette[j]);
                keys.push(k);
                j += 1;
            }
            proof {
                assert(keys@ =~= keys_for(color_space, pixel, palette@));
            }
            remap_pixel(&pixel, palette, keys.as_slice())
        };
        let changed = !same_color(&pixel, &q);
        let ghost prev = pixels@;
        pixels.set(i, q);
        proof {
            assert(remapped_all(color_space, before, palette@)[i as int] == q);
            assert(before.subrange(0, i + 1).drop_last() =~= before.subrange(0, i as int));
            assert(pixels@.subrange(0, i + 1).subrange(0, i as int) =~= prev.subrange(0, i as int));
        }
        if changed {
            pixels_changed += 1;
        }
        i += 1;
    }
    proof {
        assert(before.subrange(0, n as int) =~= before);
        assert(pixels@.subrange(0, n as int) =~= pixels@);
        assert(pixels@ =~= remapped_all(color_space, before, palette@));
    }
    RemapStats { pixels_changed }
}

/// Remapping picks the nearest colour: the index chosen has the least key
/// that is not `None`, and every earlier index has a greater key or none.
pub proof fn lemma_nearest_index_is_first_least(keys: Seq<Option<u64>>)
    ensures
        nearest_index(keys) matches Some(j) ==> {
            &&& 0 <= j < keys.len()
            &&& keys[j] is Some
            &&& forall|i: int|
                0 <= i < keys.len() && #[trigger] keys[i] is Some ==> keys[j]->0 <= keys[i]->0
            &&& forall|i: int| 0 <= i < j && #[trigger] keys[i] is Some ==> keys[j]->0 < keys[i]->0
        },
        nearest_index(keys) is None ==> forall|i: int| 0 <= i < keys.len() ==> #[trigger] keys[i] is None,
    decreases keys.len(),
{
    lemma_nearest_index_bounds(keys);
    if keys.len() > 0 {
        let prev = keys.drop_last();
        lemma_nearest_index_is_first_least(prev);
        lemma_nearest_index_bounds(prev);
        assert forall|i: int| 0 <= i < keys.len() - 1 implies #[trigger] keys[i] == prev[i] by {}
    }
}

/// What any colour space makes of a pixel: a transparent pixel stays as it
/// is; any other keeps its alpha and either stays as it is or takes the red,
/// green and blue of some palette colour.
pub proof fn lemma_remapping_properties<S: ColorSpace + ?Sized>(space: &S, pixel: [u8; 4], palette: Seq<[u8; 4]>)
    ensures
        ({
            let after = remapped(pixel, palette, keys_for(space, pixel, palette));
            &&& after[3] == pixel[3]
            &&& pixel[3] == 0 ==> after == pixel
            &&& pixel[3] != 0 ==> after == pixel || exists|j: int|
                0 <= j < palette.len() && after == #[trigger] with_alpha(palette[j], pixel[3])
        }),
{
    let keys = keys_for(space, pixel, palette);
    lemma_nearest_index_bounds(keys);
    if pixel[3] != 0 {
        if let Some(j) = nearest_index(keys) {
            assert(remapped(pixel, palette, keys) == with_alpha(palette[j], pixel[3]));
        }
    }
}

proof fn lemma_rgb_squared_distance_bounds(p: [u8; 4], q: [u8; 4])
    ensures
        0 <= rgb_squared_distance(p, q) <= 195075,
        rgb_squared_distance(p, q) == 0 <==> (p[0] == q[0] && p[1] == q[1] && p[2] == q[2]),
{
    let d0 = p[0] - q[0];
    let d1 = p[1] - q[1];
    let d2 = p[2] - q[2];
    assert(0 <= d0 * d0 <= 65025 && 0 <= d1 * d1 <= 65025 && 0 <= d2 * d2 <= 65025) by (nonlinear_arith)
        requires
            -255 <= d0 <= 255,
            -255 <= d1 <= 255,
            -255 <= d2 <= 255,
    ;
    assert(d0 * d0 == 0 <==> d0 == 0) by (nonlinear_arith);
    assert(d1 * d1 == 0 <==> d1 == 0) by (nonlinear_arith);
    assert(d2 * d2 == 0 <==> d2 == 0) by (nonlinear_arith);
    assert(rgb_squared_distance(p, q) == d0 * d0 + d1 * d1 + d2 * d2);
}

/// In plain RGB an opaque pixel takes the palette colour of least squared
/// distance (the first of equally near ones), with the pixel's alpha.
pub proof fn lemma_rgb_remap_is_nearest(pixel: [u8; 4], palette: Seq<[u8; 4]>)
    requires
        pixel[3] != 0,
        palette.len() > 0,
    ensures
        exists|j: int|
            {
                &&& 0 <= j < palette.len()
                &&& remapped(pixel, palette, keys_for(&RgbSpace, pixel, palette)) == with_alpha(
                    palette[j],
                    pixel[3],
                )
                &&& forall|i: int|
                    0 <= i < palette.len() ==> rgb_squared_distance(pixel, palette[j])
                        <= #[trigger] rgb_squared_distance(pixel, palette[i])
                &&& forall|i: int|
                    0 <= i < j ==> rgb_squared_distance(pixel, palette[j])
                        < #[trigger] rgb_squared_distance(pixel, palette[i])
            },
{
    let keys = keys_for(&RgbSpace, pixel, palette);
    lemma_nearest_index_is_first_least(keys);
    assert(keys[0] is Some);
    let j = nearest_index(keys)->0;
    assert forall|i: int| 0 <= i < palette.len() implies #[trigger] keys[i]->0
        == rgb_squared_distance(pixel, palette[i]) by {
        lemma_rgb_squared_distance_bounds(pixel, palette[i]);
    }
    assert forall|i: int| 0 <= i < palette.len() implies rgb_squared_distance(pixel, palette[j])
        <= #[trigger] rgb_squared_distance(pixel, palette[i]) by {
        assert(keys[i] is Some);
    }
    assert forall|i: int| 0 <= i < j implies rgb_squared_distance(pixel, palette[j])
        < #[trigger] rgb_squared_distance(pixel, palette[i]) by {
        assert(keys[i] is Some);
    }
}

/// In plain RGB a pixel whose red, green and blue are those of a palette
/// colour is left as it is.
pub proof fn lemma_rgb_remap_keeps_palette_colors(pixel: [u8; 4], palette: Seq<[u8; 4]>, i: int)
    requires
        0 <= i < palette.len(),
        palette[i][0] == pixel[0] && palette[i][1] == pixel[1] && palette[i][2] == pixel[2],
    ensures
        remapped(pixel, palette, keys_for(&RgbSpace, pixel, palette)) == pixel,
{
    if pixel[3] != 0 {
        lemma_rgb_remap_is_nearest(pixel, palette);
        let j = choose|j: int|
            {
                &&& 0 <= j < palette.len()
                &&& remapped(pixel, palette, keys_for(&RgbSpace, pixel, palette)) == with_alpha(
                    palette[j],
                    pixel[3],
                )
                &&& forall|i: int|
                    0 <= i < palette.len() ==> rgb_squared_distance(pixel, palette[j])
                        <= #[trigger] rgb_squared_distance(pixel, palette[i])
                &&& forall|i: int|
                    0 <= i < j ==> rgb_squared_distance(pixel, palette[j])
                        < #[trigger] rgb_squared_distance(pixel, palette[i])
            };
        lemma_rgb_squared_distance_bounds(pixel, palette[i]);
        lemma_rgb_squared_distance_bounds(pixel, palette[j]);
        assert(rgb_squared_distance(pixel, palette[j]) <= rgb_squared_distance(pixel, palette[i]));
        assert(with_alpha(palette[j], pixel[3]) =~= pixel);
    }
}

/// In plain RGB, remapping a remapped pixel again leaves it as it is.
pub proof fn lemma_rgb_remap_idempotent(pixel: [u8; 4], palette: Seq<[u8; 4]>)
    requires
        palette.len() > 0,
    ensures
        ({
            let once = remapped(pixel, palette, keys_for(&RgbSpace, pixel, palette));
            remapped(once, palette, keys_for(&RgbSpace, once, palette)) == once
        }),
{
    let once = remapped(pixel, palette, keys_for(&RgbSpace, pixel, palette));
    if pixel[3] != 0 {
        lemma_rgb_remap_is_nearest(pixel, palette);
        let j = choose|j: int|
            {
                &&& 0 <= j < palette.len()
                &&& remapped(pixel, palette, keys_for(&RgbSpace, pixel, palette)) == with_alpha(
                    palette[j],
                    pixel[3],
                )
                &&& forall|i: int|
                    0 <= i < palette.len() ==> rgb_squared_distance(pixel, palette[j])
                        <= #[trigger] rgb_squared_distance(pixel, palette[i])
                &&& forall|i: int|
                    0 <= i < j ==> rgb_squared_distance(pixel, palette[j])
                        < #[trigger] rgb_squared_distance(pixel, palette[i])
            };
        lemma_rgb_remap_keeps_palette_colors(once, palette, j);
    }
}

/// In plain RGB, remapping a remapped buffer again leaves every pixel as it
/// is, so a second remapping counts no change.
pub proof fn lemma_rgb_remap_all_idempotent(pixels: Seq<[u8; 4]>, palette: Seq<[u8; 4]>)
    requires
        palette.len() > 0,
    ensures
        remapped_all(&RgbSpace, remapped_all(&RgbSpace, pixels, palette), palette) == remapped_all(
            &RgbSpace,
            pixels,
            palette,
        ),
        changed_count(
            remapped_all(&RgbSpace, pixels, palette),
            remapped_all(&RgbSpace, remapped_all(&RgbSpace, pixels, palette), palette),
        ) == 0,
{
    let once = remapped_all(&RgbSpace, pixels, palette);
    let twice = remapped_all(&RgbSpace, once, palette);
    assert forall|i: int| 0 <= i < once.len() implies #[trigger] twice[i] == once[i] by {
        lemma_rgb_remap_idempotent(pixels[i], palette);
    }
    assert(twice =~= once);
    lemma_changed_count(once, twice);
}

/// No pixel changed exactly where the count is zero; the count never
/// exceeds the number of pixels.
pub proof fn lemma_changed_count(before: Seq<[u8; 4]>, after: Seq<[u8; 4]>)
    requires
        before.len() == after.len(),
    ensures
        changed_count(before, after) <= before.len(),
        changed_count(before, after) == 0 <==> before == after,
    decreases before.len(),
{
    if before.len() == 0 {
        assert(before =~= after);
    } else {
        let n = before.len() - 1;
        lemma_changed_count(before.drop_last(), after.subrange(0, n));
        if changed_count(before, after) == 0 {
            assert(before.drop_last() == after.subrange(0, n));
            assert forall|i: int| 0 <= i < before.len() implies before[i] == after[i] by {
                if i < n {
                    assert(before.drop_last()[i] == after.subrange(0, n)[i]);
                }
            }
            assert(before =~= after);
        }
        if before == after {
            assert(before.drop_last() =~= after.subrange(0, n));
        }
    }
}

/// The count of changed pixels is additive: nothing is counted for empty
/// buffers, and appending one pixel before and after adds one exactly when
/// the two differ.
pub proof fn lemma_changed_count_push(before: Seq<[u8; 4]>, after: Seq<[u8; 4]>, x: [u8; 4], y: [u8; 4])
    requires
        before.len() == after.len(),
    ensures
        changed_count(Seq::<[u8; 4]>::empty(), Seq::<[u8; 4]>::empty()) == 0,
        changed_count(before.push(x), after.push(y)) == changed_count(before, after) + if x == y {
            0int
        } else {
            1int
        },
{
    assert(before.push(x).drop_last() =~= before);
    assert(after.push(y).subrange(0, before.len() as int) =~= after);
    assert(before.push(x).last() == x);
    assert(after.push(y)[before.len() as int] == y);
}

/// A remapping of a buffer counts exactly the pixels it changed: with one
/// pixel appended, the count grows by one exactly when that pixel changes.
pub proof fn lemma_remap_count_push<S: ColorSpace + ?Sized>(space: &S, pixels: Seq<[u8; 4]>, palette: Seq<[u8; 4]>, x: [u8; 4])
    ensures
        ({
            let y = remapped(x, palette, keys_for(space, x, palette));
            changed_count(pixels.push(x), remapped_all(space, pixels.push(x), palette))
                == changed_count(pixels, remapped_all(space, pixels, palette)) + if x == y {
                0int
            } else {
                1int
            }
        }),
{
    let y = remapped(x, palette, keys_for(space, x, palette));
    assert(remapped_all(space, pixels.push(x), palette) =~= remapped_all(space, pixels, palette).push(y));
    lemma_changed_count_push(pixels, remapped_all(space, pixels, palette), x, y);
}

/// The RGB distance is a distance on red, green and blue: it is symmetric,
/// it is zero exactly between colours of the same red, green and blue, it
/// ignores alpha, and it never exceeds that of black and white.
pub proof fn lemma_rgb_distance_properties(p: [u8; 4], q: [u8; 4], a: u8, b: u8)
    ensures
        rgb_squared_distance(p, q) == rgb_squared_distance(q, p),
        0 <= rgb_squared_distance(p, q) <= rgb_squared_distance([0u8, 0, 0, 0], [255u8, 255, 255, 0]),
        rgb_squared_distance(p, q) == 0 <==> (p[0] == q[0] && p[1] == q[1] && p[2] == q[2]),
        rgb_squared_distance(with_alpha(p, a), with_alpha(q, b)) == rgb_squared_distance(p, q),
{
    lemma_rgb_squared_distance_bounds(p, q);
    let d0 = p[0] - q[0];
    let d1 = p[1] - q[1];
    let d2 = p[2] - q[2];
    assert(d0 * d0 == (-d0) * (-d0) && d1 * d1 == (-d1) * (-d1) && d2 * d2 == (-d2) * (-d2)) by (nonlinear_arith);
    let z: [u8; 4] = [0, 0, 0, 0];
    let w: [u8; 4] = [255, 255, 255, 0];
    assert(z[0] == 0 && z[1] == 0 && z[2] == 0);
    assert(w[0] == 255 && w[1] == 255 && w[2] == 255);
    assert(rgb_squared_distance(z, w) == 195075);
}

} // verus!
