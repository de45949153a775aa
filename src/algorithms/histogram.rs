//! The most frequent color of an image.
use vstd::prelude::*;

use crate::algorithms::dithering::rgb_of;
use crate::pixel::PixelBuffer;
use crate::utils::{is_transparent_pixel, pixel_transparent};

verus! {

/// How many of the first `n` pixels have color `c`.
pub open spec fn count_upto(px: Seq<[u8; 4]>, c: Seq<u8>, n: int) -> int
    decreases n,
{
    if n <= 0 {
        0
    } else {
        count_upto(px, c, n - 1) + if rgb_of(px[n - 1]) == c {
            1int
        } else {
            0int
        }
    }
}

/// How many pixels have color `c`.
pub open spec fn color_count(px: Seq<[u8; 4]>, c: Seq<u8>) -> int {
    count_upto(px, c, px.len() as int)
}

/// `c` is the most frequent color of `px`, and of the colors as frequent as it,
/// the one met first in scan order.
pub open spec fn is_mode(px: Seq<[u8; 4]>, c: Seq<u8>) -> bool {
    exists|j: int|
        0 <= j < px.len() && rgb_of(#[trigger] px[j]) == c && (forall|k: int|
            0 <= k < px.len() ==> color_count(px, rgb_of(#[trigger] px[k])) <= color_count(px, c))
            && (forall|k: int| 0 <= k < j ==> color_count(px, rgb_of(#[trigger] px[k])) < color_count(px, c))
}

/// The pixels whose alpha reaches the opacity threshold, in scan order.
pub open spec fn opaque_pixels(px: Seq<[u8; 4]>) -> Seq<[u8; 4]>
    decreases px.len(),
{
    if px.len() == 0 {
        Seq::empty()
    } else if is_transparent_pixel(px.last()) {
        opaque_pixels(px.drop_last())
    } else {
        opaque_pixels(px.drop_last()).push(px.last())
    }
}

/// Picks the color that occurs most often in an image.
pub struct HistogramAlgorithm {}

proof fn lemma_count_bound(px: Seq<[u8; 4]>, c: Seq<u8>, n: int)
    requires
        0 <= n,
    ensures
        0 <= count_upto(px, c, n) <= n,
    decreases n,
{
    if n > 0 {
        lemma_count_bound(px, c, n - 1);
    }
}

proof fn lemma_count_absent(px: Seq<[u8; 4]>, c: Seq<u8>, n: int)
    requires
        0 <= n,
        forall|k: int| 0 <= k < n ==> rgb_of(#[trigger] px[k]) != c,
    ensures
        count_upto(px, c, n) == 0,
    decreases n,
{
    if n > 0 {
        lemma_count_absent(px, c, n - 1);
    }
}

impl HistogramAlgorithm {
    pub fn new() -> Self {
        HistogramAlgorithm {  }
    }

    /// The most frequent color over the opaque pixels, the first met in scan
    /// order among equally frequent ones. A tile without an opaque pixel gets
    /// the most frequent color over all its pixels; `None` for an image
    /// without pixels.
    pub fn average_color(&self, image: &PixelBuffer) -> (r: Option<[u8; 3]>)
        ensures
            r is None <==> image.pixels@.len() == 0,
            opaque_pixels(image.pixels@).len() > 0 ==> (r matches Some(c) && is_mode(
                opaque_pixels(image.pixels@),
                c@,
            )),
            opaque_pixels(image.pixels@).len() == 0 ==> (r matches Some(c) ==> is_mode(image.pixels@, c@)),
    {
        let opaque = opaque_only(&image.pixels);
        if opaque.len() > 0 {
            mode_of(&opaque)
        } else {
            mode_of(&image.pixels)
        }
    }
}

/// The opaque pixels, kept in scan order.
fn opaque_only(pixels: &Vec<[u8; 4]>) -> (r: Vec<[u8; 4]>)
    ensures
        r@ == opaque_pixels(pixels@),
{
    let mut r: Vec<[u8; 4]> = Vec::new();
    let mut i: usize = 0;
    while i < pixels.len()
        invariant
            i <= pixels@.len(),
            r@ == opaque_pixels(pixels@.subrange(0, i as int)),
        decreases pixels@.len() - i,
    {
        let p = pixels[i];
        proof {
            let pre = pixels@.subrange(0, i as int + 1);
            assert(pre.drop_last() =~= pixels@.subrange(0, i as int));
            assert(pre.last() == p);
        }
        if !pixel_transparent(&p) {
            r.push(p);
        }
        i = i + 1;
    }
    assert(pixels@.subrange(0, i as int) =~= pixels@);
    r
}

/// The most frequent color of `pixels`, the first met in scan order among
/// equally frequent ones.
fn mode_of(pixels: &Vec<[u8; 4]>) -> (r: Option<[u8; 3]>)
    ensures
        r is None <==> pixels@.len() == 0,
        r matches Some(c) ==> is_mode(pixels@, c@),
{
    let ghost px = pixels@;
    let n = pixels.len();
    let mut colors: Vec<[u8; 3]> = Vec::new();
    let mut counts: Vec<usize> = Vec::new();
    let ghost mut first: Seq<int> = Seq::empty();
    let ghost mut slot: Seq<int> = Seq::empty();
    let mut i: usize = 0;
    while i < n
        invariant
            px == pixels@,
            n == px.len(),
            i <= n,
            colors@.len() == counts@.len(),
            first.len() == colors@.len(),
            slot.len() == i,
            i > 0 ==> colors@.len() > 0,
            forall|t: int| 0 <= t < colors@.len() ==> #[trigger] counts@[t] == count_upto(px, colors@[t]@, i as int),
            forall|t: int| 0 <= t < colors@.len() ==> 0 <= #[trigger] first[t] < i,
            forall|t: int| 0 <= t < colors@.len() ==> rgb_of(px[#[trigger] first[t]]) == colors@[t]@,
            forall|t: int, k: int| 0 <= t < colors@.len() && 0 <= k < first[t] ==> rgb_of(#[trigger] px[k]) != #[trigger] colors@[t]@,
            forall|t: int, u: int| 0 <= t < u < colors@.len() ==> #[trigger] first[t] < #[trigger] first[u],
            forall|k: int| 0 <= k < i ==> 0 <= #[trigger] slot[k] < colors@.len(),
            forall|k: int| 0 <= k < i ==> colors@[#[trigger] slot[k]]@ == rgb_of(px[k]),
        decreases n - i,
    {
        let p = pixels[i];
        let rgb: [u8; 3] = [p[0], p[1], p[2]];
        assert(rgb@ =~= rgb_of(p));
        let mut t: usize = 0;
        let mut found = false;
        while t < colors.len()
            invariant
                t <= colors@.len(),
                !found ==> forall|u: int| 0 <= u < t ==> (#[trigger] colors@[u])@ != rgb@,
                found ==> t < colors@.len() && colors@[t as int]@ == rgb@,
            ensures
                !found ==> forall|u: int| 0 <= u < colors@.len() ==> (#[trigger] colors@[u])@ != rgb@,
                found ==> t < colors@.len() && colors@[t as int]@ == rgb@,
            decreases colors@.len() - t + if found { 0int } else { 1int },
        {
            let c = colors[t];
            if c[0] == rgb[0] && c[1] == rgb[1] && c[2] == rgb[2] {
                assert(c@ =~= rgb@);
                found = true;
                break;
            }
            t = t + 1;
        }
        proof {
            lemma_count_bound(px, rgb@, i as int);
        }
        let ghost old_colors = colors@;
        let ghost old_counts = counts@;
        let ghost old_first = first;
        if found {
            let v = counts[t] + 1;
            counts.set(t, v);
            proof {
                slot = slot.push(t as int);
            }
        } else {
            colors.push(rgb);
            counts.push(1);
            proof {
                first = first.push(i as int);
                slot = slot.push(colors@.len() - 1);
            }
        }
        proof {
            let ii = i as int;
            assert(px[ii] == p);
            assert forall|u: int| 0 <= u < colors@.len() implies #[trigger] counts@[u] == count_upto(
                px,
                colors@[u]@,
                ii + 1,
            ) by {
                assert(count_upto(px, colors@[u]@, ii + 1) == count_upto(px, colors@[u]@, ii) + if rgb_of(
                    px[ii],
                ) == colors@[u]@ {
                    1int
                } else {
                    0int
                });
                if !found && u == old_colors.len() {
                    assert forall|k: int| 0 <= k < ii implies rgb_of(#[trigger] px[k]) != rgb@ by {
                        let s = slot[k];
                        assert(old_colors[s]@ == rgb_of(px[k]));
                    }
                    lemma_count_absent(px, rgb@, ii);
                }
                if u < old_colors.len() {
                    assert(colors@[u] == old_colors[u]);
                    assert(old_counts[u] == count_upto(px, old_colors[u]@, ii));
                }
                if u != t || !found {
                    if colors@[u]@ == rgb@ {
                        if found {
                            // two table entries of one color contradict their first occurrences
                            let a = if u < t { u } else { t as int };
                            let b = if u < t { t as int } else { u };
                            assert(first[a] < first[b]);
                            assert(rgb_of(px[first[a]]) == colors@[a]@);
                        } else if u < old_colors.len() {
                            assert(old_colors[u]@ != rgb@);
                        }
                    }
                }
            }
            assert forall|u: int, k: int| 0 <= u < colors@.len() && 0 <= k < first[u] implies rgb_of(
                #[trigger] px[k],
            ) != #[trigger] colors@[u]@ by {
                if !found && u == colors@.len() - 1 {
                    let s = slot[k];
                    assert(colors@[s]@ == rgb_of(px[k]));
                }
            }
        }
        i = i + 1;
    }
    if n == 0 {
        return None;
    }
    let mut best: usize = 0;
    let mut t: usize = 1;
    while t < counts.len()
        invariant
            colors@.len() == counts@.len(),
            1 <= colors@.len(),
            1 <= t <= counts@.len(),
            best < t,
            forall|u: int| 0 <= u < t ==> counts@[u] <= #[trigger] counts@[best as int],
            forall|u: int| 0 <= u < best ==> #[trigger] counts@[u] < counts@[best as int],
        decreases counts@.len() - t,
    {
        if counts[t] > counts[best] {
            best = t;
        }
        t = t + 1;
    }
    proof {
        let m = colors@[best as int]@;
        let j = first[best as int];
        assert(count_upto(px, m, n as int) == counts@[best as int]);
        assert forall|k: int| 0 <= k < px.len() implies color_count(px, rgb_of(#[trigger] px[k]))
            <= color_count(px, m) by {
            let s = slot[k];
            assert(counts@[s] == count_upto(px, colors@[s]@, n as int));
        }
        assert forall|k: int| 0 <= k < j implies color_count(px, rgb_of(#[trigger] px[k]))
            < color_count(px, m) by {
            let s = slot[k];
            assert(counts@[s] == count_upto(px, colors@[s]@, n as int));
            if s >= best {
                if s > best {
                    assert(first[best as int] < first[s]);
                }
                assert(rgb_of(px[k]) != colors@[s]@);
            }
        }
        assert(rgb_of(px[j]) == m);
    }
    Some(colors[best])
}

} // verus!
