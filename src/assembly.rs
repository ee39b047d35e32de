//! Putting the results of a parallel render back in emission order.
//!
//! Workers finish their pixels in any order and hand each result back tagged
//! with its pixel. The image is rebuilt by addressing a buffer with the pixel's
//! emission position, so what comes out depends only on the tagged results and
//! never on the order in which they arrived.
use vstd::prelude::*;

use crate::image::{
    emission_index, lemma_emission_index_inverse, lemma_pixel_at_inverse, pixel_at,
    pixel_at_spec, emission_index_spec, ImageSize, PixelCoord, Rgb, ScanOrder,
};

verus! {

/// The color computed for one pixel, with the pixel it belongs to.
#[derive(Clone, Copy, Debug, PartialEq, Eq, Structural)]
pub struct TaggedPixel {
    pub coord: PixelCoord,
    pub color: Rgb,
}

/// Why a set of tagged results does not make up one image.
#[derive(Clone, Copy, Debug, PartialEq, Eq, Structural)]
pub enum AssemblyError {
    /// A result names a pixel outside the image.
    OutOfImage(PixelCoord),
    /// A second result for a pixel that already has one.
    Duplicate(PixelCoord),
    /// No result for this pixel.
    Missing(PixelCoord),
}

/// Result `p` names the same pixel as an earlier result.
pub open spec fn repeats_earlier(s: Seq<TaggedPixel>, p: int) -> bool {
    exists|q: int| 0 <= q < p && #[trigger] s[q].coord == s[p].coord
}

/// Result `p` cannot be placed: its pixel is outside the image or already taken.
pub open spec fn is_fault(size: ImageSize, s: Seq<TaggedPixel>, p: int) -> bool {
    !size.contains(s[p].coord) || repeats_earlier(s, p)
}

/// Result `p` is the first that cannot be placed.
pub open spec fn is_first_fault(size: ImageSize, s: Seq<TaggedPixel>, p: int) -> bool {
    &&& 0 <= p < s.len()
    &&& is_fault(size, s, p)
    &&& forall|q: int| 0 <= q < p ==> !#[trigger] is_fault(size, s, q)
}

/// Some result names pixel `c`.
pub open spec fn covered(s: Seq<TaggedPixel>, c: PixelCoord) -> bool {
    exists|p: int| 0 <= p < s.len() && #[trigger] s[p].coord == c
}

/// The results name each pixel of the image exactly once, and nothing else.
pub open spec fn is_full_set(size: ImageSize, s: Seq<TaggedPixel>) -> bool {
    &&& forall|p: int| 0 <= p < s.len() ==> size.contains(#[trigger] s[p].coord)
    &&& forall|p: int, q: int|
        0 <= p < s.len() && 0 <= q < s.len() && p != q ==> #[trigger] s[p].coord
            != #[trigger] s[q].coord
    &&& forall|c: PixelCoord| size.contains(c) ==> #[trigger] covered(s, c)
}

/// The color that the results give pixel `c`.
pub open spec fn color_of(s: Seq<TaggedPixel>, c: PixelCoord) -> Rgb {
    s[choose|p: int| 0 <= p < s.len() && #[trigger] s[p].coord == c].color
}

/// The image, in emission order, that a full set of results makes up.
pub open spec fn image_of(size: ImageSize, order: ScanOrder, s: Seq<TaggedPixel>) -> Seq<Rgb> {
    Seq::new(size.pixel_count_spec() as nat, |k: int| color_of(s, pixel_at_spec(size, order, k)))
}

/// What the results make up: an image when they are a full set, else nothing.
pub open spec fn assembled(size: ImageSize, order: ScanOrder, s: Seq<TaggedPixel>) -> Option<
    Seq<Rgb>,
> {
    if is_full_set(size, s) {
        Some(image_of(size, order, s))
    } else {
        None
    }
}

/// A full set of results stays a full set in any other order, and gives each
/// pixel the same color.
proof fn lemma_full_set_reordered(size: ImageSize, a: Seq<TaggedPixel>, b: Seq<TaggedPixel>)
    requires
        a.to_multiset() == b.to_multiset(),
        is_full_set(size, a),
    ensures
        is_full_set(size, b),
        forall|c: PixelCoord| size.contains(c) ==> color_of(a, c) == #[trigger] color_of(b, c),
{
    broadcast use vstd::seq_lib::group_to_multiset_ensures;

    assert forall|x: TaggedPixel| b.contains(x) implies a.contains(x) by {
        assert(b.to_multiset().count(x) > 0);
    }
    assert forall|x: TaggedPixel| a.contains(x) implies b.contains(x) by {
        assert(a.to_multiset().count(x) > 0);
    }
    assert forall|i: int, j: int| 0 <= i < a.len() && 0 <= j < a.len() && i != j implies a[i]
        != a[j] by {
        assert(a[i].coord != a[j].coord);
    }
    assert(a.no_duplicates());
    a.lemma_multiset_has_no_duplicates();
    b.lemma_multiset_has_no_duplicates_conv();
    assert forall|p: int| 0 <= p < b.len() implies size.contains(#[trigger] b[p].coord) by {
        assert(b.contains(b[p]));
    }
    assert forall|p: int, q: int|
        0 <= p < b.len() && 0 <= q < b.len() && p != q implies #[trigger] b[p].coord
        != #[trigger] b[q].coord by {
        assert(b.contains(b[p]));
        assert(b.contains(b[q]));
        let pa = choose|i: int| 0 <= i < a.len() && a[i] == b[p];
        let qa = choose|i: int| 0 <= i < a.len() && a[i] == b[q];
        if b[p].coord == b[q].coord {
            assert(a[pa].coord == a[qa].coord);
        }
    }
    assert forall|c: PixelCoord| size.contains(c) implies #[trigger] covered(b, c) by {
        assert(covered(a, c));
        let pa = choose|i: int| 0 <= i < a.len() && #[trigger] a[i].coord == c;
        assert(a.contains(a[pa]));
        let pb = choose|i: int| 0 <= i < b.len() && b[i] == a[pa];
        assert(b[pb].coord == c);
    }
    assert forall|c: PixelCoord| size.contains(c) implies color_of(a, c) == #[trigger] color_of(
        b,
        c,
    ) by {
        assert(covered(a, c));
        assert(covered(b, c));
        let pa = choose|i: int| 0 <= i < a.len() && #[trigger] a[i].coord == c;
        let pb = choose|i: int| 0 <= i < b.len() && #[trigger] b[i].coord == c;
        assert(a.contains(a[pa]));
        let qb = choose|i: int| 0 <= i < b.len() && b[i] == a[pa];
        assert(b[qb].coord == c);
        assert(qb == pb);
    }
}

/// Reassembly ignores the order in which results arrive: two runs whose workers
/// return the same results, finished in any order, make up the same image, or
/// both fail to make one up.
pub proof fn lemma_completion_order_irrelevant(
    size: ImageSize,
    order: ScanOrder,
    a: Seq<TaggedPixel>,
    b: Seq<TaggedPixel>,
)
    requires
        a.to_multiset() == b.to_multiset(),
    ensures
        assembled(size, order, a) == assembled(size, order, b),
{
    if is_full_set(size, a) {
        lemma_full_set_reordered(size, a, b);
        assert forall|k: int| 0 <= k < size.pixel_count_spec() implies image_of(size, order, a)[k]
            == image_of(size, order, b)[k] by {
            lemma_pixel_at_inverse(size, order, k);
        }
        assert(image_of(size, order, a) =~= image_of(size, order, b));
    } else if is_full_set(size, b) {
        lemma_full_set_reordered(size, b, a);
    }
}

/// Builds the image from results that arrived in any order.
///
/// Results are placed one by one; the first that names a pixel outside the
/// image, or a pixel already placed, stops the assembly. When all are placed,
/// the first pixel in emission order without a result is reported missing.
pub fn assemble(size: ImageSize, order: ScanOrder, results: &Vec<TaggedPixel>) -> (r: Result<
    Vec<Rgb>,
    AssemblyError,
>)
    requires
        size.wf(),
    ensures
        r is Ok <==> is_full_set(size, results@),
        match r {
            Ok(img) => img@ == image_of(size, order, results@),
            Err(AssemblyError::OutOfImage(c)) => exists|p: int|
                is_first_fault(size, results@, p) && !size.contains(results@[p].coord)
                    && c == results@[p].coord,
            Err(AssemblyError::Duplicate(c)) => exists|p: int|
                is_first_fault(size, results@, p) && size.contains(results@[p].coord)
                    && c == results@[p].coord,
            Err(AssemblyError::Missing(c)) => {
                &&& forall|p: int| 0 <= p < results@.len() ==> !#[trigger] is_fault(size, results@, p)
                &&& size.contains(c)
                &&& !covered(results@, c)
                &&& forall|k: int|
                    0 <= k < emission_index_spec(size, order, c) ==> #[trigger] covered(
                        results@,
                        pixel_at_spec(size, order, k),
                    )
            },
        },
{
    let ghost s = results@;
    let n = size.pixel_count();
    let mut slots: Vec<Option<Rgb>> = Vec::new();
    let mut k: usize = 0;
    while k < n
        invariant
            k <= n,
            slots@.len() == k,
            forall|j: int| 0 <= j < k ==> #[trigger] slots@[j] is None,
        decreases n - k,
    {
        slots.push(None);
        k = k + 1;
    }
    let len = results.len();
    let mut p: usize = 0;
    while p < len
        invariant
            size.wf(),
            s == results@,
            len == s.len(),
            n == size.pixel_count_spec(),
            slots@.len() == n,
            p <= len,
            forall|q: int| 0 <= q < p ==> !#[trigger] is_fault(size, s, q),
            forall|j: int|
                0 <= j < n ==> (#[trigger] slots@[j] is None <==> !exists|q: int|
                    0 <= q < p && #[trigger] s[q].coord == pixel_at_spec(size, order, j)),
            forall|j: int|
                0 <= j < n && #[trigger] slots@[j] is Some ==> exists|q: int|
                    0 <= q < p && #[trigger] s[q].coord == pixel_at_spec(size, order, j)
                        && s[q].color == slots@[j]->0,
        decreases len - p,
    {
        let t = results[p];
        if !(t.coord.row < size.height && t.coord.col < size.width) {
            assert(is_first_fault(size, s, p as int));
            return Err(AssemblyError::OutOfImage(t.coord));
        }
        let k = emission_index(size, order, t.coord);
        proof {
            lemma_emission_index_inverse(size, order, t.coord);
        }
        if slots[k].is_some() {
            assert(repeats_earlier(s, p as int));
            assert(is_first_fault(size, s, p as int));
            return Err(AssemblyError::Duplicate(t.coord));
        }
        slots.set(k, Some(t.color));
        proof {
            assert forall|j: int| 0 <= j < n && j != k implies pixel_at_spec(size, order, j)
                != t.coord by {
                lemma_pixel_at_inverse(size, order, j);
            }
            assert(!is_fault(size, s, p as int));
        }
        p = p + 1;
    }
    proof {
        assert forall|a: int, b: int|
            0 <= a < s.len() && 0 <= b < s.len() && a != b implies #[trigger] s[a].coord
            != #[trigger] s[b].coord by {
            if a < b {
                assert(!is_fault(size, s, b));
            } else {
                assert(!is_fault(size, s, a));
            }
        }
    }
    let mut img: Vec<Rgb> = Vec::new();
    let mut k: usize = 0;
    while k < n
        invariant
            size.wf(),
            s == results@,
            len == s.len(),
            n == size.pixel_count_spec(),
            slots@.len() == n,
            k <= n,
            img@.len() == k,
            forall|q: int| 0 <= q < len ==> !#[trigger] is_fault(size, s, q),
            forall|a: int, b: int|
                0 <= a < s.len() && 0 <= b < s.len() && a != b ==> #[trigger] s[a].coord
                    != #[trigger] s[b].coord,
            forall|j: int|
                0 <= j < n ==> (#[trigger] slots@[j] is None <==> !exists|q: int|
                    0 <= q < len && #[trigger] s[q].coord == pixel_at_spec(size, order, j)),
            forall|j: int|
                0 <= j < n && #[trigger] slots@[j] is Some ==> exists|q: int|
                    0 <= q < len && #[trigger] s[q].coord == pixel_at_spec(size, order, j)
                        && s[q].color == slots@[j]->0,
            forall|j: int| 0 <= j < k ==> #[trigger] covered(s, pixel_at_spec(size, order, j)),
            forall|j: int|
                0 <= j < k ==> #[trigger] img@[j] == color_of(s, pixel_at_spec(size, order, j)),
        decreases n - k,
    {
        match slots[k] {
            None => {
                let c = pixel_at(size, order, k);
                assert(!covered(s, c));
                return Err(AssemblyError::Missing(c));
            },
            Some(color) => {
                proof {
                    let c = pixel_at_spec(size, order, k as int);
                    let q = choose|q: int|
                        0 <= q < len && #[trigger] s[q].coord == c && s[q].color == color;
                    assert(covered(s, c));
                    let q2 = choose|q2: int| 0 <= q2 < s.len() && #[trigger] s[q2].coord == c;
                    assert(q2 == q);
                }
                img.push(color);
            },
        }
        k = k + 1;
    }
    proof {
        assert forall|p: int| 0 <= p < s.len() implies size.contains(#[trigger] s[p].coord) by {
            assert(!is_fault(size, s, p));
        }
        assert forall|c: PixelCoord| size.contains(c) implies #[trigger] covered(s, c) by {
            lemma_emission_index_inverse(size, order, c);
            assert(covered(s, pixel_at_spec(size, order, emission_index_spec(size, order, c))));
        }
        assert(img@ =~= image_of(size, order, s));
    }
    Ok(img)
}

} // verus!
