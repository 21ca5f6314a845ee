//! Construction of north-south mirror-symmetric zenith arrays from a half
//! configuration.
//!
//! The optimizer works on a vector of `k` free weights; the physical array
//! has `2k+1` elements: a fixed central element plus, for every free
//! entry, a pair of elements mirrored across the array center that share
//! one weight.  The expansion is pure bookkeeping on the attribute lists,
//! so the scalar type stays generic; the caller supplies the mirrored
//! positions (the negated coordinates) alongside the originals.

use vstd::prelude::*;

verus! {

/// Attribute lists produced by the symmetric-array builder: `2k+1` entries
/// each; the x and z lists are identically `zero`; entry 0 of the y list
/// is `zero` and of the weight list is `one`; entries `2i+1` and `2i+2`
/// hold the i-th half-configuration position and its mirror, both with the
/// i-th weight.
pub open spec fn is_zenith_sym_layout<T>(
    xs: Seq<T>,
    ys: Seq<T>,
    zs: Seq<T>,
    ws: Seq<T>,
    zero: T,
    one: T,
    y: Seq<T>,
    y_mirror: Seq<T>,
    w: Seq<T>,
) -> bool {
    &&& xs.len() == 2 * y.len() + 1
    &&& ys.len() == 2 * y.len() + 1
    &&& zs.len() == 2 * y.len() + 1
    &&& ws.len() == 2 * y.len() + 1
    &&& forall|m: int| 0 <= m < xs.len() ==> #[trigger] xs[m] == zero
    &&& forall|m: int| 0 <= m < zs.len() ==> #[trigger] zs[m] == zero
    &&& ys[0] == zero
    &&& ws[0] == one
    &&& forall|m: int|
        1 <= m < ys.len() ==> #[trigger] ys[m] == if m % 2 == 1 {
            y[(m - 1) / 2]
        } else {
            y_mirror[(m - 1) / 2]
        }
    &&& forall|m: int| 1 <= m < ws.len() ==> #[trigger] ws[m] == w[(m - 1) / 2]
}

/// Builds the four attribute lists (x, y, z, weight) of a mirror-symmetric
/// zenith array from a half configuration of positions `y` and weights
/// `w`.  `y_mirror` supplies the mirrored position for each entry of `y`;
/// `zero` is the coordinate origin and `one` the central element's weight.
pub fn zenith_ns_sym_array<T: Copy>(
    zero: T,
    one: T,
    y: &Vec<T>,
    y_mirror: &Vec<T>,
    w: &Vec<T>,
) -> (r: (Vec<T>, Vec<T>, Vec<T>, Vec<T>))
    requires
        y_mirror@.len() == y@.len(),
        w@.len() == y@.len(),
        2 * y@.len() + 1 <= usize::MAX,
    ensures
        is_zenith_sym_layout(r.0@, r.1@, r.2@, r.3@, zero, one, y@, y_mirror@, w@),
{
    let k: usize = y.len();
    let mut ant_x: Vec<T> = Vec::new();
    let mut ant_y: Vec<T> = Vec::new();
    let mut ant_z: Vec<T> = Vec::new();
    let mut ant_w: Vec<T> = Vec::new();
    ant_x.push(zero);
    ant_y.push(zero);
    ant_z.push(zero);
    ant_w.push(one);
    let mut i: usize = 0;
    while i < k
        invariant
            k == y@.len(),
            y_mirror@.len() == k,
            w@.len() == k,
            2 * k + 1 <= usize::MAX,
            i <= k,
            ant_x@.len() == 2 * i + 1,
            ant_y@.len() == 2 * i + 1,
            ant_z@.len() == 2 * i + 1,
            ant_w@.len() == 2 * i + 1,
            forall|m: int| 0 <= m < ant_x@.len() ==> #[trigger] ant_x@[m] == zero,
            forall|m: int| 0 <= m < ant_z@.len() ==> #[trigger] ant_z@[m] == zero,
            ant_y@[0] == zero,
            ant_w@[0] == one,
            forall|m: int|
                1 <= m < ant_y@.len() ==> #[trigger] ant_y@[m] == if m % 2 == 1 {
                    y@[(m - 1) / 2]
                } else {
                    y_mirror@[(m - 1) / 2]
                },
            forall|m: int| 1 <= m < ant_w@.len() ==> #[trigger] ant_w@[m] == w@[(m - 1) / 2],
        decreases k - i,
    {
        let y1: T = y[i];
        let y2: T = y_mirror[i];
        let w1: T = w[i];
        ant_x.push(zero);
        ant_y.push(y1);
        ant_z.push(zero);
        ant_w.push(w1);
        ant_x.push(zero);
        ant_y.push(y2);
        ant_z.push(zero);
        ant_w.push(w1);
        i = i + 1;
    }
    (ant_x, ant_y, ant_z, ant_w)
}

/// Expands a vector of `k` free weights to the `2k+1` per-element weights
/// of the symmetric array: the central element's fixed weight `one`
/// followed by each free weight twice, once per mirrored pair member.
pub fn sym_weight<T: Copy>(one: T, w: &Vec<T>) -> (r: Vec<T>)
    requires
        2 * w@.len() + 1 <= usize::MAX,
    ensures
        r@.len() == 2 * w@.len() + 1,
        r@[0] == one,
        forall|m: int| 1 <= m < r@.len() ==> #[trigger] r@[m] == w@[(m - 1) / 2],
{
    let k: usize = w.len();
    let mut ant_w: Vec<T> = Vec::new();
    ant_w.push(one);
    let mut i: usize = 0;
    while i < k
        invariant
            k == w@.len(),
            2 * k + 1 <= usize::MAX,
            i <= k,
            ant_w@.len() == 2 * i + 1,
            ant_w@[0] == one,
            forall|m: int| 1 <= m < ant_w@.len() ==> #[trigger] ant_w@[m] == w@[(m - 1) / 2],
        decreases k - i,
    {
        let w1: T = w[i];
        ant_w.push(w1);
        ant_w.push(w1);
        i = i + 1;
    }
    ant_w
}

/// Symmetry-expansion law, read with the pairs indexed from 1 as in the
/// physical array: for every `i` in `1..=k`, elements `2i-1` and `2i` of
/// the expanded configuration carry the same weight, namely the i-th half
/// weight, and sit at the i-th half position and its mirror, while element
/// 0 keeps the fixed central weight.
pub proof fn lemma_sym_expansion_pair<T>(
    xs: Seq<T>,
    ys: Seq<T>,
    zs: Seq<T>,
    ws: Seq<T>,
    zero: T,
    one: T,
    y: Seq<T>,
    y_mirror: Seq<T>,
    w: Seq<T>,
    i: int,
)
    requires
        is_zenith_sym_layout(xs, ys, zs, ws, zero, one, y, y_mirror, w),
        1 <= i <= y.len(),
    ensures
        ws.len() == 2 * y.len() + 1,
        ws[0] == one,
        ws[2 * i - 1] == w[i - 1],
        ws[2 * i] == w[i - 1],
        ys[2 * i - 1] == y[i - 1],
        ys[2 * i] == y_mirror[i - 1],
{
    assert(ws[2 * i - 1] == w[(2 * i - 1 - 1) / 2]);
    assert(ws[2 * i] == w[(2 * i - 1) / 2]);
    assert(ys[2 * i - 1] == y[(2 * i - 1 - 1) / 2]);
    assert(ys[2 * i] == y_mirror[(2 * i - 1) / 2]);
    assert((2 * i - 1 - 1) / 2 == i - 1);
    assert((2 * i - 1) / 2 == i - 1);
}

} // verus!
