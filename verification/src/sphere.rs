//! Integer bookkeeping of the equal-area sphere grid in ring ordering.
//!
//! A resolution parameter `nside` fixes `12 * nside^2` pixels, laid out in
//! `4 * nside - 1` horizontal rings from pole to pole: ring `i` holds `4i`
//! pixels in the north polar cap (`i < nside`), `4 * nside` pixels in the
//! equatorial belt, and mirrors the cap in the south.  Pixels are numbered
//! ring by ring, so each ring is one contiguous index interval.  This
//! module fixes that layout arithmetically and builds the ring grouping
//! that azimuthal averaging runs on; the averaging arithmetic itself works
//! on the grouped values outside the verified core.

use vstd::prelude::*;

verus! {

/// Pixel count at resolution `nside`.
pub open spec fn npix_of(nside: int) -> int {
    12 * nside * nside
}

/// Ring count at resolution `nside`.
pub open spec fn nring_of(nside: int) -> int {
    4 * nside - 1
}

/// First pixel index of ring `i` (rings are numbered from 1; `i` may also
/// be `4 * nside`, giving the total pixel count).
pub open spec fn ring_start(nside: int, i: int) -> int {
    if i <= nside {
        2 * i * (i - 1)
    } else if i <= 3 * nside {
        2 * nside * (nside - 1) + 4 * nside * (i - nside)
    } else {
        12 * nside * nside - 2 * (4 * nside - i) * (4 * nside - i + 1)
    }
}

/// Number of pixels in ring `i`.
pub open spec fn ring_size(nside: int, i: int) -> int {
    if i < nside {
        4 * i
    } else if i <= 3 * nside {
        4 * nside
    } else {
        4 * (4 * nside - i)
    }
}

/// Pixel `p` lies in ring `r`.
pub open spec fn is_in_ring(nside: int, p: int, r: int) -> bool {
    &&& 1 <= r <= nring_of(nside)
    &&& ring_start(nside, r) <= p < ring_start(nside, r + 1)
}

/// Some valid resolution has exactly `npix` pixels.
pub open spec fn is_valid_npix(npix: int) -> bool {
    exists|n: int| n >= 1 && npix == npix_of(n)
}

/// Consecutive ring starts differ by the ring's size, which is at least 4.
pub proof fn lemma_ring_step(nside: int, i: int)
    requires
        nside >= 1,
        1 <= i <= 4 * nside - 1,
    ensures
        ring_start(nside, i + 1) == ring_start(nside, i) + ring_size(nside, i),
        ring_size(nside, i) >= 4,
{
    if i < nside {
        assert(2 * (i + 1) * i == 2 * i * (i - 1) + 4 * i) by (nonlinear_arith);
    } else if i == nside {
        assert(2 * nside * (nside - 1) + 4 * nside * (nside + 1 - nside)
            == 2 * nside * (nside - 1) + 4 * nside) by (nonlinear_arith);
    } else if i < 3 * nside {
        assert(2 * nside * (nside - 1) + 4 * nside * (i + 1 - nside)
            == 2 * nside * (nside - 1) + 4 * nside * (i - nside) + 4 * nside) by (nonlinear_arith);
    } else if i == 3 * nside {
        assert(12 * nside * nside - 2 * (4 * nside - (3 * nside + 1)) * (4 * nside - (3 * nside
            + 1) + 1) == 2 * nside * (nside - 1) + 4 * nside * (3 * nside - nside) + 4 * nside)
            by (nonlinear_arith);
    } else {
        assert(12 * nside * nside - 2 * (4 * nside - (i + 1)) * (4 * nside - (i + 1) + 1) == 12
            * nside * nside - 2 * (4 * nside - i) * (4 * nside - i + 1) + 4 * (4 * nside - i))
            by (nonlinear_arith);
    }
}

/// Ring starts grow strictly with the ring index.
pub proof fn lemma_ring_start_monotone(nside: int, i: int, j: int)
    requires
        nside >= 1,
        1 <= i <= j <= 4 * nside,
    ensures
        ring_start(nside, i) <= ring_start(nside, j),
        i < j ==> ring_start(nside, i) + 4 <= ring_start(nside, j),
    decreases j - i,
{
    if i < j {
        lemma_ring_step(nside, j - 1);
        lemma_ring_start_monotone(nside, i, j - 1);
    }
}

/// The first ring starts at pixel 0 and the rings together exhaust all
/// `12 * nside^2` pixels.
pub proof fn lemma_ring_bounds(nside: int)
    requires
        nside >= 1,
    ensures
        ring_start(nside, 1) == 0,
        ring_start(nside, 4 * nside) == npix_of(nside),
{
    assert(2 * 1 * (1 - 1) == 0) by (nonlinear_arith);
    assert(2 * (4 * nside - 4 * nside) * (4 * nside - 4 * nside + 1) == 0) by (nonlinear_arith);
}

/// A pixel lies in exactly one ring.
pub proof fn lemma_ring_unique(nside: int, p: int, r1: int, r2: int)
    requires
        nside >= 1,
        is_in_ring(nside, p, r1),
        is_in_ring(nside, p, r2),
    ensures
        r1 == r2,
{
    if r1 < r2 {
        lemma_ring_start_monotone(nside, r1 + 1, r2);
    }
    if r2 < r1 {
        lemma_ring_start_monotone(nside, r2 + 1, r1);
    }
}

/// Sum of a sequence of integers.
pub open spec fn seq_sum(s: Seq<int>) -> int
    decreases s.len(),
{
    if s.len() == 0 {
        0
    } else {
        seq_sum(s.drop_last()) + s.last()
    }
}

/// The per-ring pixel counts at resolution `nside`, pole to pole.
pub open spec fn ring_sizes(nside: int) -> Seq<int> {
    Seq::new((4 * nside - 1) as nat, |m: int| ring_size(nside, m + 1))
}

proof fn lemma_ring_sizes_partial(nside: int, k: int)
    requires
        nside >= 1,
        0 <= k <= 4 * nside - 1,
    ensures
        seq_sum(ring_sizes(nside).take(k)) == ring_start(nside, k + 1),
    decreases k,
{
    if k == 0 {
        assert(ring_sizes(nside).take(0) =~= Seq::<int>::empty());
        lemma_ring_bounds(nside);
    } else {
        lemma_ring_sizes_partial(nside, k - 1);
        lemma_ring_step(nside, k);
        let s = ring_sizes(nside).take(k);
        assert(s.drop_last() =~= ring_sizes(nside).take(k - 1));
        assert(s.last() == ring_size(nside, k));
    }
}

/// Coverage law of the azimuthal profile: the per-ring pixel counts add up
/// to the total pixel count, so averaging over rings loses no pixel.
pub proof fn lemma_ring_sizes_cover(nside: int)
    requires
        nside >= 1,
    ensures
        seq_sum(ring_sizes(nside)) == npix_of(nside),
{
    lemma_ring_sizes_partial(nside, 4 * nside - 1);
    assert(ring_sizes(nside).take(4 * nside - 1) =~= ring_sizes(nside));
    lemma_ring_bounds(nside);
}

/// Pixel count at resolution `nside`.
pub fn nside2npix(nside: usize) -> (r: usize)
    requires
        npix_of(nside as int) <= usize::MAX,
    ensures
        r as int == npix_of(nside as int),
{
    proof {
        assert(nside as int * nside as int <= 12 * (nside as int) * (nside as int)
            && 12 * (nside as int * nside as int) == 12 * (nside as int) * (nside as int))
            by (nonlinear_arith);
    }
    let sq: usize = nside * nside;
    12 * sq
}

/// Ring count at resolution `nside`.
pub fn nside2nring(nside: usize) -> (r: usize)
    requires
        nside >= 1,
        npix_of(nside as int) <= usize::MAX,
    ensures
        r as int == nring_of(nside as int),
{
    proof {
        lemma_npix_dominates(nside as int);
    }
    4 * nside - 1
}

/// Resolution whose ring count is `nring`.
pub fn nring2nside(nring: usize) -> (r: usize)
    requires
        nring % 4 == 3,
        nring < usize::MAX,
    ensures
        r >= 1,
        nring_of(r as int) == nring as int,
{
    (nring + 1) / 4
}

/// Floor of the square root.
fn int_sqrt(v: usize) -> (r: usize)
    ensures
        (r as int) * (r as int) <= v as int,
        (r as int + 1) * (r as int + 1) > v as int,
{
    if v == 0 {
        return 0;
    }
    let mut r: usize = 0;
    while r + 1 <= v / (r + 1)
        invariant
            v >= 1,
            (r as int) * (r as int) <= v as int,
            r as int + 1 <= usize::MAX,
        decreases v as int - r as int,
    {
        proof {
            assert((r as int + 1) * (r as int + 1) <= v as int) by (nonlinear_arith)
                requires
                    r as int + 1 <= v as int / (r as int + 1),
                    r as int + 1 >= 1,
                    v >= 1,
            ;
            assert(r as int + 2 <= usize::MAX) by (nonlinear_arith)
                requires
                    (r as int + 1) * (r as int + 1) <= usize::MAX,
                    usize::MAX >= 4,
            ;
            assert(r as int + 1 <= v as int) by (nonlinear_arith)
                requires
                    (r as int + 1) * (r as int + 1) <= v as int,
                    r as int + 1 >= 1,
            ;
        }
        r = r + 1;
    }
    proof {
        assert((r as int + 1) * (r as int + 1) > v as int) by (nonlinear_arith)
            requires
                r as int + 1 > v as int / (r as int + 1),
                r as int + 1 >= 1,
                v >= 0,
        ;
    }
    r
}

/// Resolution of a map with `npix` pixels.  The pixel count must belong to
/// some resolution; a count that does not is a caller error.
pub fn npix2nside(npix: usize) -> (r: usize)
    requires
        is_valid_npix(npix as int),
    ensures
        r >= 1,
        npix_of(r as int) == npix as int,
{
    let q: usize = npix / 12;
    let r = int_sqrt(q);
    proof {
        let n = choose|n: int| n >= 1 && npix as int == npix_of(n);
        assert(q as int == n * n) by (nonlinear_arith)
            requires
                npix as int == 12 * n * n,
                q as int == npix as int / 12,
                n >= 1,
        ;
        assert(r as int == n) by (nonlinear_arith)
            requires
                (r as int) * (r as int) <= n * n,
                (r as int + 1) * (r as int + 1) > n * n,
                n >= 1,
                r as int >= 0,
        ;
    }
    r
}

/// The pixel count dominates the small linear quantities used below.
proof fn lemma_npix_dominates(nside: int)
    requires
        nside >= 1,
    ensures
        4 * nside <= npix_of(nside),
        2 * nside * (nside - 1) <= npix_of(nside),
        nside * nside <= npix_of(nside),
{
    assert(4 * nside <= 12 * nside * nside && 2 * nside * (nside - 1) <= 12 * nside * nside
        && nside * nside <= 12 * nside * nside) by (nonlinear_arith)
        requires
            nside >= 1,
    ;
}

/// First pixel index of ring `i`.
pub fn ring_start_index(nside: usize, i: usize) -> (r: usize)
    requires
        nside >= 1,
        1 <= i <= 4 * nside,
        npix_of(nside as int) <= usize::MAX,
    ensures
        r as int == ring_start(nside as int, i as int),
        r as int <= npix_of(nside as int),
{
    proof {
        lemma_npix_dominates(nside as int);
        lemma_ring_start_monotone(nside as int, i as int, 4 * nside as int);
        lemma_ring_bounds(nside as int);
        lemma_ring_start_monotone(nside as int, 1, i as int);
    }
    if i <= nside {
        proof {
            assert(2 * (i as int) * (i as int - 1) <= 12 * (nside as int) * (nside as int)
                && 2 * (i as int) <= 12 * (nside as int) * (nside as int)) by (nonlinear_arith)
                requires
                    1 <= i as int <= nside as int,
            ;
        }
        2 * i * (i - 1)
    } else if i <= 3 * nside {
        proof {
            assert(2 * (nside as int) * (nside as int - 1) + 4 * (nside as int) * (i as int
                - nside as int) <= 12 * (nside as int) * (nside as int) && 2 * (nside as int)
                <= 12 * (nside as int) * (nside as int) && 4 * (nside as int) <= 12 * (nside
                as int) * (nside as int)) by (nonlinear_arith)
                requires
                    1 <= nside as int,
                    (nside as int) < (i as int),
                    i as int <= 3 * nside as int,
            ;
        }
        2 * nside * (nside - 1) + 4 * nside * (i - nside)
    } else {
        proof {
            assert(nside as int * nside as int <= 12 * (nside as int) * (nside as int)
                && 12 * (nside as int * nside as int) == 12 * (nside as int) * (nside as int))
                by (nonlinear_arith);
        }
        let sq: usize = nside * nside;
        let np: usize = 12 * sq;
        let t: usize = 4 * nside - i;
        proof {
            assert(2 * (t as int) * (t as int + 1) <= 12 * (nside as int) * (nside as int)
                && 2 * (t as int) <= 12 * (nside as int) * (nside as int)) by (nonlinear_arith)
                requires
                    0 <= t as int,
                    (t as int) < (nside as int),
            ;
        }
        np - 2 * t * (t + 1)
    }
}

/// Per-ring pixel counts, pole to pole: the natural weights of the
/// azimuthal profile.
pub fn ring_weights(nside: usize) -> (r: Vec<usize>)
    requires
        nside >= 1,
        npix_of(nside as int) <= usize::MAX,
    ensures
        r@.len() == nring_of(nside as int),
        forall|m: int| 0 <= m < r@.len() ==> #[trigger] r@[m] as int == ring_size(nside as int, m + 1),
{
    proof {
        lemma_npix_dominates(nside as int);
    }
    let nring: usize = 4 * nside - 1;
    let mut out: Vec<usize> = Vec::new();
    let mut i: usize = 1;
    while i <= nring
        invariant
            nside >= 1,
            npix_of(nside as int) <= usize::MAX,
            4 * nside as int <= npix_of(nside as int),
            nring as int == nring_of(nside as int),
            1 <= i,
            i as int <= nring as int + 1,
            out@.len() == i - 1,
            forall|m: int|
                0 <= m < out@.len() ==> #[trigger] out@[m] as int == ring_size(nside as int, m + 1),
        decreases nring as int + 1 - i as int,
    {
        let s: usize = if i < nside {
            4 * i
        } else if i <= 3 * nside {
            4 * nside
        } else {
            4 * (4 * nside - i)
        };
        out.push(s);
        i = i + 1;
    }
    out
}

/// Groups a pixel map's values by ring, in pixel order: row `m` of the
/// result holds the values of ring `m + 1`, which occupy one contiguous
/// pixel interval.  Azimuthal averaging reduces each row to its mean.
pub fn group_by_ring<T: Copy>(values: &Vec<T>, nside: usize) -> (r: Vec<Vec<T>>)
    requires
        nside >= 1,
        npix_of(nside as int) <= usize::MAX,
        values@.len() == npix_of(nside as int),
    ensures
        r@.len() == nring_of(nside as int),
        forall|m: int|
            0 <= m < r@.len() ==> #[trigger] r@[m]@ == values@.subrange(
                ring_start(nside as int, m + 1),
                ring_start(nside as int, m + 2),
            ),
        forall|m: int|
            0 <= m < r@.len() ==> #[trigger] r@[m]@.len() == ring_size(nside as int, m + 1),
{
    proof {
        lemma_npix_dominates(nside as int);
        lemma_ring_bounds(nside as int);
    }
    let nring: usize = 4 * nside - 1;
    let mut out: Vec<Vec<T>> = Vec::new();
    let mut i: usize = 1;
    while i <= nring
        invariant
            nside >= 1,
            npix_of(nside as int) <= usize::MAX,
            4 * nside as int <= npix_of(nside as int),
            values@.len() == npix_of(nside as int),
            nring as int == nring_of(nside as int),
            1 <= i,
            i as int <= nring as int + 1,
            out@.len() == i - 1,
            forall|m: int|
                0 <= m < out@.len() ==> #[trigger] out@[m]@ == values@.subrange(
                    ring_start(nside as int, m + 1),
                    ring_start(nside as int, m + 2),
                ),
        decreases nring as int + 1 - i as int,
    {
        let start: usize = ring_start_index(nside, i);
        let end: usize = ring_start_index(nside, i + 1);
        proof {
            lemma_ring_step(nside as int, i as int);
            lemma_ring_start_monotone(nside as int, i as int + 1, 4 * nside as int);
            lemma_ring_bounds(nside as int);
        }
        let mut row: Vec<T> = Vec::new();
        let mut p: usize = start;
        while p < end
            invariant
                start <= p,
                p <= end,
                end <= values@.len(),
                row@.len() == p - start,
                forall|q: int| 0 <= q < row@.len() ==> #[trigger] row@[q] == values@[start + q],
            decreases end as int - p as int,
        {
            let v: T = values[p];
            row.push(v);
            p = p + 1;
        }
        proof {
            assert(row@ =~= values@.subrange(start as int, end as int));
        }
        out.push(row);
        i = i + 1;
    }
    proof {
        assert forall|m: int|
            0 <= m < out@.len() implies #[trigger] out@[m]@.len() == ring_size(
            nside as int, m + 1) by {
            assert(out@[m]@ == values@.subrange(
                ring_start(nside as int, m + 1),
                ring_start(nside as int, m + 2),
            ));
            lemma_ring_step(nside as int, m + 1);
            lemma_ring_bounds(nside as int);
            lemma_ring_start_monotone(nside as int, 1, m + 1);
            lemma_ring_start_monotone(nside as int, m + 2, 4 * nside as int);
        }
    }
    out
}

/// Broadcasts a per-ring profile back to a full pixel map: every pixel
/// receives its ring's value.  The profile's length is the ring count and
/// fixes the resolution.
pub fn averaged_beam_to_healpix<T: Copy>(beam: &Vec<T>) -> (r: Vec<T>)
    requires
        beam@.len() % 4 == 3,
        beam@.len() < usize::MAX,
        npix_of((beam@.len() as int + 1) / 4) <= usize::MAX,
    ensures
        r@.len() == npix_of((beam@.len() as int + 1) / 4),
        forall|rg: int, p: int|
            #[trigger] is_in_ring((beam@.len() as int + 1) / 4, p, rg) ==> r@[p] == beam@[rg - 1],
{
    let nring: usize = beam.len();
    let nside: usize = nring2nside(nring);
    proof {
        lemma_npix_dominates(nside as int);
        lemma_ring_bounds(nside as int);
    }
    let mut out: Vec<T> = Vec::new();
    let mut i: usize = 1;
    while i <= nring
        invariant
            nside >= 1,
            nside as int == (beam@.len() as int + 1) / 4,
            npix_of(nside as int) <= usize::MAX,
            4 * nside as int <= npix_of(nside as int),
            beam@.len() == nring_of(nside as int),
            nring as int == nring_of(nside as int),
            1 <= i,
            i as int <= nring as int + 1,
            out@.len() == ring_start(nside as int, i as int),
            forall|rg: int, p: int|
                #[trigger] is_in_ring(nside as int, p, rg) && rg < i ==> out@[p] == beam@[rg - 1],
        decreases nring as int + 1 - i as int,
    {
        let start: usize = ring_start_index(nside, i);
        let end: usize = ring_start_index(nside, i + 1);
        proof {
            lemma_ring_step(nside as int, i as int);
            lemma_ring_start_monotone(nside as int, i as int + 1, 4 * nside as int);
            lemma_ring_bounds(nside as int);
        }
        let v: T = beam[i - 1];
        let ghost pre: Seq<T> = out@;
        let mut p: usize = start;
        while p < end
            invariant
                start <= p,
                p <= end,
                out@.len() == p,
                pre.len() == start,
                out@.subrange(0, start as int) == pre,
                forall|p2: int| start <= p2 < p ==> #[trigger] out@[p2] == v,
            decreases end as int - p as int,
        {
            out.push(v);
            p = p + 1;
            proof {
                assert(out@.subrange(0, start as int) =~= pre);
            }
        }
        proof {
            assert forall|rg: int, p2: int|
                #[trigger] is_in_ring(nside as int, p2, rg) && rg < i as int + 1
                    implies out@[p2] == beam@[rg - 1] by {
                if rg < i as int {
                    lemma_ring_bounds(nside as int);
                    lemma_ring_start_monotone(nside as int, 1, rg);
                    lemma_ring_start_monotone(nside as int, rg + 1, i as int);
                    assert(0 <= p2 < start);
                    assert(out@.subrange(0, start as int)[p2] == out@[p2]);
                    assert(pre[p2] == beam@[rg - 1]);
                } else {
                    assert(start <= p2 < end);
                    assert(out@[p2] == v);
                }
            }
        }
        i = i + 1;
    }
    proof {
        lemma_ring_bounds(nside as int);
        assert(out@.len() == npix_of(nside as int));
    }
    out
}

/// The ground cut keeps a pixel when it lies in the upper hemisphere,
/// which under ring ordering is exactly the first half of the pixels;
/// everything below the horizon is forced to zero instead of computed.
pub fn ground_cut_keeps(ipix: usize, npix: usize) -> (r: bool)
    ensures
        r <==> ipix < npix / 2,
{
    ipix < npix / 2
}

/// Ring index of pixel `ipix`, found by scanning the ring boundaries.
pub fn pix2ring(nside: usize, ipix: usize) -> (r: usize)
    requires
        nside >= 1,
        npix_of(nside as int) <= usize::MAX,
        ipix < npix_of(nside as int),
    ensures
        is_in_ring(nside as int, ipix as int, r as int),
{
    proof {
        lemma_ring_bounds(nside as int);
        lemma_npix_dominates(nside as int);
    }
    let mut r: usize = 1;
    loop
        invariant_except_break
            nside >= 1,
            npix_of(nside as int) <= usize::MAX,
            ipix < npix_of(nside as int),
            1 <= r as int <= 4 * nside as int - 1,
            ring_start(nside as int, r as int) <= ipix as int,
        ensures
            is_in_ring(nside as int, ipix as int, r as int),
        decreases 4 * nside as int - r as int,
    {
        proof {
            lemma_npix_dominates(nside as int);
        }
        let nxt: usize = ring_start_index(nside, r + 1);
        if ipix < nxt {
            break;
        }
        proof {
            lemma_ring_bounds(nside as int);
            if r as int + 1 == 4 * nside as int {
                assert(false);
            }
        }
        r = r + 1;
    }
    r
}

} // verus!
