//! Enumerating the tiles around a coordinate, in lexicographic order.
use vstd::prelude::*;
use std::ops::Range;
use crate::grid::{
    box_count, decode, encode, in_bounds, in_box, lemma_decode, lemma_encode, lemma_encode_injective,
    lex_lt, nbr_set, positive, span_hi, span_lo, spans, Quad,
};
use crate::minesweeper::coordinate::{coordinate, lemma_view_eq, Coordinate};

verus! {

/// The values along one axis of length `len` that lie within `radius` of
/// `val`: `max(val, radius + 1) - radius .. min(val + radius + 1, len + 1)`.
pub fn ordinate_range(val: usize, len: usize, radius: usize) -> (r: Range<usize>)
    requires
        val + radius + 1 <= usize::MAX,
        len + 1 <= usize::MAX,
    ensures
        r.start == span_lo(val as int, radius as int),
        r.end == span_hi(val as int, radius as int, len as int) + 1,
{
    let lo = if val > radius + 1 { val } else { radius + 1 };
    let hi = if val + radius + 1 < len + 1 { val + radius + 1 } else { len + 1 };
    Range { start: lo - radius, end: hi }
}

/// `res` lists, in strictly increasing lexicographic order, exactly the
/// tiles within `r` of `c` other than `c` that come before `q`.
pub open spec fn listed_before(res: Seq<Coordinate>, s: Quad, c: Quad, r: int, q: Quad) -> bool {
    &&& forall|k: int|
        #![trigger res[k]]
        0 <= k < res.len() ==> in_box(s, c, r, res[k]@) && res[k]@ != c && lex_lt(res[k]@, q)
    &&& forall|p: Quad|
        #![trigger in_box(s, c, r, p)]
        in_box(s, c, r, p) && p != c && lex_lt(p, q) ==> exists|k: int|
            0 <= k < res.len() && #[trigger] res[k]@ == p
    &&& forall|k1: int, k2: int|
        0 <= k1 < k2 < res.len() ==> lex_lt(#[trigger] res[k1]@, #[trigger] res[k2]@)
}

/// How many tiles of the box come before `q` (for `q` inside the box's span).
pub open spec fn progress(s: Quad, c: Quad, r: int, q: Quad) -> int {
    let l = spans(s, c, r);
    (((q.0 - span_lo(c.0, r)) * l.1 + (q.1 - span_lo(c.1, r))) * l.2 + (q.2 - span_lo(c.2, r)))
        * l.3 + (q.3 - span_lo(c.3, r))
}

/// The tiles of the box counted so far, less the centre once it has been passed.
pub open spec fn counted(s: Quad, c: Quad, r: int, q: Quad) -> int {
    progress(s, c, r, q) - if lex_lt(c, q) {
        1int
    } else {
        0int
    }
}

/// The requirements under which the ranges around `c` can be computed in `usize`.
pub open spec fn ranges_fit(s: Quad, c: Quad, r: int) -> bool {
    &&& c.0 + r + 1 <= usize::MAX && s.0 + 1 <= usize::MAX
    &&& c.1 + r + 1 <= usize::MAX && s.1 + 1 <= usize::MAX
    &&& c.2 + r + 1 <= usize::MAX && s.2 + 1 <= usize::MAX
    &&& c.3 + r + 1 <= usize::MAX && s.3 + 1 <= usize::MAX
}

proof fn lemma_step(a: int, l: int)
    ensures
        a * l + l == (a + 1) * l,
{
    assert(a * l + l == (a + 1) * l) by (nonlinear_arith);
}

/// Moving the cursor from `q1` to `q2` passes no tile of the box.
proof fn lemma_carry(res: Seq<Coordinate>, s: Quad, c: Quad, r: int, q1: Quad, q2: Quad)
    requires
        listed_before(res, s, c, r, q1),
        forall|p: Quad| in_box(s, c, r, p) && p != c ==> (lex_lt(p, q1) <==> lex_lt(p, q2)),
    ensures
        listed_before(res, s, c, r, q2),
{
}

/// All tiles within `radius` of `coord` on a field of size `size`, `coord`
/// itself left out, in lexicographic order of (x, y, z, w).
pub fn neighbours_within(size: Coordinate, coord: Coordinate, radius: usize) -> (res: Vec<Coordinate>)
    requires
        ranges_fit(size@, coord@, radius as int),
    ensures
        forall|k: int|
            #![trigger res@[k]]
            0 <= k < res.len() ==> in_box(size@, coord@, radius as int, res@[k]@) && res@[k]@
                != coord@,
        forall|p: Quad|
            in_box(size@, coord@, radius as int, p) && p != coord@ ==> exists|k: int|
                0 <= k < res.len() && #[trigger] res@[k]@ == p,
        forall|k1: int, k2: int|
            0 <= k1 < k2 < res.len() ==> lex_lt(#[trigger] res@[k1]@, #[trigger] res@[k2]@),
        in_bounds(size@, coord@) ==> res.len() == box_count(size@, coord@, radius as int) - 1,
{
    let ghost s = size@;
    let ghost c = coord@;
    let ghost r = radius as int;
    let rx = ordinate_range(coord.x(), size.x(), radius);
    let ry = ordinate_range(coord.y(), size.y(), radius);
    let rz = ordinate_range(coord.z(), size.z(), radius);
    let rw = ordinate_range(coord.w(), size.w(), radius);
    let ghost lo: Quad = (rx.start as int, ry.start as int, rz.start as int, rw.start as int);
    let ghost l = spans(s, c, r);
    let mut res: Vec<Coordinate> = Vec::new();
    let mut x = rx.start;
    proof {
        assert(((0int * l.1 + 0) * l.2 + 0) * l.3 + 0 == 0) by (nonlinear_arith);
    }
    while x < rx.end
        invariant
            c == coord@,
            lo == (rx.start as int, ry.start as int, rz.start as int, rw.start as int),
            l == spans(s, c, r),
            rx.start <= x,
            x <= rx.end || x == rx.start,
            rx.start == span_lo(c.0, r),
            rx.end == span_hi(c.0, r, s.0) + 1,
            ry.start == span_lo(c.1, r),
            ry.end == span_hi(c.1, r, s.1) + 1,
            rz.start == span_lo(c.2, r),
            rz.end == span_hi(c.2, r, s.2) + 1,
            rw.start == span_lo(c.3, r),
            rw.end == span_hi(c.3, r, s.3) + 1,
            listed_before(res@, s, c, r, (x as int, lo.1, lo.2, lo.3)),
            in_bounds(s, c) ==> res.len() == counted(s, c, r, (x as int, lo.1, lo.2, lo.3)),
        decreases rx.end - x,
    {
        let mut y = ry.start;
        while y < ry.end
            invariant
                c == coord@,
                lo == (rx.start as int, ry.start as int, rz.start as int, rw.start as int),
                l == spans(s, c, r),
            lo == (rx.start as int, ry.start as int, rz.start as int, rw.start as int),
            l == spans(s, c, r),
                rx.start <= x < rx.end,
                ry.start <= y,
                y <= ry.end || y == ry.start,
                rx.start == span_lo(c.0, r),
                rx.end == span_hi(c.0, r, s.0) + 1,
                ry.start == span_lo(c.1, r),
                ry.end == span_hi(c.1, r, s.1) + 1,
                rz.start == span_lo(c.2, r),
                rz.end == span_hi(c.2, r, s.2) + 1,
                rw.start == span_lo(c.3, r),
                rw.end == span_hi(c.3, r, s.3) + 1,
                listed_before(res@, s, c, r, (x as int, y as int, lo.2, lo.3)),
                in_bounds(s, c) ==> res.len() == counted(s, c, r, (x as int, y as int, lo.2, lo.3)),
            decreases ry.end - y,
        {
            let mut z = rz.start;
            while z < rz.end
                invariant
                    c == coord@,
                    lo == (rx.start as int, ry.start as int, rz.start as int, rw.start as int),
                    l == spans(s, c, r),
                lo == (rx.start as int, ry.start as int, rz.start as int, rw.start as int),
                l == spans(s, c, r),
            lo == (rx.start as int, ry.start as int, rz.start as int, rw.start as int),
            l == spans(s, c, r),
                    rx.start <= x < rx.end,
                    ry.start <= y < ry.end,
                    rz.start <= z,
                    z <= rz.end || z == rz.start,
                    rx.start == span_lo(c.0, r),
                    rx.end == span_hi(c.0, r, s.0) + 1,
                    ry.start == span_lo(c.1, r),
                    ry.end == span_hi(c.1, r, s.1) + 1,
                    rz.start == span_lo(c.2, r),
                    rz.end == span_hi(c.2, r, s.2) + 1,
                    rw.start == span_lo(c.3, r),
                    rw.end == span_hi(c.3, r, s.3) + 1,
                    listed_before(res@, s, c, r, (x as int, y as int, z as int, lo.3)),
                    in_bounds(s, c) ==> res.len() == counted(
                        s,
                        c,
                        r,
                        (x as int, y as int, z as int, lo.3),
                    ),
                decreases rz.end - z,
            {
                let mut w = rw.start;
                while w < rw.end
                    invariant
                        c == coord@,
                        lo == (rx.start as int, ry.start as int, rz.start as int, rw.start as int),
                        l == spans(s, c, r),
                    lo == (rx.start as int, ry.start as int, rz.start as int, rw.start as int),
                    l == spans(s, c, r),
                lo == (rx.start as int, ry.start as int, rz.start as int, rw.start as int),
                l == spans(s, c, r),
            lo == (rx.start as int, ry.start as int, rz.start as int, rw.start as int),
            l == spans(s, c, r),
                        rx.start <= x < rx.end,
                        ry.start <= y < ry.end,
                        rz.start <= z < rz.end,
                        rw.start <= w,
                        w <= rw.end || w == rw.start,
                        rx.start == span_lo(c.0, r),
                        rx.end == span_hi(c.0, r, s.0) + 1,
                        ry.start == span_lo(c.1, r),
                        ry.end == span_hi(c.1, r, s.1) + 1,
                        rz.start == span_lo(c.2, r),
                        rz.end == span_hi(c.2, r, s.2) + 1,
                        rw.start == span_lo(c.3, r),
                        rw.end == span_hi(c.3, r, s.3) + 1,
                        listed_before(res@, s, c, r, (x as int, y as int, z as int, w as int)),
                        in_bounds(s, c) ==> res.len() == counted(
                            s,
                            c,
                            r,
                            (x as int, y as int, z as int, w as int),
                        ),
                    decreases rw.end - w,
                {
                    let coord_2 = coordinate(x, y, z, w);
                    let ghost q: Quad = (x as int, y as int, z as int, w as int);
                    let ghost q2: Quad = (x as int, y as int, z as int, w + 1);
                    proof {
                        lemma_view_eq(coord, coord_2);
                    }
                    if coord == coord_2 {
                        proof {
                            lemma_carry(res@, s, c, r, q, q2);
                        }
                    } else {
                        let ghost old_res = res@;
                        res.push(coord_2);
                        assert forall|p: Quad|
                            in_box(s, c, r, p) && p != c && lex_lt(p, q2) implies exists|k: int|
                            0 <= k < res.len() && #[trigger] res@[k]@ == p by {
                            if p == q {
                                assert(res@[res.len() - 1]@ == p);
                            } else {
                                let k = choose|k: int| 0 <= k < old_res.len() && old_res[k]@ == p;
                                assert(res@[k]@ == p);
                            }
                        }
                    }
                    w += 1;
                }
                proof {
                    lemma_carry(res@, s, c, r, (x as int, y as int, z as int, w as int), (x as int, y as int, z + 1, lo.3));
                }
                proof {
                    if in_bounds(s, c) {
                        lemma_step((x - lo.0) * l.1 * l.2 + (y - lo.1) * l.2 + (z - lo.2), l.3);
                        assert(((x - lo.0) * l.1 + (y - lo.1)) * l.2 == (x - lo.0) * l.1 * l.2 + (y - lo.1) * l.2) by (nonlinear_arith);
                    }
                }
                z += 1;
            }
            proof {
                lemma_carry(res@, s, c, r, (x as int, y as int, z as int, lo.3), (x as int, y + 1, lo.2, lo.3));
            }
            proof {
                if in_bounds(s, c) {
                    lemma_step((x - lo.0) * l.1 + (y - lo.1), l.2);
                }
            }
            y += 1;
        }
        proof {
            lemma_carry(res@, s, c, r, (x as int, y as int, lo.2, lo.3), (x + 1, lo.1, lo.2, lo.3));
        }
        proof {
            if in_bounds(s, c) {
                lemma_step(x - lo.0, l.1);
            }
        }
        x += 1;
    }
    proof {
        if in_bounds(s, c) {
            assert(lex_lt(c, (x as int, lo.1, lo.2, lo.3)));
            assert(progress(s, c, r, (x as int, lo.1, lo.2, lo.3)) == l.0 * l.1 * l.2 * l.3);
        }
    }
    res
}

/// `res` lists, in strictly increasing lexicographic order, exactly the
/// tiles within `r` of `c`, `c` itself left out.
pub open spec fn lists_box(res: Seq<Coordinate>, s: Quad, c: Quad, r: int) -> bool {
    &&& forall|k: int|
        #![trigger res[k]]
        0 <= k < res.len() ==> in_box(s, c, r, res[k]@) && res[k]@ != c
    &&& forall|p: Quad|
        in_box(s, c, r, p) && p != c ==> exists|k: int| 0 <= k < res.len() && #[trigger] res[k]@ == p
    &&& forall|k1: int, k2: int|
        0 <= k1 < k2 < res.len() ==> lex_lt(#[trigger] res[k1]@, #[trigger] res[k2]@)
}

/// The positions of a list of coordinates.
pub open spec fn coord_indices(s: Quad, cs: Seq<Coordinate>) -> Seq<int> {
    cs.map_values(|q: Coordinate| encode(s, q@))
}

/// The positions of the listed neighbours of `c` are exactly the neighbour
/// positions of `c`, each once.
pub proof fn lemma_neighbour_indices(s: Quad, c: Quad, nbrs: Seq<Coordinate>)
    requires
        positive(s),
        in_bounds(s, c),
        lists_box(nbrs, s, c, 1),
    ensures
        coord_indices(s, nbrs).len() == nbrs.len(),
        forall|m: int| 0 <= m < nbrs.len() ==> in_bounds(s, #[trigger] nbrs[m]@),
        forall|m1: int, m2: int|
            0 <= m1 < nbrs.len() && 0 <= m2 < nbrs.len() && m1 != m2 ==> coord_indices(s, nbrs)[m1]
                != coord_indices(s, nbrs)[m2],
        forall|m: int|
            0 <= m < nbrs.len() ==> nbr_set(s, encode(s, c)).contains(
                #[trigger] coord_indices(s, nbrs)[m],
            ),
        forall|j: int|
            nbr_set(s, encode(s, c)).contains(j) ==> exists|m: int|
                0 <= m < nbrs.len() && #[trigger] coord_indices(s, nbrs)[m] == j,
{
    let idxs = coord_indices(s, nbrs);
    lemma_encode(s, c);
    assert forall|m1: int, m2: int|
        0 <= m1 < nbrs.len() && 0 <= m2 < nbrs.len() && m1 != m2 implies idxs[m1] != idxs[m2] by {
        if m1 < m2 {
            assert(lex_lt(nbrs[m1]@, nbrs[m2]@));
        } else {
            assert(lex_lt(nbrs[m2]@, nbrs[m1]@));
        }
        lemma_encode_injective(s, nbrs[m1]@, nbrs[m2]@);
    }
    assert forall|m: int| 0 <= m < nbrs.len() implies nbr_set(s, encode(s, c)).contains(
        #[trigger] idxs[m],
    ) by {
        assert(in_box(s, c, 1, nbrs[m]@));
        lemma_encode(s, nbrs[m]@);
    }
    assert forall|j: int| nbr_set(s, encode(s, c)).contains(j) implies exists|m: int|
        0 <= m < nbrs.len() && #[trigger] idxs[m] == j by {
        lemma_decode(s, j);
        let p = decode(s, j);
        assert(in_box(s, c, 1, p) && p != c);
        let m = choose|m: int| 0 <= m < nbrs.len() && #[trigger] nbrs[m]@ == p;
        assert(idxs[m] == j);
    }
}

} // verus!
