//! The arithmetic of a four-dimensional grid: ordinates run from 1 to the
//! field's length along each axis, and tiles are stored in one flat vector
//! with `x` varying fastest and `w` slowest.
use vstd::prelude::*;
use vstd::arithmetic::div_mod::*;
use vstd::set_lib::*;
use vstd::relations::injective_on;

verus! {

/// One integer per ordinate, in the order x, y, z, w: the abstract form of a
/// coordinate and of a field's size.
pub type Quad = (int, int, int, int);

/// Every ordinate is at least 1.
pub open spec fn positive(q: Quad) -> bool {
    q.0 >= 1 && q.1 >= 1 && q.2 >= 1 && q.3 >= 1
}

/// The number of tiles in a field of size `s`.
pub open spec fn volume(s: Quad) -> int {
    s.0 * s.1 * s.2 * s.3
}

/// `c` names a tile of a field of size `s`.
pub open spec fn in_bounds(s: Quad, c: Quad) -> bool {
    &&& 1 <= c.0 <= s.0
    &&& 1 <= c.1 <= s.1
    &&& 1 <= c.2 <= s.2
    &&& 1 <= c.3 <= s.3
}

/// The position of the tile at `c` in the flat tile vector.
pub open spec fn encode(s: Quad, c: Quad) -> int {
    (c.0 - 1) + (c.1 - 1) * s.0 + ((c.2 - 1) + (c.3 - 1) * s.2) * (s.0 * s.1)
}

/// The coordinate of the tile at position `i` of the flat tile vector.
pub open spec fn decode(s: Quad, i: int) -> Quad {
    (
        1 + i % s.0,
        1 + (i / s.0) % s.1,
        1 + (i / s.0 / s.1) % s.2,
        1 + (i / s.0 / s.1 / s.2) % s.3,
    )
}

/// `p` differs from `c` by at most `r` along every ordinate.
pub open spec fn within(c: Quad, p: Quad, r: int) -> bool {
    &&& c.0 - r <= p.0 <= c.0 + r
    &&& c.1 - r <= p.1 <= c.1 + r
    &&& c.2 - r <= p.2 <= c.2 + r
    &&& c.3 - r <= p.3 <= c.3 + r
}

/// `p` is a tile of the field that lies within distance `r` of `c` (`c` itself included).
pub open spec fn in_box(s: Quad, c: Quad, r: int, p: Quad) -> bool {
    in_bounds(s, p) && within(c, p, r)
}

/// Two distinct coordinates that touch, diagonals included.
pub open spec fn adjacent(a: Quad, b: Quad) -> bool {
    a != b && within(a, b, 1)
}

/// Strict lexicographic order on coordinates, with `x` most significant.
pub open spec fn lex_lt(a: Quad, b: Quad) -> bool {
    ||| a.0 < b.0
    ||| a.0 == b.0 && a.1 < b.1
    ||| a.0 == b.0 && a.1 == b.1 && a.2 < b.2
    ||| a.0 == b.0 && a.1 == b.1 && a.2 == b.2 && a.3 < b.3
}

/// Smallest ordinate value within distance `r` of `v` that is still on the field.
pub open spec fn span_lo(v: int, r: int) -> int {
    if v - r >= 1 { v - r } else { 1 }
}

/// Largest ordinate value within distance `r` of `v` that is still on the field.
pub open spec fn span_hi(v: int, r: int, len: int) -> int {
    if v + r <= len { v + r } else { len }
}

/// How many ordinate values along one axis lie within distance `r` of `v`.
pub open spec fn span(v: int, r: int, len: int) -> int {
    span_hi(v, r, len) - span_lo(v, r) + 1
}

/// The extent of the box of tiles within distance `r` of `c`, axis by axis.
pub open spec fn spans(s: Quad, c: Quad, r: int) -> Quad {
    (span(c.0, r, s.0), span(c.1, r, s.1), span(c.2, r, s.2), span(c.3, r, s.3))
}

/// The number of tiles within distance `r` of `c` (`c` itself included).
pub open spec fn box_count(s: Quad, c: Quad, r: int) -> int {
    volume(spans(s, c, r))
}

/// The positions of the neighbours of the tile at position `i`.
pub open spec fn nbr_set(s: Quad, i: int) -> Set<int> {
    Set::new(|j: int| 0 <= j < volume(s) && adjacent(decode(s, i), decode(s, j)))
}

/// All positions of a field of size `s`.
pub open spec fn positions(s: Quad) -> Set<int> {
    set_int_range(0, volume(s))
}

proof fn lemma_mixed_radix(s: Quad, a: int, b: int, c: int, d: int)
    ensures
        a + b * s.0 + (c + d * s.2) * (s.0 * s.1) == a + s.0 * (b + s.1 * (c + s.2 * d)),
{
    assert(a + b * s.0 + (c + d * s.2) * (s.0 * s.1) == a + s.0 * (b + s.1 * (c + s.2 * d)))
        by (nonlinear_arith);
}

proof fn lemma_volume_assoc(s: Quad)
    ensures
        volume(s) == s.0 * (s.1 * (s.2 * s.3)),
{
    assert(s.0 * s.1 * s.2 * s.3 == s.0 * (s.1 * (s.2 * s.3))) by (nonlinear_arith);
}

/// A digit below the radix and a quotient below the next bound combine below
/// the product of the two bounds.
proof fn lemma_digit_bound(a: int, m: int, q: int, n: int)
    requires
        0 <= a < m,
        0 <= q < n,
    ensures
        0 <= a + m * q < m * n,
{
    assert(0 <= a + m * q < m * n) by (nonlinear_arith)
        requires
            0 <= a < m,
            0 <= q < n,
    ;
}

/// Every position of the flat vector holds a tile whose coordinate is on the
/// field, and encoding that coordinate gives the position back.
pub proof fn lemma_decode(s: Quad, i: int)
    requires
        positive(s),
        0 <= i < volume(s),
    ensures
        in_bounds(s, decode(s, i)),
        encode(s, decode(s, i)) == i,
{
    let a = i % s.0;
    let q1 = i / s.0;
    let b = q1 % s.1;
    let q2 = q1 / s.1;
    let c = q2 % s.2;
    let q3 = q2 / s.2;
    lemma_fundamental_div_mod(i, s.0);
    lemma_fundamental_div_mod(q1, s.1);
    lemma_fundamental_div_mod(q2, s.2);
    lemma_mod_bound(i, s.0);
    lemma_mod_bound(q1, s.1);
    lemma_mod_bound(q2, s.2);
    lemma_volume_assoc(s);
    assert(q1 < s.1 * (s.2 * s.3)) by (nonlinear_arith)
        requires
            i == s.0 * q1 + a,
            0 <= a,
            i < s.0 * (s.1 * (s.2 * s.3)),
            s.0 >= 1,
    ;
    assert(0 <= q1) by (nonlinear_arith)
        requires
            i == s.0 * q1 + a,
            0 <= i,
            a < s.0,
            s.0 >= 1,
    ;
    assert(q2 < s.2 * s.3) by (nonlinear_arith)
        requires
            q1 == s.1 * q2 + b,
            0 <= b,
            q1 < s.1 * (s.2 * s.3),
            s.1 >= 1,
    ;
    assert(0 <= q2) by (nonlinear_arith)
        requires
            q1 == s.1 * q2 + b,
            0 <= q1,
            b < s.1,
            s.1 >= 1,
    ;
    assert(q3 < s.3) by (nonlinear_arith)
        requires
            q2 == s.2 * q3 + c,
            0 <= c,
            q2 < s.2 * s.3,
            s.2 >= 1,
    ;
    assert(0 <= q3) by (nonlinear_arith)
        requires
            q2 == s.2 * q3 + c,
            0 <= q2,
            c < s.2,
            s.2 >= 1,
    ;
    lemma_small_mod(q3 as nat, s.3 as nat);
    assert(decode(s, i) == (1 + a, 1 + b, 1 + c, 1 + q3));
    lemma_mixed_radix(s, a, b, c, q3);
}

/// Every coordinate on the field has a position in the flat vector, and
/// decoding that position gives the coordinate back.
pub proof fn lemma_encode(s: Quad, c: Quad)
    requires
        positive(s),
        in_bounds(s, c),
    ensures
        0 <= encode(s, c) < volume(s),
        decode(s, encode(s, c)) == c,
{
    let a = c.0 - 1;
    let b = c.1 - 1;
    let cz = c.2 - 1;
    let d = c.3 - 1;
    let q2 = cz + s.2 * d;
    let q1 = b + s.1 * q2;
    let i = encode(s, c);
    lemma_mixed_radix(s, a, b, cz, d);
    assert(i == a + s.0 * q1);
    lemma_digit_bound(cz, s.2, d, s.3);
    lemma_digit_bound(b, s.1, q2, s.2 * s.3);
    lemma_digit_bound(a, s.0, q1, s.1 * (s.2 * s.3));
    lemma_volume_assoc(s);
    lemma_fundamental_div_mod_converse(i, s.0, q1, a);
    lemma_fundamental_div_mod_converse(q1, s.1, q2, b);
    lemma_fundamental_div_mod_converse(q2, s.2, d, cz);
    lemma_small_mod(d as nat, s.3 as nat);
}

/// Encoding is one-to-one on the coordinates of the field.
pub proof fn lemma_encode_injective(s: Quad, c1: Quad, c2: Quad)
    requires
        positive(s),
        in_bounds(s, c1),
        in_bounds(s, c2),
    ensures
        encode(s, c1) == encode(s, c2) <==> c1 == c2,
{
    lemma_encode(s, c1);
    lemma_encode(s, c2);
}

/// Decoding is one-to-one on the positions of the flat vector.
pub proof fn lemma_decode_injective(s: Quad, i: int, j: int)
    requires
        positive(s),
        0 <= i < volume(s),
        0 <= j < volume(s),
    ensures
        decode(s, i) == decode(s, j) <==> i == j,
{
    lemma_decode(s, i);
    lemma_decode(s, j);
}

pub proof fn lemma_volume_positive(s: Quad)
    requires
        positive(s),
    ensures
        volume(s) >= 1,
{
    assert(s.0 * s.1 * s.2 * s.3 >= 1) by (nonlinear_arith)
        requires
            positive(s),
    ;
}

/// The offset that moves the box `[1, spans]` onto the tiles around `c`.
pub open spec fn shift(p: Quad, c: Quad, r: int) -> Quad {
    (
        p.0 + span_lo(c.0, r) - 1,
        p.1 + span_lo(c.1, r) - 1,
        p.2 + span_lo(c.2, r) - 1,
        p.3 + span_lo(c.3, r) - 1,
    )
}

pub open spec fn box_set(s: Quad, c: Quad, r: int) -> Set<Quad> {
    Set::new(|p: Quad| in_box(s, c, r, p))
}

/// The tiles within distance `r` of a tile on the field number exactly
/// `box_count(s, c, r)`.
pub proof fn lemma_box_size(s: Quad, c: Quad, r: int)
    requires
        positive(s),
        in_bounds(s, c),
        r >= 0,
    ensures
        positive(spans(s, c, r)),
        box_set(s, c, r).finite(),
        box_set(s, c, r).len() == box_count(s, c, r),
{
    let l = spans(s, c, r);
    let f = |j: int| shift(decode(l, j), c, r);
    let dom = set_int_range(0, volume(l));
    lemma_int_range(0, volume(l));
    assert forall|j1: int, j2: int| dom.contains(j1) && dom.contains(j2) && f(j1) == f(j2)
        implies j1 == j2 by {
        lemma_decode_injective(l, j1, j2);
    }
    assert(injective_on(f, dom));
    assert forall|p: Quad| box_set(s, c, r).contains(p) implies dom.map(f).contains(p) by {
        let q = (
            p.0 - span_lo(c.0, r) + 1,
            p.1 - span_lo(c.1, r) + 1,
            p.2 - span_lo(c.2, r) + 1,
            p.3 - span_lo(c.3, r) + 1,
        );
        assert(in_bounds(l, q));
        lemma_encode(l, q);
        assert(f(encode(l, q)) == p);
        assert(dom.contains(encode(l, q)));
    }
    assert forall|p: Quad| dom.map(f).contains(p) implies box_set(s, c, r).contains(p) by {
        let j = choose|j: int| dom.contains(j) && f(j) == p;
        lemma_decode(l, j);
    }
    assert(dom.map(f) =~= box_set(s, c, r));
    lemma_map_size(dom, box_set(s, c, r), f);
}

/// The neighbours of a tile: its box of radius 1, without itself, encoded.
pub proof fn lemma_nbr_set_size(s: Quad, i: int)
    requires
        positive(s),
        0 <= i < volume(s),
    ensures
        nbr_set(s, i).finite(),
        nbr_set(s, i).len() == box_count(s, decode(s, i), 1) - 1,
        nbr_set(s, i).subset_of(positions(s)),
{
    let c = decode(s, i);
    lemma_decode(s, i);
    lemma_box_size(s, c, 1);
    let bx = box_set(s, c, 1).remove(c);
    let f = |p: Quad| encode(s, p);
    assert forall|p1: Quad, p2: Quad| bx.contains(p1) && bx.contains(p2) && f(p1) == f(p2)
        implies p1 == p2 by {
        lemma_encode_injective(s, p1, p2);
    }
    assert(injective_on(f, bx));
    assert forall|j: int| nbr_set(s, i).contains(j) implies bx.map(f).contains(j) by {
        lemma_decode(s, j);
        assert(bx.contains(decode(s, j)));
    }
    assert forall|j: int| bx.map(f).contains(j) implies nbr_set(s, i).contains(j) by {
        let p = choose|p: Quad| bx.contains(p) && f(p) == j;
        lemma_encode(s, p);
    }
    assert(bx.map(f) =~= nbr_set(s, i));
    lemma_map_size(bx, nbr_set(s, i), f);
}

/// Adjacency of positions is symmetric.
pub proof fn lemma_nbr_symmetric(s: Quad, i: int, j: int)
    requires
        0 <= i < volume(s),
        0 <= j < volume(s),
    ensures
        nbr_set(s, i).contains(j) == nbr_set(s, j).contains(i),
{
}

/// Decoding any position gives a coordinate on the field.
pub proof fn lemma_decode_in_bounds(s: Quad, i: int)
    requires
        positive(s),
    ensures
        in_bounds(s, decode(s, i)),
{
    lemma_mod_bound(i, s.0);
    lemma_mod_bound(i / s.0, s.1);
    lemma_mod_bound(i / s.0 / s.1, s.2);
    lemma_mod_bound(i / s.0 / s.1 / s.2, s.3);
}

/// A tile has at most 80 neighbours.
pub proof fn lemma_box_count_small(s: Quad, c: Quad)
    requires
        positive(s),
        in_bounds(s, c),
    ensures
        1 <= box_count(s, c, 1) <= 81,
        positive(spans(s, c, 1)),
{
    let l = spans(s, c, 1);
    assert(1 <= l.0 <= 3 && 1 <= l.1 <= 3 && 1 <= l.2 <= 3 && 1 <= l.3 <= 3);
    assert(1 <= l.0 * l.1 * l.2 * l.3 <= 81) by (nonlinear_arith)
        requires
            1 <= l.0 <= 3 && 1 <= l.1 <= 3 && 1 <= l.2 <= 3 && 1 <= l.3 <= 3,
    ;
}

} // verus!
