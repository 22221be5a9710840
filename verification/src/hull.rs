//! Convex hulls of pixel sets by Andrew's monotone chain, in exact integer
//! arithmetic.

use vstd::prelude::*;

verus! {

/// Lexicographic order on pixels: by x, then by y.
pub open spec fn lex_lt(a: (u32, u32), b: (u32, u32)) -> bool {
    a.0 < b.0 || (a.0 == b.0 && a.1 < b.1)
}

/// Strictly increasing in lexicographic order (so without repeats).
pub open spec fn strictly_sorted(s: Seq<(u32, u32)>) -> bool {
    forall|i: int, j: int| 0 <= i < j < s.len() ==> lex_lt(#[trigger] s[i], #[trigger] s[j])
}


/// Twice the signed area of the triangle `o, a, b`: positive when `o → a → b`
/// turns left (counter-clockwise), zero when the three are collinear.
pub open spec fn cross(o: (u32, u32), a: (u32, u32), b: (u32, u32)) -> int {
    (a.0 - o.0) * (b.1 - o.1) - (a.1 - o.1) * (b.0 - o.0)
}

// ---------------------------------------------------------------------------
// Plane geometry on integer vectors
// ---------------------------------------------------------------------------

/// The determinant of two vectors: positive when `y` lies counter-clockwise
/// of `x` (within half a turn).
pub open spec fn det(x: (int, int), y: (int, int)) -> int {
    x.0 * y.1 - x.1 * y.0
}

/// The vector from `a` to `b`.
pub open spec fn vec_of(a: (u32, u32), b: (u32, u32)) -> (int, int) {
    (b.0 - a.0, b.1 - a.1)
}

/// A vector pointing lexicographically forward: right, or straight up.
pub open spec fn forward(x: (int, int)) -> bool {
    x.0 > 0 || (x.0 == 0 && x.1 > 0)
}

/// The negated vector.
pub open spec fn neg(x: (int, int)) -> (int, int) {
    (-x.0, -x.1)
}

proof fn lemma_cross_is_det(o: (u32, u32), a: (u32, u32), b: (u32, u32))
    ensures
        cross(o, a, b) == det(vec_of(o, a), vec_of(o, b)),
        cross(o, a, b) == -cross(o, b, a),
        cross(o, a, b) == cross(a, b, o),
{
    assert(cross(o, a, b) == -cross(o, b, a)) by (nonlinear_arith);
    assert(cross(o, a, b) == cross(a, b, o)) by (nonlinear_arith);
}

proof fn lemma_det_facts(x: (int, int), y: (int, int))
    ensures
        det(y, x) == -det(x, y),
        det(neg(x), neg(y)) == det(x, y),
        x.0 == 0 ==> det(x, y) == -x.1 * y.0,
        y.0 == 0 ==> det(x, y) == x.0 * y.1,
{
    assert(det(y, x) == -det(x, y)) by (nonlinear_arith);
    assert(det(neg(x), neg(y)) == det(x, y)) by (nonlinear_arith);
    if x.0 == 0 {
        assert(det(x, y) == -x.1 * y.0) by (nonlinear_arith)
            requires
                x.0 == 0,
        ;
    }
    if y.0 == 0 {
        assert(det(x, y) == x.0 * y.1) by (nonlinear_arith)
            requires
                y.0 == 0,
        ;
    }
}

/// Any three plane vectors are linearly dependent, with the determinants as
/// coefficients.
proof fn lemma_three_vectors(x: (int, int), y: (int, int), z: (int, int))
    ensures
        det(x, y) * z.0 + det(y, z) * x.0 + det(z, x) * y.0 == 0,
        det(x, y) * z.1 + det(y, z) * x.1 + det(z, x) * y.1 == 0,
{
    assert(det(x, y) * z.0 + det(y, z) * x.0 + det(z, x) * y.0 == 0) by (nonlinear_arith);
    assert(det(x, y) * z.1 + det(y, z) * x.1 + det(z, x) * y.1 == 0) by (nonlinear_arith);
}

/// Among forward vectors, "counter-clockwise of" is transitive.
proof fn lemma_forward_turns_compose(x: (int, int), y: (int, int), z: (int, int))
    requires
        forward(x),
        forward(y),
        forward(z),
        det(x, y) >= 0,
        det(y, z) >= 0,
    ensures
        det(x, z) >= 0,
{
    lemma_det_facts(x, y);
    lemma_det_facts(y, z);
    lemma_det_facts(x, z);
    lemma_three_vectors(x, y, z);
    if y.0 > 0 {
        assert(det(x, z) * y.0 == det(x, y) * z.0 + det(y, z) * x.0) by (nonlinear_arith)
            requires
                det(x, y) * z.0 + det(y, z) * x.0 + det(z, x) * y.0 == 0,
                det(z, x) == -det(x, z),
        ;
        assert(det(x, y) * z.0 >= 0) by (nonlinear_arith)
            requires
                det(x, y) >= 0,
                z.0 >= 0,
        ;
        assert(det(y, z) * x.0 >= 0) by (nonlinear_arith)
            requires
                det(y, z) >= 0,
                x.0 >= 0,
        ;
        assert(det(x, z) >= 0) by (nonlinear_arith)
            requires
                det(x, z) * y.0 >= 0,
                y.0 > 0,
        ;
    } else {
        assert(y.1 > 0);
        assert(det(y, z) == -y.1 * z.0);
        assert(z.0 <= 0) by (nonlinear_arith)
            requires
                -y.1 * z.0 >= 0,
                y.1 > 0,
        ;
        assert(det(x, z) == x.0 * z.1);
        assert(x.0 * z.1 >= 0) by (nonlinear_arith)
            requires
                x.0 >= 0,
                z.1 > 0,
        ;
    }
}

/// Two forward vectors `v`, `w` and a backward vector `u`, with `u` and `w`
/// both strictly counter-clockwise of `v`: then `u` is strictly
/// counter-clockwise of `w`.
proof fn lemma_backward_beyond_forward(u: (int, int), v: (int, int), w: (int, int))
    requires
        forward(neg(u)),
        forward(v),
        forward(w),
        det(v, u) > 0,
        det(v, w) > 0,
    ensures
        det(w, u) > 0,
{
    lemma_det_facts(v, u);
    lemma_det_facts(v, w);
    lemma_det_facts(w, u);
    lemma_three_vectors(v, w, u);
    if v.0 == 0 {
        assert(det(v, w) == -v.1 * w.0);
        assert(w.0 < 0) by (nonlinear_arith)
            requires
                -v.1 * w.0 > 0,
                v.1 > 0,
        ;
    }
    assert(v.0 > 0);
    if u.0 == 0 {
        assert(u.1 < 0);
        assert(det(v, u) == v.0 * u.1);
        assert(v.0 * u.1 < 0) by (nonlinear_arith)
            requires
                v.0 > 0,
                u.1 < 0,
        ;
    }
    assert(u.0 < 0);
    assert(det(w, u) * v.0 == det(v, u) * w.0 - det(v, w) * u.0) by (nonlinear_arith)
        requires
            det(v, w) * u.0 + det(w, u) * v.0 + det(u, v) * w.0 == 0,
            det(u, v) == -det(v, u),
    ;
    assert(det(v, u) * w.0 >= 0) by (nonlinear_arith)
        requires
            det(v, u) > 0,
            w.0 >= 0,
    ;
    assert(det(v, w) * u.0 < 0) by (nonlinear_arith)
        requires
            det(v, w) > 0,
            u.0 < 0,
    ;
    assert(det(w, u) > 0) by (nonlinear_arith)
        requires
            det(w, u) * v.0 > 0,
            v.0 > 0,
    ;
}

/// A backward vector `a` strictly counter-clockwise of a forward vector `p`,
/// and a backward (or zero) vector `q` with `a` counter-clockwise of it: then
/// `q` is counter-clockwise of `p`.
proof fn lemma_backward_between(a: (int, int), p: (int, int), q: (int, int))
    requires
        forward(neg(a)),
        forward(p),
        forward(neg(q)) || q == (0int, 0int),
        det(q, a) >= 0,
        det(p, a) > 0,
    ensures
        det(p, q) >= 0,
{
    lemma_det_facts(p, a);
    lemma_det_facts(q, a);
    lemma_det_facts(p, q);
    lemma_three_vectors(p, a, q);
    if a.0 == 0 {
        assert(a.1 < 0);
        assert(det(p, a) == p.0 * a.1);
        assert(p.0 * a.1 <= 0) by (nonlinear_arith)
            requires
                p.0 >= 0,
                a.1 < 0,
        ;
    }
    assert(a.0 < 0);
    assert(det(q, p) * a.0 == det(q, a) * p.0 - det(p, a) * q.0) by (nonlinear_arith)
        requires
            det(p, a) * q.0 + det(a, q) * p.0 + det(q, p) * a.0 == 0,
            det(a, q) == -det(q, a),
    ;
    assert(det(q, a) * p.0 >= 0) by (nonlinear_arith)
        requires
            det(q, a) >= 0,
            p.0 >= 0,
    ;
    assert(det(p, a) * q.0 <= 0) by (nonlinear_arith)
        requires
            det(p, a) > 0,
            q.0 <= 0,
    ;
    assert(det(q, p) <= 0) by (nonlinear_arith)
        requires
            det(q, p) * a.0 >= 0,
            a.0 < 0,
    ;
    assert(det(p, q) == -det(q, p));
}

/// Of two opposite parallel vectors `d` (forward) and `e` (backward), any
/// vector counter-clockwise-or-on of `e` is clockwise-or-on of `d`.
proof fn lemma_opposite_sides(d: (int, int), e: (int, int), r: (int, int))
    requires
        forward(d),
        forward(neg(e)),
        det(d, e) == 0,
        det(e, r) >= 0,
    ensures
        det(d, r) <= 0,
{
    lemma_det_facts(d, e);
    lemma_det_facts(e, r);
    lemma_det_facts(d, r);
    lemma_three_vectors(d, e, r);
    if d.0 > 0 {
        if e.0 == 0 {
            assert(e.1 < 0);
            assert(det(d, e) == d.0 * e.1);
            assert(d.0 * e.1 < 0) by (nonlinear_arith)
                requires
                    d.0 > 0,
                    e.1 < 0,
            ;
        }
        assert(e.0 < 0);
        assert(det(e, r) * d.0 == det(d, r) * e.0) by (nonlinear_arith)
            requires
                det(d, e) * r.0 + det(e, r) * d.0 + det(r, d) * e.0 == 0,
                det(d, e) == 0,
                det(r, d) == -det(d, r),
        ;
        assert(det(e, r) * d.0 >= 0) by (nonlinear_arith)
            requires
                det(e, r) >= 0,
                d.0 > 0,
        ;
        assert(det(d, r) <= 0) by (nonlinear_arith)
            requires
                det(d, r) * e.0 >= 0,
                e.0 < 0,
        ;
    } else {
        assert(d.0 == 0 && d.1 > 0);
        assert(det(d, e) == -d.1 * e.0);
        assert(e.0 == 0) by (nonlinear_arith)
            requires
                -d.1 * e.0 == 0,
                d.1 > 0,
        ;
        assert(e.1 < 0);
        assert(det(e, r) * d.1 == det(d, r) * e.1) by (nonlinear_arith)
            requires
                det(d, e) * r.1 + det(e, r) * d.1 + det(r, d) * e.1 == 0,
                det(d, e) == 0,
                det(r, d) == -det(d, r),
        ;
        assert(det(e, r) * d.1 >= 0) by (nonlinear_arith)
            requires
                det(e, r) >= 0,
                d.1 > 0,
        ;
        assert(det(d, r) <= 0) by (nonlinear_arith)
            requires
                det(d, r) * e.1 >= 0,
                e.1 < 0,
        ;
    }
}

/// Two vectors both parallel to a non-zero vector are parallel.
proof fn lemma_parallel_to_same(d: (int, int), x: (int, int), y: (int, int))
    requires
        d != (0int, 0int),
        det(d, x) == 0,
        det(d, y) == 0,
    ensures
        det(x, y) == 0,
{
    lemma_three_vectors(d, x, y);
    assert(det(x, y) * d.0 == 0) by (nonlinear_arith)
        requires
            det(d, x) * y.0 + det(x, y) * d.0 + det(y, d) * x.0 == 0,
            det(d, x) == 0,
            det(y, d) == -det(d, y),
            det(d, y) == 0,
    ;
    assert(det(x, y) * d.1 == 0) by (nonlinear_arith)
        requires
            det(d, x) * y.1 + det(x, y) * d.1 + det(y, d) * x.1 == 0,
            det(d, x) == 0,
            det(y, d) == -det(d, y),
            det(d, y) == 0,
    ;
    if d.0 != 0 {
        assert(det(x, y) == 0) by (nonlinear_arith)
            requires
                det(x, y) * d.0 == 0,
                d.0 != 0,
        ;
    } else {
        assert(d.1 != 0);
        assert(det(x, y) == 0) by (nonlinear_arith)
            requires
                det(x, y) * d.1 == 0,
                d.1 != 0,
        ;
    }
}

fn cross_exec(o: (u32, u32), a: (u32, u32), b: (u32, u32)) -> (r: i128)
    ensures
        r == cross(o, a, b),
{
    let ax = a.0 as i128 - o.0 as i128;
    let ay = a.1 as i128 - o.1 as i128;
    let bx = b.0 as i128 - o.0 as i128;
    let by = b.1 as i128 - o.1 as i128;
    assert(-0x1_0000_0000 < ax < 0x1_0000_0000);
    assert(-0x1_0000_0000 < by < 0x1_0000_0000);
    assert(-0x1_0000_0000_0000_0000 < ax * by < 0x1_0000_0000_0000_0000) by (nonlinear_arith)
        requires
            -0x1_0000_0000 < ax < 0x1_0000_0000,
            -0x1_0000_0000 < by < 0x1_0000_0000,
    ;
    assert(-0x1_0000_0000_0000_0000 < ay * bx < 0x1_0000_0000_0000_0000) by (nonlinear_arith)
        requires
            -0x1_0000_0000 < ay < 0x1_0000_0000,
            -0x1_0000_0000 < bx < 0x1_0000_0000,
    ;
    ax * by - ay * bx
}

fn lex_less(a: (u32, u32), b: (u32, u32)) -> (r: bool)
    ensures
        r == lex_lt(a, b),
{
    a.0 < b.0 || (a.0 == b.0 && a.1 < b.1)
}

/// The distinct points of `points`, in lexicographic order.
pub fn sort_unique(points: &[(u32, u32)]) -> (r: Vec<(u32, u32)>)
    ensures
        strictly_sorted(r@),
        forall|q: (u32, u32)| r@.contains(q) <==> points@.contains(q),
{
    let mut out: Vec<(u32, u32)> = Vec::new();
    let mut i: usize = 0;
    while i < points.len()
        invariant
            i <= points@.len(),
            strictly_sorted(out@),
            forall|q: (u32, u32)| out@.contains(q) <==> points@.take(i as int).contains(q),
        decreases points.len() - i,
    {
        let q = points[i];
        let mut k: usize = 0;
        while k < out.len() && lex_less(out[k], q)
            invariant
                k <= out@.len(),
                forall|j: int| 0 <= j < k ==> lex_lt(#[trigger] out@[j], q),
            decreases out.len() - k,
        {
            k = k + 1;
        }
        let ghost before = out@;
        proof {
            assert(points@.take(i + 1) =~= points@.take(i as int).push(q));
        }
        if k < out.len() && out[k].0 == q.0 && out[k].1 == q.1 {
            proof {
                assert forall|x: (u32, u32)| out@.contains(x) <==> points@.take(i + 1).contains(x) by {
                    if x == q {
                        assert(out@[k as int] == q);
                    }
                    if points@.take(i + 1).contains(x) && x != q {
                        let j = choose|j: int| 0 <= j < i + 1 && #[trigger] points@.take(i + 1)[j] == x;
                        assert(points@.take(i as int)[j] == x);
                    }
                }
            }
        } else {
            out.insert(k, q);
            proof {
                assert forall|a: int, b: int| 0 <= a < b < out@.len() implies lex_lt(
                    #[trigger] out@[a],
                    #[trigger] out@[b],
                ) by {
                    if k < before.len() {
                        assert(!lex_lt(before[k as int], q));
                        assert(before[k as int] != q);
                    }
                    if a < k && b > k {
                        assert(lex_lt(before[a], q));
                    }
                    if b > k && a > k {
                        assert(out@[a] == before[a - 1] && out@[b] == before[b - 1]);
                    }
                    if a == k && b > k {
                        assert(out@[b] == before[b - 1]);
                        assert(lex_lt(q, before[k as int]));
                        if b - 1 > k {
                            assert(lex_lt(before[k as int], before[b - 1]));
                        }
                    }
                }
                assert forall|x: (u32, u32)| out@.contains(x) <==> points@.take(i + 1).contains(x) by {
                    let pt = points@.take(i + 1);
                    let p0 = points@.take(i as int);
                    assert(pt[i as int] == q);
                    assert(out@[k as int] == q);
                    if out@.contains(x) {
                        let j = choose|j: int| 0 <= j < out@.len() && #[trigger] out@[j] == x;
                        if j != k {
                            let jj = if j < k { j } else { j - 1 };
                            assert(before[jj] == x);
                            assert(before.contains(x));
                            let t = choose|t: int| 0 <= t < p0.len() && #[trigger] p0[t] == x;
                            assert(pt[t] == x);
                        }
                    }
                    if pt.contains(x) {
                        let j = choose|j: int| 0 <= j < pt.len() && #[trigger] pt[j] == x;
                        if j != i {
                            assert(p0[j] == x);
                            assert(p0.contains(x));
                            assert(before.contains(x));
                            let t = choose|t: int| 0 <= t < before.len() && #[trigger] before[t] == x;
                            if t < k {
                                assert(out@[t] == x);
                            } else {
                                assert(out@[t + 1] == x);
                            }
                        }
                    }
                }
            }
        }
        i = i + 1;
    }
    proof {
        assert(points@.take(points@.len() as int) =~= points@);
    }
    out
}


/// The chain turns strictly left at its vertex `j + 1`.
pub open spec fn turns_left_at(s: Seq<(u32, u32)>, j: int) -> bool {
    cross(s[j], s[j + 1], s[j + 2]) > 0
}

/// Every three consecutive vertices of the chain make a strict left turn.
pub open spec fn left_turns(s: Seq<(u32, u32)>) -> bool {
    forall|j: int| 0 <= j && j + 2 < s.len() ==> #[trigger] turns_left_at(s, j)
}

/// `a` comes before `b` in lexicographic order (`asc`) or in its reverse.
pub open spec fn before(a: (u32, u32), b: (u32, u32), asc: bool) -> bool {
    if asc {
        lex_lt(a, b)
    } else {
        lex_lt(b, a)
    }
}

/// Strictly increasing (`asc`) or strictly decreasing in lexicographic order.
pub open spec fn sorted_dir(s: Seq<(u32, u32)>, asc: bool) -> bool {
    forall|i: int, j: int| 0 <= i < j < s.len() ==> before(#[trigger] s[i], #[trigger] s[j], asc)
}

/// Every point of `pts` lies left of, or on the line of, every edge of the
/// chain `c`.
pub open spec fn chain_encloses(c: Seq<(u32, u32)>, pts: Seq<(u32, u32)>) -> bool {
    forall|j: int, k: int|
        0 <= j && j + 1 < c.len() && 0 <= k < pts.len() ==> #[trigger] cross(c[j], c[j + 1], pts[k])
            >= 0
}

/// The vector from `a` to `b` points forward in the scan direction.
proof fn lemma_before_forward(a: (u32, u32), b: (u32, u32), asc: bool)
    requires
        before(a, b, asc),
    ensures
        asc ==> forward(vec_of(a, b)),
        !asc ==> forward(neg(vec_of(a, b))),
{
}

proof fn lemma_cross_zero(o: (u32, u32), a: (u32, u32))
    ensures
        cross(o, a, a) == 0,
        cross(o, a, o) == 0,
{
    assert(cross(o, a, a) == 0) by (nonlinear_arith);
    assert(cross(o, a, o) == 0) by (nonlinear_arith);
}

/// A point beyond the chain's last vertex and strictly left of its last edge
/// makes a strict left turn with the edge before it.
proof fn lemma_turn_carries_back(
    z: (u32, u32),
    a: (u32, u32),
    b: (u32, u32),
    p: (u32, u32),
    asc: bool,
)
    requires
        before(z, a, asc),
        before(a, b, asc),
        before(a, p, asc),
        cross(z, a, b) > 0,
        cross(a, b, p) > 0,
    ensures
        cross(z, a, p) > 0,
{
    lemma_cross_is_det(a, b, z);
    lemma_cross_is_det(z, a, b);
    lemma_cross_is_det(a, b, p);
    lemma_cross_is_det(a, p, z);
    lemma_cross_is_det(z, a, p);
    let u = vec_of(a, z);
    let v = vec_of(a, b);
    let w = vec_of(a, p);
    lemma_before_forward(a, b, asc);
    lemma_before_forward(a, p, asc);
    lemma_before_forward(z, a, asc);
    lemma_det_facts(v, u);
    lemma_det_facts(v, w);
    lemma_det_facts(w, u);
    if asc {
        assert(forward(neg(u)));
        lemma_backward_beyond_forward(u, v, w);
    } else {
        assert(forward(u));
        assert(neg(neg(u)) == u);
        lemma_backward_beyond_forward(neg(u), neg(v), neg(w));
    }
}

/// A point before `b`, left of or on the edge `a → b`, is left of or on the
/// edge `b → p` when `p` is strictly left of `a → b`.
proof fn lemma_earlier_point_stays_left(
    a: (u32, u32),
    b: (u32, u32),
    p: (u32, u32),
    q: (u32, u32),
    asc: bool,
)
    requires
        before(a, b, asc),
        before(b, p, asc),
        before(q, b, asc) || q == b,
        cross(a, b, q) >= 0,
        cross(a, b, p) > 0,
    ensures
        cross(b, p, q) >= 0,
{
    lemma_cross_is_det(a, b, q);
    lemma_cross_is_det(b, q, a);
    lemma_cross_is_det(a, b, p);
    lemma_cross_is_det(b, p, a);
    lemma_cross_is_det(b, p, q);
    let av = vec_of(b, a);
    let pv = vec_of(b, p);
    let qv = vec_of(b, q);
    lemma_before_forward(a, b, asc);
    lemma_before_forward(b, p, asc);
    if q != b {
        lemma_before_forward(q, b, asc);
    }
    lemma_det_facts(qv, av);
    lemma_det_facts(pv, av);
    lemma_det_facts(pv, qv);
    if asc {
        lemma_backward_between(av, pv, qv);
    } else {
        assert(neg(neg(av)) == av);
        assert(neg(neg(qv)) == qv);
        lemma_backward_between(neg(av), neg(pv), neg(qv));
    }
}

/// A point after `b`, left of or on the edge `b → c`, is left of or on the
/// edge `b → p` when `c` is left of or on `b → p`.
proof fn lemma_later_point_stays_left(
    b: (u32, u32),
    c: (u32, u32),
    p: (u32, u32),
    q: (u32, u32),
    asc: bool,
)
    requires
        before(b, c, asc),
        before(b, p, asc),
        before(b, q, asc),
        cross(b, c, q) >= 0,
        cross(b, c, p) <= 0,
    ensures
        cross(b, p, q) >= 0,
{
    lemma_cross_is_det(b, c, q);
    lemma_cross_is_det(b, c, p);
    lemma_cross_is_det(b, p, q);
    let cv = vec_of(b, c);
    let pv = vec_of(b, p);
    let qv = vec_of(b, q);
    lemma_before_forward(b, c, asc);
    lemma_before_forward(b, p, asc);
    lemma_before_forward(b, q, asc);
    lemma_det_facts(cv, pv);
    lemma_det_facts(pv, cv);
    lemma_det_facts(cv, qv);
    lemma_det_facts(pv, qv);
    if asc {
        lemma_forward_turns_compose(pv, cv, qv);
    } else {
        lemma_forward_turns_compose(neg(pv), neg(cv), neg(qv));
    }
}

/// A point beyond the end of a convex chain, strictly left of its last edge,
/// is strictly left of every edge.
proof fn lemma_left_of_chain(c: Seq<(u32, u32)>, p: (u32, u32), asc: bool)
    requires
        sorted_dir(c, asc),
        left_turns(c),
        c.len() >= 2,
        cross(c[c.len() - 2], c[c.len() - 1], p) > 0,
        before(c.last(), p, asc),
    ensures
        forall|j: int| 0 <= j && j + 1 < c.len() ==> #[trigger] cross(c[j], c[j + 1], p) > 0,
    decreases c.len(),
{
    if c.len() > 2 {
        let n = c.len();
        let z = c[n - 3];
        let a = c[n - 2];
        let b = c[n - 1];
        assert(turns_left_at(c, n - 3));
        assert(before(z, a, asc));
        assert(before(a, b, asc));
        lemma_turn_carries_back(z, a, b, p, asc);
        let c2 = c.drop_last();
        assert(left_turns(c2)) by {
            assert forall|j: int| 0 <= j && j + 2 < c2.len() implies #[trigger] turns_left_at(c2, j) by {
                assert(turns_left_at(c, j));
            }
        }
        lemma_left_of_chain(c2, p, asc);
        assert forall|j: int| 0 <= j && j + 1 < c.len() implies #[trigger] cross(c[j], c[j + 1], p)
            > 0 by {
            if j + 1 < c2.len() {
                assert(cross(c2[j], c2[j + 1], p) > 0);
            }
        }
    }
}

/// After popping the stack `snap` down to its first `len` vertices and pushing
/// `s[i]`, every point scanned so far lies left of or on every edge.
proof fn lemma_push_keeps_enclosure(
    s: Seq<(u32, u32)>,
    asc: bool,
    snap: Seq<(u32, u32)>,
    sidx: Seq<int>,
    len: int,
    i: int,
)
    requires
        sorted_dir(s, asc),
        0 < i < s.len(),
        sidx.len() == snap.len(),
        snap.len() >= 1,
        forall|j: int| 0 <= j < sidx.len() ==> 0 <= #[trigger] sidx[j] < i && snap[j] == s[sidx[j]],
        forall|a: int, b: int| 0 <= a < b < sidx.len() ==> #[trigger] sidx[a] < #[trigger] sidx[b],
        sidx[0] == 0,
        sidx.last() == i - 1,
        left_turns(snap),
        forall|j: int, k: int|
            0 <= j && j + 1 < snap.len() && 0 <= k < i ==> #[trigger] cross(snap[j], snap[j + 1], s[k])
                >= 0,
        1 <= len <= snap.len(),
        len < snap.len() ==> cross(snap[len - 1], snap[len], s[i]) <= 0,
        len >= 2 ==> cross(snap[len - 2], snap[len - 1], s[i]) > 0,
    ensures
        forall|j: int, k: int|
            0 <= j && j + 1 < len + 1 && 0 <= k < i + 1 ==> #[trigger] cross(
                snap.take(len).push(s[i])[j],
                snap.take(len).push(s[i])[j + 1],
                s[k],
            ) >= 0,
{
    let st2 = snap.take(len).push(s[i]);
    let p = s[i];
    let c = snap.take(len);
    assert(sorted_dir(c, asc)) by {
        assert forall|x: int, y: int| 0 <= x < y < c.len() implies before(#[trigger] c[x], #[trigger] c[y], asc) by {
            assert(sidx[x] < sidx[y]);
        }
    }
    assert(left_turns(c)) by {
        assert forall|j: int| 0 <= j && j + 2 < c.len() implies #[trigger] turns_left_at(c, j) by {
            assert(turns_left_at(snap, j));
        }
    }
    if len >= 2 {
        assert(before(c.last(), p, asc)) by {
            assert(sidx[len - 1] < i);
        }
        lemma_left_of_chain(c, p, asc);
    }
    let ib = sidx[len - 1];
    let b = snap[len - 1];
    assert forall|j: int, k: int| 0 <= j && j + 1 < len + 1 && 0 <= k < i + 1 implies #[trigger] cross(
        st2[j],
        st2[j + 1],
        s[k],
    ) >= 0 by {
        if j + 1 < len {
            assert(st2[j] == snap[j] && st2[j + 1] == snap[j + 1]);
            if k < i {
                assert(cross(snap[j], snap[j + 1], s[k]) >= 0);
            } else {
                assert(cross(c[j], c[j + 1], p) > 0);
            }
        } else {
            assert(j == len - 1);
            assert(st2[j] == b && st2[j + 1] == p);
            let q = s[k];
            assert(before(b, p, asc)) by {
                assert(ib < i);
            }
            if k == i {
                lemma_cross_zero(b, p);
            } else if k == ib {
                lemma_cross_zero(b, p);
            } else if k < ib {
                if len == 1 {
                    assert(sidx[0] == 0);
                    assert(false);
                }
                let a = snap[len - 2];
                assert(sidx[len - 2] < sidx[len - 1]);
                assert(before(a, b, asc));
                assert(before(q, b, asc));
                assert(cross(snap[len - 2], snap[len - 2 + 1], s[k]) >= 0);
                lemma_earlier_point_stays_left(a, b, p, q, asc);
            } else {
                if len == snap.len() {
                    assert(sidx.last() == i - 1);
                    assert(false);
                }
                let cc = snap[len];
                assert(sidx[len - 1] < sidx[len as int]);
                assert(before(b, cc, asc));
                assert(before(b, q, asc));
                assert(cross(snap[len - 1], snap[len - 1 + 1], s[k]) >= 0);
                lemma_later_point_stays_left(b, cc, p, q, asc);
            }
        }
    }
}

/// One half of the monotone chain over `s`: each point in turn is pushed
/// after popping the vertices that would not make a strict left turn.
fn half_chain(s: &Vec<(u32, u32)>, Ghost(asc): Ghost<bool>) -> (r: Vec<(u32, u32)>)
    requires
        sorted_dir(s@, asc),
    ensures
        s@.len() > 0 ==> r@.len() >= 1 && r@[0] == s@[0] && r@.last() == s@.last(),
        s@.len() == 0 ==> r@.len() == 0,
        forall|q: (u32, u32)| r@.contains(q) ==> s@.contains(q),
        sorted_dir(r@, asc),
        left_turns(r@),
        chain_encloses(r@, s@),
{
    let mut st: Vec<(u32, u32)> = Vec::new();
    let ghost mut idx: Seq<int> = Seq::empty();
    let n = s.len();
    let mut i: usize = 0;
    while i < n
        invariant
            n == s@.len(),
            sorted_dir(s@, asc),
            i <= n,
            idx.len() == st@.len(),
            forall|j: int| 0 <= j < idx.len() ==> 0 <= #[trigger] idx[j] < i && st@[j] == s@[idx[j]],
            forall|a: int, b: int| 0 <= a < b < idx.len() ==> #[trigger] idx[a] < #[trigger] idx[b],
            i > 0 ==> st@.len() >= 1 && idx[0] == 0 && idx.last() == i - 1,
            i == 0 ==> st@.len() == 0,
            left_turns(st@),
            forall|j: int, k: int|
                0 <= j && j + 1 < st@.len() && 0 <= k < i ==> #[trigger] cross(st@[j], st@[j + 1], s@[k])
                    >= 0,
        decreases n - i,
    {
        let p = s[i];
        let ghost snap = st@;
        let ghost sidx = idx;
        while st.len() >= 2 && cross_exec(st[st.len() - 2], st[st.len() - 1], p) <= 0
            invariant
                n == s@.len(),
                i < n,
                p == s@[i as int],
                idx.len() == st@.len(),
                forall|j: int| 0 <= j < idx.len() ==> 0 <= #[trigger] idx[j] < i && st@[j] == s@[idx[j]],
                forall|a: int, b: int| 0 <= a < b < idx.len() ==> #[trigger] idx[a] < #[trigger] idx[b],
                i > 0 ==> st@.len() >= 1 && idx[0] == 0,
                i == 0 ==> st@.len() == 0,
                left_turns(st@),
                st@.len() <= snap.len(),
                sidx.len() == snap.len(),
                st@ == snap.take(st@.len() as int),
                idx == sidx.take(st@.len() as int),
                st@.len() < snap.len() ==> st@.len() >= 1 && cross(
                    st@.last(),
                    snap[st@.len() as int],
                    p,
                ) <= 0,
            decreases st.len(),
        {
            let ghost full = st@;
            let ghost full_idx = idx;
            st.pop();
            proof {
                idx = idx.drop_last();
                assert forall|j: int| 0 <= j < idx.len() implies idx[j] == sidx.take(st@.len() as int)[j] by {
                    assert(idx[j] == full_idx[j]);
                    assert(full_idx[j] == sidx.take(full.len() as int)[j]);
                }
                assert forall|j: int| 0 <= j && j + 2 < st@.len() implies #[trigger] turns_left_at(st@, j) by {
                    assert(turns_left_at(full, j));
                }
                assert(st@ =~= snap.take(st@.len() as int));
                assert(idx =~= sidx.take(st@.len() as int));
            }
        }
        let ghost before_push = st@;
        let ghost len = st@.len() as int;
        proof {
            if i > 0 {
                lemma_push_keeps_enclosure(s@, asc, snap, sidx, len, i as int);
            }
        }
        st.push(p);
        proof {
            idx = idx.push(i as int);
            assert(st@ == snap.take(len).push(s@[i as int]));
            assert forall|j: int| 0 <= j && j + 2 < st@.len() implies #[trigger] turns_left_at(st@, j) by {
                if j + 2 < before_push.len() {
                    assert(turns_left_at(before_push, j));
                }
            }
        }
        i = i + 1;
    }
    proof {
        assert forall|q: (u32, u32)| st@.contains(q) implies s@.contains(q) by {
            let j = choose|j: int| 0 <= j < st@.len() && #[trigger] st@[j] == q;
            assert(s@[idx[j]] == q);
        }
        assert forall|a: int, b: int| 0 <= a < b < st@.len() implies before(
            #[trigger] st@[a],
            #[trigger] st@[b],
            asc,
        ) by {
            assert(idx[a] < idx[b]);
        }
    }
    st
}

/// Every point lies on the line through the first two.
pub open spec fn collinear(s: Seq<(u32, u32)>) -> bool {
    forall|i: int| 0 <= i < s.len() ==> cross(s[0], s[1], #[trigger] s[i]) == 0
}

fn all_collinear(s: &Vec<(u32, u32)>) -> (r: bool)
    requires
        s@.len() >= 2,
    ensures
        r == collinear(s@),
{
    let mut i: usize = 0;
    while i < s.len()
        invariant
            s@.len() >= 2,
            i <= s@.len(),
            forall|j: int| 0 <= j < i ==> cross(s@[0], s@[1], #[trigger] s@[j]) == 0,
        decreases s.len() - i,
    {
        if cross_exec(s[0], s[1], s[i]) != 0 {
            return false;
        }
        i = i + 1;
    }
    true
}

fn reversed(s: &Vec<(u32, u32)>) -> (r: Vec<(u32, u32)>)
    ensures
        r@ == s@.reverse(),
{
    let mut r: Vec<(u32, u32)> = Vec::new();
    let mut i: usize = s.len();
    while i > 0
        invariant
            i <= s@.len(),
            r@ == s@.subrange(i as int, s@.len() as int).reverse(),
        decreases i,
    {
        i = i - 1;
        r.push(s[i]);
        proof {
            assert(r@ =~= s@.subrange(i as int, s@.len() as int).reverse());
        }
    }
    proof {
        assert(s@.subrange(0, s@.len() as int) =~= s@);
    }
    r
}

fn copy_points(points: &[(u32, u32)]) -> (r: Vec<(u32, u32)>)
    ensures
        r@ == points@,
{
    let mut r: Vec<(u32, u32)> = Vec::new();
    let mut i: usize = 0;
    while i < points.len()
        invariant
            i <= points@.len(),
            r@ == points@.take(i as int),
        decreases points.len() - i,
    {
        r.push(points[i]);
        i = i + 1;
        proof {
            assert(r@ =~= points@.take(i as int));
        }
    }
    proof {
        assert(points@.take(points@.len() as int) =~= points@);
    }
    r
}

/// The index after `i` around a closed polygon of `n` vertices.
pub open spec fn succ(n: int, i: int) -> int {
    if i + 1 < n {
        i + 1
    } else {
        0
    }
}

/// The closed polygon `h` has at least three vertices and turns strictly
/// left (counter-clockwise) at every one of them.
pub open spec fn strictly_convex(h: Seq<(u32, u32)>) -> bool {
    &&& h.len() >= 3
    &&& forall|i: int|
        0 <= i < h.len() ==> #[trigger] cross(
            h[i],
            h[succ(h.len() as int, i)],
            h[succ(h.len() as int, succ(h.len() as int, i))],
        ) > 0
}

/// Every point lies left of, or on the line of, every edge of the closed
/// polygon `h`: inside it or on its boundary.
pub open spec fn encloses(h: Seq<(u32, u32)>, points: Seq<(u32, u32)>) -> bool {
    forall|i: int, k: int|
        0 <= i < h.len() && 0 <= k < points.len() ==> #[trigger] cross(
            h[i],
            h[succ(h.len() as int, i)],
            points[k],
        ) >= 0
}

/// `d` shifted by itself: `det(d, x + d) == det(d, x)`.
proof fn lemma_det_shift(d: (int, int), x: (int, int))
    ensures
        det(d, (x.0 + d.0, x.1 + d.1)) == det(d, x),
{
    assert(det(d, (x.0 + d.0, x.1 + d.1)) == det(d, x)) by (nonlinear_arith);
}

/// Points all on one line through `o` (direction `d`) are collinear.
proof fn lemma_on_one_line(pts: Seq<(u32, u32)>, o: (u32, u32), d: (int, int))
    requires
        d != (0int, 0int),
        pts.len() >= 2,
        forall|i: int| 0 <= i < pts.len() ==> det(d, #[trigger] vec_of(o, pts[i])) == 0,
    ensures
        collinear(pts),
{
    assert forall|i: int| 0 <= i < pts.len() implies cross(pts[0], pts[1], #[trigger] pts[i]) == 0 by {
        let x = vec_of(o, pts[0]);
        let y = vec_of(o, pts[1]);
        let z = vec_of(o, pts[i]);
        lemma_parallel_to_same(d, x, y);
        lemma_parallel_to_same(d, x, z);
        lemma_parallel_to_same(d, y, z);
        lemma_cross_is_det(pts[0], pts[1], pts[i]);
        assert(det(vec_of(pts[0], pts[1]), vec_of(pts[0], pts[i])) == det(y, z) - det(y, x) - det(x, z)
            + det(x, x)) by (nonlinear_arith)
            requires
                vec_of(pts[0], pts[1]) == (y.0 - x.0, y.1 - x.1),
                vec_of(pts[0], pts[i]) == (z.0 - x.0, z.1 - x.1),
        ;
        lemma_det_facts(x, y);
        lemma_det_facts(x, x);
    }
}

/// Where two chains meet at `b`, the last edge `a → b` of one and the first
/// edge `b → c` of the other, each enclosing all points: unless every point
/// lies on one line, the turn at `b` is strict.
proof fn lemma_strict_junction(
    pts: Seq<(u32, u32)>,
    a: (u32, u32),
    b: (u32, u32),
    c: (u32, u32),
)
    requires
        pts.len() >= 2,
        !collinear(pts),
        lex_lt(a, b) && lex_lt(c, b) || lex_lt(b, a) && lex_lt(b, c),
        pts.contains(c),
        forall|k: int| 0 <= k < pts.len() ==> #[trigger] cross(a, b, pts[k]) >= 0,
        forall|k: int| 0 <= k < pts.len() ==> #[trigger] cross(b, c, pts[k]) >= 0,
    ensures
        cross(a, b, c) > 0,
{
    let k0 = choose|k: int| 0 <= k < pts.len() && pts[k] == c;
    assert(cross(a, b, pts[k0]) >= 0);
    let d = vec_of(a, b);
    let e = vec_of(b, c);
    lemma_cross_is_det(a, b, c);
    lemma_det_shift(d, e);
    assert(vec_of(a, c) == (e.0 + d.0, e.1 + d.1));
    if cross(a, b, c) == 0 {
        assert(det(d, e) == 0);
        assert forall|i: int| 0 <= i < pts.len() implies det(d, #[trigger] vec_of(b, pts[i])) == 0 by {
            let r = pts[i];
            let rv = vec_of(b, r);
            assert(cross(a, b, r) >= 0);
            assert(cross(b, c, r) >= 0);
            lemma_cross_is_det(a, b, r);
            lemma_cross_is_det(b, c, r);
            lemma_det_shift(d, rv);
            assert(vec_of(a, r) == (rv.0 + d.0, rv.1 + d.1));
            assert(det(d, rv) >= 0);
            assert(det(e, rv) >= 0);
            lemma_det_facts(d, e);
            lemma_det_facts(e, rv);
            lemma_det_facts(d, rv);
            if lex_lt(a, b) {
                lemma_opposite_sides(d, e, rv);
            } else {
                assert(neg(neg(e)) == e);
                lemma_opposite_sides(neg(d), neg(e), neg(rv));
            }
        }
        lemma_on_one_line(pts, b, d);
    }
}

/// Two edges leaving `x`, one forward to `p` and one backward to `q`, both
/// enclose every point only when all points lie on one line.
proof fn lemma_no_opposite_edges(pts: Seq<(u32, u32)>, x: (u32, u32), p: (u32, u32), q: (u32, u32))
    requires
        pts.len() >= 2,
        lex_lt(x, p),
        lex_lt(q, x),
        pts.contains(p),
        pts.contains(q),
        forall|k: int| 0 <= k < pts.len() ==> #[trigger] cross(x, p, pts[k]) >= 0,
        forall|k: int| 0 <= k < pts.len() ==> #[trigger] cross(x, q, pts[k]) >= 0,
    ensures
        collinear(pts),
{
    let kp = choose|k: int| 0 <= k < pts.len() && pts[k] == p;
    let kq = choose|k: int| 0 <= k < pts.len() && pts[k] == q;
    assert(cross(x, p, pts[kq]) >= 0);
    assert(cross(x, q, pts[kp]) >= 0);
    let d = vec_of(x, p);
    let e = vec_of(x, q);
    lemma_cross_is_det(x, p, q);
    lemma_cross_is_det(x, q, p);
    lemma_det_facts(d, e);
    assert(det(d, e) == 0);
    assert forall|i: int| 0 <= i < pts.len() implies det(d, #[trigger] vec_of(x, pts[i])) == 0 by {
        let r = pts[i];
        let rv = vec_of(x, r);
        assert(cross(x, p, r) >= 0);
        assert(cross(x, q, r) >= 0);
        lemma_cross_is_det(x, p, r);
        lemma_cross_is_det(x, q, r);
        lemma_opposite_sides(d, e, rv);
    }
    lemma_on_one_line(pts, x, d);
}

/// The polygon formed by the lower chain without its last vertex followed by
/// the upper chain without its last vertex is strictly convex and encloses
/// every point.
proof fn lemma_chains_form_hull(
    pts: Seq<(u32, u32)>,
    rev: Seq<(u32, u32)>,
    lo: Seq<(u32, u32)>,
    up: Seq<(u32, u32)>,
)
    requires
        strictly_sorted(pts),
        pts.len() >= 3,
        !collinear(pts),
        rev == pts.reverse(),
        lo.len() >= 1 && lo[0] == pts[0] && lo.last() == pts.last(),
        up.len() >= 1 && up[0] == rev[0] && up.last() == rev.last(),
        forall|q: (u32, u32)| lo.contains(q) ==> pts.contains(q),
        forall|q: (u32, u32)| up.contains(q) ==> rev.contains(q),
        sorted_dir(lo, true),
        sorted_dir(up, false),
        left_turns(lo),
        left_turns(up),
        chain_encloses(lo, pts),
        chain_encloses(up, rev),
    ensures
        strictly_convex(lo.take(lo.len() - 1) + up.take(up.len() - 1)),
        encloses(lo.take(lo.len() - 1) + up.take(up.len() - 1), pts),
        (lo.take(lo.len() - 1) + up.take(up.len() - 1)).no_duplicates(),
{
    let m = lo.len() as int;
    let k = up.len() as int;
    let h = lo.take(m - 1) + up.take(k - 1);
    let n = h.len() as int;
    let last = (pts.len() - 1) as int;
    assert(rev[0] == pts[last]);
    assert(rev.last() == pts[0]);
    assert(lex_lt(pts[0], pts[last]));
    // Both chains run between the two extreme points.
    assert(m >= 2) by {
        if m == 1 {
            assert(lo[0] == lo.last());
        }
    }
    assert(k >= 2) by {
        if k == 1 {
            assert(up[0] == up.last());
        }
    }
    assert(n == m + k - 2);
    assert forall|t: int| 0 <= t <= m - 1 implies #[trigger] h[t] == lo[t] by {
        if t == m - 1 {
            assert(h[t] == up[0]);
        }
    }
    assert forall|t: int| m - 1 <= t < n implies #[trigger] h[t] == up[t - (m - 1)] by {}
    assert(h[0] == up[k - 1]);
    // Every point is enclosed by every edge of both chains.
    assert forall|j: int, q: int| 0 <= j && j + 1 < k && 0 <= q < pts.len() implies #[trigger] cross(
        up[j],
        up[j + 1],
        pts[q],
    ) >= 0 by {
        assert(rev[last - q] == pts[q]);
        assert(cross(up[j], up[j + 1], rev[last - q]) >= 0);
    }
    assert forall|j: int, q: int| 0 <= j && j + 1 < m && 0 <= q < pts.len() implies #[trigger] cross(
        lo[j],
        lo[j + 1],
        pts[q],
    ) >= 0 by {}
    // The two junctions turn strictly.
    let ub = up[1];
    assert(up.contains(ub));
    assert(rev.contains(ub));
    assert(pts.contains(ub)) by {
        let t = choose|t: int| 0 <= t < rev.len() && rev[t] == ub;
        assert(pts[last - t] == ub);
    }
    assert(lex_lt(lo[m - 2], lo[m - 1])) by {
        assert(before(lo[m - 2], lo[m - 1], true));
    }
    assert(lex_lt(up[1], up[0])) by {
        assert(before(up[0], up[1], false));
    }
    assert forall|q: int| 0 <= q < pts.len() implies #[trigger] cross(lo[m - 2], lo[m - 1], pts[q]) >= 0 by {
        assert(cross(lo[m - 2], lo[m - 2 + 1], pts[q]) >= 0);
    }
    assert forall|q: int| 0 <= q < pts.len() implies #[trigger] cross(up[0], up[1], pts[q]) >= 0 by {
        assert(cross(up[0], up[0int + 1], pts[q]) >= 0);
    }
    lemma_strict_junction(pts, lo[m - 2], lo[m - 1], up[1]);
    assert(cross(lo[m - 2], lo[m - 1], up[1]) > 0);
    let lb = lo[1];
    assert(lo.contains(lb));
    assert(lex_lt(up[k - 1], up[k - 2])) by {
        assert(before(up[k - 2], up[k - 1], false));
    }
    assert(lex_lt(lo[0], lo[1])) by {
        assert(before(lo[0], lo[1], true));
    }
    assert forall|q: int| 0 <= q < pts.len() implies #[trigger] cross(up[k - 2], up[k - 1], pts[q]) >= 0 by {
        assert(cross(up[k - 2], up[k - 2 + 1], pts[q]) >= 0);
    }
    assert forall|q: int| 0 <= q < pts.len() implies #[trigger] cross(lo[0], lo[1], pts[q]) >= 0 by {
        assert(cross(lo[0], lo[0int + 1], pts[q]) >= 0);
    }
    lemma_strict_junction(pts, up[k - 2], up[k - 1], lo[1]);
    assert(cross(up[k - 2], up[k - 1], lo[1]) > 0);
    // Every vertex turns strictly left.
    assert forall|i: int| 0 <= i < n implies #[trigger] cross(
        h[i],
        h[succ(n, i)],
        h[succ(n, succ(n, i))],
    ) > 0 by {
        if i <= m - 3 {
            assert(turns_left_at(lo, i));
        } else if i == m - 2 {
            assert(h[i] == lo[m - 2]);
            assert(h[succ(n, i)] == up[0]);
            if k >= 3 {
                assert(h[succ(n, succ(n, i))] == up[1]);
            } else {
                assert(h[succ(n, succ(n, i))] == h[0]);
            }
        } else if i <= n - 3 {
            assert(turns_left_at(up, i - (m - 1)));
        } else if i == n - 2 {
            assert(turns_left_at(up, k - 3));
        } else {
            assert(h[i] == up[k - 2]);
            assert(h[succ(n, i)] == h[0]);
            assert(h[succ(n, succ(n, i))] == h[1]);
            assert(h[1] == lo[1]);
        }
    }
    assert(n >= 3) by {
        if n == 2 {
            assert(h[0] == lo[0]);
            assert(h[1] == up[0]);
            assert(cross(h[0], h[1], h[0]) > 0);
            lemma_cross_zero(h[0], h[1]);
        }
    }
    // Every edge of the polygon is an edge of one of the chains.
    assert forall|i: int, q: int| 0 <= i < n && 0 <= q < pts.len() implies #[trigger] cross(
        h[i],
        h[succ(n, i)],
        pts[q],
    ) >= 0 by {
        if i <= m - 2 {
            assert(cross(lo[i], lo[i + 1], pts[q]) >= 0);
        } else if i <= n - 2 {
            assert(cross(up[i - (m - 1)], up[i - (m - 1) + 1], pts[q]) >= 0);
        } else {
            assert(cross(up[k - 2], up[k - 2 + 1], pts[q]) >= 0);
        }
    }
    // No vertex appears twice: each chain is strictly sorted, and a vertex
    // shared by both would start a lower edge and an upper edge that point
    // in opposite directions, each enclosing every point.
    assert forall|i: int, j: int| 0 <= i < n && 0 <= j < n && i != j implies h[i] != h[j] by {
        if h[i] == h[j] {
            let (a, b) = if i < j { (i, j) } else { (j, i) };
            if b <= m - 1 {
                assert(before(lo[a], lo[b], true));
            } else if a >= m - 1 {
                assert(before(up[a - (m - 1)], up[b - (m - 1)], false));
            } else {
                let t = b - (m - 1);
                let x = lo[a];
                assert(x == up[t]);
                assert(before(lo[a], lo[a + 1], true));
                assert(before(up[t], up[t + 1], false));
                assert(lo.contains(lo[a + 1]));
                assert(up.contains(up[t + 1]));
                assert(rev.contains(up[t + 1]));
                assert(pts.contains(up[t + 1])) by {
                    let w = choose|w: int| 0 <= w < rev.len() && rev[w] == up[t + 1];
                    assert(pts[last - w] == up[t + 1]);
                }
                assert forall|q: int| 0 <= q < pts.len() implies #[trigger] cross(x, lo[a + 1], pts[q]) >= 0 by {
                    assert(cross(lo[a], lo[a + 1], pts[q]) >= 0);
                }
                assert forall|q: int| 0 <= q < pts.len() implies #[trigger] cross(x, up[t + 1], pts[q]) >= 0 by {
                    assert(cross(up[t], up[t + 1], pts[q]) >= 0);
                }
                lemma_no_opposite_edges(pts, x, lo[a + 1], up[t + 1]);
            }
        }
    }

}

/// `r` holds the distinct points of `points`, in lexicographic order.
pub open spec fn is_sorted_set_of(r: Seq<(u32, u32)>, points: Seq<(u32, u32)>) -> bool {
    &&& strictly_sorted(r)
    &&& forall|q: (u32, u32)| r.contains(q) <==> points.contains(q)
}

/// Fewer than three points in lexicographic order (repeats kept).
pub open spec fn in_order(points: Seq<(u32, u32)>) -> Seq<(u32, u32)> {
    if points.len() == 2 && lex_lt(points[1], points[0]) {
        seq![points[1], points[0]]
    } else {
        points
    }
}

/// What `convex_hull` promises of its result `h` for the points `points`,
/// whose distinct points in lexicographic order are `s`: fewer than three
/// points come back sorted; when `s` has fewer than three points or they
/// all lie on one line, `h` is `s`; otherwise `h` is a strictly convex
/// counter-clockwise polygon of distinct input points, going around once,
/// starting at the smallest point and enclosing every point.
pub open spec fn is_hull_of(h: Seq<(u32, u32)>, points: Seq<(u32, u32)>) -> bool {
    &&& points.len() < 3 ==> h == in_order(points)
    &&& points.len() >= 3 ==> forall|q: (u32, u32)| h.contains(q) ==> points.contains(q)
    &&& points.len() >= 3 ==> forall|s: Seq<(u32, u32)>| #[trigger]
        is_sorted_set_of(s, points) ==> if s.len() < 3 || collinear(s) {
            h == s
        } else {
            &&& strictly_convex(h)
            &&& h.no_duplicates()
            &&& encloses(h, points)
            &&& h[0] == s[0]
        }
    &&& points.len() > 0 ==> h.len() > 0
}

/// Convex hull by Andrew's monotone chain, vertices counter-clockwise starting
/// from the lexicographically smallest point. Degenerate inputs come back
/// sorted: fewer than three points (repeats kept), or distinct points that
/// number fewer than three or all lie on one line.
pub fn convex_hull(points: &[(u32, u32)]) -> (r: Vec<(u32, u32)>)
    ensures
        is_hull_of(r@, points@),
{
    if points.len() < 3 {
        let mut r = copy_points(points);
        if r.len() == 2 && lex_less(r[1], r[0]) {
            let a = r[0];
            let b = r[1];
            r.set(0, b);
            r.set(1, a);
            proof {
                assert(r@ =~= seq![points@[1], points@[0]]);
            }
        }
        return r;
    }
    let pts = sort_unique(points);
    proof {
        assert forall|s: Seq<(u32, u32)>| is_sorted_set_of(s, points@) implies s == pts@ by {
            lemma_sorted_sets_equal(s, pts@);
        }
        assert(points@.contains(points@[0]));
        assert(pts@.contains(points@[0]));
    }
    if pts.len() < 3 {
        return pts;
    }
    if all_collinear(&pts) {
        return pts;
    }
    let rev = reversed(&pts);
    proof {
        assert(sorted_dir(pts@, true)) by {
            assert forall|x: int, y: int| 0 <= x < y < pts@.len() implies before(#[trigger] pts@[x], #[trigger] pts@[y], true) by {
                assert(lex_lt(pts@[x], pts@[y]));
            }
        }
        assert(sorted_dir(rev@, false)) by {
            assert forall|x: int, y: int| 0 <= x < y < rev@.len() implies before(#[trigger] rev@[x], #[trigger] rev@[y], false) by {
                assert(rev@[x] == pts@[pts@.len() - 1 - x]);
                assert(rev@[y] == pts@[pts@.len() - 1 - y]);
                assert(lex_lt(pts@[pts@.len() - 1 - y], pts@[pts@.len() - 1 - x]));
            }
        }
    }
    let mut lower = half_chain(&pts, Ghost(true));
    let mut upper = half_chain(&rev, Ghost(false));
    proof {
        assert forall|q: (u32, u32)| rev@.contains(q) implies pts@.contains(q) by {
            let j = choose|j: int| 0 <= j < rev@.len() && #[trigger] rev@[j] == q;
            assert(pts@[pts@.len() - 1 - j] == q);
        }
    }
    let ghost lo = lower@;
    let ghost up = upper@;
    lower.pop();
    upper.pop();
    lower.append(&mut upper);
    proof {
        assert forall|q: (u32, u32)| lower@.contains(q) implies points@.contains(q) by {
            let j = choose|j: int| 0 <= j < lower@.len() && #[trigger] lower@[j] == q;
            if j < lo.len() - 1 {
                assert(lo[j] == q);
                assert(lo.contains(q));
            } else {
                assert(up[j - (lo.len() - 1)] == q);
                assert(up.contains(q));
            }
            assert(pts@.contains(q));
        }
        lemma_chains_form_hull(pts@, rev@, lo, up);
        let h = lower@;
        assert(h =~= lo.take(lo.len() - 1) + up.take(up.len() - 1));
        assert(h[0] == pts@[0]);
        assert(encloses(h, points@)) by {
            assert forall|i: int, k: int| 0 <= i < h.len() && 0 <= k < points@.len() implies #[trigger] cross(
                h[i],
                h[succ(h.len() as int, i)],
                points@[k],
            ) >= 0 by {
                assert(points@.contains(points@[k]));
                assert(pts@.contains(points@[k]));
                let t = choose|t: int| 0 <= t < pts@.len() && pts@[t] == points@[k];
                assert(cross(h[i], h[succ(h.len() as int, i)], pts@[t]) >= 0);
            }
        }
        assert forall|s: Seq<(u32, u32)>| #[trigger] is_sorted_set_of(s, points@) implies (if s.len() < 3 || collinear(s) {
            h == s
        } else {
            &&& strictly_convex(h)
            &&& h.no_duplicates()
            &&& encloses(h, points@)
            &&& h[0] == s[0]
        }) by {
            assert(s == pts@);
        }
    }
    lower
}

/// Two strictly sorted sequences with the same elements are equal.
proof fn lemma_sorted_sets_equal(a: Seq<(u32, u32)>, b: Seq<(u32, u32)>)
    requires
        strictly_sorted(a),
        strictly_sorted(b),
        forall|q: (u32, u32)| a.contains(q) <==> b.contains(q),
    ensures
        a == b,
    decreases a.len() + b.len(),
{
    if a.len() == 0 || b.len() == 0 {
        if a.len() > 0 {
            assert(a.contains(a[0]));
        }
        if b.len() > 0 {
            assert(b.contains(b[0]));
        }
        assert(a =~= b);
    } else {
        // The smallest elements agree; compare the rests.
        assert(a.contains(a[0]) && b.contains(b[0]));
        let ia = choose|i: int| 0 <= i < a.len() && #[trigger] a[i] == b[0];
        let ib = choose|i: int| 0 <= i < b.len() && #[trigger] b[i] == a[0];
        if ia > 0 {
            assert(lex_lt(a[0], a[ia]));
            if ib > 0 {
                assert(lex_lt(b[0], b[ib]));
            }
        }
        assert(a[0] == b[0]) by {
            if ia > 0 && ib > 0 {
                assert(lex_lt(a[0], b[0]));
                assert(lex_lt(b[0], a[0]));
            }
        }
        let a1 = a.drop_first();
        let b1 = b.drop_first();
        assert forall|q: (u32, u32)| a1.contains(q) <==> b1.contains(q) by {
            if a1.contains(q) {
                let i = choose|i: int| 0 <= i < a1.len() && #[trigger] a1[i] == q;
                assert(a[i + 1] == q);
                assert(lex_lt(a[0], a[i + 1]));
                assert(b.contains(q));
                let k = choose|k: int| 0 <= k < b.len() && #[trigger] b[k] == q;
                assert(k != 0);
                assert(b1[k - 1] == q);
            }
            if b1.contains(q) {
                let i = choose|i: int| 0 <= i < b1.len() && #[trigger] b1[i] == q;
                assert(b[i + 1] == q);
                assert(lex_lt(b[0], b[i + 1]));
                assert(a.contains(q));
                let k = choose|k: int| 0 <= k < a.len() && #[trigger] a[k] == q;
                assert(k != 0);
                assert(a1[k - 1] == q);
            }
        }
        lemma_sorted_sets_equal(a1, b1);
        assert(a =~= seq![a[0]] + a1);
        assert(b =~= seq![b[0]] + b1);
    }
}

} // verus!
