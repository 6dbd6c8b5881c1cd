//! The mathematical model shared by every cell store: a map from logical
//! coordinates to the nonzero values of the live cells, and the flat
//! `[q, r, s, value, ...]` encoding in which stores list their live cells.
use vstd::prelude::*;
use vstd::arithmetic::div_mod::lemma_fundamental_div_mod_converse;

verus! {

/// A logical coordinate `(q, r, s)`.
pub type Coord = (int, int, int);

/// The error raised for a grid shape that cannot be built.
#[derive(Debug, Clone, Copy, PartialEq, Eq, Structural)]
pub enum GridError {
    InvalidDimension,
}

/// The logical coordinate of three machine integers.
pub open spec fn coord(q: i32, r: i32, s: i32) -> Coord {
    (q as int, r as int, s as int)
}

/// The value that a live-cell map gives to `p`: absent cells read as 0.
pub open spec fn value_at(m: Map<Coord, u32>, p: Coord) -> u32 {
    if m.contains_key(p) {
        m[p]
    } else {
        0
    }
}

/// The live-cell map after `v` is written at `p`: writing 0 empties the cell.
pub open spec fn written(m: Map<Coord, u32>, p: Coord, v: u32) -> Map<Coord, u32> {
    if v == 0 {
        m.remove(p)
    } else {
        m.insert(p, v)
    }
}

/// Every cell of the map holds a nonzero value.
pub open spec fn all_live(m: Map<Coord, u32>) -> bool {
    forall|p: Coord| #[trigger] m.contains_key(p) ==> m[p] != 0
}

/// The number of `[q, r, s, value]` groups in a flat listing.
pub open spec fn quad_count(out: Seq<i32>) -> int {
    out.len() as int / 4
}

/// The coordinate of the `k`-th group of a flat listing.
pub open spec fn quad_coord(out: Seq<i32>, k: int) -> Coord {
    (out[4 * k] as int, out[4 * k + 1] as int, out[4 * k + 2] as int)
}

/// `out` lists each live cell of `m` exactly once, as `[q, r, s, value as i32]`.
pub open spec fn lists_cells(out: Seq<i32>, m: Map<Coord, u32>) -> bool {
    &&& out.len() % 4 == 0
    &&& forall|k: int|
        0 <= k < quad_count(out) ==> m.contains_key(#[trigger] quad_coord(out, k)) && out[4 * k
            + 3] == m[quad_coord(out, k)] as i32
    &&& forall|p: Coord|
        #[trigger] m.contains_key(p) ==> exists|k: int|
            0 <= k < quad_count(out) && #[trigger] quad_coord(out, k) == p
    &&& forall|j: int, k: int|
        0 <= j < k < quad_count(out) ==> quad_coord(out, j) != quad_coord(out, k)
}

/// Layer-major order: by `s`, then by `r`, then by `q`.
pub open spec fn before(a: Coord, b: Coord) -> bool {
    ||| a.2 < b.2
    ||| a.2 == b.2 && a.1 < b.1
    ||| a.2 == b.2 && a.1 == b.1 && a.0 < b.0
}

/// The groups of a flat listing come in layer-major order.
pub open spec fn in_layer_order(out: Seq<i32>) -> bool {
    forall|j: int, k: int|
        0 <= j < k < quad_count(out) ==> before(quad_coord(out, j), quad_coord(out, k))
}

/// A position lies in the box `[0, w) × [0, h) × [0, d)`.
pub open spec fn in_box(p: Coord, w: int, h: int, d: int) -> bool {
    0 <= p.0 < w && 0 <= p.1 < h && 0 <= p.2 < d
}

/// A vector of `n` zeros.
pub fn zeros(n: usize) -> (v: Vec<u32>)
    ensures
        v@.len() == n,
        forall|i: int| 0 <= i < n ==> v@[i] == 0,
{
    let mut v: Vec<u32> = Vec::with_capacity(n);
    let mut i: usize = 0;
    while i < n
        invariant
            i <= n,
            v@.len() == i,
            forall|j: int| 0 <= j < i ==> v@[j] == 0,
        decreases n - i,
    {
        v.push(0);
        i += 1;
    }
    v
}

/// The linear index of a box position: `q + r·w + s·w·h`.
pub open spec fn box_index(p: Coord, w: int, h: int) -> int {
    p.0 + p.1 * w + p.2 * (w * h)
}

/// The position after `p` in a layer-major walk of a box of width `w` and height `h`.
pub open spec fn box_next(p: Coord, w: int, h: int) -> Coord {
    if p.0 + 1 < w {
        (p.0 + 1, p.1, p.2)
    } else if p.1 + 1 < h {
        (0, p.1 + 1, p.2)
    } else {
        (0, 0, p.2 + 1)
    }
}

pub proof fn lemma_box_index_bound(p: Coord, w: int, h: int, d: int)
    requires
        in_box(p, w, h, d),
    ensures
        0 <= box_index(p, w, h) < w * h * d,
        0 <= p.0 + p.1 * w < w * h,
        0 <= p.2 * (w * h) <= (d - 1) * (w * h),
{
    assert(0 <= p.1 * w <= (h - 1) * w) by (nonlinear_arith)
        requires
            0 <= p.1 < h,
            0 < w,
    ;
    assert(0 <= p.2 * (w * h) <= (d - 1) * (w * h)) by (nonlinear_arith)
        requires
            0 <= p.2 < d,
            0 < w,
            0 < h,
    ;
    assert((h - 1) * w + w == w * h) by (nonlinear_arith);
    assert((d - 1) * (w * h) + w * h == w * h * d) by (nonlinear_arith);
}

/// The walk's next position has the next index, and what lies before it is
/// what lay before `p`, and `p` itself.
pub proof fn lemma_box_next(p: Coord, w: int, h: int, d: int)
    requires
        in_box(p, w, h, d),
    ensures
        box_index(box_next(p, w, h), w, h) == box_index(p, w, h) + 1,
        in_box(box_next(p, w, h), w, h, d) || box_next(p, w, h) == (0int, 0int, d),
        before(p, box_next(p, w, h)),
        forall|x: Coord| #[trigger] before(x, p) ==> before(x, box_next(p, w, h)),
        forall|x: Coord|
            in_box(x, w, h, d) && #[trigger] before(x, box_next(p, w, h)) ==> before(x, p) || x
                == p,
{
    let n = box_next(p, w, h);
    if p.0 + 1 < w {
        assert(n == (p.0 + 1, p.1, p.2));
    } else if p.1 + 1 < h {
        assert(n == (0int, p.1 + 1, p.2));
        assert((p.1 + 1) * w == p.1 * w + w) by (nonlinear_arith);
        assert(box_index(n, w, h) == (p.1 + 1) * w + p.2 * (w * h));
    } else {
        assert(p.0 == w - 1 && p.1 == h - 1);
        assert((p.2 + 1) * (w * h) == p.2 * (w * h) + w * h) by (nonlinear_arith);
        assert((h - 1) * w + w == w * h) by (nonlinear_arith);
        assert(p.1 * w == (h - 1) * w);
        assert(box_index(p, w, h) + 1 == w * h + p.2 * (w * h));
        assert(n == (0int, 0int, p.2 + 1));
        assert(0 + 0 * w + (p.2 + 1) * (w * h) == (p.2 + 1) * (w * h)) by (nonlinear_arith);
        assert(box_index(n, w, h) == (p.2 + 1) * (w * h));
    }
    assert(box_index(n, w, h) == box_index(p, w, h) + 1);
}

/// Distinct positions of a box have distinct indices.
pub proof fn lemma_box_index_injective(a: Coord, b: Coord, w: int, h: int, d: int)
    requires
        in_box(a, w, h, d),
        in_box(b, w, h, d),
        box_index(a, w, h) == box_index(b, w, h),
    ensures
        a == b,
{
    let x = box_index(a, w, h);
    assert(x == (a.1 + a.2 * h) * w + a.0) by (nonlinear_arith)
        requires
            x == a.0 + a.1 * w + a.2 * (w * h),
    ;
    assert(x == (b.1 + b.2 * h) * w + b.0) by (nonlinear_arith)
        requires
            x == b.0 + b.1 * w + b.2 * (w * h),
    ;
    lemma_fundamental_div_mod_converse(x, w, a.1 + a.2 * h, a.0);
    lemma_fundamental_div_mod_converse(x, w, b.1 + b.2 * h, b.0);
    let y = a.1 + a.2 * h;
    assert(y == a.2 * h + a.1);
    assert(y == b.2 * h + b.1);
    lemma_fundamental_div_mod_converse(y, h, a.2, a.1);
    lemma_fundamental_div_mod_converse(y, h, b.2, b.1);
}

/// Every position of the box comes before the end of the walk.
pub proof fn lemma_box_end(w: int, h: int, d: int)
    ensures
        forall|x: Coord| in_box(x, w, h, d) ==> before(x, (0int, 0int, d)),
{
}

/// The predicate that accepts every coordinate.
pub open spec fn everywhere() -> spec_fn(Coord) -> bool {
    |p: Coord| true
}

/// The cells of `m` at the coordinates that `keep` accepts.
pub open spec fn kept(m: Map<Coord, u32>, keep: spec_fn(Coord) -> bool) -> Map<Coord, u32> {
    Map::new(|p: Coord| m.contains_key(p) && keep(p), |p: Coord| m[p])
}

/// The live cells that writing the first `j` groups of a listing, in order,
/// into an empty store creates, where the store takes the writes at the
/// coordinates that `keep` accepts and drops the others.
pub open spec fn replayed(out: Seq<i32>, j: int, keep: spec_fn(Coord) -> bool) -> Map<Coord, u32>
    decreases j,
{
    if j <= 0 {
        Map::empty()
    } else {
        let prev = replayed(out, j - 1, keep);
        let p = quad_coord(out, j - 1);
        if keep(p) {
            written(prev, p, out[4 * (j - 1) + 3] as u32)
        } else {
            prev
        }
    }
}

/// A value survives the round trip through the listing's `i32` field.
pub proof fn lemma_value_round_trip(v: u32)
    ensures
        (v as i32) as u32 == v,
{
    assert((v as i32) as u32 == v) by (bit_vector);
}

/// The cells that the first `j` groups of a listing name, with their values in `m`.
pub open spec fn listed_prefix(out: Seq<i32>, m: Map<Coord, u32>, j: int, keep: spec_fn(Coord) -> bool) -> Map<Coord, u32> {
    Map::new(
        |p: Coord| keep(p) && exists|k: int| 0 <= k < j && #[trigger] quad_coord(out, k) == p,
        |p: Coord| m[p],
    )
}

proof fn lemma_replayed_prefix(out: Seq<i32>, m: Map<Coord, u32>, keep: spec_fn(Coord) -> bool, j: int)
    requires
        lists_cells(out, m),
        all_live(m),
        0 <= j <= quad_count(out),
    ensures
        replayed(out, j, keep) == listed_prefix(out, m, j, keep),
    decreases j,
{
    if j == 0 {
        assert(replayed(out, 0, keep) =~= listed_prefix(out, m, 0, keep));
    } else {
        let i = j - 1;
        lemma_replayed_prefix(out, m, keep, i);
        let p = quad_coord(out, i);
        let v = out[4 * i + 3];
        assert(m.contains_key(p) && v == m[p] as i32);
        lemma_value_round_trip(m[p]);
        let next = listed_prefix(out, m, j, keep);
        assert forall|x: Coord| #[trigger] next.contains_key(x) <==> replayed(out, j, keep).contains_key(x) by {
            if keep(x) && (exists|k: int| 0 <= k < j && #[trigger] quad_coord(out, k) == x) {
                let k = choose|k: int| 0 <= k < j && #[trigger] quad_coord(out, k) == x;
                if k < i {
                    assert(exists|k: int| 0 <= k < i && #[trigger] quad_coord(out, k) == x);
                }
            }
            if x != p && keep(x) && (exists|k: int| 0 <= k < i && #[trigger] quad_coord(out, k) == x) {
                let k = choose|k: int| 0 <= k < i && #[trigger] quad_coord(out, k) == x;
                assert(0 <= k < j && quad_coord(out, k) == x);
            }
        }
        assert(replayed(out, j, keep) =~= next);
    }
}

/// Replaying a listing of `m` rebuilds the part of `m` that `keep` accepts.
pub proof fn lemma_replayed_listing(out: Seq<i32>, m: Map<Coord, u32>, keep: spec_fn(Coord) -> bool)
    requires
        lists_cells(out, m),
        all_live(m),
    ensures
        replayed(out, quad_count(out), keep) == kept(m, keep),
{
    let n = quad_count(out);
    lemma_replayed_prefix(out, m, keep, n);
    assert forall|p: Coord| #[trigger] m.contains_key(p) implies exists|k: int|
        0 <= k < n && #[trigger] quad_coord(out, k) == p by {}
    assert(listed_prefix(out, m, n, keep) =~= kept(m, keep));
}

/// Listings of two maps with disjoint coordinates, one after the other, list
/// their union.
pub proof fn lemma_lists_append(o1: Seq<i32>, m1: Map<Coord, u32>, o2: Seq<i32>, m2: Map<Coord, u32>)
    requires
        lists_cells(o1, m1),
        lists_cells(o2, m2),
        m1.dom().disjoint(m2.dom()),
    ensures
        lists_cells(o1 + o2, m1.union_prefer_right(m2)),
{
    let o = o1 + o2;
    let m = m1.union_prefer_right(m2);
    let n1 = quad_count(o1);
    let n2 = quad_count(o2);
    assert(quad_count(o) == n1 + n2);
    assert forall|k: int| 0 <= k < n1 implies #[trigger] quad_coord(o, k) == quad_coord(o1, k)
        && o[4 * k + 3] == o1[4 * k + 3] by {}
    assert forall|k: int| n1 <= k < n1 + n2 implies #[trigger] quad_coord(o, k) == quad_coord(
        o2,
        k - n1,
    ) && o[4 * k + 3] == o2[4 * (k - n1) + 3] by {}
    assert forall|k: int| 0 <= k < quad_count(o) implies m.contains_key(#[trigger] quad_coord(o, k))
        && o[4 * k + 3] == m[quad_coord(o, k)] as i32 by {
        if k < n1 {
            assert(m1.contains_key(quad_coord(o1, k)));
            assert(!m2.contains_key(quad_coord(o1, k)));
        } else {
            assert(m2.contains_key(quad_coord(o2, k - n1)));
        }
    }
    assert forall|p: Coord| #[trigger] m.contains_key(p) implies exists|k: int|
        0 <= k < quad_count(o) && #[trigger] quad_coord(o, k) == p by {
        if m1.contains_key(p) {
            let k = choose|k: int| 0 <= k < n1 && #[trigger] quad_coord(o1, k) == p;
            assert(quad_coord(o, k) == p);
        } else {
            let k = choose|k: int| 0 <= k < n2 && #[trigger] quad_coord(o2, k) == p;
            assert(quad_coord(o, k + n1) == p);
        }
    }
    assert forall|j: int, k: int| 0 <= j < k < quad_count(o) implies quad_coord(o, j) != quad_coord(
        o,
        k,
    ) by {
        if k < n1 {
        } else if j >= n1 {
            assert(quad_coord(o2, j - n1) != quad_coord(o2, k - n1));
        } else {
            assert(m1.contains_key(quad_coord(o1, j)));
            assert(m2.contains_key(quad_coord(o2, k - n1)));
        }
    }
}

} // verus!
