//! The dense store: a flat buffer over a bounded window of the grid, with an
//! origin that centres the window so that negative coordinates have storage.
use vstd::prelude::*;
use super::cell_map::{
    Coord, GridError, coord, value_at, written, quad_count, quad_coord, lists_cells, before,
    in_layer_order, in_box, box_index, box_next, lemma_box_index_bound, lemma_box_next,
    lemma_box_end, lemma_box_index_injective, zeros,
};

verus! {

/// Dimensions that a dense store accepts: each axis at least 1 and at most
/// `i32::MAX`, and a volume that can be addressed.
pub open spec fn flat_dims_ok(w: int, h: int, d: int) -> bool {
    &&& 1 <= w <= i32::MAX
    &&& 1 <= h <= i32::MAX
    &&& 1 <= d <= i32::MAX
    &&& w * h * d <= usize::MAX
}

/// The live cells of a dense store after its window changes from `ow × oh × od`
/// to `nw × nh × nd`: each cell keeps its storage position, clipped to the box
/// that both windows share, so its logical coordinate moves by the change of
/// origin.
pub open spec fn carried_over(
    old: Map<Coord, u32>,
    ow: int,
    oh: int,
    od: int,
    nw: int,
    nh: int,
    nd: int,
) -> Map<Coord, u32> {
    Map::new(
        |p: Coord|
            {
                let x = (p.0 + nw / 2, p.1 + nh / 2, p.2);
                &&& in_box(x, nw, nh, nd)
                &&& in_box(x, ow, oh, od)
                &&& old.contains_key((x.0 - ow / 2, x.1 - oh / 2, x.2))
            },
        |p: Coord| old[(p.0 + nw / 2 - ow / 2, p.1 + nh / 2 - oh / 2, p.2)],
    )
}

/// The volume `w·h·d`, when the dimensions are ones a dense store accepts.
fn checked_volume(w: usize, h: usize, d: usize) -> (res: Option<usize>)
    ensures
        match res {
            Some(v) => flat_dims_ok(w as int, h as int, d as int) && v == w * h * d,
            None => !flat_dims_ok(w as int, h as int, d as int),
        },
{
    if w == 0 || h == 0 || d == 0 {
        return None;
    }
    if w > i32::MAX as usize || h > i32::MAX as usize || d > i32::MAX as usize {
        return None;
    }
    proof {
        assert(w * h <= w * h * d) by (nonlinear_arith)
            requires
                d >= 1,
        ;
    }
    match w.checked_mul(h) {
        Some(plane) => plane.checked_mul(d),
        None => None,
    }
}

pub struct FlatCellManager {
    width: usize,
    height: usize,
    depth: usize,
    origin: (i32, i32, i32),
    cells: Vec<u32>,
}

impl View for FlatCellManager {
    type V = Map<Coord, u32>;

    /// The live cells: those in the window whose stored value is nonzero.
    closed spec fn view(&self) -> Map<Coord, u32> {
        Map::new(|p: Coord| self.in_window(p) && self.raw(p) != 0, |p: Coord| self.raw(p))
    }
}

impl FlatCellManager {
    pub closed spec fn width(&self) -> int {
        self.width as int
    }

    pub closed spec fn height(&self) -> int {
        self.height as int
    }

    pub closed spec fn depth(&self) -> int {
        self.depth as int
    }

    /// Where a logical coordinate is stored: shifted by the origin `(w/2, h/2, 0)`.
    pub open spec fn storage_pos(&self, p: Coord) -> Coord {
        (p.0 + self.width() / 2, p.1 + self.height() / 2, p.2)
    }

    /// The coordinates that the buffer can hold.
    pub open spec fn in_window(&self, p: Coord) -> bool {
        in_box(self.storage_pos(p), self.width(), self.height(), self.depth())
    }

    closed spec fn raw(&self, p: Coord) -> u32 {
        self.cells@[box_index(self.storage_pos(p), self.width(), self.height())]
    }

    pub closed spec fn wf(&self) -> bool {
        &&& flat_dims_ok(self.width as int, self.height as int, self.depth as int)
        &&& self.cells@.len() == self.width * self.height * self.depth
        &&& self.origin == ((self.width / 2) as i32, (self.height / 2) as i32, 0i32)
    }

    /// A well-formed store has valid dimensions and holds live cells only inside its window.
    pub proof fn lemma_view(&self)
        requires
            self.wf(),
        ensures
            flat_dims_ok(self.width(), self.height(), self.depth()),
            forall|p: Coord| #[trigger]
                self@.contains_key(p) ==> self.in_window(p) && self@[p] != 0,
    {
    }

    proof fn lemma_raw_index(&self, p: Coord)
        requires
            self.wf(),
            self.in_window(p),
        ensures
            0 <= box_index(self.storage_pos(p), self.width(), self.height()) < self.cells@.len(),
    {
        lemma_box_index_bound(self.storage_pos(p), self.width(), self.height(), self.depth());
    }

    /// The buffer index of a coordinate, or `None` outside the window.
    fn index_internal(&self, q: i32, r: i32, s: i32) -> (res: Option<usize>)
        requires
            self.wf(),
        ensures
            match res {
                Some(i) => self.in_window(coord(q, r, s)) && i as int == box_index(
                    self.storage_pos(coord(q, r, s)),
                    self.width(),
                    self.height(),
                ) && i < self.cells@.len(),
                None => !self.in_window(coord(q, r, s)),
            },
    {
        let lq = q as i64 + self.origin.0 as i64;
        let lr = r as i64 + self.origin.1 as i64;
        let ls = s as i64 + self.origin.2 as i64;
        if lq < 0 || lr < 0 || ls < 0 {
            return None;
        }
        if lq >= self.width as i64 || lr >= self.height as i64 || ls >= self.depth as i64 {
            return None;
        }
        let ghost p = (lq as int, lr as int, ls as int);
        proof {
            lemma_box_index_bound(p, self.width(), self.height(), self.depth());
            assert(self.width * self.height <= self.width * self.height * self.depth)
                by (nonlinear_arith)
                requires
                    self.depth >= 1,
            ;
        }
        let plane = self.width * self.height;
        let idx = lq as usize + lr as usize * self.width + ls as usize * plane;
        Some(idx)
    }

    /// A dense store of `width × height × depth` empty cells, centred on the
    /// origin `(width/2, height/2, 0)`.
    pub fn new(width: usize, height: usize, depth: usize) -> (res: Result<
        FlatCellManager,
        GridError,
    >)
        ensures
            match res {
                Ok(m) => {
                    &&& flat_dims_ok(width as int, height as int, depth as int)
                    &&& m.wf()
                    &&& m.width() == width && m.height() == height && m.depth() == depth
                    &&& m@ == Map::<Coord, u32>::empty()
                },
                Err(e) => !flat_dims_ok(width as int, height as int, depth as int) && e
                    == GridError::InvalidDimension,
            },
    {
        let volume = match checked_volume(width, height, depth) {
            Some(v) => v,
            None => {
                return Err(GridError::InvalidDimension);
            },
        };
        let cells = zeros(volume);
        let m = FlatCellManager {
            width,
            height,
            depth,
            origin: ((width / 2) as i32, (height / 2) as i32, 0i32),
            cells,
        };
        proof {
            assert forall|p: Coord| m.in_window(p) implies #[trigger] m.raw(p) == 0 by {
                m.lemma_raw_index(p);
            }
            assert(m@ =~= Map::<Coord, u32>::empty());
        }
        Ok(m)
    }

    /// Writes `value` at a coordinate of the window; outside it the write is dropped.
    pub fn set_cell(&mut self, q: i32, r: i32, s: i32, value: u32)
        requires
            old(self).wf(),
        ensures
            final(self).wf(),
            final(self).width() == old(self).width(),
            final(self).height() == old(self).height(),
            final(self).depth() == old(self).depth(),
            final(self)@ == if old(self).in_window(coord(q, r, s)) {
                written(old(self)@, coord(q, r, s), value)
            } else {
                old(self)@
            },
    {
        if let Some(idx) = self.index_internal(q, r, s) {
            self.cells.set(idx, value);
            proof {
                let p = coord(q, r, s);
                let o = *old(self);
                assert forall|x: Coord| o.in_window(x) && x != p implies #[trigger] self.raw(x)
                    == o.raw(x) by {
                    o.lemma_raw_index(x);
                    if box_index(o.storage_pos(x), o.width(), o.height()) == idx {
                        lemma_box_index_injective(
                            o.storage_pos(x),
                            o.storage_pos(p),
                            o.width(),
                            o.height(),
                            o.depth(),
                        );
                    }
                }
                assert(self@ =~= written(o@, p, value));
            }
        } else {
            proof {
                assert(self@ =~= old(self)@);
            }
        }
    }

    /// The value at a coordinate; 0 outside the window.
    pub fn get_cell(&self, q: i32, r: i32, s: i32) -> (v: u32)
        requires
            self.wf(),
        ensures
            v == value_at(self@, coord(q, r, s)),
    {
        match self.index_internal(q, r, s) {
            Some(i) => self.cells[i],
            None => 0,
        }
    }

    /// Empties every cell.
    pub fn clear(&mut self)
        requires
            old(self).wf(),
        ensures
            final(self).wf(),
            final(self).width() == old(self).width(),
            final(self).height() == old(self).height(),
            final(self).depth() == old(self).depth(),
            final(self)@ == Map::<Coord, u32>::empty(),
    {
        let n = self.cells.len();
        let mut i: usize = 0;
        while i < n
            invariant
                i <= n,
                n == self.cells@.len(),
                self.width == old(self).width,
                self.height == old(self).height,
                self.depth == old(self).depth,
                self.origin == old(self).origin,
                self.cells@.len() == old(self).cells@.len(),
                forall|j: int| 0 <= j < i ==> self.cells@[j] == 0,
            decreases n - i,
        {
            self.cells.set(i, 0);
            i += 1;
        }
        proof {
            assert forall|p: Coord| self.in_window(p) implies #[trigger] self.raw(p) == 0 by {
                self.lemma_raw_index(p);
            }
            assert(self@ =~= Map::<Coord, u32>::empty());
        }
    }

    /// The live cells as `[q, r, s, value, ...]`, in layer-major order (by `s`,
    /// then `r`, then `q`).
    pub fn for_each_cell(&self) -> (out: Vec<i32>)
        requires
            self.wf(),
        ensures
            lists_cells(out@, self@),
            in_layer_order(out@),
    {
        let w = self.width;
        let h = self.height;
        let d = self.depth;
        let ghost wi = w as int;
        let ghost hi = h as int;
        let ghost di = d as int;
        let mut out: Vec<i32> = Vec::new();
        let mut a: usize = 0;
        let mut b: usize = 0;
        let mut c: usize = 0;
        let mut idx: usize = 0;
        proof {
            assert(box_index((0int, 0int, 0int), wi, hi) == 0) by (nonlinear_arith);
        }
        while c < d
            invariant
                self.wf(),
                w == self.width,
                h == self.height,
                d == self.depth,
                wi == w as int,
                hi == h as int,
                di == d as int,
                in_box((a as int, b as int, c as int), wi, hi, di) || (a == 0 && b == 0 && c
                    == d),
                idx == box_index((a as int, b as int, c as int), wi, hi),
                out@.len() % 4 == 0,
                forall|k: int|
                    #![trigger quad_coord(out@, k)]
                    0 <= k < quad_count(out@) ==> {
                        let p = quad_coord(out@, k);
                        &&& self.in_window(p)
                        &&& before(self.storage_pos(p), (a as int, b as int, c as int))
                        &&& self.raw(p) != 0
                        &&& out@[4 * k + 3] == self.raw(p) as i32
                    },
                forall|p: Coord|
                    self.in_window(p) && before(self.storage_pos(p), (a as int, b as int, c as int))
                        && #[trigger] self.raw(p) != 0 ==> exists|k: int|
                        0 <= k < quad_count(out@) && #[trigger] quad_coord(out@, k) == p,
                in_layer_order(out@),
            decreases di - c, hi - b, wi - a,
        {
            let ghost pos = (a as int, b as int, c as int);
            proof {
                lemma_box_index_bound(pos, wi, hi, di);
                lemma_box_next(pos, wi, hi, di);
            }
            let val = self.cells[idx];
            let ghost old_out = out@;
            let ghost lp = (a - w as int / 2, b - h as int / 2, c as int);
            assert(self.storage_pos(lp) == pos);
            assert(self.raw(lp) == val);
            if val != 0 {
                out.push(a as i32 - self.origin.0);
                out.push(b as i32 - self.origin.1);
                out.push(c as i32 - self.origin.2);
                out.push(val as i32);
                proof {
                    assert forall|k: int| 0 <= k < quad_count(old_out) implies quad_coord(out@, k)
                        == #[trigger] quad_coord(old_out, k) && out@[4 * k + 3] == old_out[4 * k
                        + 3] by {}
                    assert(quad_coord(out@, quad_count(old_out)) == lp);
                    assert(quad_count(out@) == quad_count(old_out) + 1);
                    assert(out@[4 * quad_count(old_out) + 3] == val as i32);
                    assert(self.in_window(lp));
                }
            }
            if a + 1 < w {
                a = a + 1;
            } else if b + 1 < h {
                a = 0;
                b = b + 1;
            } else {
                a = 0;
                b = 0;
                c = c + 1;
            }
            idx = idx + 1;
            proof {
                let next = (a as int, b as int, c as int);
                assert(next == box_next(pos, wi, hi));
                assert forall|k: int|
                    #![trigger quad_coord(out@, k)]
                    0 <= k < quad_count(out@) implies {
                    let p = quad_coord(out@, k);
                    &&& self.in_window(p)
                    &&& before(self.storage_pos(p), next)
                    &&& self.raw(p) != 0
                    &&& out@[4 * k + 3] == self.raw(p) as i32
                } by {
                    if k < quad_count(old_out) {
                        assert(before(self.storage_pos(quad_coord(old_out, k)), pos));
                    }
                }
                assert forall|p: Coord|
                    self.in_window(p) && before(self.storage_pos(p), next) && #[trigger] self.raw(
                        p,
                    ) != 0 implies exists|k: int|
                    0 <= k < quad_count(out@) && #[trigger] quad_coord(out@, k) == p by {
                    if p == lp {
                        assert(quad_coord(out@, quad_count(old_out)) == lp);
                    } else {
                        assert(before(self.storage_pos(p), pos));
                        let k = choose|k: int|
                            0 <= k < quad_count(old_out) && #[trigger] quad_coord(old_out, k) == p;
                        assert(quad_coord(out@, k) == p);
                    }
                }
                assert forall|j: int, k: int|
                    0 <= j < k < quad_count(out@) implies before(
                    quad_coord(out@, j),
                    quad_coord(out@, k),
                ) by {
                    if k == quad_count(old_out) {
                        assert(before(self.storage_pos(quad_coord(old_out, j)), pos));
                    } else {
                        assert(before(quad_coord(old_out, j), quad_coord(old_out, k)));
                    }
                }
            }
        }
        proof {
            lemma_box_end(wi, hi, di);
            assert forall|p: Coord| #[trigger] self@.contains_key(p) implies exists|k: int|
                0 <= k < quad_count(out@) && #[trigger] quad_coord(out@, k) == p by {
                assert(before(self.storage_pos(p), (0int, 0int, di)));
            }
            assert forall|j: int, k: int|
                0 <= j < k < quad_count(out@) implies quad_coord(out@, j) != quad_coord(out@, k) by {
                assert(before(quad_coord(out@, j), quad_coord(out@, k)));
            }
        }
        out
    }
    spec fn carried_raw(&self, x: Coord) -> u32 {
        if in_box(x, self.width(), self.height(), self.depth()) {
            self.cells@[box_index(x, self.width(), self.height())]
        } else {
            0
        }
    }

    /// Changes the window to `new_width × new_height × new_depth` and recentres
    /// the origin. Each cell keeps its storage position where both windows have
    /// one, so its content moves logically by the change of origin; the rest is
    /// dropped. Invalid dimensions leave the store unchanged.
    pub fn resize(&mut self, new_width: usize, new_height: usize, new_depth: usize) -> (res:
        Result<(), GridError>)
        requires
            old(self).wf(),
        ensures
            final(self).wf(),
            match res {
                Ok(()) => {
                    &&& flat_dims_ok(new_width as int, new_height as int, new_depth as int)
                    &&& final(self).width() == new_width
                    &&& final(self).height() == new_height
                    &&& final(self).depth() == new_depth
                    &&& final(self)@ == carried_over(
                        old(self)@,
                        old(self).width(),
                        old(self).height(),
                        old(self).depth(),
                        new_width as int,
                        new_height as int,
                        new_depth as int,
                    )
                },
                Err(e) => {
                    &&& !flat_dims_ok(new_width as int, new_height as int, new_depth as int)
                    &&& e == GridError::InvalidDimension
                    &&& *final(self) == *old(self)
                },
            },
    {
        let volume = match checked_volume(new_width, new_height, new_depth) {
            Some(v) => v,
            None => {
                return Err(GridError::InvalidDimension);
            },
        };
        let ow = self.width;
        let oh = self.height;
        let od = self.depth;
        proof {
            assert(ow * oh <= ow * oh * od) by (nonlinear_arith)
                requires
                    od >= 1,
                    ow >= 1,
                    oh >= 1,
            ;
        }
        let oplane = ow * oh;
        let nw = new_width;
        let nh = new_height;
        let nd = new_depth;
        let ghost (owi, ohi, odi) = (ow as int, oh as int, od as int);
        let ghost (nwi, nhi, ndi) = (nw as int, nh as int, nd as int);
        let mut new_cells: Vec<u32> = Vec::with_capacity(volume);
        let mut a: usize = 0;
        let mut b: usize = 0;
        let mut c: usize = 0;
        proof {
            assert(box_index((0int, 0int, 0int), nwi, nhi) == 0) by (nonlinear_arith);
        }
        while c < nd
            invariant
                self.wf(),
                *self == *old(self),
                ow == self.width,
                oh == self.height,
                od == self.depth,
                oplane == ow * oh,
                owi == ow as int,
                ohi == oh as int,
                odi == od as int,
                nwi == nw as int,
                nhi == nh as int,
                ndi == nd as int,
                flat_dims_ok(nwi, nhi, ndi),
                in_box((a as int, b as int, c as int), nwi, nhi, ndi) || (a == 0 && b == 0 && c
                    == nd),
                new_cells@.len() == box_index((a as int, b as int, c as int), nwi, nhi),
                forall|x: Coord|
                    #[trigger] in_box(x, nwi, nhi, ndi) && before(x, (a as int, b as int, c as int))
                        ==> box_index(x, nwi, nhi) < new_cells@.len() && new_cells@[box_index(
                        x,
                        nwi,
                        nhi,
                    )] == self.carried_raw(x),
            decreases ndi - c, nhi - b, nwi - a,
        {
            let ghost pos = (a as int, b as int, c as int);
            let ghost old_cells = new_cells@;
            proof {
                lemma_box_index_bound(pos, nwi, nhi, ndi);
                lemma_box_next(pos, nwi, nhi, ndi);
            }
            let v = if a < ow && b < oh && c < od {
                proof {
                    lemma_box_index_bound(pos, owi, ohi, odi);
                }
                self.cells[a + b * ow + c * oplane]
            } else {
                0
            };
            new_cells.push(v);
            if a + 1 < nw {
                a = a + 1;
            } else if b + 1 < nh {
                a = 0;
                b = b + 1;
            } else {
                a = 0;
                b = 0;
                c = c + 1;
            }
            proof {
                let next = (a as int, b as int, c as int);
                assert(next == box_next(pos, nwi, nhi));
                assert forall|x: Coord|
                    #[trigger] in_box(x, nwi, nhi, ndi) && before(x, next) implies box_index(
                        x,
                        nwi,
                        nhi,
                    ) < new_cells@.len() && new_cells@[box_index(x, nwi, nhi)] == self.carried_raw(
                        x,
                    ) by {
                    if x != pos {
                        assert(before(x, pos));
                        assert(old_cells[box_index(x, nwi, nhi)] == new_cells@[box_index(
                            x,
                            nwi,
                            nhi,
                        )]);
                    }
                }
            }
        }
        proof {
            lemma_box_end(nwi, nhi, ndi);
            assert(ndi * (nwi * nhi) == nwi * nhi * ndi) by (nonlinear_arith);
        }
        let ghost prev = *self;
        self.width = nw;
        self.height = nh;
        self.depth = nd;
        self.origin = ((nw / 2) as i32, (nh / 2) as i32, 0i32);
        self.cells = new_cells;
        proof {
            let target = carried_over(prev@, owi, ohi, odi, nwi, nhi, ndi);
            assert forall|p: Coord| self.in_window(p) implies #[trigger] self.raw(p)
                == prev.carried_raw(self.storage_pos(p)) by {
                assert(in_box(self.storage_pos(p), nwi, nhi, ndi));
            }
            assert forall|p: Coord| #[trigger]
                self@.contains_key(p) <==> target.contains_key(p) by {
                let x = self.storage_pos(p);
                let op = (x.0 - owi / 2, x.1 - ohi / 2, x.2);
                assert(prev.storage_pos(op) == x);
            }
            assert forall|p: Coord| #[trigger] self@.contains_key(p) implies self@[p]
                == target[p] by {
                let x = self.storage_pos(p);
                let op = (x.0 - owi / 2, x.1 - ohi / 2, x.2);
                assert(prev.storage_pos(op) == x);
            }
            assert(self@ =~= target);
        }
        Ok(())
    }
}

} // verus!
