//! The grid manager: one active store, chosen by size, and one topology.
use vstd::prelude::*;
use vstd::arithmetic::div_mod::lemma_add_mod_noop;
use super::cell_map::{
    Coord, GridError, coord, value_at, written, lists_cells, in_layer_order, quad_count, quad_coord,
    kept, replayed, lemma_replayed_listing,
};
use super::cell_backend::CellBackend;
use super::flat_cells::{FlatCellManager, flat_dims_ok, carried_over};
use super::chunk_cells::{ChunkedCellManager, chunk_dims_ok, chunk_shape_ok, in_i32};
use super::neighbourhood::{
    Neighborhood, Offset, Delta, MAX_RANGE, ints, offset_tables, shape_of, variant_of, placed,
};

verus! {

/// Grids wider or taller than this use the sparse store.
pub const THRESHOLD: usize = 2500;

/// The chunk side of the sparse store when none is given.
pub const DEFAULT_CHUNK_SIZE: usize = 256;

/// A grid of these dimensions uses the sparse store.
pub open spec fn is_sparse_dims(w: int, h: int) -> bool {
    w > THRESHOLD || h > THRESHOLD
}

/// Dimensions that a grid accepts: each at least 1 and within `i32`; sparse
/// chunks of side `cs` and depth `d` that can be built, since the grid may
/// switch to them on a resize; and, for a dense grid, a window with a margin
/// of one cell on each side that can be built.
pub open spec fn grid_dims_ok(w: int, h: int, d: int, cs: int) -> bool {
    &&& 1 <= w <= i32::MAX
    &&& 1 <= h <= i32::MAX
    &&& 1 <= d <= i32::MAX
    &&& chunk_dims_ok(cs, d)
    &&& !is_sparse_dims(w, h) ==> flat_dims_ok(w + 2, h + 2, d)
}

/// The coordinates that a grid of these dimensions holds: every `i32`
/// coordinate when sparse; else the bounds with a margin of one cell on each
/// side in `q` and `r`, and layers `0..d`.
pub open spec fn grid_window(w: int, h: int, d: int) -> spec_fn(Coord) -> bool {
    |p: Coord|
        if is_sparse_dims(w, h) {
            in_i32(p)
        } else {
            &&& -(w / 2) - 1 <= p.0 <= (w - 1) / 2 + 1
            &&& -(h / 2) - 1 <= p.1 <= (h - 1) / 2 + 1
            &&& 0 <= p.2 < d
        }
}

/// The bounds `[min_q, max_q, min_r, max_r, min_s, max_s]` of a grid.
pub open spec fn bounds_of(w: int, h: int, d: int) -> Seq<int> {
    seq![-(w / 2), (w - 1) / 2, -(h / 2), (h - 1) / 2, 0, d - 1]
}

/// The sum of the values at the coordinates of a flat `[q, r, s, ...]` list.
pub open spec fn sum_at(m: Map<Coord, u32>, cs: Seq<i32>) -> int
    decreases cs.len(),
{
    if cs.len() < 3 {
        0
    } else {
        let n = cs.len() as int;
        sum_at(m, cs.subrange(0, n - 3)) + value_at(
            m,
            (cs[n - 3] as int, cs[n - 2] as int, cs[n - 1] as int),
        )
    }
}

/// The live cells after a resize from `ow × oh × od` to `nw × nh × nd`: the
/// same cells when both are sparse; the dense store's content moved by the
/// change of origin when both are dense; else the cells that the new window
/// holds, at their coordinates.
pub open spec fn resized(
    old: Map<Coord, u32>,
    ow: int,
    oh: int,
    od: int,
    nw: int,
    nh: int,
    nd: int,
) -> Map<Coord, u32> {
    if is_sparse_dims(ow, oh) == is_sparse_dims(nw, nh) {
        if is_sparse_dims(nw, nh) {
            old
        } else {
            carried_over(old, ow + 2, oh + 2, od, nw + 2, nh + 2, nd)
        }
    } else {
        kept(old, grid_window(nw, nh, nd))
    }
}

/// The `k`-th coordinate of a flat `[q, r, s, ...]` list.
pub open spec fn triple(cs: Seq<i32>, k: int) -> Coord {
    (cs[3 * k] as int, cs[3 * k + 1] as int, cs[3 * k + 2] as int)
}

/// `x` is one of the coordinates of a flat `[q, r, s, ...]` list.
pub open spec fn names_coord(cs: Seq<i32>, x: Coord) -> bool {
    exists|k: int| 0 <= k < cs.len() / 3 && #[trigger] triple(cs, k) == x
}

/// `x` is the coordinate of one of the first `m` entries of `v`.
pub open spec fn among(v: Seq<Offset>, m: int, x: Coord) -> bool {
    exists|i: int| 0 <= i < m && #[trigger] coord(v[i].0, v[i].1, v[i].2) == x
}

/// The value of every boundary cell.
pub const BOUNDARY: u32 = 255;

/// `p` lies on the ring one cell outside the bounds, in a layer of the grid.
pub open spec fn on_boundary(w: int, h: int, d: int, p: Coord) -> bool {
    let min_q = -(w / 2);
    let max_q = (w - 1) / 2;
    let min_r = -(h / 2);
    let max_r = (h - 1) / 2;
    &&& 0 <= p.2 < d
    &&& {
        ||| min_q - 1 <= p.0 <= max_q + 1 && (p.1 == min_r - 1 || p.1 == max_r + 1)
        ||| min_r - 1 <= p.1 <= max_r + 1 && (p.0 == min_q - 1 || p.0 == max_q + 1)
    }
}

/// `p` lies within the bounds of the grid.
pub open spec fn in_bounds(w: int, h: int, d: int, p: Coord) -> bool {
    &&& -(w / 2) <= p.0 <= (w - 1) / 2
    &&& -(h / 2) <= p.1 <= (h - 1) / 2
    &&& 0 <= p.2 < d
}

/// `m` with the value `v` at every coordinate that `sel` accepts.
pub open spec fn stamped(m: Map<Coord, u32>, sel: spec_fn(Coord) -> bool, v: u32) -> Map<
    Coord,
    u32,
> {
    Map::new(|x: Coord| m.contains_key(x) || sel(x), |x: Coord| if sel(x) { v } else { m[x] })
}

proof fn lemma_stamp_one(
    m: Map<Coord, u32>,
    sel: spec_fn(Coord) -> bool,
    sel2: spec_fn(Coord) -> bool,
    c: Coord,
    v: u32,
)
    requires
        v != 0,
        forall|x: Coord| #[trigger] sel2(x) == (sel(x) || x == c),
    ensures
        written(stamped(m, sel, v), c, v) == stamped(m, sel2, v),
{
    assert(written(stamped(m, sel, v), c, v) =~= stamped(m, sel2, v));
}

/// The live cells after writing the entries of `data` in order, each with the
/// value `overwrite` when it is given, where the window `win` takes them.
pub open spec fn batched(
    m: Map<Coord, u32>,
    win: spec_fn(Coord) -> bool,
    data: Seq<(i32, i32, i32, u32)>,
    overwrite: Option<u32>,
) -> Map<Coord, u32>
    decreases data.len(),
{
    if data.len() == 0 {
        m
    } else {
        let prev = batched(m, win, data.drop_last(), overwrite);
        let e = data.last();
        let c = coord(e.0, e.1, e.2);
        let v = match overwrite {
            Some(x) => x,
            None => e.3,
        };
        if win(c) {
            written(prev, c, v)
        } else {
            prev
        }
    }
}

#[verifier::external_type_specification]
#[verifier::external_body]
pub struct ExRng(fastrand::Rng);

/// Relies on `fastrand::Rng::new`: a generator forked from the thread-local one.
#[verifier::external_body]
fn fresh_rng() -> fastrand::Rng {
    fastrand::Rng::new()
}

/// Relies on `fastrand::Rng::u32`: a draw from the range `0..n` lies in it.
#[verifier::external_body]
fn draw_below(rng: &mut fastrand::Rng, n: u32) -> (r: u32)
    requires
        n > 0,
    ensures
        r < n,
{
    rng.u32(0..n)
}

/// The share of live cells, in thousandths, that a random fill aims at when
/// none is given.
pub const DEFAULT_DENSITY_PER_MILLE: u32 = 420;

/// `m` is `old` with a random fill of density `per_mille` (in thousandths)
/// applied at the coordinates that `sel` accepts: there each cell holds 0 or
/// 1 (always 0 at density 0, always 1 at density 1000 or more); elsewhere
/// cells are kept.
pub open spec fn filled(
    m: Map<Coord, u32>,
    old: Map<Coord, u32>,
    sel: spec_fn(Coord) -> bool,
    per_mille: u32,
) -> bool {
    forall|p: Coord|
        if sel(p) {
            &&& #[trigger] value_at(m, p) <= 1
            &&& per_mille == 0 ==> value_at(m, p) == 0
            &&& per_mille >= 1000 ==> value_at(m, p) == 1
        } else {
            value_at(m, p) == value_at(old, p)
        }
}

/// A grid's configuration: its dimensions, the store threshold and chunk
/// side, and the names and range of its topology.
#[derive(Clone)]
pub struct CellConfig {
    pub width: usize,
    pub height: usize,
    pub depth: usize,
    pub threshold: usize,
    pub chunk_size: usize,
    pub shape: String,
    pub neighbor_type: String,
    pub range: i32,
    pub topology_type: String,
}

pub struct CellManager {
    pub config: CellConfig,
    inner: CellBackend,
    neighbor_manager: Neighborhood,
}

impl View for CellManager {
    type V = Map<Coord, u32>;

    /// The live cells of the active store.
    closed spec fn view(&self) -> Map<Coord, u32> {
        self.inner@
    }
}

impl CellManager {
    /// The configuration.
    pub closed spec fn cfg(&self) -> CellConfig {
        self.config
    }

    pub open spec fn is_sparse(&self) -> bool {
        is_sparse_dims(self.cfg().width as int, self.cfg().height as int)
    }

    /// The coordinates that the active store holds.
    pub open spec fn in_window(&self, p: Coord) -> bool {
        grid_window(self.cfg().width as int, self.cfg().height as int, self.cfg().depth as int)(p)
    }

    /// The layer tables of the configured topology.
    pub open spec fn topology_tables(&self) -> Seq<Seq<Delta>> {
        offset_tables(
            shape_of(self.cfg().shape@),
            variant_of(self.cfg().neighbor_type@),
            self.cfg().range as int,
        )
    }

    /// The offsets that apply to layer `s`: the only table, or else the table
    /// at `s` modulo the number of tables.
    pub open spec fn layer_offsets(&self, s: int) -> Seq<Delta> {
        let t = self.topology_tables();
        if t.len() == 1 {
            t[0]
        } else {
            t[s % (t.len() as int)]
        }
    }

    pub closed spec fn wf(&self) -> bool {
        &&& self.config.threshold == THRESHOLD
        &&& grid_dims_ok(
            self.config.width as int,
            self.config.height as int,
            self.config.depth as int,
            self.config.chunk_size as int,
        )
        &&& self.config.range <= MAX_RANGE
        &&& self.inner.wf()
        &&& self.inner.is_flat() == !self.is_sparse()
        &&& forall|p: Coord| #[trigger] self.inner.in_window(p) == self.in_window(p)
        &&& self.inner.dims() == if self.is_sparse() {
            (self.config.chunk_size as int, self.config.chunk_size as int, self.config.depth as int)
        } else {
            (self.config.width + 2, self.config.height + 2, self.config.depth as int)
        }
        &&& self.neighbor_manager.wf()
        &&& self.neighbor_manager.shape@ == self.config.shape@
        &&& self.neighbor_manager.chosen_type@ == self.config.neighbor_type@
        &&& self.neighbor_manager.range == self.config.range
    }

    /// Live cells are nonzero and lie in the window.
    pub proof fn lemma_view(&self)
        requires
            self.wf(),
        ensures
            forall|p: Coord| #[trigger]
                self@.contains_key(p) ==> self.in_window(p) && self@[p] != 0,
            grid_dims_ok(
                self.cfg().width as int,
                self.cfg().height as int,
                self.cfg().depth as int,
                self.cfg().chunk_size as int,
            ),
            self.cfg().range <= MAX_RANGE,
            self.is_sparse() == is_sparse_dims(self.cfg().width as int, self.cfg().height as int),
            forall|p: Coord| #[trigger]
                self.in_window(p) == grid_window(
                    self.cfg().width as int,
                    self.cfg().height as int,
                    self.cfg().depth as int,
                )(p),
    {
        self.inner.lemma_view();
    }

    /// A grid of `width × height × depth` with the square von Neumann
    /// topology of range 1. It is dense, with a margin of one cell on each side
    /// in `q` and `r`, unless `width` or `height` exceeds the threshold; then it
    /// is sparse, with chunks of side `chunk_size` (256 when absent).
    pub fn new(width: usize, height: usize, depth: usize, chunk_size: Option<usize>) -> (res:
        Result<Self, GridError>)
        ensures
            match res {
                Ok(m) => {
                    &&& m.wf()
                    &&& m.is_sparse() == is_sparse_dims(width as int, height as int)
                    &&& m.cfg().width == width
                    &&& m.cfg().height == height
                    &&& m.cfg().depth == depth
                    &&& m.cfg().threshold == THRESHOLD
                    &&& m.cfg().chunk_size == match chunk_size {
                        Some(c) => c,
                        None => DEFAULT_CHUNK_SIZE,
                    }
                    &&& m.cfg().shape@ == "square"@
                    &&& m.cfg().neighbor_type@ == "vonNeumann"@
                    &&& m.cfg().range == 1
                    &&& m@ == Map::<Coord, u32>::empty()
                },
                Err(e) => {
                    &&& e == GridError::InvalidDimension
                    &&& !grid_dims_ok(
                        width as int,
                        height as int,
                        depth as int,
                        match chunk_size {
                            Some(c) => c as int,
                            None => DEFAULT_CHUNK_SIZE as int,
                        },
                    )
                },
            },
    {
        let threshold = THRESHOLD;
        let cs = match chunk_size {
            Some(c) => c,
            None => DEFAULT_CHUNK_SIZE,
        };
        if width == 0 || height == 0 || depth == 0 || width > i32::MAX as usize || height
            > i32::MAX as usize || depth > i32::MAX as usize {
            return Err(GridError::InvalidDimension);
        }
        if !chunk_shape_ok(cs, depth) {
            return Err(GridError::InvalidDimension);
        }
        let use_chunked = width > threshold || height > threshold;
        let inner = if use_chunked {
            match ChunkedCellManager::new(cs, depth) {
                Ok(c) => CellBackend::Chunked(c),
                Err(e) => {
                    return Err(e);
                },
            }
        } else {
            match FlatCellManager::new(width + 2, height + 2, depth) {
                Ok(f) => CellBackend::Flat(f),
                Err(e) => {
                    return Err(e);
                },
            }
        };
        let config = CellConfig {
            width,
            height,
            depth,
            threshold,
            chunk_size: cs,
            shape: "square".to_owned(),
            neighbor_type: "vonNeumann".to_owned(),
            range: 1,
            topology_type: "none".to_owned(),
        };
        let neighbor_manager = Neighborhood::new(&config.shape, &config.neighbor_type, config.range);
        let m = CellManager { config, inner, neighbor_manager };
        proof {
            assert forall|p: Coord| m.inner.in_window(p) == m.in_window(p) by {}
        }
        Ok(m)
    }

    /// Writes `value` at a coordinate; outside the window the write is dropped.
    pub fn set_cell(&mut self, q: i32, r: i32, s: i32, value: u32)
        requires
            old(self).wf(),
        ensures
            final(self).wf(),
            final(self).cfg() == old(self).cfg(),
            final(self)@ == if old(self).in_window(coord(q, r, s)) {
                written(old(self)@, coord(q, r, s), value)
            } else {
                old(self)@
            },
    {
        self.inner.set_cell(q, r, s, value);
        proof {
            assert forall|p: Coord| #[trigger] self.inner.in_window(p) == self.in_window(p) by {
                assert(old(self).inner.in_window(p) == old(self).in_window(p));
            }
        }
    }

    /// The value at a coordinate; 0 for an empty cell or one outside the window.
    pub fn get_cell(&self, q: i32, r: i32, s: i32) -> (v: u32)
        requires
            self.wf(),
        ensures
            v == value_at(self@, coord(q, r, s)),
    {
        self.inner.get_cell(q, r, s)
    }

    /// Empties every cell.
    pub fn clear(&mut self)
        requires
            old(self).wf(),
        ensures
            final(self).wf(),
            final(self).cfg() == old(self).cfg(),
            final(self)@ == Map::<Coord, u32>::empty(),
    {
        self.inner.clear();
        proof {
            assert forall|p: Coord| #[trigger] self.inner.in_window(p) == self.in_window(p) by {
                assert(old(self).inner.in_window(p) == old(self).in_window(p));
            }
        }
    }

    /// The live cells as `[q, r, s, value, ...]`, each once; a dense grid
    /// lists them in layer-major order.
    pub fn for_each_cell(&self) -> (out: Vec<i32>)
        requires
            self.wf(),
        ensures
            lists_cells(out@, self@),
            !self.is_sparse() ==> in_layer_order(out@),
    {
        self.inner.for_each_cell()
    }

    /// The neighbour coordinates of `(q, r, s)` under the configured topology,
    /// flattened to `[q, r, s, ...]`.
    pub fn get_neighbors(&self, q: i32, r: i32, s: i32) -> (out: Vec<i32>)
        requires
            self.wf(),
        ensures
            out@ == placed((q, r, s), self.layer_offsets(s as int)),
    {
        self.neighbor_manager.get_neighbors(q, r, s)
    }

    /// The sum of the values (not a count of live cells) at the neighbour
    /// coordinates of `(q, r, s)`, wrapping modulo 2^32.
    pub fn count_live_neighbors(&self, q: i32, r: i32, s: i32) -> (n: u32)
        requires
            self.wf(),
        ensures
            n as int == sum_at(self@, placed((q, r, s), self.layer_offsets(s as int)))
                % 0x1_0000_0000,
    {
        let offs = self.neighbor_manager.get_neighbor_offsets(s);
        let ghost t = ints(offs@);
        let ghost base: Offset = (q, r, s);
        let mut count: u32 = 0;
        let mut j: usize = 0;
        proof {
            assert(t.take(0) =~= Seq::<Delta>::empty());
        }
        while j < offs.len()
            invariant
                self.wf(),
                j <= offs@.len(),
                t == ints(offs@),
                base == (q, r, s),
                count as int == sum_at(self@, placed(base, t.take(j as int))) % 0x1_0000_0000,
            decreases offs@.len() - j,
        {
            let (dq, dr, ds) = offs[j];
            let v = self.get_cell(q.wrapping_add(dq), r.wrapping_add(dr), s.wrapping_add(ds));
            let ghost prev = sum_at(self@, placed(base, t.take(j as int)));
            proof {
                let next = placed(base, t.take(j + 1));
                assert(t.take(j + 1).drop_last() =~= t.take(j as int));
                assert(t.take(j + 1).last() == t[j as int]);
                let n = next.len() as int;
                assert(next.subrange(0, n - 3) =~= placed(base, t.take(j as int)));
                assert(sum_at(self@, next) == prev + v);
                lemma_add_mod_noop(prev, v as int, 0x1_0000_0000);
                assert((v as int) % 0x1_0000_0000 == v as int);
                assert(((prev % 0x1_0000_0000) % 0x1_0000_0000) == prev % 0x1_0000_0000);
            }
            count = count.wrapping_add(v);
            j = j + 1;
        }
        proof {
            assert(t.take(offs@.len() as int) =~= t);
        }
        count
    }

    /// The bounds `[min_q, max_q, min_r, max_r, min_s, max_s]`: `q` from
    /// `-(width/2)` to `(width-1)/2`, `r` likewise, `s` from 0 to `depth - 1`.
    pub fn get_bounds(&self) -> (b: [i32; 6])
        requires
            self.wf(),
        ensures
            b@.map_values(|x: i32| x as int) == bounds_of(
                self.cfg().width as int,
                self.cfg().height as int,
                self.cfg().depth as int,
            ),
    {
        let cols = self.config.width as i32;
        let rows = self.config.height as i32;
        let states = self.config.depth as i32;
        let b = [-(cols / 2), (cols - 1) / 2, -(rows / 2), (rows - 1) / 2, 0, states - 1];
        proof {
            assert(b@.map_values(|x: i32| x as int) =~= bounds_of(
                self.config.width as int,
                self.config.height as int,
                self.config.depth as int,
            ));
        }
        b
    }

    /// Sets the topology names and range and rebuilds the tables; the cells
    /// are untouched.
    pub fn change_grid_properties(
        &mut self,
        shape: String,
        neighbor_type: String,
        range: i32,
        topology_type: String,
    )
        requires
            old(self).wf(),
            range <= MAX_RANGE,
        ensures
            final(self).wf(),
            final(self)@ == old(self)@,
            final(self).cfg().width == old(self).cfg().width,
            final(self).cfg().height == old(self).cfg().height,
            final(self).cfg().depth == old(self).cfg().depth,
            final(self).cfg().chunk_size == old(self).cfg().chunk_size,
            final(self).cfg().shape@ == shape@,
            final(self).cfg().neighbor_type@ == neighbor_type@,
            final(self).cfg().range == range,
            final(self).cfg().topology_type@ == topology_type@,
    {
        self.neighbor_manager.change_cell_properties(shape.as_str(), neighbor_type.as_str(), range);
        self.config.shape = shape;
        self.config.neighbor_type = neighbor_type;
        self.config.range = range;
        self.config.topology_type = topology_type;
        proof {
            assert forall|p: Coord| #[trigger] self.inner.in_window(p) == self.in_window(p) by {
                assert(old(self).inner.in_window(p) == old(self).in_window(p));
            }
        }
    }
    /// Changes the dimensions. When the new dimensions put the grid on the
    /// other side of the threshold, a store of the other kind is built and
    /// every live cell is written into it at its coordinate (cells outside a
    /// new dense window are dropped). Otherwise the store resizes in place: a
    /// dense store keeps each cell's storage position, so content moves by the
    /// change of origin; a sparse store keeps every cell. Invalid dimensions
    /// leave the grid unchanged.
    pub fn resize(&mut self, new_width: usize, new_height: usize, new_depth: usize) -> (res:
        Result<(), GridError>)
        requires
            old(self).wf(),
        ensures
            final(self).wf(),
            match res {
                Ok(()) => {
                    &&& grid_dims_ok(
                        new_width as int,
                        new_height as int,
                        new_depth as int,
                        old(self).cfg().chunk_size as int,
                    )
                    &&& final(self).cfg() == (CellConfig {
                        width: new_width,
                        height: new_height,
                        depth: new_depth,
                        ..old(self).cfg()
                    })
                    &&& final(self)@ == resized(
                        old(self)@,
                        old(self).cfg().width as int,
                        old(self).cfg().height as int,
                        old(self).cfg().depth as int,
                        new_width as int,
                        new_height as int,
                        new_depth as int,
                    )
                },
                Err(e) => {
                    &&& e == GridError::InvalidDimension
                    &&& !grid_dims_ok(
                        new_width as int,
                        new_height as int,
                        new_depth as int,
                        old(self).cfg().chunk_size as int,
                    )
                    &&& *final(self) == *old(self)
                },
            },
    {
        if new_width == 0 || new_height == 0 || new_depth == 0 || new_width > i32::MAX as usize
            || new_height > i32::MAX as usize || new_depth > i32::MAX as usize {
            return Err(GridError::InvalidDimension);
        }
        if !chunk_shape_ok(self.config.chunk_size, new_depth) {
            return Err(GridError::InvalidDimension);
        }
        let ghost o = *self;
        let new_sparse = new_width > THRESHOLD || new_height > THRESHOLD;
        let old_sparse = self.config.width > THRESHOLD || self.config.height > THRESHOLD;
        let cs = self.config.chunk_size;
        if new_sparse == old_sparse {
            let r = match &mut self.inner {
                CellBackend::Flat(f) => f.resize(new_width + 2, new_height + 2, new_depth),
                CellBackend::Chunked(c) => c.resize(new_width, new_height, new_depth),
            };
            if r.is_err() {
                return Err(GridError::InvalidDimension);
            }
        } else {
            let cells = self.inner.for_each_cell();
            let mut fresh = if new_sparse {
                match ChunkedCellManager::new(cs, new_depth) {
                    Ok(c) => CellBackend::Chunked(c),
                    Err(e) => {
                        return Err(e);
                    },
                }
            } else {
                match FlatCellManager::new(new_width + 2, new_height + 2, new_depth) {
                    Ok(f) => CellBackend::Flat(f),
                    Err(e) => {
                        return Err(e);
                    },
                }
            };
            let ghost win = grid_window(new_width as int, new_height as int, new_depth as int);
            let clen = cells.len();
            let n = clen / 4;
            let mut j: usize = 0;
            let mut base: usize = 0;
            proof {
                assert(fresh@ =~= replayed(cells@, 0, win));
            }
            while j < n
                invariant
                    fresh.wf(),
                    fresh.is_flat() == !new_sparse,
                    fresh.dims() == if new_sparse {
                        (cs as int, cs as int, new_depth as int)
                    } else {
                        (new_width + 2, new_height + 2, new_depth as int)
                    },
                    forall|p: Coord| #[trigger] fresh.in_window(p) == win(p),
                    win == grid_window(new_width as int, new_height as int, new_depth as int),
                    n == quad_count(cells@),
                    cells@.len() == 4 * n,
                    clen == cells@.len(),
                    j <= n,
                    base == 4 * j,
                    fresh@ == replayed(cells@, j as int, win),
                decreases n - j,
            {
                let q = cells[base];
                let r = cells[base + 1];
                let s = cells[base + 2];
                let v = cells[base + 3];
                proof {
                    assert(quad_coord(cells@, j as int) == coord(q, r, s));
                }
                fresh.set_cell(q, r, s, #[verifier::truncate] (v as u32));
                j = j + 1;
                base = base + 4;
            }
            proof {
                o.inner.lemma_view();
                lemma_replayed_listing(cells@, o@, win);
            }
            self.inner = fresh;
        }
        self.config.width = new_width;
        self.config.height = new_height;
        self.config.depth = new_depth;
        proof {
            assert forall|p: Coord| #[trigger] self.inner.in_window(p) == self.in_window(p) by {}
        }
        Ok(())
    }
    /// `x` is a neighbour coordinate of `p` under the configured topology.
    pub open spec fn is_neighbor(&self, p: Coord, x: Coord) -> bool {
        names_coord(placed((p.0 as i32, p.1 as i32, p.2 as i32), self.layer_offsets(p.2)), x)
    }

    /// `x` is a neighbour coordinate of some live cell.
    pub open spec fn grown(&self, x: Coord) -> bool {
        exists|p: Coord| #[trigger] self@.contains_key(p) && self.is_neighbor(p, x)
    }

    /// The live cells after one growth pass: every neighbour coordinate of a
    /// live cell that the window holds is set to 1; the rest is kept.
    pub open spec fn flooded(&self) -> Map<Coord, u32> {
        Map::new(
            |x: Coord| self@.contains_key(x) || (self.in_window(x) && self.grown(x)),
            |x: Coord| if self.in_window(x) && self.grown(x) { 1 } else { self@[x] },
        )
    }

    /// One growth pass: from a snapshot of the live cells, sets every
    /// neighbour coordinate of each of them to 1. Cells set in this pass do
    /// not spread further until the next call.
    pub fn floodfill(&mut self)
        requires
            old(self).wf(),
        ensures
            final(self).wf(),
            final(self).cfg() == old(self).cfg(),
            final(self)@ == old(self).flooded(),
    {
        let ghost o = *self;
        let arr = self.for_each_cell();
        let alen = arr.len();
        let n = alen / 4;
        let mut targets: Vec<Offset> = Vec::new();
        let mut j: usize = 0;
        let mut base: usize = 0;
        while j < n
            invariant
                *self == o,
                self.wf(),
                lists_cells(arr@, o@),
                n == quad_count(arr@),
                arr@.len() == 4 * n,
                alen == arr@.len(),
                j <= n,
                base == 4 * j,
                forall|x: Coord|
                    #[trigger] among(targets@, targets@.len() as int, x) <==> exists|k: int|
                        0 <= k < j && #[trigger] o.is_neighbor(quad_coord(arr@, k), x),
            decreases n - j,
        {
            let q = arr[base];
            let r = arr[base + 1];
            let s = arr[base + 2];
            let nb = self.get_neighbors(q, r, s);
            let ghost p = quad_coord(arr@, j as int);
            let ghost before_targets = targets@;
            proof {
                assert(p == coord(q, r, s));
                assert((p.0 as i32, p.1 as i32, p.2 as i32) == (q, r, s));
            }
            let len3 = nb.len();
            let m = len3 / 3;
            let mut t: usize = 0;
            while t < m
                invariant
                    *self == o,
                    self.wf(),
                    lists_cells(arr@, o@),
                    n == quad_count(arr@),
                    arr@.len() == 4 * n,
                    j < n,
                    alen == arr@.len(),
                    base == 4 * j,
                    nb@ == placed((q, r, s), o.layer_offsets(s as int)),
                    p == quad_coord(arr@, j as int),
                    len3 == nb@.len(),
                    m == nb@.len() / 3,
                    t <= m,
                    targets@.len() >= before_targets.len(),
                    targets@.subrange(0, before_targets.len() as int) == before_targets,
                    forall|x: Coord|
                        #[trigger] among(targets@, targets@.len() as int, x) <==> (among(
                            before_targets,
                            before_targets.len() as int,
                            x,
                        ) || exists|i: int| 0 <= i < t && #[trigger] triple(nb@, i) == x),
                decreases m - t,
            {
                let ghost prev = targets@;
                proof {
                    assert(3 * t + 2 < len3) by (nonlinear_arith)
                        requires
                            t < m,
                            m == len3 / 3,
                    ;
                }
                targets.push((nb[3 * t], nb[3 * t + 1], nb[3 * t + 2]));
                proof {
                    assert forall|x: Coord|
                        #[trigger] among(targets@, targets@.len() as int, x) <==> (among(
                            before_targets,
                            before_targets.len() as int,
                            x,
                        ) || exists|i: int| 0 <= i < t + 1 && #[trigger] triple(nb@, i) == x) by {
                        if among(targets@, targets@.len() as int, x) {
                            let i = choose|i: int| 0 <= i < targets@.len() && #[trigger] coord(targets@[i].0, targets@[i].1, targets@[i].2) == x;
                            if i < prev.len() {
                                assert(prev[i] == targets@[i]);
                                assert(among(prev, prev.len() as int, x));
                            } else {
                                assert(triple(nb@, t as int) == x);
                            }
                        }
                        if among(before_targets, before_targets.len() as int, x) {
                            let i = choose|i: int| 0 <= i < before_targets.len() && #[trigger] coord(before_targets[i].0, before_targets[i].1, before_targets[i].2) == x;
                            assert(prev.subrange(0, before_targets.len() as int)[i] == before_targets[i]);
                            assert(targets@[i] == prev[i]);
                        }
                        if exists|i: int| 0 <= i < t + 1 && #[trigger] triple(nb@, i) == x {
                            let i = choose|i: int| 0 <= i < t + 1 && #[trigger] triple(nb@, i) == x;
                            if i < t {
                                assert(exists|i: int| 0 <= i < t && #[trigger] triple(nb@, i) == x);
                                assert(among(prev, prev.len() as int, x));
                                let i2 = choose|i2: int| 0 <= i2 < prev.len() && #[trigger] coord(prev[i2].0, prev[i2].1, prev[i2].2) == x;
                                assert(targets@[i2] == prev[i2]);
                            } else {
                                assert(coord(targets@[prev.len() as int].0, targets@[prev.len() as int].1, targets@[prev.len() as int].2) == x);
                            }
                        }
                    }
                    assert(targets@.subrange(0, before_targets.len() as int) =~= before_targets);
                }
                t = t + 1;
            }
            proof {
                assert forall|x: Coord|
                    #[trigger] among(targets@, targets@.len() as int, x) <==> exists|k: int|
                        0 <= k < j + 1 && #[trigger] o.is_neighbor(quad_coord(arr@, k), x) by {
                    if exists|k: int| 0 <= k < j + 1 && #[trigger] o.is_neighbor(quad_coord(arr@, k), x) {
                        let k = choose|k: int| 0 <= k < j + 1 && #[trigger] o.is_neighbor(quad_coord(arr@, k), x);
                        if k < j {
                            assert(among(before_targets, before_targets.len() as int, x));
                        } else {
                            assert(o.is_neighbor(p, x));
                            assert(names_coord(nb@, x));
                        }
                    }
                    if among(before_targets, before_targets.len() as int, x) {
                        let k = choose|k: int| 0 <= k < j && #[trigger] o.is_neighbor(quad_coord(arr@, k), x);
                        assert(0 <= k < j + 1);
                    }
                    if exists|i: int| 0 <= i < m && #[trigger] triple(nb@, i) == x {
                        assert(names_coord(nb@, x));
                        assert(o.is_neighbor(quad_coord(arr@, j as int), x));
                    }
                }
            }
            j = j + 1;
            base = base + 4;
        }
        proof {
            assert forall|x: Coord| #[trigger] among(targets@, targets@.len() as int, x) <==> o.grown(x) by {
                if o.grown(x) {
                    let p = choose|p: Coord| #[trigger] o@.contains_key(p) && o.is_neighbor(p, x);
                    let k = choose|k: int| 0 <= k < quad_count(arr@) && #[trigger] quad_coord(arr@, k) == p;
                    assert(o.is_neighbor(quad_coord(arr@, k), x));
                }
                if among(targets@, targets@.len() as int, x) {
                    let k = choose|k: int| 0 <= k < n && #[trigger] o.is_neighbor(quad_coord(arr@, k), x);
                    assert(o@.contains_key(quad_coord(arr@, k)));
                }
            }
        }
        let total = targets.len();
        let mut i: usize = 0;
        while i < total
            invariant
                self.wf(),
                self.cfg() == o.cfg(),
                total == targets@.len(),
                i <= total,
                forall|x: Coord| #[trigger] among(targets@, targets@.len() as int, x) <==> o.grown(x),
                self@ == Map::new(
                    |x: Coord| o@.contains_key(x) || (o.in_window(x) && among(targets@, i as int, x)),
                    |x: Coord| if o.in_window(x) && among(targets@, i as int, x) { 1 } else { o@[x] },
                ),
            decreases total - i,
        {
            let (q, r, s) = targets[i];
            let ghost prev = self@;
            self.set_cell(q, r, s, 1);
            proof {
                let c = coord(q, r, s);
                let next = Map::new(
                    |x: Coord| o@.contains_key(x) || (o.in_window(x) && among(targets@, i + 1, x)),
                    |x: Coord| if o.in_window(x) && among(targets@, i + 1, x) { 1 } else { o@[x] },
                );
                assert forall|x: Coord| among(targets@, i + 1, x) <==> (among(targets@, i as int, x) || x == c) by {
                    if among(targets@, i + 1, x) {
                        let k = choose|k: int| 0 <= k < i + 1 && #[trigger] coord(targets@[k].0, targets@[k].1, targets@[k].2) == x;
                        if k < i {
                            assert(among(targets@, i as int, x));
                        }
                    }
                    if x == c {
                        assert(coord(targets@[i as int].0, targets@[i as int].1, targets@[i as int].2) == x);
                    }
                    if among(targets@, i as int, x) {
                        let k = choose|k: int| 0 <= k < i && #[trigger] coord(targets@[k].0, targets@[k].1, targets@[k].2) == x;
                        assert(0 <= k < i + 1);
                    }
                }
                assert(self.in_window(c) == o.in_window(c));
                assert forall|x: Coord| #[trigger] self@.contains_key(x) <==> next.contains_key(x) by {
                    assert(self.in_window(x) == o.in_window(x));
                }
                assert forall|x: Coord| #[trigger] self@.contains_key(x) implies self@[x] == next[x] by {
                    assert(self.in_window(x) == o.in_window(x));
                }
                assert(self@ =~= next);
            }
            i = i + 1;
        }
        proof {
            assert(self@ =~= o.flooded());
        }
    }
    /// Writes each entry `(q, r, s, value)` of `cell_data` in order, with
    /// `overwrite` in place of each value when it is given.
    pub fn batch_update(&mut self, cell_data: Vec<(i32, i32, i32, u32)>, overwrite: Option<u32>)
        requires
            old(self).wf(),
        ensures
            final(self).wf(),
            final(self).cfg() == old(self).cfg(),
            final(self)@ == batched(
                old(self)@,
                grid_window(
                    old(self).cfg().width as int,
                    old(self).cfg().height as int,
                    old(self).cfg().depth as int,
                ),
                cell_data@,
                overwrite,
            ),
    {
        let ghost o = *self;
        let ghost win = grid_window(
            self.config.width as int,
            self.config.height as int,
            self.config.depth as int,
        );
        let mut i: usize = 0;
        proof {
            assert(cell_data@.take(0) =~= Seq::<(i32, i32, i32, u32)>::empty());
        }
        while i < cell_data.len()
            invariant
                self.wf(),
                self.cfg() == o.cfg(),
                win == grid_window(o.cfg().width as int, o.cfg().height as int, o.cfg().depth as int),
                i <= cell_data@.len(),
                self@ == batched(o@, win, cell_data@.take(i as int), overwrite),
            decreases cell_data@.len() - i,
        {
            let (q, r, s, val) = cell_data[i];
            let write_val = match overwrite {
                Some(x) => x,
                None => val,
            };
            self.set_cell(q, r, s, write_val);
            proof {
                assert(cell_data@.take(i + 1).drop_last() =~= cell_data@.take(i as int));
            }
            i = i + 1;
        }
        proof {
            assert(cell_data@.take(cell_data@.len() as int) =~= cell_data@);
        }
    }

    /// Stamps the value 255 on the ring one cell outside the bounds, on every
    /// side and in every layer; the rest is kept.
    pub fn create_boundary(&mut self)
        requires
            old(self).wf(),
        ensures
            final(self).wf(),
            final(self).cfg() == old(self).cfg(),
            final(self)@ == stamped(
                old(self)@,
                |p: Coord|
                    on_boundary(
                        old(self).cfg().width as int,
                        old(self).cfg().height as int,
                        old(self).cfg().depth as int,
                        p,
                    ),
                BOUNDARY,
            ),
    {
        let ghost o = *self;
        let ghost (w, h, d) = (self.config.width as int, self.config.height as int, self.config.depth as int);
        let b = self.get_bounds();
        let min_q = b[0];
        let max_q = b[1];
        let min_r = b[2];
        let max_r = b[3];
        let max_s = b[5];
        proof {
            assert(b@.map_values(|x: i32| x as int)[0] == b@[0] as int);
            assert(b@.map_values(|x: i32| x as int)[1] == b@[1] as int);
            assert(b@.map_values(|x: i32| x as int)[2] == b@[2] as int);
            assert(b@.map_values(|x: i32| x as int)[3] == b@[3] as int);
            assert(b@.map_values(|x: i32| x as int)[5] == b@[5] as int);
            assert(self@ =~= stamped(o@, |p: Coord| on_boundary(w, h, d, p) && p.2 < 0, BOUNDARY));
        }
        let mut s: i32 = 0;
        while s <= max_s
            invariant
                self.wf(),
                self.cfg() == o.cfg(),
                w == o.cfg().width,
                h == o.cfg().height,
                d == o.cfg().depth,
                min_q == -(w / 2),
                max_q == (w - 1) / 2,
                min_r == -(h / 2),
                max_r == (h - 1) / 2,
                max_s == d - 1,
                0 <= s <= d,
                self@ == stamped(o@, |p: Coord| on_boundary(w, h, d, p) && p.2 < s, BOUNDARY),
            decreases d - s,
        {
            proof {
                self.lemma_view();
            }
            let mut q: i32 = min_q - 1;
            proof {
                assert(stamped(o@, |p: Coord| on_boundary(w, h, d, p) && p.2 < s, BOUNDARY) =~= stamped(
                    o@,
                    |p: Coord|
                        on_boundary(w, h, d, p) && p.2 < s || p.2 == s && min_q - 1 <= p.0 < q && (p.1
                            == min_r - 1 || p.1 == max_r + 1),
                    BOUNDARY,
                ));
            }
            while q <= max_q + 1
                invariant
                    self.wf(),
                    self.cfg() == o.cfg(),
                    w == o.cfg().width,
                    h == o.cfg().height,
                    d == o.cfg().depth,
                    min_q == -(w / 2),
                    max_q == (w - 1) / 2,
                    min_r == -(h / 2),
                    max_r == (h - 1) / 2,
                    0 <= s < d,
                    min_q - 1 <= q <= max_q + 2,
                    self@ == stamped(
                        o@,
                        |p: Coord|
                            on_boundary(w, h, d, p) && p.2 < s || p.2 == s && min_q - 1 <= p.0 < q
                                && (p.1 == min_r - 1 || p.1 == max_r + 1),
                        BOUNDARY,
                    ),
                decreases max_q + 2 - q,
            {
                let ghost sel0 = |p: Coord|
                    on_boundary(w, h, d, p) && p.2 < s || p.2 == s && min_q - 1 <= p.0 < q && (p.1
                        == min_r - 1 || p.1 == max_r + 1);
                let ghost sel1 = |p: Coord|
                    on_boundary(w, h, d, p) && p.2 < s || p.2 == s && (min_q - 1 <= p.0 < q && (p.1
                        == min_r - 1 || p.1 == max_r + 1) || p == (q as int, min_r - 1, s as int));
                let ghost sel2 = |p: Coord|
                    on_boundary(w, h, d, p) && p.2 < s || p.2 == s && min_q - 1 <= p.0 < q + 1 && (p.1
                        == min_r - 1 || p.1 == max_r + 1);
                assert(self.in_window((q as int, min_r - 1, s as int)));
                self.set_cell(q, min_r - 1, s, BOUNDARY);
                proof {
                    lemma_stamp_one(o@, sel0, sel1, (q as int, min_r - 1, s as int), BOUNDARY);
                }
                assert(self.in_window((q as int, max_r + 1, s as int)));
                self.set_cell(q, max_r + 1, s, BOUNDARY);
                proof {
                    lemma_stamp_one(o@, sel1, sel2, (q as int, max_r + 1, s as int), BOUNDARY);
                }
                q = q + 1;
            }
            let mut r: i32 = min_r - 1;
            proof {
                assert(stamped(
                    o@,
                    |p: Coord|
                        on_boundary(w, h, d, p) && p.2 < s || p.2 == s && min_q - 1 <= p.0 < q && (p.1
                            == min_r - 1 || p.1 == max_r + 1),
                    BOUNDARY,
                ) =~= stamped(
                    o@,
                    |p: Coord|
                        on_boundary(w, h, d, p) && p.2 < s || p.2 == s && (min_q - 1 <= p.0 <= max_q
                            + 1 && (p.1 == min_r - 1 || p.1 == max_r + 1) || min_r - 1 <= p.1 < r && (
                        p.0 == min_q - 1 || p.0 == max_q + 1)),
                    BOUNDARY,
                ));
            }
            while r <= max_r + 1
                invariant
                    self.wf(),
                    self.cfg() == o.cfg(),
                    w == o.cfg().width,
                    h == o.cfg().height,
                    d == o.cfg().depth,
                    min_q == -(w / 2),
                    max_q == (w - 1) / 2,
                    min_r == -(h / 2),
                    max_r == (h - 1) / 2,
                    0 <= s < d,
                    min_r - 1 <= r <= max_r + 2,
                    self@ == stamped(
                        o@,
                        |p: Coord|
                            on_boundary(w, h, d, p) && p.2 < s || p.2 == s && (min_q - 1 <= p.0
                                <= max_q + 1 && (p.1 == min_r - 1 || p.1 == max_r + 1) || min_r - 1
                                <= p.1 < r && (p.0 == min_q - 1 || p.0 == max_q + 1)),
                        BOUNDARY,
                    ),
                decreases max_r + 2 - r,
            {
                let ghost sel0 = |p: Coord|
                    on_boundary(w, h, d, p) && p.2 < s || p.2 == s && (min_q - 1 <= p.0 <= max_q + 1
                        && (p.1 == min_r - 1 || p.1 == max_r + 1) || min_r - 1 <= p.1 < r && (p.0
                        == min_q - 1 || p.0 == max_q + 1));
                let ghost sel1 = |p: Coord|
                    on_boundary(w, h, d, p) && p.2 < s || p.2 == s && (min_q - 1 <= p.0 <= max_q + 1
                        && (p.1 == min_r - 1 || p.1 == max_r + 1) || min_r - 1 <= p.1 < r && (p.0
                        == min_q - 1 || p.0 == max_q + 1) || p == (min_q - 1, r as int, s as int));
                let ghost sel2 = |p: Coord|
                    on_boundary(w, h, d, p) && p.2 < s || p.2 == s && (min_q - 1 <= p.0 <= max_q + 1
                        && (p.1 == min_r - 1 || p.1 == max_r + 1) || min_r - 1 <= p.1 < r + 1 && (p.0
                        == min_q - 1 || p.0 == max_q + 1));
                assert(self.in_window((min_q - 1, r as int, s as int)));
                self.set_cell(min_q - 1, r, s, BOUNDARY);
                proof {
                    lemma_stamp_one(o@, sel0, sel1, (min_q - 1, r as int, s as int), BOUNDARY);
                }
                assert(self.in_window((max_q + 1, r as int, s as int)));
                self.set_cell(max_q + 1, r, s, BOUNDARY);
                proof {
                    lemma_stamp_one(o@, sel1, sel2, (max_q + 1, r as int, s as int), BOUNDARY);
                }
                r = r + 1;
            }
            proof {
                assert(stamped(
                    o@,
                    |p: Coord|
                        on_boundary(w, h, d, p) && p.2 < s || p.2 == s && (min_q - 1 <= p.0 <= max_q
                            + 1 && (p.1 == min_r - 1 || p.1 == max_r + 1) || min_r - 1 <= p.1 < r && (
                        p.0 == min_q - 1 || p.0 == max_q + 1)),
                    BOUNDARY,
                ) =~= stamped(o@, |p: Coord| on_boundary(w, h, d, p) && p.2 < s + 1, BOUNDARY));
            }
            s = s + 1;
        }
        proof {
            assert(self@ =~= stamped(o@, |p: Coord| on_boundary(w, h, d, p), BOUNDARY));
        }
    }
    /// Sets the cells of row `(q, s)` within the bounds from `draws`, one
    /// draw per cell in increasing `r`: the cell at `r` becomes 1 when
    /// `draws[r - min_r]` is below `per_mille`, else 0. The rest is kept.
    pub fn fill_row_from_draws(&mut self, s: i32, q: i32, draws: &Vec<u32>, per_mille: u32)
        requires
            old(self).wf(),
            0 <= s < old(self).cfg().depth,
            -(old(self).cfg().width as int / 2) <= q <= (old(self).cfg().width as int - 1) / 2,
            draws@.len() == old(self).cfg().height,
        ensures
            final(self).wf(),
            final(self).cfg() == old(self).cfg(),
            forall|p: Coord|
                #[trigger] value_at(final(self)@, p) == if p.2 == s && p.0 == q && -(old(
                    self,
                ).cfg().height as int / 2) <= p.1 <= (old(self).cfg().height as int - 1) / 2 {
                    if draws@[p.1 + old(self).cfg().height as int / 2] < per_mille {
                        1u32
                    } else {
                        0u32
                    }
                } else {
                    value_at(old(self)@, p)
                },
    {
        let ghost o = *self;
        let ghost h = self.config.height as int;
        proof {
            self.lemma_view();
        }
        let rows = self.config.height as i32;
        let min_r = -(rows / 2);
        let max_r = (rows - 1) / 2;
        let mut r: i32 = min_r;
        let mut i: usize = 0;
        while r <= max_r
            invariant
                self.wf(),
                self.cfg() == o.cfg(),
                h == o.cfg().height,
                1 <= h <= i32::MAX,
                draws@.len() == h,
                0 <= s < o.cfg().depth,
                -(o.cfg().width as int / 2) <= q <= (o.cfg().width as int - 1) / 2,
                1 <= o.cfg().width <= i32::MAX,
                min_r == -(h / 2),
                max_r == (h - 1) / 2,
                min_r <= r <= max_r + 1,
                i == r + h / 2,
                forall|p: Coord|
                    #[trigger] value_at(self@, p) == if p.2 == s && p.0 == q && min_r <= p.1 < r {
                        if draws@[p.1 + h / 2] < per_mille {
                            1u32
                        } else {
                            0u32
                        }
                    } else {
                        value_at(o@, p)
                    },
            decreases max_r + 1 - r,
        {
            let status: u32 = if draws[i] < per_mille {
                1
            } else {
                0
            };
            let ghost prev = self@;
            assert(self.in_window((q as int, r as int, s as int)));
            self.set_cell(q, r, s, status);
            proof {
                assert forall|p: Coord| #[trigger] value_at(self@, p) == if p == (q as int, r as int, s as int) {
                    status
                } else {
                    value_at(prev, p)
                } by {}
            }
            r = r + 1;
            i = i + 1;
        }
    }

    /// For every cell within the bounds, in every layer, draws a number from
    /// `0..1000` and sets the cell to 1 when the draw is below `per_mille`,
    /// else to 0; cells outside the bounds are kept. The draws of each row go
    /// to `fill_row_from_draws`.
    pub fn random_fill(&mut self, rng: &mut fastrand::Rng, per_mille: u32)
        requires
            old(self).wf(),
        ensures
            final(self).wf(),
            final(self).cfg() == old(self).cfg(),
            filled(
                final(self)@,
                old(self)@,
                |p: Coord|
                    in_bounds(
                        old(self).cfg().width as int,
                        old(self).cfg().height as int,
                        old(self).cfg().depth as int,
                        p,
                    ),
                per_mille,
            ),
    {
        let ghost o = *self;
        let ghost (w, h, d) = (self.config.width as int, self.config.height as int, self.config.depth as int);
        let b = self.get_bounds();
        let min_q = b[0];
        let max_q = b[1];
        let min_r = b[2];
        let max_r = b[3];
        let max_s = b[5];
        proof {
            self.lemma_view();
            assert(b@.map_values(|x: i32| x as int)[0] == b@[0] as int);
            assert(b@.map_values(|x: i32| x as int)[1] == b@[1] as int);
            assert(b@.map_values(|x: i32| x as int)[2] == b@[2] as int);
            assert(b@.map_values(|x: i32| x as int)[3] == b@[3] as int);
            assert(b@.map_values(|x: i32| x as int)[5] == b@[5] as int);
        }
        let mut s: i32 = 0;
        while s <= max_s
            invariant
                self.wf(),
                self.cfg() == o.cfg(),
                w == o.cfg().width,
                h == o.cfg().height,
                d == o.cfg().depth,
                1 <= w <= i32::MAX,
                1 <= h <= i32::MAX,
                min_q == -(w / 2),
                max_q == (w - 1) / 2,
                min_r == -(h / 2),
                max_r == (h - 1) / 2,
                max_s == d - 1,
                0 <= s <= d,
                filled(self@, o@, |p: Coord| in_bounds(w, h, d, p) && p.2 < s, per_mille),
            decreases d - s,
        {
            let mut q: i32 = min_q;
            proof {
                assert(filled(self@, o@, |p: Coord| in_bounds(w, h, d, p) && (p.2 < s || p.2 == s && p.0 < q), per_mille));
            }
            while q <= max_q
                invariant
                    self.wf(),
                    self.cfg() == o.cfg(),
                    w == o.cfg().width,
                    h == o.cfg().height,
                    d == o.cfg().depth,
                    1 <= w <= i32::MAX,
                    1 <= h <= i32::MAX,
                    min_q == -(w / 2),
                    max_q == (w - 1) / 2,
                    min_r == -(h / 2),
                    max_r == (h - 1) / 2,
                    0 <= s < d,
                    min_q <= q <= max_q + 1,
                    filled(self@, o@, |p: Coord| in_bounds(w, h, d, p) && (p.2 < s || p.2 == s && p.0 < q), per_mille),
                decreases max_q + 1 - q,
            {
                let hh = self.config.height;
                let mut draws: Vec<u32> = Vec::new();
                let mut k: usize = 0;
                while k < hh
                    invariant
                        k <= hh,
                        draws@.len() == k,
                        forall|j: int| 0 <= j < k ==> #[trigger] draws@[j] < 1000,
                    decreases hh - k,
                {
                    draws.push(draw_below(rng, 1000));
                    k = k + 1;
                }
                let ghost prev = self@;
                self.fill_row_from_draws(s, q, &draws, per_mille);
                proof {
                    let sel_a = |p: Coord| in_bounds(w, h, d, p) && (p.2 < s || p.2 == s && p.0 < q);
                    let sel_b = |p: Coord| in_bounds(w, h, d, p) && (p.2 < s || p.2 == s && p.0 < q + 1);
                    assert forall|p: Coord|
                        if sel_b(p) {
                            &&& #[trigger] value_at(self@, p) <= 1
                            &&& per_mille == 0 ==> value_at(self@, p) == 0
                            &&& per_mille >= 1000 ==> value_at(self@, p) == 1
                        } else {
                            value_at(self@, p) == value_at(o@, p)
                        } by {
                        if p.2 == s && p.0 == q && -(h / 2) <= p.1 <= (h - 1) / 2 {
                            assert(draws@[p.1 + h / 2] < 1000);
                        } else {
                            assert(value_at(self@, p) == value_at(prev, p));
                            assert(sel_b(p) == sel_a(p));
                        }
                    }
                }
                q = q + 1;
            }
            proof {
                assert forall|p: Coord| (in_bounds(w, h, d, p) && p.2 < s + 1) == (in_bounds(w, h, d, p) && (p.2 < s || p.2 == s && p.0 < q)) by {}
            }
            s = s + 1;
        }
        proof {
            assert forall|p: Coord| (in_bounds(w, h, d, p) && p.2 < s) == in_bounds(w, h, d, p) by {}
        }
    }

    /// A random fill at the default density, from a generator forked from the
    /// thread-local one.
    pub fn random_cells(&mut self)
        requires
            old(self).wf(),
        ensures
            final(self).wf(),
            final(self).cfg() == old(self).cfg(),
            filled(
                final(self)@,
                old(self)@,
                |p: Coord|
                    in_bounds(
                        old(self).cfg().width as int,
                        old(self).cfg().height as int,
                        old(self).cfg().depth as int,
                        p,
                    ),
                DEFAULT_DENSITY_PER_MILLE,
            ),
    {
        let mut rng = fresh_rng();
        self.random_fill(&mut rng, DEFAULT_DENSITY_PER_MILLE);
    }
}

} // verus!
