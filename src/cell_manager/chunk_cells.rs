//! The sparse store: fixed-size chunks in a hash map, allocated on first write,
//! over the whole `i32` coordinate space.
use vstd::prelude::*;
use std::collections::HashMap;
use vstd::arithmetic::div_mod::{lemma_fundamental_div_mod, lemma_fundamental_div_mod_converse};
use super::cell_map::{
    Coord, GridError, coord, value_at, written, quad_count, quad_coord, lists_cells,
    before, in_box, box_index, box_next, lemma_box_index_bound, lemma_box_next, lemma_box_end,
    lemma_box_index_injective, zeros, everywhere, kept, replayed, lemma_replayed_listing,
    lemma_lists_append,
};

verus! {

broadcast use vstd::std_specs::hash::group_hash_axioms;

/// Chunk shapes that a sparse store accepts: a side and a depth of at least 1
/// and at most `i32::MAX`, and a chunk volume that can be addressed.
pub open spec fn chunk_dims_ok(cs: int, d: int) -> bool {
    &&& 1 <= cs <= i32::MAX
    &&& 1 <= d <= i32::MAX
    &&& cs * cs * d <= usize::MAX
}

/// Each component of the coordinate fits in an `i32`.
pub open spec fn in_i32(p: Coord) -> bool {
    &&& i32::MIN <= p.0 <= i32::MAX
    &&& i32::MIN <= p.1 <= i32::MAX
    &&& i32::MIN <= p.2 <= i32::MAX
}

/// Whether a sparse store accepts chunks of side `chunk_size` and depth `depth`.
pub fn chunk_shape_ok(chunk_size: usize, depth: usize) -> (r: bool)
    ensures
        r == chunk_dims_ok(chunk_size as int, depth as int),
{
    if chunk_size == 0 || depth == 0 || chunk_size > i32::MAX as usize || depth > i32::MAX as usize {
        return false;
    }
    proof {
        assert(chunk_size * chunk_size <= chunk_size * chunk_size * depth) by (nonlinear_arith)
            requires
                depth >= 1,
        ;
    }
    match chunk_size.checked_mul(chunk_size) {
        Some(plane) => plane.checked_mul(depth).is_some(),
        None => false,
    }
}

/// A chunk key as one integer: each component offset by 2^31 into its own 32 bits.
spec fn chunk_id(k: Coord) -> u128 {
    ((k.0 + 0x8000_0000) * 0x1_0000_0000_0000_0000 + (k.1 + 0x8000_0000) * 0x1_0000_0000 + (k.2
        + 0x8000_0000)) as u128
}

proof fn lemma_chunk_id_injective(a: Coord, b: Coord)
    requires
        in_i32(a),
        in_i32(b),
        chunk_id(a) == chunk_id(b),
    ensures
        a == b,
{
    let m: int = 0x1_0000_0000;
    let x = ((a.0 + 0x8000_0000) * m + (a.1 + 0x8000_0000)) * m + (a.2 + 0x8000_0000);
    let y = ((b.0 + 0x8000_0000) * m + (b.1 + 0x8000_0000)) * m + (b.2 + 0x8000_0000);
    assert(chunk_id(a) == x);
    assert(chunk_id(b) == y);
    lemma_fundamental_div_mod_converse(x, m, (a.0 + 0x8000_0000) * m + (a.1 + 0x8000_0000), a.2 + 0x8000_0000);
    lemma_fundamental_div_mod_converse(y, m, (b.0 + 0x8000_0000) * m + (b.1 + 0x8000_0000), b.2 + 0x8000_0000);
    let u = (a.0 + 0x8000_0000) * m + (a.1 + 0x8000_0000);
    lemma_fundamental_div_mod_converse(u, m, a.0 + 0x8000_0000, a.1 + 0x8000_0000);
    lemma_fundamental_div_mod_converse(u, m, b.0 + 0x8000_0000, b.1 + 0x8000_0000);
}

fn chunk_id_of(k: (i32, i32, i32)) -> (id: u128)
    ensures
        id == chunk_id(coord(k.0, k.1, k.2)),
{
    let a = (k.0 as i64 + 0x8000_0000) as u128;
    let b = (k.1 as i64 + 0x8000_0000) as u128;
    let c = (k.2 as i64 + 0x8000_0000) as u128;
    a * 0x1_0000_0000_0000_0000 + b * 0x1_0000_0000 + c
}

/// Floor division by a positive divisor splits `x` into a quotient no larger
/// in magnitude than `x` and a remainder in `[0, d)`.
proof fn lemma_floor_split(x: int, d: int)
    requires
        d >= 1,
    ensures
        x == (x / d) * d + x % d,
        0 <= x % d < d,
        x >= 0 ==> 0 <= x / d <= x,
        x < 0 ==> x <= x / d < 0,
{
    lemma_fundamental_div_mod(x, d);
    let q = x / d;
    let r = x % d;
    assert(d * q == q * d) by (nonlinear_arith);
    assert(x == q * d + r);
    if x >= 0 {
        assert(0 <= q <= x) by (nonlinear_arith)
            requires
                x == q * d + r,
                0 <= r < d,
                d >= 1,
                x >= 0,
        ;
    } else {
        assert(x <= q < 0) by (nonlinear_arith)
            requires
                x == q * d + r,
                0 <= r < d,
                d >= 1,
                x < 0,
        ;
    }
}

/// The index of local position `(lx, ly, lz)` in a chunk of side `chunk_size`
/// and depth `depth`: `lx + ly·chunk_size + lz·chunk_size²`.
fn local_index(chunk_size: usize, lx: usize, ly: usize, lz: usize, depth: usize) -> (i: usize)
    requires
        chunk_size * chunk_size * depth <= usize::MAX,
        in_box((lx as int, ly as int, lz as int), chunk_size as int, chunk_size as int, depth as int),
    ensures
        i as int == box_index((lx as int, ly as int, lz as int), chunk_size as int, chunk_size as int),
        i < chunk_size * chunk_size * depth,
{
    proof {
        lemma_box_index_bound(
            (lx as int, ly as int, lz as int),
            chunk_size as int,
            chunk_size as int,
            depth as int,
        );
        assert(chunk_size * chunk_size <= chunk_size * chunk_size * depth) by (nonlinear_arith)
            requires
                depth >= 1,
        ;
    }
    lx + ly * chunk_size + lz * (chunk_size * chunk_size)
}

pub struct ChunkedCellManager {
    chunk_size: usize,
    depth: usize,
    chunks: HashMap<u128, Vec<u32>>,
    /// The keys of the allocated chunks, in order of allocation.
    keys: Vec<(i32, i32, i32)>,
}

impl View for ChunkedCellManager {
    type V = Map<Coord, u32>;

    /// The live cells: those whose chunk is allocated and holds a nonzero value for them.
    closed spec fn view(&self) -> Map<Coord, u32> {
        Map::new(
            |p: Coord| in_i32(p) && self.has_chunk(p) && self.raw(p) != 0,
            |p: Coord| self.raw(p),
        )
    }
}

impl ChunkedCellManager {
    pub closed spec fn chunk_size(&self) -> int {
        self.chunk_size as int
    }

    pub closed spec fn depth(&self) -> int {
        self.depth as int
    }

    /// The chunk that holds a coordinate: floor division of `q` and `r` by the
    /// chunk side and of `s` by the depth.
    pub open spec fn chunk_of(&self, p: Coord) -> Coord {
        (p.0 / self.chunk_size(), p.1 / self.chunk_size(), p.2 / self.depth())
    }

    /// The position of a coordinate inside its chunk: the floor remainders.
    pub open spec fn local_of(&self, p: Coord) -> Coord {
        (p.0 % self.chunk_size(), p.1 % self.chunk_size(), p.2 % self.depth())
    }

    /// The coordinate at local position `l` of chunk `k`.
    pub open spec fn world(&self, k: Coord, l: Coord) -> Coord {
        (
            k.0 * self.chunk_size() + l.0,
            k.1 * self.chunk_size() + l.1,
            k.2 * self.depth() + l.2,
        )
    }

    /// The keys of the allocated chunks, in order of allocation.
    pub closed spec fn allocated(&self) -> Seq<Coord> {
        self.keys@.map_values(|k: (i32, i32, i32)| coord(k.0, k.1, k.2))
    }

    /// The value stored at local position `l` of chunk `k`.
    pub closed spec fn stored(&self, k: Coord, l: Coord) -> u32 {
        self.slot(k, l)
    }

    proof fn lemma_allocated(&self)
        requires
            self.wf(),
        ensures
            forall|k: Coord|
                #[trigger] self.allocated().contains(k) <==> in_i32(k) && self.chunks@.contains_key(
                    chunk_id(k),
                ),
            self.allocated().len() == self.keys@.len(),
    {
        assert forall|k: Coord|
            #[trigger] self.allocated().contains(k) <==> in_i32(k) && self.chunks@.contains_key(
                chunk_id(k),
            ) by {
            if self.allocated().contains(k) {
                let i = choose|i: int| 0 <= i < self.allocated().len() && self.allocated()[i] == k;
                assert(self.key(i) == k);
                assert(self.chunks@.contains_key(chunk_id(self.key(i))));
            }
            if in_i32(k) && self.chunks@.contains_key(chunk_id(k)) {
                let i = choose|i: int| 0 <= i < self.keys@.len() && chunk_id(#[trigger] self.key(i)) == chunk_id(k);
                lemma_chunk_id_injective(self.key(i), k);
                assert(self.allocated()[i] == k);
            }
        }
    }

    spec fn key(&self, i: int) -> Coord {
        coord(self.keys@[i].0, self.keys@[i].1, self.keys@[i].2)
    }

    spec fn volume(&self) -> int {
        self.chunk_size() * self.chunk_size() * self.depth()
    }

    spec fn has_chunk(&self, p: Coord) -> bool {
        self.chunks@.contains_key(chunk_id(self.chunk_of(p)))
    }

    spec fn slot(&self, k: Coord, l: Coord) -> u32 {
        self.chunks@[chunk_id(k)]@[box_index(l, self.chunk_size(), self.chunk_size())]
    }

    spec fn raw(&self, p: Coord) -> u32 {
        self.slot(self.chunk_of(p), self.local_of(p))
    }

    pub closed spec fn wf(&self) -> bool {
        &&& chunk_dims_ok(self.chunk_size(), self.depth())
        &&& self.keys@.no_duplicates()
        &&& forall|i: int|
            0 <= i < self.keys@.len() ==> #[trigger] self.chunks@.contains_key(
                chunk_id(self.key(i)),
            ) && self.chunks@[chunk_id(self.key(i))]@.len() == self.volume()
        &&& forall|id: u128| #[trigger]
            self.chunks@.contains_key(id) ==> exists|i: int|
                0 <= i < self.keys@.len() && chunk_id(#[trigger] self.key(i)) == id
        &&& forall|i: int, l: Coord|
            0 <= i < self.keys@.len() && in_box(l, self.chunk_size(), self.chunk_size(), self.depth())
                && #[trigger] self.slot(self.key(i), l) != 0 ==> in_i32(self.world(self.key(i), l))
    }

    /// A well-formed store has a valid chunk shape and only nonzero live cells.
    pub proof fn lemma_view(&self)
        requires
            self.wf(),
        ensures
            chunk_dims_ok(self.chunk_size(), self.depth()),
            forall|p: Coord| #[trigger] self@.contains_key(p) ==> in_i32(p) && self@[p] != 0,
    {
    }

    /// A coordinate is the world position of its local position in its chunk,
    /// and both lie in range.
    proof fn lemma_split(&self, p: Coord)
        requires
            chunk_dims_ok(self.chunk_size(), self.depth()),
            in_i32(p),
        ensures
            in_i32(self.chunk_of(p)),
            in_box(self.local_of(p), self.chunk_size(), self.chunk_size(), self.depth()),
            self.world(self.chunk_of(p), self.local_of(p)) == p,
            0 <= box_index(self.local_of(p), self.chunk_size(), self.chunk_size()) < self.volume(),
    {
        lemma_floor_split(p.0, self.chunk_size());
        lemma_floor_split(p.1, self.chunk_size());
        lemma_floor_split(p.2, self.depth());
        lemma_box_index_bound(self.local_of(p), self.chunk_size(), self.chunk_size(), self.depth());
    }

    /// The local position `l` of chunk `k` lies in chunk `k` at position `l`.
    proof fn lemma_join(&self, k: Coord, l: Coord)
        requires
            chunk_dims_ok(self.chunk_size(), self.depth()),
            in_box(l, self.chunk_size(), self.chunk_size(), self.depth()),
        ensures
            self.chunk_of(self.world(k, l)) == k,
            self.local_of(self.world(k, l)) == l,
    {
        let w = self.world(k, l);
        lemma_fundamental_div_mod_converse(w.0, self.chunk_size(), k.0, l.0);
        lemma_fundamental_div_mod_converse(w.1, self.chunk_size(), k.1, l.1);
        lemma_fundamental_div_mod_converse(w.2, self.depth(), k.2, l.2);
    }

    /// The chunk key and the index inside the chunk of a coordinate.
    fn world_to_chunk_local(&self, q: i32, r: i32, s: i32) -> (res: ((i32, i32, i32), usize))
        requires
            self.wf(),
        ensures
            coord(res.0.0, res.0.1, res.0.2) == self.chunk_of(coord(q, r, s)),
            res.1 as int == box_index(
                self.local_of(coord(q, r, s)),
                self.chunk_size(),
                self.chunk_size(),
            ),
            res.1 < self.volume(),
    {
        let cs = self.chunk_size as i64;
        let d = self.depth as i64;
        proof {
            self.lemma_split(coord(q, r, s));
        }
        let cx = match (q as i64).checked_div_euclid(cs) {
            Some(v) => v,
            None => 0,
        };
        let cy = match (r as i64).checked_div_euclid(cs) {
            Some(v) => v,
            None => 0,
        };
        let cz = match (s as i64).checked_div_euclid(d) {
            Some(v) => v,
            None => 0,
        };
        let lx = match (q as i64).checked_rem_euclid(cs) {
            Some(v) => v,
            None => 0,
        };
        let ly = match (r as i64).checked_rem_euclid(cs) {
            Some(v) => v,
            None => 0,
        };
        let lz = match (s as i64).checked_rem_euclid(d) {
            Some(v) => v,
            None => 0,
        };
        let cs_u = self.chunk_size;
        proof {
            assert(cs_u * cs_u <= cs_u * cs_u * self.depth) by (nonlinear_arith)
                requires
                    self.depth >= 1,
            ;
        }
        let idx = local_index(cs_u, lx as usize, ly as usize, lz as usize, self.depth);
        ((cx as i32, cy as i32, cz as i32), idx)
    }

    /// An empty sparse store with chunks of `chunk_size × chunk_size × depth` cells.
    pub fn new(chunk_size: usize, depth: usize) -> (res: Result<ChunkedCellManager, GridError>)
        ensures
            match res {
                Ok(m) => {
                    &&& chunk_dims_ok(chunk_size as int, depth as int)
                    &&& m.wf()
                    &&& m.chunk_size() == chunk_size
                    &&& m.depth() == depth
                    &&& m@ == Map::<Coord, u32>::empty()
                    &&& m.allocated() == Seq::<Coord>::empty()
                },
                Err(e) => !chunk_dims_ok(chunk_size as int, depth as int) && e
                    == GridError::InvalidDimension,
            },
    {
        if !chunk_shape_ok(chunk_size, depth) {
            return Err(GridError::InvalidDimension);
        }
        let m = ChunkedCellManager {
            chunk_size,
            depth,
            chunks: HashMap::new(),
            keys: Vec::new(),
        };
        proof {
            assert(m@ =~= Map::<Coord, u32>::empty());
            assert(m.allocated() =~= Seq::<Coord>::empty());
        }
        Ok(m)
    }
    /// The chunk with key `(cx, cy, cz)`, if it was allocated.
    fn get_chunk(&self, cx: i32, cy: i32, cz: i32) -> (res: Option<&Vec<u32>>)
        requires
            self.wf(),
        ensures
            match res {
                Some(c) => {
                    &&& self.chunks@.contains_key(chunk_id(coord(cx, cy, cz)))
                    &&& c@ == self.chunks@[chunk_id(coord(cx, cy, cz))]@
                    &&& c@.len() == self.volume()
                },
                None => !self.chunks@.contains_key(chunk_id(coord(cx, cy, cz))),
            },
    {
        let id = chunk_id_of((cx, cy, cz));
        let res = self.chunks.get(&id);
        proof {
            if res is Some {
                let i = choose|i: int| 0 <= i < self.keys@.len() && chunk_id(#[trigger] self.key(i)) == id;
                assert(self.chunks@.contains_key(chunk_id(self.key(i))));
            }
        }
        res
    }

    /// Writes `value` at a coordinate, allocating its chunk on first access.
    pub fn set_cell(&mut self, q: i32, r: i32, s: i32, value: u32)
        requires
            old(self).wf(),
        ensures
            final(self).wf(),
            final(self).chunk_size() == old(self).chunk_size(),
            final(self).depth() == old(self).depth(),
            final(self)@ == written(old(self)@, coord(q, r, s), value),
            final(self).allocated() == if old(self).allocated().contains(
                old(self).chunk_of(coord(q, r, s)),
            ) {
                old(self).allocated()
            } else {
                old(self).allocated().push(old(self).chunk_of(coord(q, r, s)))
            },
            forall|k: Coord, l: Coord|
                #![trigger final(self).stored(k, l)]
                final(self).allocated().contains(k) && in_box(
                    l,
                    old(self).chunk_size(),
                    old(self).chunk_size(),
                    old(self).depth(),
                ) ==> final(self).stored(k, l) == if k == old(self).chunk_of(coord(q, r, s)) && l
                    == old(self).local_of(coord(q, r, s)) {
                    value
                } else if old(self).allocated().contains(k) {
                    old(self).stored(k, l)
                } else {
                    0
                },
    {
        let ghost o = *self;
        let ghost p = coord(q, r, s);
        let (key, li) = self.world_to_chunk_local(q, r, s);
        let id = chunk_id_of(key);
        proof {
            self.lemma_split(p);
            assert(self.volume() == self.chunk_size * self.chunk_size * self.depth);
            assert(self.chunk_size * self.chunk_size <= self.chunk_size * self.chunk_size
                * self.depth) by (nonlinear_arith)
                requires
                    self.depth >= 1,
            ;
        }
        let fresh = !self.chunks.contains_key(&id);
        let mut chunk = match self.chunks.remove(&id) {
            Some(c) => c,
            None => zeros(self.chunk_size * self.chunk_size * self.depth),
        };
        proof {
            if !fresh {
                let i = choose|i: int| 0 <= i < o.keys@.len() && chunk_id(#[trigger] o.key(i)) == id;
                assert(o.chunks@.contains_key(chunk_id(o.key(i))));
            }
        }
        chunk.set(li, value);
        self.chunks.insert(id, chunk);
        if fresh {
            self.keys.push(key);
        }
        proof {
            let k = self.chunk_of(p);
            let l = self.local_of(p);
            assert(chunk_id(k) == id);
            // key positions of the old store stay valid
            assert forall|i: int| 0 <= i < o.keys@.len() implies #[trigger] self.key(i) == o.key(i) by {}
            if fresh {
                assert(self.key(o.keys@.len() as int) == k);
                assert forall|i: int| 0 <= i < o.keys@.len() implies o.keys@[i] != key by {
                    assert(o.chunks@.contains_key(chunk_id(o.key(i))));
                }
                assert(self.keys@.no_duplicates());
            }
            assert forall|i: int|
                0 <= i < self.keys@.len() implies #[trigger] self.chunks@.contains_key(
                chunk_id(self.key(i)),
            ) && self.chunks@[chunk_id(self.key(i))]@.len() == self.volume() by {
                if i < o.keys@.len() {
                    assert(o.chunks@.contains_key(chunk_id(o.key(i))));
                }
            }
            assert forall|x: u128| #[trigger]
                self.chunks@.contains_key(x) implies exists|i: int|
                0 <= i < self.keys@.len() && chunk_id(#[trigger] self.key(i)) == x by {
                if x == id {
                    if fresh {
                        assert(chunk_id(self.key(o.keys@.len() as int)) == x);
                    } else {
                        let i = choose|i: int| 0 <= i < o.keys@.len() && chunk_id(#[trigger] o.key(i)) == id;
                        assert(chunk_id(self.key(i)) == x);
                    }
                } else {
                    assert(o.chunks@.contains_key(x));
                    let i = choose|i: int| 0 <= i < o.keys@.len() && chunk_id(#[trigger] o.key(i)) == x;
                    assert(chunk_id(self.key(i)) == x);
                }
            }
            // slots: only (k, l) changes
            assert forall|kk: Coord, ll: Coord|
                in_i32(kk) && in_box(ll, self.chunk_size(), self.chunk_size(), self.depth())
                    && self.chunks@.contains_key(chunk_id(kk)) && !(kk == k && ll == l) implies
                #[trigger] self.slot(kk, ll) == if o.chunks@.contains_key(chunk_id(kk)) {
                o.slot(kk, ll)
            } else {
                0
            } by {
                lemma_box_index_bound(ll, self.chunk_size(), self.chunk_size(), self.depth());
                if chunk_id(kk) == id {
                    lemma_chunk_id_injective(kk, k);
                    if box_index(ll, self.chunk_size(), self.chunk_size()) == li as int {
                        lemma_box_index_injective(ll, l, self.chunk_size(), self.chunk_size(), self.depth());
                    }
                }
            }
            assert(self.slot(k, l) == value);
            assert forall|i: int, ll: Coord|
                0 <= i < self.keys@.len() && in_box(ll, self.chunk_size(), self.chunk_size(), self.depth())
                    && #[trigger] self.slot(self.key(i), ll) != 0 implies in_i32(
                self.world(self.key(i), ll),
            ) by {
                assert(self.chunks@.contains_key(chunk_id(self.key(i))));
                if !(self.key(i) == k && ll == l) {
                    if i < o.keys@.len() {
                        assert(o.chunks@.contains_key(chunk_id(o.key(i))));
                        assert(o.slot(o.key(i), ll) != 0);
                    } else {
                        assert(self.key(i) == k);
                    }
                }
            }
            assert forall|x: Coord| in_i32(x) implies #[trigger] self.has_chunk(x) == (o.has_chunk(x) || x
                == p || self.chunk_of(x) == k) && (self.has_chunk(x) ==> self.raw(x) == if x == p {
                value
            } else if o.has_chunk(x) {
                o.raw(x)
            } else {
                0
            }) by {
                self.lemma_split(x);
                if self.chunk_of(x) == k && self.local_of(x) == l {
                    assert(x == p);
                }
                if chunk_id(self.chunk_of(x)) == id {
                    lemma_chunk_id_injective(self.chunk_of(x), k);
                }
            }
            let target = written(o@, p, value);
            assert forall|x: Coord| #[trigger] self@.contains_key(x) <==> target.contains_key(x) by {
                if in_i32(x) {
                    assert(self.has_chunk(x) == (o.has_chunk(x) || x == p || self.chunk_of(x) == k));
                }
            }
            assert forall|x: Coord| #[trigger] self@.contains_key(x) implies self@[x] == target[x] by {
                assert(self.has_chunk(x) == (o.has_chunk(x) || x == p || self.chunk_of(x) == k));
            }
            assert(self@ =~= target);
            o.lemma_allocated();
            self.lemma_allocated();
            assert(self.allocated() =~= if fresh { o.allocated().push(k) } else { o.allocated() });
            assert(fresh == !o.allocated().contains(k));
        }
    }

    /// The value at a coordinate; 0 where its chunk was never allocated.
    pub fn get_cell(&self, q: i32, r: i32, s: i32) -> (v: u32)
        requires
            self.wf(),
        ensures
            v == value_at(self@, coord(q, r, s)),
    {
        let (key, li) = self.world_to_chunk_local(q, r, s);
        proof {
            self.lemma_split(coord(q, r, s));
        }
        match self.get_chunk(key.0, key.1, key.2) {
            Some(c) => c[li],
            None => 0,
        }
    }

    /// Drops every chunk.
    pub fn clear(&mut self)
        requires
            old(self).wf(),
        ensures
            final(self).wf(),
            final(self).chunk_size() == old(self).chunk_size(),
            final(self).depth() == old(self).depth(),
            final(self)@ == Map::<Coord, u32>::empty(),
            final(self).allocated() == Seq::<Coord>::empty(),
    {
        self.chunks.clear();
        self.keys.clear();
        proof {
            assert(self@ =~= Map::<Coord, u32>::empty());
            assert(self.allocated() =~= Seq::<Coord>::empty());
        }
    }
    /// The live cells of chunk `k`.
    spec fn chunk_view(&self, k: Coord) -> Map<Coord, u32> {
        Map::new(|p: Coord| self@.contains_key(p) && self.chunk_of(p) == k, |p: Coord| self@[p])
    }

    /// The live cells of the first `n` chunks in order of allocation.
    spec fn first_chunks_view(&self, n: int) -> Map<Coord, u32> {
        Map::new(
            |p: Coord|
                self@.contains_key(p) && exists|j: int|
                    0 <= j < n && #[trigger] self.key(j) == self.chunk_of(p),
            |p: Coord| self@[p],
        )
    }

    /// Lists the live cells of the `i`-th chunk in local layer-major order.
    fn chunk_cells(&self, i: usize) -> (part: Vec<i32>)
        requires
            self.wf(),
            i < self.keys@.len(),
        ensures
            lists_cells(part@, self.chunk_view(self.key(i as int))),
            forall|j1: int, j2: int|
                0 <= j1 < j2 < quad_count(part@) ==> before(
                    self.local_of(quad_coord(part@, j1)),
                    self.local_of(quad_coord(part@, j2)),
                ),
    {
        let key = self.keys[i];
        let ghost k = self.key(i as int);
        let id = chunk_id_of(key);
        proof {
            assert(self.chunks@.contains_key(chunk_id(k)));
        }
        let chunk = match self.chunks.get(&id) {
            Some(c) => c,
            None => {
                return Vec::new();
            },
        };
        let cs = self.chunk_size;
        let d = self.depth;
        let ghost (csi, di) = (cs as int, d as int);
        let mut out: Vec<i32> = Vec::new();
        let mut a: usize = 0;
        let mut b: usize = 0;
        let mut c: usize = 0;
        let mut idx: usize = 0;
        proof {
            assert(box_index((0int, 0int, 0int), csi, csi) == 0) by (nonlinear_arith);
        }
        while c < d
            invariant
                self.wf(),
                i < self.keys@.len(),
                key == self.keys@[i as int],
                k == self.key(i as int),
                chunk@ == self.chunks@[chunk_id(k)]@,
                chunk@.len() == self.volume(),
                cs == self.chunk_size,
                d == self.depth,
                csi == cs as int,
                di == d as int,
                in_box((a as int, b as int, c as int), csi, csi, di) || (a == 0 && b == 0 && c
                    == d),
                idx == box_index((a as int, b as int, c as int), csi, csi),
                out@.len() % 4 == 0,
                forall|j: int|
                    #![trigger quad_coord(out@, j)]
                    0 <= j < quad_count(out@) ==> {
                        let p = quad_coord(out@, j);
                        &&& self.chunk_view(k).contains_key(p)
                        &&& before(self.local_of(p), (a as int, b as int, c as int))
                        &&& out@[4 * j + 3] == self@[p] as i32
                    },
                forall|p: Coord|
                    #[trigger] self.chunk_view(k).contains_key(p) && before(
                        self.local_of(p),
                        (a as int, b as int, c as int),
                    ) ==> exists|j: int|
                        0 <= j < quad_count(out@) && #[trigger] quad_coord(out@, j) == p,
                forall|j1: int, j2: int|
                    0 <= j1 < j2 < quad_count(out@) ==> before(
                        self.local_of(quad_coord(out@, j1)),
                        self.local_of(quad_coord(out@, j2)),
                    ),
            decreases di - c, csi - b, csi - a,
        {
            let ghost pos = (a as int, b as int, c as int);
            proof {
                lemma_box_index_bound(pos, csi, csi, di);
                lemma_box_next(pos, csi, csi, di);
                self.lemma_join(k, pos);
            }
            let val = chunk[idx];
            let ghost old_out = out@;
            let ghost wp = self.world(k, pos);
            if val != 0 {
                proof {
                    assert(self.slot(k, pos) == val);
                    assert(in_i32(wp));
                }
                let x = (key.0 as i64 * cs as i64 + a as i64) as i32;
                let y = (key.1 as i64 * cs as i64 + b as i64) as i32;
                let z = (key.2 as i64 * d as i64 + c as i64) as i32;
                out.push(x);
                out.push(y);
                out.push(z);
                out.push(val as i32);
                proof {
                    assert forall|j: int| 0 <= j < quad_count(old_out) implies quad_coord(out@, j)
                        == #[trigger] quad_coord(old_out, j) && out@[4 * j + 3] == old_out[4 * j
                        + 3] by {}
                    assert(quad_coord(out@, quad_count(old_out)) == wp);
                    assert(quad_count(out@) == quad_count(old_out) + 1);
                    assert(out@[4 * quad_count(old_out) + 3] == val as i32);
                    assert(self.chunk_view(k).contains_key(wp));
                }
            }
            if a + 1 < cs {
                a = a + 1;
            } else if b + 1 < cs {
                a = 0;
                b = b + 1;
            } else {
                a = 0;
                b = 0;
                c = c + 1;
            }
            idx = idx + 1;
            proof {
                let next = (a as int, b as int, c as int);
                assert(next == box_next(pos, csi, csi));
                assert forall|j: int|
                    #![trigger quad_coord(out@, j)]
                    0 <= j < quad_count(out@) implies {
                    let p = quad_coord(out@, j);
                    &&& self.chunk_view(k).contains_key(p)
                    &&& before(self.local_of(p), next)
                    &&& out@[4 * j + 3] == self@[p] as i32
                } by {
                    if j < quad_count(old_out) {
                        assert(before(self.local_of(quad_coord(old_out, j)), pos));
                    }
                }
                assert forall|p: Coord|
                    #[trigger] self.chunk_view(k).contains_key(p) && before(
                        self.local_of(p),
                        next,
                    ) implies exists|j: int|
                    0 <= j < quad_count(out@) && #[trigger] quad_coord(out@, j) == p by {
                    self.lemma_split(p);
                    if self.local_of(p) == pos {
                        assert(p == wp);
                        assert(quad_coord(out@, quad_count(old_out)) == wp);
                    } else {
                        assert(before(self.local_of(p), pos));
                        let j = choose|j: int|
                            0 <= j < quad_count(old_out) && #[trigger] quad_coord(old_out, j) == p;
                        assert(quad_coord(out@, j) == p);
                    }
                }
                assert forall|j1: int, j2: int|
                    0 <= j1 < j2 < quad_count(out@) implies before(
                    self.local_of(quad_coord(out@, j1)),
                    self.local_of(quad_coord(out@, j2)),
                ) by {
                    if j2 == quad_count(old_out) {
                        assert(before(self.local_of(quad_coord(old_out, j1)), pos));
                    } else {
                        assert(before(
                            self.local_of(quad_coord(old_out, j1)),
                            self.local_of(quad_coord(old_out, j2)),
                        ));
                    }
                }
            }
        }
        proof {
            lemma_box_end(csi, csi, di);
            let m = self.chunk_view(k);
            assert forall|p: Coord| #[trigger] m.contains_key(p) implies exists|j: int|
                0 <= j < quad_count(out@) && #[trigger] quad_coord(out@, j) == p by {
                self.lemma_split(p);
                assert(before(self.local_of(p), (0int, 0int, di)));
            }
            assert forall|j: int, j2: int|
                0 <= j < j2 < quad_count(out@) implies quad_coord(out@, j) != quad_coord(out@, j2) by {
                assert(before(self.local_of(quad_coord(out@, j)), self.local_of(quad_coord(out@, j2))));
            }
            assert forall|j: int| 0 <= j < quad_count(out@) implies m.contains_key(
                #[trigger] quad_coord(out@, j),
            ) && out@[4 * j + 3] == m[quad_coord(out@, j)] as i32 by {}
        }
        out
    }

    /// The listing keeps the cells of each chunk together, and lists the
    /// cells of one chunk in local layer-major order (by `lz`, then `ly`, then `lx`).
    pub open spec fn grouped_by_chunk(&self, out: Seq<i32>) -> bool {
        &&& forall|a: int, b: int, c: int|
            #![trigger quad_coord(out, a), quad_coord(out, b), quad_coord(out, c)]
            0 <= a < b < c < quad_count(out) && self.chunk_of(quad_coord(out, a)) == self.chunk_of(
                quad_coord(out, c),
            ) ==> self.chunk_of(quad_coord(out, b)) == self.chunk_of(quad_coord(out, a))
        &&& forall|a: int, b: int|
            #![trigger quad_coord(out, a), quad_coord(out, b)]
            0 <= a < b < quad_count(out) && self.chunk_of(quad_coord(out, a)) == self.chunk_of(
                quad_coord(out, b),
            ) ==> before(self.local_of(quad_coord(out, a)), self.local_of(quad_coord(out, b)))
    }

    proof fn lemma_group_append(&self, out: Seq<i32>, part: Seq<i32>, i: int)
        requires
            self.wf(),
            0 <= i < self.keys@.len(),
            lists_cells(out, self.first_chunks_view(i)),
            self.grouped_by_chunk(out),
            lists_cells(part, self.chunk_view(self.key(i))),
            forall|j1: int, j2: int|
                0 <= j1 < j2 < quad_count(part) ==> before(
                    self.local_of(quad_coord(part, j1)),
                    self.local_of(quad_coord(part, j2)),
                ),
        ensures
            self.grouped_by_chunk(out + part),
    {
        let o = out + part;
        let n1 = quad_count(out);
        let n2 = quad_count(part);
        let k = self.key(i);
        assert(quad_count(o) == n1 + n2);
        assert forall|x: int| 0 <= x < n1 implies #[trigger] quad_coord(o, x) == quad_coord(out, x)
            && self.chunk_of(quad_coord(out, x)) != k by {
            let p = quad_coord(out, x);
            assert(self.first_chunks_view(i).contains_key(p));
            let j = choose|j: int| 0 <= j < i && #[trigger] self.key(j) == self.chunk_of(p);
            assert(self.keys@[j] != self.keys@[i]);
        }
        assert forall|x: int| n1 <= x < n1 + n2 implies #[trigger] quad_coord(o, x) == quad_coord(
            part,
            x - n1,
        ) && self.chunk_of(quad_coord(part, x - n1)) == k by {
            assert(self.chunk_view(k).contains_key(quad_coord(part, x - n1)));
        }
        assert forall|a: int, b: int, c: int|
            #![trigger quad_coord(o, a), quad_coord(o, b), quad_coord(o, c)]
            0 <= a < b < c < quad_count(o) && self.chunk_of(quad_coord(o, a)) == self.chunk_of(
                quad_coord(o, c),
            ) implies self.chunk_of(quad_coord(o, b)) == self.chunk_of(quad_coord(o, a)) by {
            if c < n1 {
                assert(quad_coord(o, a) == quad_coord(out, a));
                assert(quad_coord(o, b) == quad_coord(out, b));
                assert(quad_coord(o, c) == quad_coord(out, c));
            } else {
                assert(quad_coord(o, c) == quad_coord(part, c - n1));
                if a < n1 {
                    assert(quad_coord(o, a) == quad_coord(out, a));
                } else {
                    assert(quad_coord(o, a) == quad_coord(part, a - n1));
                    assert(quad_coord(o, b) == quad_coord(part, b - n1));
                }
            }
        }
        assert forall|a: int, b: int|
            #![trigger quad_coord(o, a), quad_coord(o, b)]
            0 <= a < b < quad_count(o) && self.chunk_of(quad_coord(o, a)) == self.chunk_of(
                quad_coord(o, b),
            ) implies before(self.local_of(quad_coord(o, a)), self.local_of(quad_coord(o, b))) by {
            if b < n1 {
                assert(quad_coord(o, a) == quad_coord(out, a));
                assert(quad_coord(o, b) == quad_coord(out, b));
            } else if a >= n1 {
                assert(quad_coord(o, a) == quad_coord(part, a - n1));
                assert(quad_coord(o, b) == quad_coord(part, b - n1));
            } else {
                assert(quad_coord(o, a) == quad_coord(out, a));
                assert(quad_coord(o, b) == quad_coord(part, b - n1));
            }
        }
    }

    /// The live cells as `[q, r, s, value, ...]`: chunk by chunk in order of
    /// allocation, and inside a chunk in local layer-major order.
    pub fn for_each_cell(&self) -> (out: Vec<i32>)
        requires
            self.wf(),
        ensures
            lists_cells(out@, self@),
            self.grouped_by_chunk(out@),
    {
        let n = self.keys.len();
        let mut out: Vec<i32> = Vec::new();
        let mut i: usize = 0;
        proof {
            assert(self.first_chunks_view(0) =~= Map::<Coord, u32>::empty());
        }
        while i < n
            invariant
                self.wf(),
                n == self.keys@.len(),
                i <= n,
                lists_cells(out@, self.first_chunks_view(i as int)),
                self.grouped_by_chunk(out@),
            decreases n - i,
        {
            let mut part = self.chunk_cells(i);
            proof {
                self.lemma_group_append(out@, part@, i as int);
                let a = self.first_chunks_view(i as int);
                let b = self.chunk_view(self.key(i as int));
                assert(a.dom().disjoint(b.dom())) by {
                    assert forall|p: Coord| a.contains_key(p) implies !b.contains_key(p) by {
                        let j = choose|j: int| 0 <= j < i && #[trigger] self.key(j) == self.chunk_of(p);
                        assert(self.keys@[j] != self.keys@[i as int]);
                    }
                }
                lemma_lists_append(out@, a, part@, b);
                assert forall|p: Coord| #[trigger] self.first_chunks_view(i + 1).contains_key(p) <==> a.union_prefer_right(b).contains_key(p) by {
                    if self.first_chunks_view(i + 1).contains_key(p) && !b.contains_key(p) {
                        let j = choose|j: int| 0 <= j < i + 1 && #[trigger] self.key(j) == self.chunk_of(p);
                        assert(j < i);
                    }
                    if b.contains_key(p) {
                        assert(self.key(i as int) == self.chunk_of(p));
                    }
                }
                assert(self.first_chunks_view(i + 1) =~= a.union_prefer_right(b));
            }
            out.append(&mut part);
            i = i + 1;
        }
        proof {
            assert forall|p: Coord| #[trigger] self@.contains_key(p) implies self.first_chunks_view(n as int).contains_key(p) by {
                self.lemma_split(p);
                let id = chunk_id(self.chunk_of(p));
                let j = choose|j: int| 0 <= j < self.keys@.len() && chunk_id(#[trigger] self.key(j)) == id;
                lemma_chunk_id_injective(self.key(j), self.chunk_of(p));
            }
            assert(self.first_chunks_view(n as int) =~= self@);
        }
        out
    }
    /// Changes the chunk depth to `new_depth`. Width and height need nothing:
    /// this store is unbounded in `q` and `r`. Allocated chunks are rebuilt at
    /// the new depth, so every live cell keeps its coordinate and value. An
    /// invalid depth leaves the store unchanged.
    pub fn resize(&mut self, _new_width: usize, _new_height: usize, new_depth: usize) -> (res: Result<
        (),
        GridError,
    >)
        requires
            old(self).wf(),
        ensures
            final(self).wf(),
            final(self).chunk_size() == old(self).chunk_size(),
            match res {
                Ok(()) => {
                    &&& chunk_dims_ok(old(self).chunk_size(), new_depth as int)
                    &&& final(self).depth() == new_depth
                    &&& final(self)@ == old(self)@
                },
                Err(e) => {
                    &&& !chunk_dims_ok(old(self).chunk_size(), new_depth as int)
                    &&& e == GridError::InvalidDimension
                    &&& *final(self) == *old(self)
                },
            },
    {
        if new_depth == self.depth {
            return Ok(());
        }
        let mut fresh = match ChunkedCellManager::new(self.chunk_size, new_depth) {
            Ok(m) => m,
            Err(e) => {
                return Err(e);
            },
        };
        let cells = self.for_each_cell();
        let clen = cells.len();
        let n = clen / 4;
        let mut j: usize = 0;
        let mut base: usize = 0;
        proof {
            assert(replayed(cells@, 0, everywhere()) == Map::<Coord, u32>::empty());
        }
        while j < n
            invariant
                fresh.wf(),
                fresh.chunk_size() == self.chunk_size(),
                fresh.depth() == new_depth,
                n == quad_count(cells@),
                cells@.len() == 4 * n,
                clen == cells@.len(),
                j <= n,
                base == 4 * j,
                fresh@ == replayed(cells@, j as int, everywhere()),
            decreases n - j,
        {
            let q = cells[base];
            let r = cells[base + 1];
            let s = cells[base + 2];
            let v = cells[base + 3];
            fresh.set_cell(q, r, s, #[verifier::truncate] (v as u32));
            proof {
                assert(quad_coord(cells@, j as int) == coord(q, r, s));
            }
            j = j + 1;
            base = base + 4;
        }
        proof {
            lemma_replayed_listing(cells@, self@, everywhere());
            assert(kept(self@, everywhere()) =~= self@);
        }
        *self = fresh;
        Ok(())
    }
}

} // verus!
