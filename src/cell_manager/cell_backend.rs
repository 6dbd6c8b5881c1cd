//! The active store of a grid: dense or sparse.
use vstd::prelude::*;
use super::cell_map::{Coord, coord, value_at, written, lists_cells, in_layer_order};
use super::flat_cells::FlatCellManager;
use super::chunk_cells::{ChunkedCellManager, in_i32};

verus! {

pub enum CellBackend {
    Flat(FlatCellManager),
    Chunked(ChunkedCellManager),
}

impl View for CellBackend {
    type V = Map<Coord, u32>;

    open spec fn view(&self) -> Map<Coord, u32> {
        match self {
            CellBackend::Flat(f) => f@,
            CellBackend::Chunked(c) => c@,
        }
    }
}

impl CellBackend {
    pub open spec fn is_flat(&self) -> bool {
        self is Flat
    }

    /// The store's shape: the dense window's width, height and depth, or the
    /// sparse chunk side (twice) and depth.
    pub open spec fn dims(&self) -> (int, int, int) {
        match self {
            CellBackend::Flat(f) => (f.width(), f.height(), f.depth()),
            CellBackend::Chunked(c) => (c.chunk_size(), c.chunk_size(), c.depth()),
        }
    }

    pub open spec fn wf(&self) -> bool {
        match self {
            CellBackend::Flat(f) => f.wf(),
            CellBackend::Chunked(c) => c.wf(),
        }
    }

    /// The coordinates that the store can hold: the dense window, or every
    /// `i32` coordinate for the sparse store.
    pub open spec fn in_window(&self, p: Coord) -> bool {
        match self {
            CellBackend::Flat(f) => f.in_window(p),
            CellBackend::Chunked(c) => in_i32(p),
        }
    }

    /// Live cells are nonzero and lie in the window.
    pub proof fn lemma_view(&self)
        requires
            self.wf(),
        ensures
            forall|p: Coord| #[trigger]
                self@.contains_key(p) ==> self.in_window(p) && self@[p] != 0,
    {
        match self {
            CellBackend::Flat(f) => f.lemma_view(),
            CellBackend::Chunked(c) => c.lemma_view(),
        }
    }

    pub fn set_cell(&mut self, q: i32, r: i32, s: i32, value: u32)
        requires
            old(self).wf(),
        ensures
            final(self).wf(),
            forall|p: Coord| final(self).in_window(p) == old(self).in_window(p),
            final(self).is_flat() == old(self).is_flat(),
            final(self).dims() == old(self).dims(),
            final(self)@ == if old(self).in_window(coord(q, r, s)) {
                written(old(self)@, coord(q, r, s), value)
            } else {
                old(self)@
            },
    {
        match self {
            CellBackend::Flat(fm) => fm.set_cell(q, r, s, value),
            CellBackend::Chunked(cm) => cm.set_cell(q, r, s, value),
        }
    }

    pub fn get_cell(&self, q: i32, r: i32, s: i32) -> (v: u32)
        requires
            self.wf(),
        ensures
            v == value_at(self@, coord(q, r, s)),
    {
        match self {
            CellBackend::Flat(fm) => fm.get_cell(q, r, s),
            CellBackend::Chunked(cm) => cm.get_cell(q, r, s),
        }
    }

    pub fn clear(&mut self)
        requires
            old(self).wf(),
        ensures
            final(self).wf(),
            forall|p: Coord| final(self).in_window(p) == old(self).in_window(p),
            final(self).is_flat() == old(self).is_flat(),
            final(self).dims() == old(self).dims(),
            final(self)@ == Map::<Coord, u32>::empty(),
    {
        match self {
            CellBackend::Flat(fm) => fm.clear(),
            CellBackend::Chunked(cm) => cm.clear(),
        }
    }

    /// The live cells as `[q, r, s, value, ...]`; the dense store lists them
    /// in layer-major order.
    pub fn for_each_cell(&self) -> (out: Vec<i32>)
        requires
            self.wf(),
        ensures
            lists_cells(out@, self@),
            self.is_flat() ==> in_layer_order(out@),
            match self {
                CellBackend::Chunked(c) => c.grouped_by_chunk(out@),
                CellBackend::Flat(_) => true,
            },
    {
        match self {
            CellBackend::Flat(fm) => fm.for_each_cell(),
            CellBackend::Chunked(cm) => cm.for_each_cell(),
        }
    }
}

} // verus!
