//! The laws that relate the grid's operations, stated over the contracts
//! of those operations and proved from them.
use vstd::prelude::*;
use super::cell_map::{Coord, coord, value_at, written, lists_cells, quad_count, quad_coord, kept};
use super::chunk_cells::in_i32;
use super::neighbourhood::placed;
use super::cellmanager::{
    CellManager, batched, resized, is_sparse_dims, grid_window, sum_at,
};

verus! {

/// A write followed by a read of the same coordinate returns the written
/// value inside the window, and 0 outside it, where the write was dropped.
pub proof fn law_set_then_get(before: CellManager, after: CellManager, q: i32, r: i32, s: i32, v: u32)
    requires
        before.wf(),
        after@ == if before.in_window(coord(q, r, s)) {
            written(before@, coord(q, r, s), v)
        } else {
            before@
        },
    ensures
        value_at(after@, coord(q, r, s)) == if before.in_window(coord(q, r, s)) {
            v
        } else {
            0
        },
{
    before.lemma_view();
}

/// After `clear`, the listing of the live cells is empty.
pub proof fn law_clear_lists_nothing(g: CellManager, out: Seq<i32>)
    requires
        g@ == Map::<Coord, u32>::empty(),
        lists_cells(out, g@),
    ensures
        out.len() == 0,
{
    if out.len() > 0 {
        assert(quad_count(out) >= 1);
        assert(g@.contains_key(quad_coord(out, 0)));
    }
}

/// The live cells that writes with distinct coordinates create in an empty grid.
pub open spec fn written_cells(writes: Seq<(i32, i32, i32, u32)>, n: int) -> Map<Coord, u32> {
    Map::new(
        |c: Coord| exists|i: int| 0 <= i < n && #[trigger] coord(writes[i].0, writes[i].1, writes[i].2) == c,
        |c: Coord| {
            let i = choose|i: int| 0 <= i < n && #[trigger] coord(writes[i].0, writes[i].1, writes[i].2) == c;
            writes[i].3
        },
    )
}

/// The writes have distinct coordinates, nonzero values, and lie in the window `win`.
pub open spec fn distinct_live_writes(writes: Seq<(i32, i32, i32, u32)>, win: spec_fn(Coord) -> bool) -> bool {
    &&& forall|i: int| 0 <= i < writes.len() ==> #[trigger] writes[i].3 != 0 && win(coord(writes[i].0, writes[i].1, writes[i].2))
    &&& forall|i: int, j: int|
        0 <= i < j < writes.len() ==> coord(writes[i].0, writes[i].1, writes[i].2) != coord(
            writes[j].0,
            writes[j].1,
            writes[j].2,
        )
}

proof fn lemma_batched_distinct(writes: Seq<(i32, i32, i32, u32)>, win: spec_fn(Coord) -> bool, n: int)
    requires
        distinct_live_writes(writes, win),
        0 <= n <= writes.len(),
    ensures
        batched(Map::empty(), win, writes.take(n), None) == written_cells(writes, n),
    decreases n,
{
    if n == 0 {
        assert(batched(Map::empty(), win, writes.take(0), None) =~= written_cells(writes, 0));
    } else {
        lemma_batched_distinct(writes, win, n - 1);
        assert(writes.take(n).drop_last() =~= writes.take(n - 1));
        let e = writes[n - 1];
        let c = coord(e.0, e.1, e.2);
        let prev = written_cells(writes, n - 1);
        let next = written_cells(writes, n);
        assert(batched(Map::empty(), win, writes.take(n), None) == prev.insert(c, e.3));
        assert forall|x: Coord| #[trigger] next.contains_key(x) <==> prev.insert(c, e.3).contains_key(x) by {
            if next.contains_key(x) {
                let i = choose|i: int| 0 <= i < n && #[trigger] coord(writes[i].0, writes[i].1, writes[i].2) == x;
                if i < n - 1 {
                    assert(prev.contains_key(x));
                }
            }
            if prev.contains_key(x) {
                let i = choose|i: int| 0 <= i < n - 1 && #[trigger] coord(writes[i].0, writes[i].1, writes[i].2) == x;
                assert(0 <= i < n);
            }
            if x == c {
                assert(coord(writes[n - 1].0, writes[n - 1].1, writes[n - 1].2) == x);
            }
        }
        assert forall|x: Coord| #[trigger] next.contains_key(x) implies next[x] == prev.insert(c, e.3)[x] by {
            let i = choose|i: int| 0 <= i < n && #[trigger] coord(writes[i].0, writes[i].1, writes[i].2) == x;
            if x == c {
                assert(i == n - 1);
            } else {
                assert(i < n - 1);
                let i2 = choose|i2: int| 0 <= i2 < n - 1 && #[trigger] coord(writes[i2].0, writes[i2].1, writes[i2].2) == x;
                assert(i2 == i);
            }
        }
        assert(next =~= prev.insert(c, e.3));
    }
}

proof fn lemma_written_cells_values(writes: Seq<(i32, i32, i32, u32)>, win: spec_fn(Coord) -> bool)
    requires
        distinct_live_writes(writes, win),
    ensures
        forall|i: int|
            #![trigger writes[i]]
            0 <= i < writes.len() ==> written_cells(writes, writes.len() as int).contains_key(
                coord(writes[i].0, writes[i].1, writes[i].2),
            ) && written_cells(writes, writes.len() as int)[coord(
                writes[i].0,
                writes[i].1,
                writes[i].2,
            )] == writes[i].3,
{
    let n = writes.len() as int;
    let m = written_cells(writes, n);
    assert forall|i: int| #![trigger writes[i]] 0 <= i < n implies m.contains_key(
        coord(writes[i].0, writes[i].1, writes[i].2),
    ) && m[coord(writes[i].0, writes[i].1, writes[i].2)] == writes[i].3 by {
        let c = coord(writes[i].0, writes[i].1, writes[i].2);
        assert(coord(writes[i].0, writes[i].1, writes[i].2) == c);
        let i2 = choose|i2: int| 0 <= i2 < n && #[trigger] coord(writes[i2].0, writes[i2].1, writes[i2].2) == c;
        assert(i2 == i);
    }
}

proof fn lemma_listing_count(out: Seq<i32>, m: Map<Coord, u32>, writes: Seq<(i32, i32, i32, u32)>, win: spec_fn(Coord) -> bool)
    requires
        distinct_live_writes(writes, win),
        m == written_cells(writes, writes.len() as int),
        lists_cells(out, m),
    ensures
        quad_count(out) == writes.len(),
{
    let n = writes.len() as int;
    lemma_written_cells_values(writes, win);
    let qs = Seq::new(quad_count(out) as nat, |k: int| quad_coord(out, k));
    let ws = writes.map_values(|e: (i32, i32, i32, u32)| coord(e.0, e.1, e.2));
    assert(qs.no_duplicates());
    assert(ws.no_duplicates()) by {
        assert forall|i: int, j: int| 0 <= i < ws.len() && 0 <= j < ws.len() && i != j implies ws[i] != ws[j] by {
            if i < j {
            } else {
            }
        }
    }
    assert forall|c: Coord| qs.to_set().contains(c) implies ws.to_set().contains(c) by {
        let k = choose|k: int| 0 <= k < qs.len() && qs[k] == c;
        assert(m.contains_key(quad_coord(out, k)));
        let i = choose|i: int| 0 <= i < n && #[trigger] coord(writes[i].0, writes[i].1, writes[i].2) == c;
        assert(ws[i] == c);
    }
    assert forall|c: Coord| ws.to_set().contains(c) implies qs.to_set().contains(c) by {
        let i = choose|i: int| 0 <= i < ws.len() && ws[i] == c;
        assert(writes[i] == writes[i]);
        assert(m.contains_key(c));
        let k = choose|k: int| 0 <= k < quad_count(out) && #[trigger] quad_coord(out, k) == c;
        assert(qs[k] == c);
    }
    assert(qs.to_set() =~= ws.to_set());
    qs.unique_seq_to_set();
    ws.unique_seq_to_set();
}

/// Writing live values at distinct coordinates of the window of an empty
/// grid, then listing the live cells, gives back exactly those writes: one
/// group `[q, r, s, value]` for each write, in some order.
pub proof fn law_round_trip(
    empty: CellManager,
    writes: Seq<(i32, i32, i32, u32)>,
    g: CellManager,
    out: Seq<i32>,
)
    requires
        empty.wf(),
        empty@ == Map::<Coord, u32>::empty(),
        distinct_live_writes(writes, |p: Coord| empty.in_window(p)),
        g@ == batched(empty@, |p: Coord| empty.in_window(p), writes, None),
        lists_cells(out, g@),
    ensures
        quad_count(out) == writes.len(),
        forall|k: int|
            #![trigger quad_coord(out, k)]
            0 <= k < quad_count(out) ==> exists|i: int|
                0 <= i < writes.len() && #[trigger] coord(writes[i].0, writes[i].1, writes[i].2)
                    == quad_coord(out, k) && out[4 * k + 3] == writes[i].3 as i32,
        forall|i: int|
            #![trigger writes[i]]
            0 <= i < writes.len() ==> exists|k: int|
                0 <= k < quad_count(out) && #[trigger] quad_coord(out, k) == coord(
                    writes[i].0,
                    writes[i].1,
                    writes[i].2,
                ) && out[4 * k + 3] == writes[i].3 as i32,
{
    let win = |p: Coord| empty.in_window(p);
    let n = writes.len() as int;
    lemma_batched_distinct(writes, win, n);
    assert(writes.take(n) =~= writes);
    let m = written_cells(writes, n);
    assert(g@ == m);
    lemma_written_cells_values(writes, win);
    assert forall|k: int| #![trigger quad_coord(out, k)] 0 <= k < quad_count(out) implies exists|i: int|
        0 <= i < writes.len() && #[trigger] coord(writes[i].0, writes[i].1, writes[i].2)
            == quad_coord(out, k) && out[4 * k + 3] == writes[i].3 as i32 by {
        let c = quad_coord(out, k);
        assert(m.contains_key(c));
        let i = choose|i: int| 0 <= i < n && #[trigger] coord(writes[i].0, writes[i].1, writes[i].2) == c;
        assert(writes[i] == writes[i]);
    }
    assert forall|i: int| #![trigger writes[i]] 0 <= i < writes.len() implies exists|k: int|
        0 <= k < quad_count(out) && #[trigger] quad_coord(out, k) == coord(writes[i].0, writes[i].1, writes[i].2)
            && out[4 * k + 3] == writes[i].3 as i32 by {
        let c = coord(writes[i].0, writes[i].1, writes[i].2);
        assert(m.contains_key(c));
        let k = choose|k: int| 0 <= k < quad_count(out) && #[trigger] quad_coord(out, k) == c;
    }
    lemma_listing_count(out, m, writes, win);
}

/// A dense grid that is resized across the threshold and back to its own
/// dimensions holds the same live cells as before: the switch to the sparse
/// store and back moves every cell by coordinate.
pub proof fn law_switch_round_trip(
    g0: CellManager,
    g1: CellManager,
    g2: CellManager,
    w: usize,
    h: usize,
    d: usize,
)
    requires
        g0.wf(),
        !g0.is_sparse(),
        is_sparse_dims(w as int, h as int),
        g1@ == resized(
            g0@,
            g0.cfg().width as int,
            g0.cfg().height as int,
            g0.cfg().depth as int,
            w as int,
            h as int,
            d as int,
        ),
        g2@ == resized(
            g1@,
            w as int,
            h as int,
            d as int,
            g0.cfg().width as int,
            g0.cfg().height as int,
            g0.cfg().depth as int,
        ),
    ensures
        g2@ == g0@,
{
    g0.lemma_view();
    let (w0, h0, d0) = (g0.cfg().width as int, g0.cfg().height as int, g0.cfg().depth as int);
    assert(!is_sparse_dims(w0, h0));
    assert forall|p: Coord| #[trigger] g0@.contains_key(p) implies grid_window(w0, h0, d0)(p)
        && in_i32(p) by {
        assert(g0.in_window(p));
    }
    assert(g1@ == kept(g0@, grid_window(w as int, h as int, d as int)));
    assert forall|p: Coord| #[trigger] g1@.contains_key(p) <==> g0@.contains_key(p) by {
        if g0@.contains_key(p) {
            assert(grid_window(w as int, h as int, d as int)(p));
        }
    }
    assert(g1@ =~= g0@);
    assert(g2@ == kept(g1@, grid_window(w0, h0, d0)));
    assert(g2@ =~= g0@);
}

/// The neighbour sum of a cell is the sum of the values read at exactly the
/// coordinates that `get_neighbors` gives for it, modulo 2^32; when that sum
/// fits in a `u32` it is the sum itself.
pub proof fn law_count_is_neighbor_sum(g: CellManager, q: i32, r: i32, s: i32, coords: Seq<i32>, n: u32)
    requires
        g.wf(),
        coords == placed((q, r, s), g.layer_offsets(s as int)),
        n as int == sum_at(g@, placed((q, r, s), g.layer_offsets(s as int))) % 0x1_0000_0000,
    ensures
        n as int == sum_at(g@, coords) % 0x1_0000_0000,
        0 <= sum_at(g@, coords) < 0x1_0000_0000 ==> n as int == sum_at(g@, coords),
{
}

} // verus!
