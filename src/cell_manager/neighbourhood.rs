//! Neighbourhood topologies: for a shape, a variant and a range, one or more
//! layer tables of offsets; a cell's neighbours are its coordinate plus each
//! offset of the table that its layer selects.
use vstd::prelude::*;

verus! {

/// An offset, or a coordinate, as three machine integers.
pub type Offset = (i32, i32, i32);

/// An offset as mathematical integers.
pub type Delta = (int, int, int);

/// The offsets of a table as mathematical integers.
pub open spec fn ints(v: Seq<Offset>) -> Seq<Delta> {
    v.map_values(|o: Offset| (o.0 as int, o.1 as int, o.2 as int))
}

/// Layer tables as mathematical integers.
pub open spec fn tables_ints(v: Seq<Vec<Offset>>) -> Seq<Seq<Delta>> {
    v.map_values(|t: Vec<Offset>| ints(t@))
}

/// The largest range that a topology accepts: doubled offsets still fit in an `i32`.
pub const MAX_RANGE: i32 = 0x3fff_ffff;

/// The tiling families.
#[derive(Debug, Clone, Copy, PartialEq, Eq, Structural)]
pub enum Shape {
    Square,
    Hexagon,
    Triangle,
    Rhombus,
    Other,
}

/// The neighbour patterns, by name.
#[derive(Debug, Clone, Copy, PartialEq, Eq, Structural)]
pub enum Variant {
    VonNeumann,
    Moore,
    Moore0,
    Cross,
    Star,
    Checkerboard,
    Tripod,
    Asterix,
    Hexagonal,
    Biohazard,
    Inner,
    Vertices,
    Qbert,
    Other,
}

/// The shape that a name selects.
pub open spec fn shape_of(name: Seq<char>) -> Shape {
    if name == "square"@ {
        Shape::Square
    } else if name == "hexagon"@ {
        Shape::Hexagon
    } else if name == "triangle"@ {
        Shape::Triangle
    } else if name == "rhombus"@ {
        Shape::Rhombus
    } else {
        Shape::Other
    }
}

/// The variant that a name selects.
pub open spec fn variant_of(name: Seq<char>) -> Variant {
    if name == "vonNeumann"@ {
        Variant::VonNeumann
    } else if name == "moore"@ {
        Variant::Moore
    } else if name == "moore0"@ {
        Variant::Moore0
    } else if name == "cross"@ {
        Variant::Cross
    } else if name == "star"@ {
        Variant::Star
    } else if name == "checkerboard"@ {
        Variant::Checkerboard
    } else if name == "tripod"@ {
        Variant::Tripod
    } else if name == "asterix"@ {
        Variant::Asterix
    } else if name == "hexagonal"@ {
        Variant::Hexagonal
    } else if name == "biohazard"@ {
        Variant::Biohazard
    } else if name == "inner"@ {
        Variant::Inner
    } else if name == "vertices"@ {
        Variant::Vertices
    } else if name == "Qbert"@ {
        Variant::Qbert
    } else {
        Variant::Other
    }
}

fn same_name(a: &str, b: &str) -> (r: bool)
    ensures
        r == (a@ == b@),
{
    a.to_owned() == b.to_owned()
}

/// Reads a shape name; unknown names give `Shape::Other`.
pub fn parse_shape(name: &str) -> (r: Shape)
    ensures
        r == shape_of(name@),
{
    if same_name(name, "square") {
        Shape::Square
    } else if same_name(name, "hexagon") {
        Shape::Hexagon
    } else if same_name(name, "triangle") {
        Shape::Triangle
    } else if same_name(name, "rhombus") {
        Shape::Rhombus
    } else {
        Shape::Other
    }
}

/// Reads a variant name; unknown names give `Variant::Other`.
pub fn parse_variant(name: &str) -> (r: Variant)
    ensures
        r == variant_of(name@),
{
    if same_name(name, "vonNeumann") {
        Variant::VonNeumann
    } else if same_name(name, "moore") {
        Variant::Moore
    } else if same_name(name, "moore0") {
        Variant::Moore0
    } else if same_name(name, "cross") {
        Variant::Cross
    } else if same_name(name, "star") {
        Variant::Star
    } else if same_name(name, "checkerboard") {
        Variant::Checkerboard
    } else if same_name(name, "tripod") {
        Variant::Tripod
    } else if same_name(name, "asterix") {
        Variant::Asterix
    } else if same_name(name, "hexagonal") {
        Variant::Hexagonal
    } else if same_name(name, "biohazard") {
        Variant::Biohazard
    } else if same_name(name, "inner") {
        Variant::Inner
    } else if same_name(name, "vertices") {
        Variant::Vertices
    } else if same_name(name, "Qbert") {
        Variant::Qbert
    } else {
        Variant::Other
    }
}

/// Which cells of the square `[-range, range]²` a block keeps.
#[derive(Debug, Clone, Copy, PartialEq, Eq, Structural)]
pub enum BlockRule {
    /// Manhattan distance at most the range, origin excluded.
    Diamond,
    /// Every cell but the origin.
    Ring,
    /// Cells whose coordinates have an odd sum.
    Odd,
    /// Every cell.
    Every,
}

pub open spec fn abs(x: int) -> int {
    if x < 0 {
        -x
    } else {
        x
    }
}

pub open spec fn keeps(rule: BlockRule, range: int, dx: int, dy: int) -> bool {
    match rule {
        BlockRule::Diamond => abs(dx) + abs(dy) <= range && !(dx == 0 && dy == 0),
        BlockRule::Ring => !(dx == 0 && dy == 0),
        BlockRule::Odd => (dx + dy) % 2 != 0,
        BlockRule::Every => true,
    }
}

/// The kept cells `(dx, dy)` of column `dx`, for `dy` from `-range` up to
/// `-range + m - 1`, each with every z offset of `zs` in turn.
pub open spec fn block_column(rule: BlockRule, range: int, zs: Seq<int>, dx: int, m: int) -> Seq<
    Delta,
>
    decreases m,
{
    if m <= 0 {
        seq![]
    } else {
        let dy = -range + m - 1;
        block_column(rule, range, zs, dx, m - 1) + if keeps(rule, range, dx, dy) {
            zs.map_values(|z: int| (dx, dy, z))
        } else {
            seq![]
        }
    }
}

/// The kept cells of the first `n` columns of the square `[-range, range]²`,
/// `dx` outer and `dy` inner, both increasing.
pub open spec fn block_columns(rule: BlockRule, range: int, zs: Seq<int>, n: int) -> Seq<Delta>
    decreases n,
{
    if n <= 0 {
        seq![]
    } else {
        block_columns(rule, range, zs, n - 1) + block_column(
            rule,
            range,
            zs,
            -range + n - 1,
            2 * range + 1,
        )
    }
}

/// The kept cells of the whole square `[-range, range]²`.
pub open spec fn block(rule: BlockRule, range: int, zs: Seq<int>) -> Seq<Delta> {
    block_columns(rule, range, zs, 2 * range + 1)
}

/// For each distance `d` from 1 to `n`, the directions `dirs` scaled by `d`.
pub open spec fn rays(dirs: Seq<(int, int)>, n: int) -> Seq<Delta>
    decreases n,
{
    if n <= 0 {
        seq![]
    } else {
        rays(dirs, n - 1) + dirs.map_values(|v: (int, int)| (v.0 * n, v.1 * n, 0))
    }
}

pub open spec fn cross_dirs() -> Seq<(int, int)> {
    seq![(1, 0), (-1, 0), (0, 1), (0, -1)]
}

pub open spec fn star_dirs() -> Seq<(int, int)> {
    seq![(1, 0), (-1, 0), (0, 1), (0, -1), (1, 1), (1, -1), (-1, 1), (-1, -1)]
}

pub open spec fn tripod_dirs() -> Seq<(int, int)> {
    seq![(1, 0), (0, -1), (-1, 1)]
}

/// The six axial hexagon directions.
pub open spec fn hex_dirs() -> Seq<(int, int)> {
    seq![(-1, 1), (1, -1), (1, 0), (-1, 0), (0, 1), (0, -1)]
}

/// The six hexagon directions and their doubles.
pub open spec fn asterix_dirs() -> Seq<(int, int)> {
    seq![
        (-1, 1),
        (1, -1),
        (1, 0),
        (-1, 0),
        (0, 1),
        (0, -1),
        (-2, 2),
        (2, -2),
        (2, 0),
        (-2, 0),
        (0, 2),
        (0, -2),
    ]
}

/// The one table of a square topology.
pub open spec fn square_table(v: Variant, range: int) -> Seq<Delta> {
    match v {
        Variant::VonNeumann => block(BlockRule::Diamond, range, seq![0]),
        Variant::Checkerboard => block(BlockRule::Odd, range, seq![0]),
        Variant::Moore => block(BlockRule::Ring, range, seq![0]),
        Variant::Cross => rays(cross_dirs(), range),
        Variant::Star => rays(star_dirs(), range),
        _ => seq![(0, -1, 0), (0, 1, 0)],
    }
}

/// The one table of a hexagon topology.
pub open spec fn hexagon_table(v: Variant, range: int) -> Seq<Delta> {
    match v {
        Variant::Tripod => rays(tripod_dirs(), range),
        Variant::Asterix => rays(asterix_dirs(), range),
        Variant::Hexagonal => rays(hex_dirs(), range),
        _ => seq![(0, 1, 0)],
    }
}

/// The identity table: a cell's only neighbour is itself.
pub open spec fn identity_tables() -> Seq<Seq<Delta>> {
    seq![seq![(0, 0, 0)]]
}

/// The two tables (even and odd layer) of a triangle topology.
pub open spec fn triangle_tables(v: Variant, range: int) -> Seq<Seq<Delta>> {
    match v {
        Variant::VonNeumann => seq![
            seq![(0, 0, 1), (0, 1, 1), (-1, 0, 1)],
            seq![(0, 0, -1), (0, -1, -1), (1, 0, -1)],
        ],
        Variant::Biohazard => seq![
            seq![(0, -1, 0), (1, 0, 0), (1, 1, 0), (0, 0, 1), (0, 1, 1), (-1, 0, 1), (0, 1, 0), (-1, 0, 0), (-1, -1, 0)],
            seq![(0, -1, 0), (1, 0, 0), (1, 1, 0), (0, 1, 0), (-1, 0, 0), (-1, -1, 0), (0, 0, -1), (0, -1, -1), (1, 0, -1)],
        ],
        Variant::Inner => seq![
            seq![(-1, 1, 1), (1, 1, 1), (-1, -1, 1), (0, 0, 1), (0, 1, 1), (-1, 0, 1)],
            seq![(0, 0, -1), (0, -1, -1), (1, 0, -1), (1, 1, -1), (-1, -1, -1), (1, -1, -1)],
        ],
        Variant::Vertices => seq![
            seq![(-1, 1, 1), (0, -1, 0), (1, 0, 0), (1, 1, 0), (1, 1, 1), (0, 1, 0), (-1, 0, 0), (-1, -1, 0), (-1, -1, 1)],
            seq![(0, -1, 0), (1, 0, 0), (1, 1, 0), (0, 1, 0), (-1, 0, 0), (-1, -1, 0), (1, 1, -1), (-1, -1, -1), (1, -1, -1)],
        ],
        Variant::Moore0 => seq![
            seq![(-1, 1, 1), (0, -1, 0), (1, 0, 0), (0, 0, 1), (0, 1, 1), (-1, 0, 1), (1, 1, 0), (1, 1, 1), (0, 1, 0), (-1, 0, 0), (-1, -1, 0), (-1, -1, 1)],
            seq![(0, -1, 0), (1, 0, 0), (1, 1, 0), (0, 1, 0), (-1, 0, 0), (-1, -1, 0), (0, 0, -1), (0, -1, -1), (1, 0, -1), (1, 1, -1), (-1, -1, -1), (1, -1, -1)],
        ],
        Variant::Moore => seq![
            block(BlockRule::Every, range, seq![0, 1]),
            block(BlockRule::Every, range, seq![-1, 0]),
        ],
        _ => identity_tables(),
    }
}

/// The three tables (layers 0, 1, 2) of a rhombus topology.
pub open spec fn rhombus_tables(v: Variant) -> Seq<Seq<Delta>> {
    match v {
        Variant::Qbert => seq![
            seq![(0, 0, 2), (1, 0, 2), (-1, 1, 2), (0, 1, 2), (1, 0, 1), (0, 0, 1), (1, -1, 1), (0, 1, 1), (1, -1, 0), (-1, 1, 0)],
            seq![(0, 0, -1), (0, 0, 1), (-1, 1, 1), (-1, 0, -1), (0, -1, -1), (0, -1, 0), (-1, 0, 1), (0, 1, 0), (-1, 1, -1), (0, 1, 1)],
            seq![(0, 0, -1), (0, 0, -2), (0, -1, -2), (1, -1, -1), (0, -1, -1), (-1, 0, 0), (-1, 0, -2), (1, -1, -2), (1, 0, 0), (1, 0, -1)],
        ],
        _ => identity_tables(),
    }
}

/// The layer tables of a topology.
pub open spec fn offset_tables(shape: Shape, v: Variant, range: int) -> Seq<Seq<Delta>> {
    match shape {
        Shape::Square => seq![square_table(v, range)],
        Shape::Hexagon => seq![hexagon_table(v, range)],
        Shape::Triangle => triangle_tables(v, range),
        Shape::Rhombus => rhombus_tables(v),
        Shape::Other => identity_tables(),
    }
}


fn keeps_cell(rule: BlockRule, range: i32, dx: i32, dy: i32) -> (r: bool)
    requires
        0 <= range <= MAX_RANGE,
        -range <= dx <= range,
        -range <= dy <= range,
    ensures
        r == keeps(rule, range as int, dx as int, dy as int),
{
    match rule {
        BlockRule::Diamond => {
            let ax: i32 = if dx < 0 { -dx } else { dx };
            let ay: i32 = if dy < 0 { -dy } else { dy };
            ax + ay <= range && !(dx == 0 && dy == 0)
        },
        BlockRule::Ring => !(dx == 0 && dy == 0),
        BlockRule::Odd => match (dx + dy).checked_rem_euclid(2) {
            Some(m) => m != 0,
            None => false,
        },
        BlockRule::Every => true,
    }
}

/// The kept cells of the square `[-range, range]²`, each with the z offsets `zs`.
fn block_offsets(rule: BlockRule, range: i32, zs: &Vec<i32>) -> (v: Vec<Offset>)
    requires
        range <= MAX_RANGE,
    ensures
        ints(v@) == block(rule, range as int, zs@.map_values(|z: i32| z as int)),
{
    let ghost r = range as int;
    let ghost zi = zs@.map_values(|z: i32| z as int);
    let mut out: Vec<Offset> = Vec::new();
    if range < 0 {
        proof {
            assert(ints(out@) =~= seq![]);
        }
        return out;
    }
    let mut dx: i32 = -range;
    proof {
        assert(ints(out@) =~= block_columns(rule, r, zi, 0));
    }
    while dx <= range
        invariant
            0 <= range <= MAX_RANGE,
            r == range as int,
            zi == zs@.map_values(|z: i32| z as int),
            -range <= dx <= range + 1,
            ints(out@) == block_columns(rule, r, zi, dx + r),
        decreases range + 1 - dx,
    {
        let mut dy: i32 = -range;
        proof {
            assert(ints(out@) =~= block_columns(rule, r, zi, dx + r) + block_column(rule, r, zi, dx as int, 0));
        }
        while dy <= range
            invariant
                0 <= range <= MAX_RANGE,
                r == range as int,
                zi == zs@.map_values(|z: i32| z as int),
                -range <= dx <= range,
                -range <= dy <= range + 1,
                ints(out@) == block_columns(rule, r, zi, dx + r) + block_column(rule, r, zi, dx as int, dy + r),
            decreases range + 1 - dy,
        {
            let ghost before_cell = ints(out@);
            if keeps_cell(rule, range, dx, dy) {
                let mut j: usize = 0;
                while j < zs.len()
                    invariant
                        j <= zs@.len(),
                        zi == zs@.map_values(|z: i32| z as int),
                        ints(out@) == before_cell + zi.take(j as int).map_values(|z: int| (dx as int, dy as int, z)),
                    decreases zs@.len() - j,
                {
                    let ghost prev = ints(out@);
                    out.push((dx, dy, zs[j]));
                    proof {
                        assert(ints(out@) =~= prev.push((dx as int, dy as int, zs@[j as int] as int)));
                        assert(zi.take(j + 1).map_values(|z: int| (dx as int, dy as int, z)) =~= zi.take(j as int).map_values(|z: int| (dx as int, dy as int, z)).push((dx as int, dy as int, zi[j as int])));
                    }
                    j = j + 1;
                }
                proof {
                    assert(zi.take(zs@.len() as int) =~= zi);
                }
            }
            proof {
                let m = dy + r + 1;
                assert(-r + m - 1 == dy);
                assert(block_column(rule, r, zi, dx as int, m) == block_column(rule, r, zi, dx as int, m - 1) + if keeps(rule, r, dx as int, dy as int) {
                    zi.map_values(|z: int| (dx as int, dy as int, z))
                } else {
                    seq![]
                });
                assert(ints(out@) =~= block_columns(rule, r, zi, dx + r) + block_column(rule, r, zi, dx as int, m));
            }
            dy = dy + 1;
        }
        proof {
            let n = dx + r + 1;
            assert(-r + n - 1 == dx);
            assert(2 * r + 1 == dy + r);
        }
        dx = dx + 1;
    }
    out
}

/// For each distance `d` from 1 to `range`, the directions `dirs` scaled by `d`.
fn ray_offsets(dirs: &Vec<(i32, i32)>, range: i32) -> (v: Vec<Offset>)
    requires
        range <= MAX_RANGE,
        forall|i: int| 0 <= i < dirs@.len() ==> -2 <= #[trigger] dirs@[i].0 <= 2 && -2 <= dirs@[i].1 <= 2,
    ensures
        ints(v@) == rays(dirs@.map_values(|v: (i32, i32)| (v.0 as int, v.1 as int)), range as int),
{
    let ghost di = dirs@.map_values(|v: (i32, i32)| (v.0 as int, v.1 as int));
    let mut out: Vec<Offset> = Vec::new();
    let mut d: i32 = 1;
    proof {
        assert(ints(out@) =~= rays(di, 0));
    }
    if range < 1 {
        proof {
            assert(rays(di, range as int) == Seq::<Delta>::empty());
        }
        return out;
    }
    while d <= range
        invariant
            1 <= range <= MAX_RANGE,
            1 <= d <= range + 1,
            di == dirs@.map_values(|v: (i32, i32)| (v.0 as int, v.1 as int)),
            forall|i: int| 0 <= i < dirs@.len() ==> -2 <= #[trigger] dirs@[i].0 <= 2 && -2 <= dirs@[i].1 <= 2,
            ints(out@) == rays(di, d - 1),
        decreases range + 1 - d,
    {
        let ghost before_ring = ints(out@);
        let mut j: usize = 0;
        while j < dirs.len()
            invariant
                1 <= d <= range <= MAX_RANGE,
                j <= dirs@.len(),
                di == dirs@.map_values(|v: (i32, i32)| (v.0 as int, v.1 as int)),
                forall|i: int| 0 <= i < dirs@.len() ==> -2 <= #[trigger] dirs@[i].0 <= 2 && -2 <= dirs@[i].1 <= 2,
                ints(out@) == before_ring + di.take(j as int).map_values(|v: (int, int)| (v.0 * d, v.1 * d, 0int)),
            decreases dirs@.len() - j,
        {
            let (a, b) = dirs[j];
            proof {
                assert(-2 * d <= a * d <= 2 * d) by (nonlinear_arith)
                    requires -2 <= a <= 2, d >= 1;
                assert(-2 * d <= b * d <= 2 * d) by (nonlinear_arith)
                    requires -2 <= b <= 2, d >= 1;
            }
            let ghost prev = ints(out@);
            out.push((a * d, b * d, 0));
            proof {
                assert(ints(out@) =~= prev.push((a * d, b * d, 0int)));
                assert(di.take(j + 1).map_values(|v: (int, int)| (v.0 * d, v.1 * d, 0int)) =~= di.take(j as int).map_values(|v: (int, int)| (v.0 * d, v.1 * d, 0int)).push((di[j as int].0 * d, di[j as int].1 * d, 0int)));
            }
            j = j + 1;
        }
        proof {
            assert(di.take(dirs@.len() as int) =~= di);
            assert(rays(di, d as int) == rays(di, d - 1) + di.map_values(|v: (int, int)| (v.0 * d, v.1 * d, 0int)));
        }
        d = d + 1;
    }
    out
}


fn single_z(z: i32) -> (v: Vec<i32>)
    ensures
        v@.map_values(|x: i32| x as int) == seq![z as int],
{
    let v = vec![z];
    proof {
        assert(v@.map_values(|x: i32| x as int) =~= seq![z as int]);
    }
    v
}

fn pair_z(a: i32, b: i32) -> (v: Vec<i32>)
    ensures
        v@.map_values(|x: i32| x as int) == seq![a as int, b as int],
{
    let v = vec![a, b];
    proof {
        assert(v@.map_values(|x: i32| x as int) =~= seq![a as int, b as int]);
    }
    v
}

pub open spec fn dir_ints(v: Seq<(i32, i32)>) -> Seq<(int, int)> {
    v.map_values(|d: (i32, i32)| (d.0 as int, d.1 as int))
}

fn direction_vec(v: Variant) -> (dirs: Vec<(i32, i32)>)
    ensures
        forall|i: int| 0 <= i < dirs@.len() ==> -2 <= #[trigger] dirs@[i].0 <= 2 && -2 <= dirs@[i].1 <= 2,
        v == Variant::Cross ==> dir_ints(dirs@) == cross_dirs(),
        v == Variant::Star ==> dir_ints(dirs@) == star_dirs(),
        v == Variant::Tripod ==> dir_ints(dirs@) == tripod_dirs(),
        v == Variant::Hexagonal ==> dir_ints(dirs@) == hex_dirs(),
        v == Variant::Asterix ==> dir_ints(dirs@) == asterix_dirs(),
{
    let dirs = match v {
        Variant::Cross => vec![(1, 0), (-1, 0), (0, 1), (0, -1)],
        Variant::Star => vec![(1, 0), (-1, 0), (0, 1), (0, -1), (1, 1), (1, -1), (-1, 1), (-1, -1)],
        Variant::Tripod => vec![(1, 0), (0, -1), (-1, 1)],
        Variant::Hexagonal => vec![(-1, 1), (1, -1), (1, 0), (-1, 0), (0, 1), (0, -1)],
        Variant::Asterix => vec![
            (-1, 1),
            (1, -1),
            (1, 0),
            (-1, 0),
            (0, 1),
            (0, -1),
            (-2, 2),
            (2, -2),
            (2, 0),
            (-2, 0),
            (0, 2),
            (0, -2),
        ],
        _ => Vec::new(),
    };
    proof {
        if v == Variant::Cross {
            assert(dir_ints(dirs@) =~= cross_dirs());
        } else if v == Variant::Star {
            assert(dir_ints(dirs@) =~= star_dirs());
        } else if v == Variant::Tripod {
            assert(dir_ints(dirs@) =~= tripod_dirs());
        } else if v == Variant::Hexagonal {
            assert(dir_ints(dirs@) =~= hex_dirs());
        } else if v == Variant::Asterix {
            assert(dir_ints(dirs@) =~= asterix_dirs());
        }
    }
    dirs
}

fn get_square_neighborhood(v: Variant, range: i32) -> (t: Vec<Offset>)
    requires
        range <= MAX_RANGE,
    ensures
        ints(t@) == square_table(v, range as int),
{
    match v {
        Variant::VonNeumann => block_offsets(BlockRule::Diamond, range, &single_z(0)),
        Variant::Checkerboard => block_offsets(BlockRule::Odd, range, &single_z(0)),
        Variant::Moore => block_offsets(BlockRule::Ring, range, &single_z(0)),
        Variant::Cross => ray_offsets(&direction_vec(v), range),
        Variant::Star => ray_offsets(&direction_vec(v), range),
        _ => {
            let t = vec![(0, -1, 0), (0, 1, 0)];
            proof {
                assert(ints(t@) =~= seq![(0, -1, 0), (0, 1, 0)]);
            }
            t
        },
    }
}

fn triangle_vonneumann() -> (t: Vec<Vec<Offset>>)
    ensures
        tables_ints(t@) == triangle_tables(Variant::VonNeumann, 0),
{
    let t0 = vec![(0, 0, 1), (0, 1, 1), (-1, 0, 1)];
    proof {
        assert(ints(t0@) =~= seq![(0, 0, 1), (0, 1, 1), (-1, 0, 1)]);
    }
    let t1 = vec![(0, 0, -1), (0, -1, -1), (1, 0, -1)];
    proof {
        assert(ints(t1@) =~= seq![(0, 0, -1), (0, -1, -1), (1, 0, -1)]);
    }
    let ghost parts = seq![ints(t0@), ints(t1@)];
    let tables = vec![t0, t1];
    proof {
        assert(tables_ints(tables@) =~= parts);
    }
    tables
}

fn triangle_biohazard() -> (t: Vec<Vec<Offset>>)
    ensures
        tables_ints(t@) == triangle_tables(Variant::Biohazard, 0),
{
    let t0 = vec![(0, -1, 0), (1, 0, 0), (1, 1, 0), (0, 0, 1), (0, 1, 1), (-1, 0, 1), (0, 1, 0), (-1, 0, 0), (-1, -1, 0)];
    proof {
        assert(ints(t0@) =~= seq![(0, -1, 0), (1, 0, 0), (1, 1, 0), (0, 0, 1), (0, 1, 1), (-1, 0, 1), (0, 1, 0), (-1, 0, 0), (-1, -1, 0)]);
    }
    let t1 = vec![(0, -1, 0), (1, 0, 0), (1, 1, 0), (0, 1, 0), (-1, 0, 0), (-1, -1, 0), (0, 0, -1), (0, -1, -1), (1, 0, -1)];
    proof {
        assert(ints(t1@) =~= seq![(0, -1, 0), (1, 0, 0), (1, 1, 0), (0, 1, 0), (-1, 0, 0), (-1, -1, 0), (0, 0, -1), (0, -1, -1), (1, 0, -1)]);
    }
    let ghost parts = seq![ints(t0@), ints(t1@)];
    let tables = vec![t0, t1];
    proof {
        assert(tables_ints(tables@) =~= parts);
    }
    tables
}

fn triangle_inner() -> (t: Vec<Vec<Offset>>)
    ensures
        tables_ints(t@) == triangle_tables(Variant::Inner, 0),
{
    let t0 = vec![(-1, 1, 1), (1, 1, 1), (-1, -1, 1), (0, 0, 1), (0, 1, 1), (-1, 0, 1)];
    proof {
        assert(ints(t0@) =~= seq![(-1, 1, 1), (1, 1, 1), (-1, -1, 1), (0, 0, 1), (0, 1, 1), (-1, 0, 1)]);
    }
    let t1 = vec![(0, 0, -1), (0, -1, -1), (1, 0, -1), (1, 1, -1), (-1, -1, -1), (1, -1, -1)];
    proof {
        assert(ints(t1@) =~= seq![(0, 0, -1), (0, -1, -1), (1, 0, -1), (1, 1, -1), (-1, -1, -1), (1, -1, -1)]);
    }
    let ghost parts = seq![ints(t0@), ints(t1@)];
    let tables = vec![t0, t1];
    proof {
        assert(tables_ints(tables@) =~= parts);
    }
    tables
}

fn triangle_vertices() -> (t: Vec<Vec<Offset>>)
    ensures
        tables_ints(t@) == triangle_tables(Variant::Vertices, 0),
{
    let t0 = vec![(-1, 1, 1), (0, -1, 0), (1, 0, 0), (1, 1, 0), (1, 1, 1), (0, 1, 0), (-1, 0, 0), (-1, -1, 0), (-1, -1, 1)];
    proof {
        assert(ints(t0@) =~= seq![(-1, 1, 1), (0, -1, 0), (1, 0, 0), (1, 1, 0), (1, 1, 1), (0, 1, 0), (-1, 0, 0), (-1, -1, 0), (-1, -1, 1)]);
    }
    let t1 = vec![(0, -1, 0), (1, 0, 0), (1, 1, 0), (0, 1, 0), (-1, 0, 0), (-1, -1, 0), (1, 1, -1), (-1, -1, -1), (1, -1, -1)];
    proof {
        assert(ints(t1@) =~= seq![(0, -1, 0), (1, 0, 0), (1, 1, 0), (0, 1, 0), (-1, 0, 0), (-1, -1, 0), (1, 1, -1), (-1, -1, -1), (1, -1, -1)]);
    }
    let ghost parts = seq![ints(t0@), ints(t1@)];
    let tables = vec![t0, t1];
    proof {
        assert(tables_ints(tables@) =~= parts);
    }
    tables
}

fn triangle_moore0() -> (t: Vec<Vec<Offset>>)
    ensures
        tables_ints(t@) == triangle_tables(Variant::Moore0, 0),
{
    let t0 = vec![(-1, 1, 1), (0, -1, 0), (1, 0, 0), (0, 0, 1), (0, 1, 1), (-1, 0, 1), (1, 1, 0), (1, 1, 1), (0, 1, 0), (-1, 0, 0), (-1, -1, 0), (-1, -1, 1)];
    proof {
        assert(ints(t0@) =~= seq![(-1, 1, 1), (0, -1, 0), (1, 0, 0), (0, 0, 1), (0, 1, 1), (-1, 0, 1), (1, 1, 0), (1, 1, 1), (0, 1, 0), (-1, 0, 0), (-1, -1, 0), (-1, -1, 1)]);
    }
    let t1 = vec![(0, -1, 0), (1, 0, 0), (1, 1, 0), (0, 1, 0), (-1, 0, 0), (-1, -1, 0), (0, 0, -1), (0, -1, -1), (1, 0, -1), (1, 1, -1), (-1, -1, -1), (1, -1, -1)];
    proof {
        assert(ints(t1@) =~= seq![(0, -1, 0), (1, 0, 0), (1, 1, 0), (0, 1, 0), (-1, 0, 0), (-1, -1, 0), (0, 0, -1), (0, -1, -1), (1, 0, -1), (1, 1, -1), (-1, -1, -1), (1, -1, -1)]);
    }
    let ghost parts = seq![ints(t0@), ints(t1@)];
    let tables = vec![t0, t1];
    proof {
        assert(tables_ints(tables@) =~= parts);
    }
    tables
}

fn qbert_tables() -> (t: Vec<Vec<Offset>>)
    ensures
        tables_ints(t@) == rhombus_tables(Variant::Qbert),
{
    let t0 = vec![(0, 0, 2), (1, 0, 2), (-1, 1, 2), (0, 1, 2), (1, 0, 1), (0, 0, 1), (1, -1, 1), (0, 1, 1), (1, -1, 0), (-1, 1, 0)];
    proof {
        assert(ints(t0@) =~= seq![(0, 0, 2), (1, 0, 2), (-1, 1, 2), (0, 1, 2), (1, 0, 1), (0, 0, 1), (1, -1, 1), (0, 1, 1), (1, -1, 0), (-1, 1, 0)]);
    }
    let t1 = vec![(0, 0, -1), (0, 0, 1), (-1, 1, 1), (-1, 0, -1), (0, -1, -1), (0, -1, 0), (-1, 0, 1), (0, 1, 0), (-1, 1, -1), (0, 1, 1)];
    proof {
        assert(ints(t1@) =~= seq![(0, 0, -1), (0, 0, 1), (-1, 1, 1), (-1, 0, -1), (0, -1, -1), (0, -1, 0), (-1, 0, 1), (0, 1, 0), (-1, 1, -1), (0, 1, 1)]);
    }
    let t2 = vec![(0, 0, -1), (0, 0, -2), (0, -1, -2), (1, -1, -1), (0, -1, -1), (-1, 0, 0), (-1, 0, -2), (1, -1, -2), (1, 0, 0), (1, 0, -1)];
    proof {
        assert(ints(t2@) =~= seq![(0, 0, -1), (0, 0, -2), (0, -1, -2), (1, -1, -1), (0, -1, -1), (-1, 0, 0), (-1, 0, -2), (1, -1, -2), (1, 0, 0), (1, 0, -1)]);
    }
    let ghost parts = seq![ints(t0@), ints(t1@), ints(t2@)];
    let tables = vec![t0, t1, t2];
    proof {
        assert(tables_ints(tables@) =~= parts);
    }
    tables
}

fn identity() -> (t: Vec<Vec<Offset>>)
    ensures
        tables_ints(t@) == identity_tables(),
{
    let t0 = vec![(0, 0, 0)];
    let tables = vec![t0];
    proof {
        assert(ints(t0@) =~= seq![(0int, 0int, 0int)]);
        assert(tables_ints(tables@) =~= identity_tables());
    }
    tables
}

fn get_hexagon_neighborhood(v: Variant, range: i32) -> (t: Vec<Offset>)
    requires
        range <= MAX_RANGE,
    ensures
        ints(t@) == hexagon_table(v, range as int),
{
    match v {
        Variant::Tripod => ray_offsets(&direction_vec(v), range),
        Variant::Asterix => ray_offsets(&direction_vec(v), range),
        Variant::Hexagonal => ray_offsets(&direction_vec(v), range),
        _ => {
            let t = vec![(0, 1, 0)];
            proof {
                assert(ints(t@) =~= seq![(0int, 1int, 0int)]);
            }
            t
        },
    }
}

fn get_triangle_neighborhood(v: Variant, range: i32) -> (t: Vec<Vec<Offset>>)
    requires
        range <= MAX_RANGE,
    ensures
        tables_ints(t@) == triangle_tables(v, range as int),
{
    match v {
        Variant::VonNeumann => triangle_vonneumann(),
        Variant::Biohazard => triangle_biohazard(),
        Variant::Inner => triangle_inner(),
        Variant::Vertices => triangle_vertices(),
        Variant::Moore0 => triangle_moore0(),
        Variant::Moore => {
            let upper = block_offsets(BlockRule::Every, range, &pair_z(0, 1));
            let lower = block_offsets(BlockRule::Every, range, &pair_z(-1, 0));
            let ghost parts = seq![ints(upper@), ints(lower@)];
            let tables = vec![upper, lower];
            proof {
                assert(tables_ints(tables@) =~= parts);
            }
            tables
        },
        _ => identity(),
    }
}

fn get_rhombus_neighborhood(v: Variant) -> (t: Vec<Vec<Offset>>)
    ensures
        tables_ints(t@) == rhombus_tables(v),
{
    match v {
        Variant::Qbert => qbert_tables(),
        _ => identity(),
    }
}

fn one_table(t: Vec<Offset>) -> (r: Vec<Vec<Offset>>)
    ensures
        tables_ints(r@) == seq![ints(t@)],
{
    let ghost parts = seq![ints(t@)];
    let r = vec![t];
    proof {
        assert(tables_ints(r@) =~= parts);
    }
    r
}

/// The layer tables of a topology.
fn get_neighbors_for_shape(shape: Shape, v: Variant, range: i32) -> (t: Vec<Vec<Offset>>)
    requires
        range <= MAX_RANGE,
    ensures
        tables_ints(t@) == offset_tables(shape, v, range as int),
{
    match shape {
        Shape::Hexagon => one_table(get_hexagon_neighborhood(v, range)),
        Shape::Square => one_table(get_square_neighborhood(v, range)),
        Shape::Rhombus => get_rhombus_neighborhood(v),
        Shape::Triangle => get_triangle_neighborhood(v, range),
        Shape::Other => identity(),
    }
}

/// `x` wrapped into the `i32` range, as `i32::wrapping_add` does.
pub open spec fn wrap_i32(x: int) -> i32 {
    if x > i32::MAX {
        (x - 0x1_0000_0000) as i32
    } else if x < i32::MIN {
        (x + 0x1_0000_0000) as i32
    } else {
        x as i32
    }
}

/// The coordinates `base + offset` for each offset in turn, flattened to
/// `[q, r, s, q, r, s, ...]`, each component wrapping on `i32` overflow.
pub open spec fn placed(base: Offset, offs: Seq<Delta>) -> Seq<i32>
    decreases offs.len(),
{
    if offs.len() == 0 {
        seq![]
    } else {
        let o = offs.last();
        placed(base, offs.drop_last()) + seq![
            wrap_i32(base.0 + o.0),
            wrap_i32(base.1 + o.1),
            wrap_i32(base.2 + o.2),
        ]
    }
}

/// Every catalogued topology has one, two or three layer tables.
pub proof fn lemma_table_count(shape: Shape, v: Variant, range: int)
    ensures
        1 <= offset_tables(shape, v, range).len() <= 3,
{
}

/// A topology: its names, its range and the layer tables they select.
pub struct Neighborhood {
    pub shape: String,
    pub chosen_type: String,
    pub range: i32,
    pub adj_neighbors: Vec<Vec<Offset>>,
}

impl Neighborhood {
    /// The layer tables as mathematical integers.
    pub open spec fn tables(&self) -> Seq<Seq<Delta>> {
        tables_ints(self.adj_neighbors@)
    }

    /// The tables are those that the names and the range select.
    pub open spec fn wf(&self) -> bool {
        &&& self.range <= MAX_RANGE
        &&& self.tables() == offset_tables(
            shape_of(self.shape@),
            variant_of(self.chosen_type@),
            self.range as int,
        )
    }

    /// The table for layer `s`: the only one, or else the one at `s` modulo
    /// the number of tables (a non-negative remainder).
    pub open spec fn layer_table(&self, s: int) -> Seq<Delta> {
        if self.tables().len() == 1 {
            self.tables()[0]
        } else {
            self.tables()[s % (self.tables().len() as int)]
        }
    }

    /// The topology that `shape`, `chosen_type` and `range` name; unknown
    /// names select the fallback tables.
    pub fn new(shape: &str, chosen_type: &str, range: i32) -> (n: Self)
        requires
            range <= MAX_RANGE,
        ensures
            n.wf(),
            n.shape@ == shape@,
            n.chosen_type@ == chosen_type@,
            n.range == range,
    {
        let adj_neighbors = get_neighbors_for_shape(
            parse_shape(shape),
            parse_variant(chosen_type),
            range,
        );
        Neighborhood {
            shape: shape.to_owned(),
            chosen_type: chosen_type.to_owned(),
            range,
            adj_neighbors,
        }
    }

    /// The offsets that apply to layer `state`.
    pub fn get_neighbor_offsets(&self, state: i32) -> (offs: &[Offset])
        requires
            self.wf(),
        ensures
            ints(offs@) == self.layer_table(state as int),
    {
        proof {
            lemma_table_count(shape_of(self.shape@), variant_of(self.chosen_type@), self.range as int);
        }
        let n = self.adj_neighbors.len();
        let i: usize = if n == 1 {
            0
        } else {
            match (state as i64).checked_rem_euclid(n as i64) {
                Some(m) => m as usize,
                None => 0,
            }
        };
        self.adj_neighbors[i].as_slice()
    }

    /// The neighbour coordinates of `(q, r, s)`: the base plus each offset of
    /// the table for layer `s`, flattened to `[q, r, s, ...]`.
    pub fn get_neighbors(&self, q: i32, r: i32, s: i32) -> (out: Vec<i32>)
        requires
            self.wf(),
        ensures
            out@ == placed((q, r, s), self.layer_table(s as int)),
    {
        let offs = self.get_neighbor_offsets(s);
        let ghost t = ints(offs@);
        let mut out: Vec<i32> = Vec::new();
        let mut j: usize = 0;
        proof {
            assert(t.take(0) =~= Seq::<Delta>::empty());
        }
        while j < offs.len()
            invariant
                j <= offs@.len(),
                t == ints(offs@),
                out@ == placed((q, r, s), t.take(j as int)),
            decreases offs@.len() - j,
        {
            let (dq, dr, ds) = offs[j];
            out.push(q.wrapping_add(dq));
            out.push(r.wrapping_add(dr));
            out.push(s.wrapping_add(ds));
            proof {
                assert(t.take(j + 1).drop_last() =~= t.take(j as int));
                assert(t.take(j + 1).last() == t[j as int]);
            }
            j = j + 1;
        }
        proof {
            assert(t.take(offs@.len() as int) =~= t);
        }
        out
    }

    /// Replaces the names, the range and the tables; the result is as `new` builds it.
    pub fn change_cell_properties(&mut self, shape: &str, chosen_type: &str, range: i32)
        requires
            range <= MAX_RANGE,
        ensures
            final(self).wf(),
            final(self).shape@ == shape@,
            final(self).chosen_type@ == chosen_type@,
            final(self).range == range,
    {
        *self = Neighborhood::new(shape, chosen_type, range);
    }
}

} // verus!
