use vstd::prelude::*;
use crate::heightmap::{Heightmap, height_of, calc_height};
use crate::lod::{LodLevel, lod_divisor};

verus! {

/// Grid cells per axis of a chunk at the highest level of detail.
pub const BASE_SUBDIVISIONS: u32 = 256;

/// Largest height spread, in twentieths, that a block may have and still be
/// drawn as a single quad.
pub const FLATNESS_THRESHOLD: u32 = 0;

/// Grid cells per axis of a chunk at a level of detail.
pub open spec fn subdivisions_for(lod: LodLevel) -> int {
    BASE_SUBDIVISIONS as int / lod_divisor(lod) as int
}

/// Heightmap coordinate sampled by grid line `i` of a chunk that starts at
/// `start` and spans `span` over `n` cells, clamped to the map's last pixel.
pub open spec fn sample_coord(start: int, span: int, n: int, i: int, limit: int) -> int {
    let p = start + (i * span) / n;
    if p < limit {
        p
    } else {
        limit - 1
    }
}

/// Height, in twentieths, of grid vertex `(x, y)` of a chunk.
pub open spec fn grid_height(
    hm: Heightmap,
    start_x: int,
    start_z: int,
    width: int,
    height: int,
    n: int,
    x: int,
    y: int,
) -> int {
    height_of(
        hm.pixel(
            sample_coord(start_x, width, n, x, hm.width as int),
            sample_coord(start_z, height, n, y, hm.height as int),
        ),
    ) as int
}

/// The chunk's vertex heights, row by row, `n + 1` per row.
pub open spec fn grid_heights(
    hm: Heightmap,
    start_x: int,
    start_z: int,
    width: int,
    height: int,
    n: int,
) -> Seq<u32> {
    Seq::new(
        ((n + 1) * (n + 1)) as nat,
        |k: int| grid_height(hm, start_x, start_z, width, height, n, k % (n + 1), k / (n + 1)) as u32,
    )
}

/// Height of vertex `(x, y)` in a row-major grid of `n + 1` vertices per row.
pub open spec fn at(hs: Seq<u32>, n: int, x: int, y: int) -> int {
    hs[y * (n + 1) + x] as int
}

/// No two vertices of the block differ in height by more than `thr`.
pub open spec fn block_flat(hs: Seq<u32>, n: int, x: int, y: int, size: int, thr: int) -> bool {
    forall|i: int, j: int, k: int, l: int|
        #![trigger at(hs, n, i, j), at(hs, n, k, l)]
        x <= i <= x + size && y <= j <= y + size && x <= k <= x + size && y <= l <= y + size
            ==> at(hs, n, i, j) - at(hs, n, k, l) <= thr
}

pub open spec fn steep(a: int, b: int, thr: int) -> bool {
    a - b > thr || b - a > thr
}

/// Some vertex of column `col`, rows `y..=y+size`, differs by more than `thr`
/// from its neighbour in column `other`.
pub open spec fn column_steep(hs: Seq<u32>, n: int, col: int, other: int, y: int, size: int, thr: int) -> bool {
    exists|z: int| y <= z <= y + size && #[trigger] steep(at(hs, n, col, z), at(hs, n, other, z), thr)
}

/// Some vertex of row `row`, columns `x..=x+size`, differs by more than `thr`
/// from its neighbour in row `other`.
pub open spec fn row_steep(hs: Seq<u32>, n: int, row: int, other: int, x: int, size: int, thr: int) -> bool {
    exists|i: int| x <= i <= x + size && #[trigger] steep(at(hs, n, i, row), at(hs, n, i, other), thr)
}

/// A side or a corner of the block disagrees with the cell just outside it.
pub open spec fn edge_steep(hs: Seq<u32>, n: int, x: int, y: int, size: int, thr: int) -> bool {
    let r = x + size;
    let b = y + size;
    ||| x > 0 && column_steep(hs, n, x, x - 1, y, size, thr)
    ||| r < n && column_steep(hs, n, r, r + 1, y, size, thr)
    ||| y > 0 && row_steep(hs, n, y, y - 1, x, size, thr)
    ||| b < n && row_steep(hs, n, b, b + 1, x, size, thr)
    ||| x > 0 && y > 0 && steep(at(hs, n, x, y), at(hs, n, x - 1, y - 1), thr)
    ||| r < n && y > 0 && steep(at(hs, n, r, y), at(hs, n, r + 1, y - 1), thr)
    ||| x > 0 && b < n && steep(at(hs, n, x, b), at(hs, n, x - 1, b + 1), thr)
    ||| r < n && b < n && steep(at(hs, n, r, b), at(hs, n, r + 1, b + 1), thr)
}

/// The two triangles that cover the square block of side `s` at `(x, y)`.
pub open spec fn quad(n: int, x: int, y: int, s: int) -> Seq<u32> {
    let tl = y * (n + 1) + x;
    let tr = tl + s;
    let bl = (y + s) * (n + 1) + x;
    let br = bl + s;
    seq![tl as u32, bl as u32, tr as u32, tr as u32, bl as u32, br as u32]
}

/// Triangle indices that the quadtree emits for a block: one quad where the
/// block is flat and agrees with its surroundings, else its four quarters,
/// down to single cells.
pub open spec fn block_indices(hs: Seq<u32>, n: int, x: int, y: int, size: int, thr: int) -> Seq<u32>
    decreases size,
{
    if x + size > n || y + size > n {
        Seq::empty()
    } else if block_flat(hs, n, x, y, size, thr) && !edge_steep(hs, n, x, y, size, thr) {
        quad(n, x, y, size)
    } else if size > 1 {
        let half = size / 2;
        block_indices(hs, n, x, y, half, thr) + block_indices(hs, n, x + half, y, half, thr)
            + block_indices(hs, n, x, y + half, half, thr) + block_indices(
            hs,
            n,
            x + half,
            y + half,
            half,
            thr,
        )
    } else {
        quad(n, x, y, 1)
    }
}

/// Integer description of a chunk's triangulated terrain: `subdivisions + 1`
/// vertices per row and per column, row-major.
pub struct TerrainGrid {
    pub subdivisions: u32,
    /// Vertex heights, in twentieths of a world unit.
    pub heights: Vec<u32>,
    /// Triangle list over the vertices.
    pub indices: Vec<u32>,
}

/// What the builder makes of a chunk.
pub open spec fn is_terrain_grid(
    g: TerrainGrid,
    start_x: int,
    start_z: int,
    width: int,
    height: int,
    lod: LodLevel,
    hm: Heightmap,
) -> bool {
    let n = subdivisions_for(lod);
    &&& g.subdivisions == n
    &&& g.heights@ == grid_heights(hm, start_x, start_z, width, height, n)
    &&& g.indices@ == block_indices(g.heights@, n, 0, 0, n, FLATNESS_THRESHOLD as int)
}

pub proof fn lemma_vertex_index(n: int, x: int, y: int)
    requires
        0 <= n <= 256,
        0 <= x <= n,
        0 <= y <= n,
    ensures
        0 <= y * (n + 1) + x < (n + 1) * (n + 1),
        (n + 1) * (n + 1) <= 257 * 257,
        y * (n + 1) <= n * (n + 1),
{
    assert(0 <= y * (n + 1) + x < (n + 1) * (n + 1)) by (nonlinear_arith)
        requires
            0 <= x <= n,
            0 <= y <= n,
    ;
    assert((n + 1) * (n + 1) <= 257 * 257) by (nonlinear_arith)
        requires
            0 <= n <= 256,
    ;
    assert(y * (n + 1) <= n * (n + 1)) by (nonlinear_arith)
        requires
            0 <= y <= n,
    ;
}

fn height_at(hs: &Vec<u32>, n: u32, x: u32, y: u32) -> (r: u32)
    requires
        n <= 256,
        hs@.len() == (n + 1) * (n + 1),
        x <= n,
        y <= n,
    ensures
        r == at(hs@, n as int, x as int, y as int),
{
    proof {
        lemma_vertex_index(n as int, x as int, y as int);
    }
    hs[(y * (n + 1) + x) as usize]
}

/// Height of grid vertex `(x, y)` of a chunk.
fn get_height(
    hm: &Heightmap,
    start_x: u32,
    start_z: u32,
    width: u32,
    height: u32,
    n: u32,
    x: u32,
    y: u32,
) -> (r: u32)
    requires
        hm.wf(),
        1 <= n <= 256,
        x <= n,
        y <= n,
    ensures
        r == grid_height(*hm, start_x as int, start_z as int, width as int, height as int, n as int, x as int, y as int),
{
    let px = sample_index(start_x, width, n, x, hm.width);
    let pz = sample_index(start_z, height, n, y, hm.height);
    calc_height(hm.get_pixel(px, pz))
}

fn sample_index(start: u32, span: u32, n: u32, i: u32, limit: u32) -> (r: u32)
    requires
        1 <= n <= 256,
        i <= n,
        limit > 0,
    ensures
        r == sample_coord(start as int, span as int, n as int, i as int, limit as int),
        r < limit,
{
    proof {
        assert(i * span <= 256 * u32::MAX) by (nonlinear_arith)
            requires
                i <= 256,
                span <= u32::MAX,
        ;
        assert((i * span) / (n as int) <= i * span) by (nonlinear_arith)
            requires
                n >= 1,
                i * span >= 0,
        ;
    }
    let p: u64 = start as u64 + (i as u64 * span as u64) / n as u64;
    if p < limit as u64 {
        p as u32
    } else {
        limit - 1
    }
}

/// Whether the block at `(x, y)` of side `size` spreads over no more than `thr`.
fn block_is_flat(hs: &Vec<u32>, n: u32, x: u32, y: u32, size: u32, thr: u32) -> (r: bool)
    requires
        n <= 256,
        hs@.len() == (n + 1) * (n + 1),
        x + size <= n,
        y + size <= n,
    ensures
        r == block_flat(hs@, n as int, x as int, y as int, size as int, thr as int),
{
    let ghost h = hs@;
    let ghost ni = n as int;
    let mut lo = height_at(hs, n, x, y);
    let mut hi = lo;
    let ghost mut lo_at: (int, int) = (x as int, y as int);
    let ghost mut hi_at: (int, int) = (x as int, y as int);
    let mut j = y;
    while j <= y + size
        invariant
            n <= 256,
            h == hs@,
            ni == n,
            hs@.len() == (n + 1) * (n + 1),
            x + size <= n,
            y + size <= n,
            y <= j <= y + size + 1,
            x <= lo_at.0 <= x + size,
            y <= lo_at.1 <= y + size,
            x <= hi_at.0 <= x + size,
            y <= hi_at.1 <= y + size,
            lo == at(h, ni, lo_at.0, lo_at.1),
            hi == at(h, ni, hi_at.0, hi_at.1),
            forall|a: int, b: int|
                x <= a <= x + size && y <= b < j ==> lo <= #[trigger] at(h, ni, a, b) <= hi,
        decreases y + size + 1 - j,
    {
        let mut i = x;
        while i <= x + size
            invariant
                n <= 256,
                h == hs@,
                ni == n,
                hs@.len() == (n + 1) * (n + 1),
                x + size <= n,
                y + size <= n,
                y <= j <= y + size,
                x <= i <= x + size + 1,
                x <= lo_at.0 <= x + size,
                y <= lo_at.1 <= y + size,
                x <= hi_at.0 <= x + size,
                y <= hi_at.1 <= y + size,
                lo == at(h, ni, lo_at.0, lo_at.1),
                hi == at(h, ni, hi_at.0, hi_at.1),
                forall|a: int, b: int|
                    x <= a <= x + size && y <= b < j ==> lo <= #[trigger] at(h, ni, a, b) <= hi,
                forall|a: int| x <= a < i ==> lo <= #[trigger] at(h, ni, a, j as int) <= hi,
            decreases x + size + 1 - i,
        {
            let v = height_at(hs, n, i, j);
            if v < lo {
                lo = v;
                proof {
                    lo_at = (i as int, j as int);
                }
            }
            if v > hi {
                hi = v;
                proof {
                    hi_at = (i as int, j as int);
                }
            }
            i = i + 1;
        }
        j = j + 1;
    }
    if hi - lo <= thr {
        assert forall|a: int, b: int, c: int, d: int|
            x <= a <= x + size && y <= b <= y + size && x <= c <= x + size && y <= d <= y + size
                implies at(h, ni, a, b) - at(h, ni, c, d) <= thr by {
            assert(lo <= at(h, ni, a, b) <= hi);
            assert(lo <= at(h, ni, c, d) <= hi);
        }
        true
    } else {
        assert(at(h, ni, hi_at.0, hi_at.1) - at(h, ni, lo_at.0, lo_at.1) > thr);
        false
    }
}

fn differs(a: u32, b: u32, thr: u32) -> (r: bool)
    ensures
        r == steep(a as int, b as int, thr as int),
{
    if a > b {
        a - b > thr
    } else {
        b - a > thr
    }
}

/// Whether some vertex of column `col`, rows `y..=y+size`, is steep against
/// its neighbour in column `other`.
fn column_differs(hs: &Vec<u32>, n: u32, col: u32, other: u32, y: u32, size: u32, thr: u32) -> (r: bool)
    requires
        n <= 256,
        hs@.len() == (n + 1) * (n + 1),
        col <= n,
        other <= n,
        y + size <= n,
    ensures
        r == column_steep(hs@, n as int, col as int, other as int, y as int, size as int, thr as int),
{
    let mut z = y;
    while z <= y + size
        invariant
            n <= 256,
            hs@.len() == (n + 1) * (n + 1),
            col <= n,
            other <= n,
            y + size <= n,
            y <= z <= y + size + 1,
            forall|w: int|
                y <= w < z ==> !#[trigger] steep(
                    at(hs@, n as int, col as int, w),
                    at(hs@, n as int, other as int, w),
                    thr as int,
                ),
        decreases y + size + 1 - z,
    {
        if differs(height_at(hs, n, col, z), height_at(hs, n, other, z), thr) {
            return true;
        }
        z = z + 1;
    }
    false
}

/// Whether some vertex of row `row`, columns `x..=x+size`, is steep against
/// its neighbour in row `other`.
fn row_differs(hs: &Vec<u32>, n: u32, row: u32, other: u32, x: u32, size: u32, thr: u32) -> (r: bool)
    requires
        n <= 256,
        hs@.len() == (n + 1) * (n + 1),
        row <= n,
        other <= n,
        x + size <= n,
    ensures
        r == row_steep(hs@, n as int, row as int, other as int, x as int, size as int, thr as int),
{
    let mut i = x;
    while i <= x + size
        invariant
            n <= 256,
            hs@.len() == (n + 1) * (n + 1),
            row <= n,
            other <= n,
            x + size <= n,
            x <= i <= x + size + 1,
            forall|w: int|
                x <= w < i ==> !#[trigger] steep(
                    at(hs@, n as int, w, row as int),
                    at(hs@, n as int, w, other as int),
                    thr as int,
                ),
        decreases x + size + 1 - i,
    {
        if differs(height_at(hs, n, i, row), height_at(hs, n, i, other), thr) {
            return true;
        }
        i = i + 1;
    }
    false
}

/// Whether a side or a corner of the block disagrees with the cell just
/// outside it by more than `thr`.
fn check_edges(hs: &Vec<u32>, n: u32, x: u32, y: u32, size: u32, thr: u32) -> (r: bool)
    requires
        n <= 256,
        hs@.len() == (n + 1) * (n + 1),
        x + size <= n,
        y + size <= n,
    ensures
        r == edge_steep(hs@, n as int, x as int, y as int, size as int, thr as int),
{
    let r = x + size;
    let b = y + size;
    if x > 0 && column_differs(hs, n, x, x - 1, y, size, thr) {
        return true;
    }
    if r < n && column_differs(hs, n, r, r + 1, y, size, thr) {
        return true;
    }
    if y > 0 && row_differs(hs, n, y, y - 1, x, size, thr) {
        return true;
    }
    if b < n && row_differs(hs, n, b, b + 1, x, size, thr) {
        return true;
    }
    if x > 0 && y > 0 && differs(height_at(hs, n, x, y), height_at(hs, n, x - 1, y - 1), thr) {
        return true;
    }
    if r < n && y > 0 && differs(height_at(hs, n, r, y), height_at(hs, n, r + 1, y - 1), thr) {
        return true;
    }
    if x > 0 && b < n && differs(height_at(hs, n, x, b), height_at(hs, n, x - 1, b + 1), thr) {
        return true;
    }
    r < n && b < n && differs(height_at(hs, n, r, b), height_at(hs, n, r + 1, b + 1), thr)
}

/// Appends the two triangles of the block of side `s` at `(x, y)`.
fn push_quad(n: u32, x: u32, y: u32, s: u32, indices: &mut Vec<u32>)
    requires
        n <= 256,
        x + s <= n,
        y + s <= n,
    ensures
        final(indices)@ == old(indices)@ + quad(n as int, x as int, y as int, s as int),
{
    proof {
        lemma_vertex_index(n as int, (x + s) as int, (y + s) as int);
        lemma_vertex_index(n as int, x as int, y as int);
        assert(y * (n + 1) <= (y + s) * (n + 1)) by (nonlinear_arith)
            requires
                y <= y + s,
                n >= 0,
        ;
    }
    let tl = y * (n + 1) + x;
    let tr = tl + s;
    let bl = (y + s) * (n + 1) + x;
    let br = bl + s;
    indices.push(tl);
    indices.push(bl);
    indices.push(tr);
    indices.push(tr);
    indices.push(bl);
    indices.push(br);
    assert(final(indices)@ =~= old(indices)@ + quad(n as int, x as int, y as int, s as int));
}

/// Emits the triangles of one quadtree block: a single quad where it is flat
/// and crack-free, else its subdivision.
fn process_block(hs: &Vec<u32>, n: u32, x: u32, y: u32, size: u32, thr: u32, indices: &mut Vec<u32>)
    requires
        1 <= n <= 256,
        hs@.len() == (n + 1) * (n + 1),
        1 <= size <= n,
        x <= n,
        y <= n,
    ensures
        final(indices)@ == old(indices)@ + block_indices(
            hs@,
            n as int,
            x as int,
            y as int,
            size as int,
            thr as int,
        ),
    decreases size, 1nat,
{
    if x + size > n || y + size > n {
        assert(final(indices)@ =~= old(indices)@ + Seq::<u32>::empty());
        return;
    }
    if block_is_flat(hs, n, x, y, size, thr) && !check_edges(hs, n, x, y, size, thr) {
        push_quad(n, x, y, size, indices);
    } else {
        divide_block(hs, n, x, y, size, thr, indices);
    }
}

/// Splits a block that cannot be one quad into its four quarters; a single
/// cell becomes its two triangles.
fn divide_block(hs: &Vec<u32>, n: u32, x: u32, y: u32, size: u32, thr: u32, indices: &mut Vec<u32>)
    requires
        1 <= n <= 256,
        hs@.len() == (n + 1) * (n + 1),
        1 <= size <= n,
        x + size <= n,
        y + size <= n,
    ensures
        size > 1 ==> final(indices)@ == old(indices)@ + block_indices(
            hs@,
            n as int,
            x as int,
            y as int,
            size as int / 2,
            thr as int,
        ) + block_indices(hs@, n as int, x + size / 2, y as int, size as int / 2, thr as int)
            + block_indices(hs@, n as int, x as int, y + size / 2, size as int / 2, thr as int)
            + block_indices(hs@, n as int, x + size / 2, y + size / 2, size as int / 2, thr as int),
        size == 1 ==> final(indices)@ == old(indices)@ + quad(n as int, x as int, y as int, 1),
    decreases size, 0nat,
{
    if size > 1 {
        let half = size / 2;
        let ghost s0 = indices@;
        process_block(hs, n, x, y, half, thr, indices);
        let ghost s1 = indices@;
        process_block(hs, n, x + half, y, half, thr, indices);
        let ghost s2 = indices@;
        process_block(hs, n, x, y + half, half, thr, indices);
        let ghost s3 = indices@;
        process_block(hs, n, x + half, y + half, half, thr, indices);
        let ghost hi = hs@;
        assert(indices@ =~= s0 + block_indices(hi, n as int, x as int, y as int, half as int, thr as int)
            + block_indices(hi, n as int, x + half, y as int, half as int, thr as int)
            + block_indices(hi, n as int, x as int, y + half, half as int, thr as int)
            + block_indices(hi, n as int, x + half, y + half, half as int, thr as int));
    } else {
        push_quad(n, x, y, 1, indices);
    }
}

/// The blocks that the quadtree draws as single quads, in emission order, as
/// `(x, y, side)`.
pub open spec fn emitted_blocks(hs: Seq<u32>, n: int, x: int, y: int, size: int, thr: int) -> Seq<(int, int, int)>
    decreases size,
{
    if x + size > n || y + size > n {
        Seq::empty()
    } else if block_flat(hs, n, x, y, size, thr) && !edge_steep(hs, n, x, y, size, thr) {
        seq![(x, y, size)]
    } else if size > 1 {
        let half = size / 2;
        emitted_blocks(hs, n, x, y, half, thr) + emitted_blocks(hs, n, x + half, y, half, thr)
            + emitted_blocks(hs, n, x, y + half, half, thr) + emitted_blocks(hs, n, x + half, y + half, half, thr)
    } else {
        seq![(x, y, 1)]
    }
}

/// The triangles of a list of blocks, one quad each, in order.
pub open spec fn quads_of(n: int, bs: Seq<(int, int, int)>) -> Seq<u32>
    decreases bs.len(),
{
    if bs.len() == 0 {
        Seq::empty()
    } else {
        quads_of(n, bs.drop_last()) + quad(n, bs.last().0, bs.last().1, bs.last().2)
    }
}

proof fn lemma_quads_of_concat(n: int, a: Seq<(int, int, int)>, b: Seq<(int, int, int)>)
    ensures
        quads_of(n, a + b) == quads_of(n, a) + quads_of(n, b),
    decreases b.len(),
{
    if b.len() == 0 {
        assert(a + b =~= a);
        assert(quads_of(n, a) + quads_of(n, b) =~= quads_of(n, a));
    } else {
        lemma_quads_of_concat(n, a, b.drop_last());
        assert((a + b).drop_last() =~= a + b.drop_last());
        assert((a + b).last() == b.last());
        assert(quads_of(n, a + b) =~= quads_of(n, a) + quads_of(n, b));
    }
}

/// All vertices of the block have one height.
pub open spec fn block_level(hs: Seq<u32>, n: int, x: int, y: int, size: int) -> bool {
    forall|i: int, j: int|
        x <= i <= x + size && y <= j <= y + size ==> #[trigger] at(hs, n, i, j) == at(hs, n, x, y)
}

proof fn lemma_emitted(hs: Seq<u32>, n: int, x: int, y: int, size: int)
    requires
        size >= 1,
    ensures
        block_indices(hs, n, x, y, size, 0) == quads_of(n, emitted_blocks(hs, n, x, y, size, 0)),
        forall|k: int|
            0 <= k < emitted_blocks(hs, n, x, y, size, 0).len() ==> {
                let b = #[trigger] emitted_blocks(hs, n, x, y, size, 0)[k];
                b.2 == 1 || block_level(hs, n, b.0, b.1, b.2)
            },
    decreases size,
{
    let e = emitted_blocks(hs, n, x, y, size, 0);
    if x + size > n || y + size > n {
        assert(quads_of(n, e) =~= Seq::<u32>::empty());
    } else if block_flat(hs, n, x, y, size, 0) && !edge_steep(hs, n, x, y, size, 0) {
        assert(e.drop_last() =~= Seq::<(int, int, int)>::empty());
        assert(e.len() == 1 && e.last() == (x, y, size));
        assert(quads_of(n, e.drop_last()) == Seq::<u32>::empty());
        assert(quads_of(n, e) =~= Seq::<u32>::empty() + quad(n, x, y, size));
        assert forall|i: int, j: int| x <= i <= x + size && y <= j <= y + size implies #[trigger] at(hs, n, i, j)
            == at(hs, n, x, y) by {
            assert(at(hs, n, i, j) - at(hs, n, x, y) <= 0);
            assert(at(hs, n, x, y) - at(hs, n, i, j) <= 0);
        }
    } else if size > 1 {
        let h = size / 2;
        lemma_emitted(hs, n, x, y, h);
        lemma_emitted(hs, n, x + h, y, h);
        lemma_emitted(hs, n, x, y + h, h);
        lemma_emitted(hs, n, x + h, y + h, h);
        let e1 = emitted_blocks(hs, n, x, y, h, 0);
        let e2 = emitted_blocks(hs, n, x + h, y, h, 0);
        let e3 = emitted_blocks(hs, n, x, y + h, h, 0);
        let e4 = emitted_blocks(hs, n, x + h, y + h, h, 0);
        lemma_quads_of_concat(n, e1, e2);
        lemma_quads_of_concat(n, e1 + e2, e3);
        lemma_quads_of_concat(n, e1 + e2 + e3, e4);
        assert forall|k: int| 0 <= k < e.len() implies {
            let b = #[trigger] e[k];
            b.2 == 1 || block_level(hs, n, b.0, b.1, b.2)
        } by {
            let l1 = e1.len() as int;
            let l2 = l1 + e2.len();
            let l3 = l2 + e3.len();
            if k < l1 {
                assert(e[k] == e1[k]);
            } else if k < l2 {
                assert(e[k] == e2[k - l1]);
            } else if k < l3 {
                assert(e[k] == e3[k - l2]);
            } else {
                assert(e[k] == e4[k - l3]);
            }
        }
    } else {
        assert(e.drop_last() =~= Seq::<(int, int, int)>::empty());
        assert(e.len() == 1 && e.last() == (x, y, 1int));
        assert(quads_of(n, e.drop_last()) == Seq::<u32>::empty());
        assert(quads_of(n, e) =~= Seq::<u32>::empty() + quad(n, x, y, 1));
    }
}

/// No cracks inside a chunk: the builder's triangles are the quads of the
/// blocks it emits, in order, and every emitted block wider than one cell has
/// a single height at all its vertices. A grid vertex that lies on an edge of
/// a merged quad is a vertex of that block, so it has the height of the
/// edge's ends; a one-cell quad has no grid vertex inside its edges.
pub proof fn lemma_no_t_junction_cracks(
    g: TerrainGrid,
    start_x: int,
    start_z: int,
    width: int,
    height: int,
    lod: LodLevel,
    hm: Heightmap,
)
    requires
        is_terrain_grid(g, start_x, start_z, width, height, lod, hm),
    ensures
        ({
            let n = subdivisions_for(lod);
            let bs = emitted_blocks(g.heights@, n, 0, 0, n, 0);
            &&& g.indices@ == quads_of(n, bs)
            &&& forall|k: int|
                0 <= k < bs.len() ==> {
                    let b = #[trigger] bs[k];
                    b.2 == 1 || block_level(g.heights@, n, b.0, b.1, b.2)
                }
        }),
{
    let n = subdivisions_for(lod);
    assert(n >= 64) by {
        match lod {
            LodLevel::High => {},
            LodLevel::Medium => {},
            LodLevel::Low => {},
        }
    }
    lemma_emitted(g.heights@, n, 0, 0, n);
}

/// Subdivisions per axis of a level of detail.
pub fn subdivisions(lod: LodLevel) -> (r: u32)
    ensures
        r == subdivisions_for(lod),
        64 <= r <= 256,
{
    BASE_SUBDIVISIONS / lod.divisor()
}

/// Builds the triangulated terrain of the chunk that starts at heightmap
/// pixel `(start_x, start_z)` and spans `width` by `height` pixels, at a
/// level of detail.
pub fn generate_terrain_mesh(
    start_x: u32,
    start_z: u32,
    width: u32,
    height: u32,
    lod_level: LodLevel,
    heightmap: &Heightmap,
) -> (r: TerrainGrid)
    requires
        heightmap.wf(),
    ensures
        is_terrain_grid(
            r,
            start_x as int,
            start_z as int,
            width as int,
            height as int,
            lod_level,
            *heightmap,
        ),
{
    let n = subdivisions(lod_level);
    let per_row = n + 1;
    proof {
        lemma_vertex_index(n as int, 0, 0);
    }
    let count = per_row * per_row;
    let ghost target = grid_heights(*heightmap, start_x as int, start_z as int, width as int, height as int, n as int);
    let mut heights: Vec<u32> = Vec::with_capacity(count as usize);
    let mut k: u32 = 0;
    while k < count
        invariant
            64 <= n <= 256,
            per_row == n + 1,
            count == per_row * per_row,
            heightmap.wf(),
            k <= count,
            target.len() == count,
            heights@.len() == k,
            target == grid_heights(*heightmap, start_x as int, start_z as int, width as int, height as int, n as int),
            forall|t: int| 0 <= t < k ==> heights@[t] == target[t],
        decreases count - k,
    {
        let x = k % per_row;
        let y = k / per_row;
        proof {
            assert(y <= n) by (nonlinear_arith)
                requires
                    k < per_row * per_row,
                    y == k / per_row,
                    per_row == n + 1,
                    n >= 1,
            ;
        }
        let v = get_height(heightmap, start_x, start_z, width, height, n, x, y);
        heights.push(v);
        k = k + 1;
    }
    assert(heights@ =~= target);
    let mut indices: Vec<u32> = Vec::new();
    process_block(&heights, n, 0, 0, n, FLATNESS_THRESHOLD, &mut indices);
    assert(indices@ =~= block_indices(heights@, n as int, 0, 0, n as int, FLATNESS_THRESHOLD as int));
    TerrainGrid { subdivisions: n, heights, indices }
}

/// Building a chunk depends on nothing but its arguments: two grids that both
/// meet the builder's contract for the same arguments are equal.
pub proof fn lemma_build_deterministic(
    a: TerrainGrid,
    b: TerrainGrid,
    start_x: int,
    start_z: int,
    width: int,
    height: int,
    lod: LodLevel,
    hm: Heightmap,
)
    requires
        is_terrain_grid(a, start_x, start_z, width, height, lod, hm),
        is_terrain_grid(b, start_x, start_z, width, height, lod, hm),
    ensures
        a.subdivisions == b.subdivisions,
        a.heights@ == b.heights@,
        a.indices@ == b.indices@,
{
}

proof fn lemma_full_span(n: int, span: int)
    requires
        n >= 1,
        span >= 0,
    ensures
        (n * span) / n == span,
        (0 * span) / n == 0,
{
    assert((n * span) / n == span) by (nonlinear_arith)
        requires
            n >= 1,
    ;
    assert(0 * span == 0);
}

/// Two chunks side by side along X at the same level of detail sample the same
/// heights on their shared column: the last column of the western chunk equals
/// the first column of the eastern one, row by row.
pub proof fn lemma_shared_column_heights(
    hm: Heightmap,
    start_x: int,
    start_z: int,
    width: int,
    height: int,
    lod: LodLevel,
    row: int,
)
    requires
        hm.wf(),
        start_x >= 0,
        start_z >= 0,
        width >= 0,
        height >= 0,
        0 <= row <= subdivisions_for(lod),
    ensures
        ({
            let n = subdivisions_for(lod);
            let west = grid_heights(hm, start_x, start_z, width, height, n);
            let east = grid_heights(hm, start_x + width, start_z, width, height, n);
            west[row * (n + 1) + n] == east[row * (n + 1)]
        }),
{
    let n = subdivisions_for(lod);
    lemma_full_span(n, width);
    lemma_vertex_index(n, n, row);
    lemma_vertex_index(n, 0, row);
    assert((row * (n + 1) + n) % (n + 1) == n && (row * (n + 1) + n) / (n + 1) == row) by (nonlinear_arith)
        requires
            0 <= n,
            0 <= row,
    ;
    assert((row * (n + 1)) % (n + 1) == 0 && (row * (n + 1)) / (n + 1) == row) by (nonlinear_arith)
        requires
            0 <= n,
            0 <= row,
    ;
}

/// Two chunks one above the other along Z at the same level of detail sample
/// the same heights on their shared row: the last row of the northern chunk
/// equals the first row of the southern one, column by column.
pub proof fn lemma_shared_row_heights(
    hm: Heightmap,
    start_x: int,
    start_z: int,
    width: int,
    height: int,
    lod: LodLevel,
    col: int,
)
    requires
        hm.wf(),
        start_x >= 0,
        start_z >= 0,
        width >= 0,
        height >= 0,
        0 <= col <= subdivisions_for(lod),
    ensures
        ({
            let n = subdivisions_for(lod);
            let north = grid_heights(hm, start_x, start_z, width, height, n);
            let south = grid_heights(hm, start_x, start_z + height, width, height, n);
            north[n * (n + 1) + col] == south[col]
        }),
{
    let n = subdivisions_for(lod);
    lemma_full_span(n, height);
    lemma_vertex_index(n, col, n);
    assert((n * (n + 1) + col) % (n + 1) == col && (n * (n + 1) + col) / (n + 1) == n) by (nonlinear_arith)
        requires
            0 <= n,
            0 <= col <= n,
    ;
    assert(col % (n + 1) == col && col / (n + 1) == 0) by (nonlinear_arith)
        requires
            0 <= n,
            0 <= col <= n,
    ;
}

/// Triangle indices of the first `count` cells of a regular grid `sx` cells
/// wide, row by row: two triangles per cell.
pub open spec fn grid_indices(sx: int, count: int) -> Seq<u32>
    decreases count,
{
    if count <= 0 {
        Seq::empty()
    } else {
        grid_indices(sx, count - 1) + quad(sx, (count - 1) % sx, (count - 1) / sx, 1)
    }
}

/// Triangle indices of a flat grid of `sub_x` by `sub_z` cells.
pub fn flat_grid_indices(sub_x: u32, sub_z: u32) -> (r: Vec<u32>)
    requires
        sub_x >= 1,
        (sub_x + 1) * (sub_z + 1) <= u32::MAX,
    ensures
        r@ == grid_indices(sub_x as int, sub_x * sub_z),
{
    proof {
        assert(sub_x * sub_z <= (sub_x + 1) * (sub_z + 1)) by (nonlinear_arith)
            requires
                sub_x >= 1,
                sub_z >= 0,
        ;
    }
    let count = sub_x * sub_z;
    let mut r: Vec<u32> = Vec::new();
    let mut c: u32 = 0;
    while c < count
        invariant
            sub_x >= 1,
            (sub_x + 1) * (sub_z + 1) <= u32::MAX,
            count == sub_x * sub_z,
            c <= count,
            r@ == grid_indices(sub_x as int, c as int),
        decreases count - c,
    {
        let x = c % sub_x;
        let z = c / sub_x;
        proof {
            assert(z < sub_z) by (nonlinear_arith)
                requires
                    c < sub_x * sub_z,
                    z == c / sub_x,
                    sub_x >= 1,
            ;
            assert((z + 1) * (sub_x + 1) + x + 1 <= (sub_x + 1) * (sub_z + 1)) by (nonlinear_arith)
                requires
                    x < sub_x,
                    z < sub_z,
            ;
            assert(sub_x + 1 <= (sub_x + 1) * (sub_z + 1)) by (nonlinear_arith)
                requires
                    sub_x >= 0,
                    sub_z >= 0,
            ;
            assert(z * (sub_x + 1) <= (z + 1) * (sub_x + 1)) by (nonlinear_arith)
                requires
                    z >= 0,
                    sub_x >= 0,
            ;
        }
        let tl = z * (sub_x + 1) + x;
        let tr = tl + 1;
        let bl = (z + 1) * (sub_x + 1) + x;
        let br = bl + 1;
        let ghost before = r@;
        r.push(tl);
        r.push(bl);
        r.push(tr);
        r.push(tr);
        r.push(bl);
        r.push(br);
        assert(r@ =~= before + quad(sub_x as int, c as int % sub_x as int, c as int / sub_x as int, 1));
        c = c + 1;
    }
    r
}

} // verus!
