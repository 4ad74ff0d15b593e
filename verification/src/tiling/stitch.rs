//! Index arithmetic over square tiles stored row by row: cropping the kernel-padding margin off a
//! tile, stitching the tiles of every chunk into one buffer covering the whole terrain, and
//! splitting such a buffer back into tiles.

use vstd::prelude::*;

use crate::tiling::grid::{row_major_coord, ChunkGrid};
use vstd::arithmetic::div_mod::{lemma_fundamental_div_mod, lemma_fundamental_div_mod_converse, lemma_mod_pos_bound};

verus! {

/// The margin on each side when a `full`-sided tile is cropped to `target` texels.
pub open spec fn crop_padding(full: int, target: int) -> int {
    (full - target) / 2
}

/// A `full`-sided tile stored in `len` elements holds the centered `target`-sided square.
pub open spec fn crop_fits(len: int, full: int, target: int) -> bool {
    &&& full >= target
    &&& target > 0 ==> (target - 1 + crop_padding(full, target)) * full + crop_padding(full, target) + target <= len
}

proof fn lemma_crop_index(z: int, x: int, p: int, full: int, target: int)
    requires
        0 <= z < target,
        0 <= x < target,
        0 <= p,
        0 <= full,
    ensures
        0 <= (z + p) * full + p + x < (target - 1 + p) * full + p + target,
        (z + p) * full + p <= (target - 1 + p) * full + p,
        full >= 1 ==> z + p <= (z + p) * full,
{
    if full >= 1 {
        assert(z + p <= (z + p) * full) by (nonlinear_arith)
            requires
                full >= 1,
                z + p >= 0,
        ;
    }
    assert((z + p) * full <= (target - 1 + p) * full) by (nonlinear_arith)
        requires
            z <= target - 1,
            0 <= full,
    ;
    assert(0 <= (z + p) * full) by (nonlinear_arith)
        requires
            0 <= z + p,
            0 <= full,
    ;
}

/// Crops off the kernel-padding margin around a node's requested output: the centered
/// `target_size`-sided square of a `full_size`-sided tile. Equal sizes return the data as is.
pub fn crop_center<T: Copy>(data: &[T], full_size: usize, target_size: usize) -> (r: Vec<T>)
    requires
        full_size == target_size || crop_fits(data@.len() as int, full_size as int, target_size as int),
    ensures
        full_size == target_size ==> r@ == data@,
        full_size != target_size ==> {
            &&& r@.len() == target_size * target_size
            &&& forall|z: int, x: int|
                0 <= z < target_size && 0 <= x < target_size ==> #[trigger] r@[z * target_size + x] == data@[(z
                    + crop_padding(full_size as int, target_size as int)) * full_size + crop_padding(
                    full_size as int,
                    target_size as int,
                ) + x]
        },
{
    let mut out: Vec<T> = Vec::new();
    if full_size == target_size {
        let mut i: usize = 0;
        while i < data.len()
            invariant
                i <= data@.len(),
                out@ == data@.subrange(0, i as int),
            decreases data@.len() - i,
        {
            out.push(data[i]);
            i = i + 1;
            proof {
                assert(out@ =~= data@.subrange(0, i as int));
            }
        }
        proof {
            assert(data@.subrange(0, data@.len() as int) =~= data@);
        }
        return out;
    }
    let len = data.len();
    let padding = (full_size - target_size) / 2;
    let ghost p = crop_padding(full_size as int, target_size as int);
    let mut z: usize = 0;
    while z < target_size
        invariant
            full_size > target_size,
            padding == p,
            p == crop_padding(full_size as int, target_size as int),
            p >= 0,
            crop_fits(data@.len() as int, full_size as int, target_size as int),
            len == data@.len(),
            z <= target_size,
            out@.len() == z * target_size,
            forall|zz: int, x: int|
                0 <= zz < z && 0 <= x < target_size ==> #[trigger] out@[zz * target_size + x] == data@[(zz + p)
                    * full_size + p + x],
        decreases target_size - z,
    {
        proof {
            lemma_crop_index(z as int, 0, p, full_size as int, target_size as int);
            assert(target_size > 0);
            assert((target_size - 1 + p) * full_size + p + target_size <= len);
            assert((z + p) * full_size + p <= (target_size - 1 + p) * full_size + p);
            assert(z + p <= (z + p) * full_size);
        }
        let row_start = (z + padding) * full_size + padding;
        let mut x: usize = 0;
        let ghost base = out@.len();
        while x < target_size
            invariant
                full_size > target_size,
                padding == p,
                p == crop_padding(full_size as int, target_size as int),
                p >= 0,
                crop_fits(data@.len() as int, full_size as int, target_size as int),
                len == data@.len(),
                z < target_size,
                row_start == (z + p) * full_size + p,
                base == z * target_size,
                x <= target_size,
                out@.len() == base + x,
                forall|zz: int, xx: int|
                    0 <= zz < z && 0 <= xx < target_size ==> #[trigger] out@[zz * target_size + xx] == data@[(zz + p)
                        * full_size + p + xx],
                forall|xx: int| 0 <= xx < x ==> #[trigger] out@[base + xx] == data@[row_start + xx],
            decreases target_size - x,
        {
            proof {
                lemma_crop_index(z as int, x as int, p, full_size as int, target_size as int);
            }
            let ghost before = out@;
            out.push(data[row_start + x]);
            proof {
                assert forall|zz: int, xx: int|
                    0 <= zz < z && 0 <= xx < target_size implies #[trigger] out@[zz * target_size + xx] == data@[(zz
                        + p) * full_size + p + xx] by {
                    assert(zz * target_size + xx < z * target_size) by (nonlinear_arith)
                        requires
                            zz < z,
                            xx < target_size,
                    ;
                    assert(zz * target_size + xx >= 0) by (nonlinear_arith)
                        requires
                            zz >= 0,
                            xx >= 0,
                            target_size >= 0,
                    ;
                    assert(out@[zz * target_size + xx] == before[zz * target_size + xx]);
                }
            }
            x = x + 1;
        }
        proof {
            assert forall|zz: int, xx: int|
                0 <= zz < z + 1 && 0 <= xx < target_size implies #[trigger] out@[zz * target_size + xx] == data@[(zz
                    + p) * full_size + p + xx] by {
                if zz == z {
                    assert(zz * target_size + xx == base + xx);
                }
            }
            assert((z + 1) * target_size == z * target_size + target_size) by (nonlinear_arith);
        }
        z = z + 1;
    }
    out
}

/// The texel of the whole-terrain buffer at column `col` and row `row`, when the terrain is made
/// of the `tile_size`-sided tiles in `tiles`, one per chunk in row-major order.
pub open spec fn stitched_texel<T>(tiles: Seq<Seq<T>>, chunks_x: int, tile_size: int, col: int, row: int) -> T {
    let k = (row / tile_size) * chunks_x + col / tile_size;
    tiles[k][(row % tile_size) * tile_size + col % tile_size]
}

/// Blits each chunk's tile into one buffer covering the whole terrain, chunk by chunk in
/// row-major order. `tiles` holds one `tile_size`-sided tile per chunk of `grid`, in the order of
/// `grid.coords()`. Returns the buffer with its width and height in texels
/// (`chunks_x * tile_size` by `chunks_y * tile_size`).
pub fn assemble_tiles<T: Copy>(grid: &ChunkGrid, tiles: &Vec<Vec<T>>, fill: T) -> (r: (Vec<T>, usize, usize))
    requires
        grid.wf(),
        tiles@.len() == grid.chunk_count(),
        forall|k: int| 0 <= k < tiles@.len() ==> #[trigger] tiles@[k]@.len() >= grid.spec_tile_size() * grid.spec_tile_size(),
        grid.spec_chunks_x() * grid.spec_tile_size() * grid.spec_chunks_y() * grid.spec_tile_size() <= usize::MAX,
    ensures
        ({
            let (data, width, height) = r;
            let ts = grid.spec_tile_size() as int;
            &&& width == grid.spec_chunks_x() * grid.spec_tile_size()
            &&& height == grid.spec_chunks_y() * grid.spec_tile_size()
            &&& data@.len() == width * height
            &&& forall|row: int, col: int|
                0 <= row < height && 0 <= col < width ==> #[trigger] data@[row * width + col] == stitched_texel(
                    tiles@.map_values(|t: Vec<T>| t@),
                    grid.spec_chunks_x() as int,
                    ts,
                    col,
                    row,
                )
        }),
{
    let ts = grid.tile_size();
    let cx = grid.chunks_x() as usize;
    let cy = grid.chunks_y() as usize;
    proof {
        assert(cx * ts * cy * ts <= usize::MAX);
        assert(cx * ts <= usize::MAX && cy * ts <= usize::MAX && (cx * ts) * (cy * ts) <= usize::MAX) by (nonlinear_arith)
            requires
                cx * ts * cy * ts <= usize::MAX,
                cx >= 1,
                cy >= 1,
        ;
    }
    let width = cx * ts;
    let height = cy * ts;
    let ghost tv = tiles@.map_values(|t: Vec<T>| t@);
    let total = width * height;
    let nt = tiles.len();
    proof {
        if ts == 0 {
            assert(height == 0) by (nonlinear_arith)
                requires
                    height == cy * ts,
                    ts == 0,
            ;
        }
    }
    let mut data: Vec<T> = Vec::new();
    let mut i: usize = 0;
    while i < total
        invariant
            i <= total,
            data@.len() == i,
        decreases total - i,
    {
        data.push(fill);
        i = i + 1;
    }
    // Each texel is written by exactly the chunk it falls in; writing row by row over the whole
    // buffer visits the chunks' rows in the same order as blitting chunk by chunk.
    let mut row: usize = 0;
    while row < height
        invariant
            width == cx * ts,
            height == cy * ts,
            ts > 0 || height == 0,
            cx == grid.spec_chunks_x(),
            ts == grid.spec_tile_size(),
            tv == tiles@.map_values(|t: Vec<T>| t@),
            tiles@.len() == cx * cy,
            nt == tiles@.len(),
            forall|k: int| 0 <= k < tiles@.len() ==> #[trigger] tiles@[k]@.len() >= ts * ts,
            width * height <= usize::MAX,
            row <= height,
            data@.len() == width * height,
            forall|rr: int, cc: int|
                0 <= rr < row && 0 <= cc < width ==> #[trigger] data@[rr * width + cc] == stitched_texel(
                    tv,
                    cx as int,
                    ts as int,
                    cc,
                    rr,
                ),
        decreases height - row,
    {
        let chunk_row = row / ts;
        let y = row % ts;
        let mut col: usize = 0;
        proof {
            assert(chunk_row < cy) by (nonlinear_arith)
                requires
                    chunk_row == row / ts,
                    row < cy * ts,
                    ts > 0,
            ;
            assert(row * width + width <= width * height) by (nonlinear_arith)
                requires
                    row < height,
                    width >= 0,
            ;
        }
        while col < width
            invariant
                width == cx * ts,
                height == cy * ts,
                ts > 0,
                cx == grid.spec_chunks_x(),
                tv == tiles@.map_values(|t: Vec<T>| t@),
                tiles@.len() == cx * cy,
                nt == tiles@.len(),
                forall|k: int| 0 <= k < tiles@.len() ==> #[trigger] tiles@[k]@.len() >= ts * ts,
                width * height <= usize::MAX,
                row < height,
                chunk_row == row / ts,
                chunk_row < cy,
                y == row % ts,
                row * width + width <= width * height,
                col <= width,
                data@.len() == width * height,
                forall|rr: int, cc: int|
                    0 <= rr < row && 0 <= cc < width ==> #[trigger] data@[rr * width + cc] == stitched_texel(
                        tv,
                        cx as int,
                        ts as int,
                        cc,
                        rr,
                    ),
                forall|cc: int|
                    0 <= cc < col ==> #[trigger] data@[row * width + cc] == stitched_texel(tv, cx as int, ts as int, cc, row as int),
            decreases width - col,
        {
            let chunk_col = col / ts;
            let x = col % ts;
            proof {
                assert(chunk_col < cx) by (nonlinear_arith)
                    requires
                        chunk_col == col / ts,
                        col < cx * ts,
                        ts > 0,
                ;
                assert(chunk_row * cx + chunk_col < cx * cy) by (nonlinear_arith)
                    requires
                        chunk_row < cy,
                        chunk_col < cx,
                ;
                assert(y * ts + x < ts * ts) by (nonlinear_arith)
                    requires
                        y < ts,
                        x < ts,
                ;
            }
            let k = chunk_row * cx + chunk_col;
            let tile = &tiles[k];
            let tlen = tile.len();
            proof {
                assert(tiles@[k as int]@.len() >= ts * ts);
                assert(tlen == tile@.len());
            }
            let v = tile[y * ts + x];
            let ghost before = data@;
            data.set(row * width + col, v);
            proof {
                assert(tv[k as int] == tiles@[k as int]@);
                assert forall|rr: int, cc: int|
                    0 <= rr < row && 0 <= cc < width implies #[trigger] data@[rr * width + cc] == stitched_texel(
                        tv,
                        cx as int,
                        ts as int,
                        cc,
                        rr,
                    ) by {
                    assert(rr * width + cc < row * width) by (nonlinear_arith)
                        requires
                            rr < row,
                            cc < width,
                    ;
                    assert(rr * width + cc >= 0) by (nonlinear_arith)
                        requires
                            rr >= 0,
                            cc >= 0,
                            width >= 0,
                    ;
                    assert(data@[rr * width + cc] == before[rr * width + cc]);
                }
            }
            col = col + 1;
        }
        row = row + 1;
    }
    (data, width, height)
}

/// Element `i` of tile `k` when a square buffer of `chunks` by `chunks` tiles, each
/// `resolution`-sided, is cut into its tiles in row-major order.
pub open spec fn split_texel<T>(data: Seq<T>, chunks: int, resolution: int, k: int, i: int) -> T {
    let side = chunks * resolution;
    let row = (k / chunks) * resolution + i / resolution;
    let col = (k % chunks) * resolution + i % resolution;
    data[row * side + col]
}

/// Where element `i` of tile `k` lies in the buffer: its row and column, both inside it.
proof fn lemma_split_index(chunks: int, res: int, k: int, i: int)
    requires
        chunks > 0,
        res > 0,
        0 <= k < chunks * chunks,
        0 <= i < res * res,
    ensures
        0 <= k / chunks < chunks,
        0 <= k % chunks < chunks,
        0 <= i / res < res,
        0 <= i % res < res,
        0 <= (k / chunks) * res + i / res < chunks * res,
        0 <= (k % chunks) * res + i % res < chunks * res,
        0 <= ((k / chunks) * res + i / res) * (chunks * res) + (k % chunks) * res + i % res < (chunks * res) * (chunks
            * res),
{
    lemma_fundamental_div_mod(k, chunks);
    lemma_fundamental_div_mod(i, res);
    lemma_mod_pos_bound(k, chunks);
    lemma_mod_pos_bound(i, res);
    let (q, r, y, x) = (k / chunks, k % chunks, i / res, i % res);
    assert(0 <= q < chunks) by (nonlinear_arith)
        requires
            k == chunks * q + r,
            0 <= r < chunks,
            0 <= k < chunks * chunks,
            chunks > 0,
    ;
    assert(0 <= y < res) by (nonlinear_arith)
        requires
            i == res * y + x,
            0 <= x < res,
            0 <= i < res * res,
            res > 0,
    ;
    let side = chunks * res;
    assert(0 <= q * res + y < side && 0 <= r * res + x < side) by (nonlinear_arith)
        requires
            0 <= q < chunks,
            0 <= r < chunks,
            0 <= y < res,
            0 <= x < res,
            side == chunks * res,
    ;
    assert(0 <= (q * res + y) * side + r * res + x < side * side) by (nonlinear_arith)
        requires
            0 <= q * res + y < side,
            0 <= r * res + x < side,
    ;
}

/// Cuts a square buffer of `chunks` by `chunks` tiles, each `resolution`-sided, into its tiles,
/// row-major: the inverse of `assemble_tiles` on a grid of that shape.
pub fn split_tiles<T: Copy>(data: &[T], chunks: usize, resolution: usize) -> (r: Vec<Vec<T>>)
    requires
        chunks * chunks <= usize::MAX,
        chunks * resolution * (chunks * resolution) <= data@.len(),
    ensures
        r@.len() == chunks * chunks,
        forall|k: int| 0 <= k < r@.len() ==> #[trigger] r@[k]@.len() == resolution * resolution,
        forall|k: int, i: int|
            0 <= k < chunks * chunks && 0 <= i < resolution * resolution ==> #[trigger] r@[k]@[i] == split_texel(
                data@,
                chunks as int,
                resolution as int,
                k,
                i,
            ),
{
    let mut r: Vec<Vec<T>> = Vec::new();
    let total = data.len();
    if chunks == 0 || resolution == 0 {
        let n = chunks * chunks;
        let mut k: usize = 0;
        proof {
            if n > 0 {
                assert(chunks > 0) by (nonlinear_arith)
                    requires
                        n == chunks * chunks,
                        n > 0,
                ;
            }
        }
        while k < n
            invariant
                n == chunks * chunks,
                n > 0 ==> resolution == 0,
                k <= n,
                r@.len() == k,
                forall|j: int| 0 <= j < k ==> #[trigger] r@[j]@.len() == 0,
            decreases n - k,
        {
            r.push(Vec::new());
            k = k + 1;
        }
        proof {
            if n > 0 {
                assert(resolution * resolution == 0);
            }
        }
        return r;
    }
    proof {
        assert(chunks * resolution <= usize::MAX && resolution * resolution <= usize::MAX) by (nonlinear_arith)
            requires
                chunks * resolution * (chunks * resolution) <= usize::MAX,
                chunks >= 1,
                resolution >= 1,
        ;
    }
    assert(total == data@.len());
    let side = chunks * resolution;
    let n = chunks * chunks;
    let per = resolution * resolution;
    let mut k: usize = 0;
    while k < n
        invariant
            chunks > 0,
            resolution > 0,
            side == chunks * resolution,
            n == chunks * chunks,
            per == resolution * resolution,
            side * side <= data@.len(),
            data@.len() <= usize::MAX,
            k <= n,
            r@.len() == k,
            forall|j: int| 0 <= j < k ==> #[trigger] r@[j]@.len() == per,
            forall|j: int, i: int|
                0 <= j < k && 0 <= i < per ==> #[trigger] r@[j]@[i] == split_texel(
                    data@,
                    chunks as int,
                    resolution as int,
                    j,
                    i,
                ),
        decreases n - k,
    {
        let cy = k / chunks;
        let cx = k % chunks;
        let mut tile: Vec<T> = Vec::new();
        let mut i: usize = 0;
        while i < per
            invariant
                chunks > 0,
                resolution > 0,
                side == chunks * resolution,
                n == chunks * chunks,
                per == resolution * resolution,
                side * side <= data@.len(),
                data@.len() <= usize::MAX,
                k < n,
                cy == k / chunks,
                cx == k % chunks,
                i <= per,
                tile@.len() == i,
                forall|ii: int| 0 <= ii < i ==> #[trigger] tile@[ii] == split_texel(
                    data@,
                    chunks as int,
                    resolution as int,
                    k as int,
                    ii,
                ),
            decreases per - i,
        {
            let y = i / resolution;
            let x = i % resolution;
            proof {
                lemma_split_index(chunks as int, resolution as int, k as int, i as int);
            }
            let idx = (cy * resolution + y) * side + cx * resolution + x;
            tile.push(data[idx]);
            i = i + 1;
        }
        let ghost before = r@;
        r.push(tile);
        proof {
            assert forall|j: int, ii: int| 0 <= j < k + 1 && 0 <= ii < per implies #[trigger] r@[j]@[ii] == split_texel(
                data@,
                chunks as int,
                resolution as int,
                j,
                ii,
            ) by {
                if j < k {
                    assert(r@[j] == before[j]);
                }
            }
        }
        k = k + 1;
    }
    r
}

/// Cutting a square buffer into its chunk tiles and stitching them back gives the buffer: what
/// `split_tiles` writes, `assemble_tiles` reads back in place.
pub proof fn lemma_split_then_stitch<T>(data: Seq<T>, chunks: int, resolution: int, tiles: Seq<Seq<T>>)
    requires
        chunks >= 0,
        resolution >= 0,
        chunks * resolution * (chunks * resolution) <= data.len(),
        tiles.len() == chunks * chunks,
        forall|k: int, i: int|
            0 <= k < chunks * chunks && 0 <= i < resolution * resolution ==> #[trigger] tiles[k][i] == split_texel(
                data,
                chunks,
                resolution,
                k,
                i,
            ),
    ensures
        forall|row: int, col: int|
            0 <= row < chunks * resolution && 0 <= col < chunks * resolution ==> #[trigger] stitched_texel(
                tiles,
                chunks,
                resolution,
                col,
                row,
            ) == data[row * (chunks * resolution) + col],
{
    assert forall|row: int, col: int| 0 <= row < chunks * resolution && 0 <= col < chunks * resolution implies #[trigger] stitched_texel(
        tiles,
        chunks,
        resolution,
        col,
        row,
    ) == data[row * (chunks * resolution) + col] by {
        let res = resolution;
        assert(chunks > 0 && res > 0) by (nonlinear_arith)
            requires
                0 <= row < chunks * res,
                chunks >= 0,
                res >= 0,
        ;
        lemma_fundamental_div_mod(row, res);
        lemma_fundamental_div_mod(col, res);
        lemma_mod_pos_bound(row, res);
        lemma_mod_pos_bound(col, res);
        let (qy, y, qx, x) = (row / res, row % res, col / res, col % res);
        assert(0 <= qy < chunks && 0 <= qx < chunks) by (nonlinear_arith)
            requires
                row == res * qy + y,
                col == res * qx + x,
                0 <= y < res,
                0 <= x < res,
                0 <= row < chunks * res,
                0 <= col < chunks * res,
        ;
        let k = qy * chunks + qx;
        let i = y * res + x;
        assert(0 <= k < chunks * chunks && 0 <= i < res * res) by (nonlinear_arith)
            requires
                0 <= qy < chunks,
                0 <= qx < chunks,
                0 <= y < res,
                0 <= x < res,
                k == qy * chunks + qx,
                i == y * res + x,
        ;
        lemma_fundamental_div_mod_converse(k, chunks, qy, qx);
        lemma_fundamental_div_mod_converse(i, res, y, x);
        assert(qy * res + y == row && qx * res + x == col) by (nonlinear_arith)
            requires
                row == res * qy + y,
                col == res * qx + x,
        ;
        assert(tiles[k][i] == split_texel(data, chunks, res, k, i));
    }
}

} // verus!
