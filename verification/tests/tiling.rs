use waterdrop_terrain_generator::tiling::grid::{ChunkCoord, ChunkGrid};
use waterdrop_terrain_generator::tiling::stitch::{assemble_tiles, crop_center, split_tiles};

#[test]
fn coords_run_row_by_row() {
    let g = ChunkGrid::new(3, 2, 16);
    assert_eq!(
        g.coords(),
        vec![ChunkCoord(0, 0), ChunkCoord(1, 0), ChunkCoord(2, 0), ChunkCoord(0, 1), ChunkCoord(1, 1), ChunkCoord(2, 1)]
    );
    assert_eq!((g.chunks_x(), g.chunks_y(), g.tile_size()), (3, 2, 16));
    assert_eq!(ChunkGrid::single(4).coords(), vec![ChunkCoord(0, 0)]);
}

#[test]
fn crop_center_keeps_the_middle_square() {
    let data: Vec<u32> = (0..16).collect();
    assert_eq!(crop_center(&data, 4, 2), vec![5, 6, 9, 10]);
    assert_eq!(crop_center(&data, 4, 4), data);
    let five: Vec<u32> = (0..25).collect();
    assert_eq!(crop_center(&five, 5, 1), vec![12]);
}

#[test]
fn assemble_tiles_stitches_chunks_in_row_major_order() {
    let g = ChunkGrid::new(2, 1, 2);
    let tiles = vec![vec![1, 2, 3, 4], vec![5, 6, 7, 8]];
    let (data, width, height) = assemble_tiles(&g, &tiles, 0);
    assert_eq!((width, height), (4, 2));
    assert_eq!(data, vec![1, 2, 5, 6, 3, 4, 7, 8]);
    let tall = ChunkGrid::new(1, 2, 1);
    let (data, width, height) = assemble_tiles(&tall, &vec![vec![9], vec![7]], 0);
    assert_eq!((width, height), (1, 2));
    assert_eq!(data, vec![9, 7]);
}

#[test]
fn split_tiles_cuts_row_major_chunks() {
    // A 4x4 buffer of 2x2 chunks, each 2 texels wide.
    let data: Vec<u32> = (0..16).collect();
    let tiles = split_tiles(&data, 2, 2);
    assert_eq!(tiles, vec![vec![0, 1, 4, 5], vec![2, 3, 6, 7], vec![8, 9, 12, 13], vec![10, 11, 14, 15]]);
    assert_eq!(split_tiles(&data, 0, 2), Vec::<Vec<u32>>::new());
    assert_eq!(split_tiles(&data, 2, 0), vec![Vec::<u32>::new(); 4]);
}

#[test]
fn stitching_split_tiles_gives_the_buffer_back() {
    let data: Vec<u32> = (0..36).map(|v| v * 7 % 11).collect();
    let tiles = split_tiles(&data, 3, 2);
    let (stitched, width, height) = assemble_tiles(&ChunkGrid::new(3, 3, 2), &tiles, 0);
    assert_eq!((width, height), (6, 6));
    assert_eq!(stitched, data);
}
