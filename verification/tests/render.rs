use clovers::render::{approx_rays, pixel_coordinates, pixel_count, pixel_index, thread_chunks, BufferDimensions};

#[test]
fn coordinates_of_pixel_indices() {
    assert_eq!(pixel_coordinates(0, 4), (0, 0));
    assert_eq!(pixel_coordinates(3, 4), (3, 0));
    assert_eq!(pixel_coordinates(4, 4), (0, 1));
    assert_eq!(pixel_coordinates(11, 4), (3, 2));
}

#[test]
fn index_and_coordinates_round_trip() {
    let width = 7u32;
    for index in 0..70u32 {
        let (x, y) = pixel_coordinates(index as usize, width as usize);
        assert_eq!(pixel_index(x as u32, y as u32, width), index);
    }
}

#[test]
fn counts() {
    assert_eq!(pixel_count(1024, 768), 786_432);
    assert_eq!(approx_rays(1024, 1024, 100, 100), 10_485_760_000);
    assert_eq!(approx_rays(1024, 1024, 0, 100), 0);
}

#[test]
fn chunks_for_threads() {
    let chunks = thread_chunks(100, 16);
    assert_eq!(chunks.len(), 16);
    assert_eq!(chunks[0], (0, 6));
    assert_eq!(chunks[15], (90, 100));
}

#[test]
fn chunks_cover_every_pixel() {
    let chunks = thread_chunks(17, 16);
    assert_eq!(chunks[0], (0, 1));
    assert_eq!(chunks[15], (15, 17));
    for t in 0..15 {
        assert_eq!(chunks[t].1, chunks[t + 1].0);
    }
}

#[test]
fn padded_rows() {
    let d = BufferDimensions::new(100, 2, 256);
    assert_eq!(d.unpadded_bytes_per_row, 400);
    assert_eq!(d.padded_bytes_per_row, 512);
    let d = BufferDimensions::new(64, 2, 256);
    assert_eq!(d.padded_bytes_per_row, 256);
}

#[test]
fn read_back_unpadded_pixels() {
    // 2 pixels wide, 2 rows, rows padded to 12 bytes
    let d = BufferDimensions::new(2, 2, 12);
    assert_eq!(d.padded_bytes_per_row, 12);
    let buffer: Vec<u8> = (0u8..24).collect();
    let pixels = d.unpadded_pixels(&buffer);
    assert_eq!(pixels, vec![[0, 1, 2, 3], [4, 5, 6, 7], [12, 13, 14, 15], [16, 17, 18, 19]]);
}
