use leo_viz::raster::{downscale_rgba, igrf_rad_to_rgba, RAD_GRID_H, RAD_GRID_W};

#[test]
fn rad_texture_packs_channels() {
    let n = RAD_GRID_W * RAD_GRID_H;
    let protons: Vec<u8> = (0..n).map(|i| (i % 251) as u8).collect();
    let electrons: Vec<u8> = (0..n).map(|i| (i % 13) as u8).collect();
    let data = igrf_rad_to_rgba(&protons, &electrons);
    assert_eq!(data.len(), 181 * 91 * 4);
    assert_eq!(&data[0..4], &[0, 0, 0, 255]);
    assert_eq!(&data[4 * 20..4 * 21], &[20, 7, 0, 255]);
    let last = 4 * (n - 1);
    assert_eq!(&data[last..last + 4], &[((n - 1) % 251) as u8, ((n - 1) % 13) as u8, 0, 255]);
}

#[test]
fn downscale_two_by_two_to_one_pixel() {
    let src: Vec<u8> = (0..16).collect();
    // the centre of the single pixel falls on source pixel (1, 1)
    assert_eq!(downscale_rgba(&src, 2, 2, 1, 1), vec![12, 13, 14, 15]);
}

#[test]
fn downscale_row_by_half() {
    let src: Vec<u8> = (0..16).collect();
    // 4 x 1 -> 2 x 1 samples source columns 1 and 3
    assert_eq!(downscale_rgba(&src, 4, 1, 2, 1), vec![4, 5, 6, 7, 12, 13, 14, 15]);
}

#[test]
fn downscale_same_size_copies() {
    let src: Vec<u8> = (0..(3 * 2 * 4)).map(|i| (i * 7 % 256) as u8).collect();
    assert_eq!(downscale_rgba(&src, 3, 2, 3, 2), src);
}

#[test]
fn downscale_to_nothing() {
    let src: Vec<u8> = (0..16).collect();
    assert_eq!(downscale_rgba(&src, 2, 2, 0, 0), Vec::<u8>::new());
}

#[test]
fn upscale_repeats_pixels() {
    let src: Vec<u8> = vec![1, 2, 3, 4, 5, 6, 7, 8];
    // 2 x 1 -> 4 x 1: columns 0, 0, 1, 1
    assert_eq!(downscale_rgba(&src, 2, 1, 4, 1), vec![1, 2, 3, 4, 1, 2, 3, 4, 5, 6, 7, 8, 5, 6, 7, 8]);
}
