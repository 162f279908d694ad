use zk_mosaic::mosaic::{exec, exec_mosaic, Image, MosaicError};

fn solid(width: u32, height: u32, px: [u8; 4]) -> Vec<u8> {
    let mut v = Vec::new();
    for _ in 0..width * height {
        v.extend_from_slice(&px);
    }
    v
}

#[test]
fn all_red_image_downscales_to_red() {
    let buf = solid(4, 4, [255, 0, 0, 255]);
    let (img, r, g, b, a) = exec(buf, 2, 4, 4).unwrap();
    assert_eq!(img.width(), 2);
    assert_eq!(img.height(), 2);
    assert_eq!(img.as_bytes(), &solid(2, 2, [255, 0, 0, 255]));
    assert_eq!(r, vec![0, 0, 0, 0]);
    assert_eq!(g, vec![0, 0, 0, 0]);
    assert_eq!(b, vec![0, 0, 0, 0]);
    assert_eq!(a, vec![0, 0, 0, 0]);
}

#[test]
fn floor_average_and_remainder() {
    // 2x2 image, one block: red sums to 1 + 2 + 3 + 5 = 11 -> 2 rem 3.
    let buf = vec![
        1, 10, 0, 255, 2, 20, 0, 255, //
        3, 30, 1, 255, 5, 41, 2, 254,
    ];
    let (img, r, g, b, a) = exec(buf, 2, 2, 2).unwrap();
    assert_eq!(img.data, vec![2, 25, 0, 254]);
    assert_eq!(r, vec![3]);
    assert_eq!(g, vec![1]);
    assert_eq!(b, vec![3]);
    assert_eq!(a, vec![3]);
}

#[test]
fn odd_dimensions_drop_the_last_row_and_column() {
    // 3x3 image by blocks of two: one reduced pixel from the top-left block;
    // the third column and row do not count.
    let mut buf = solid(3, 3, [200, 200, 200, 200]);
    for px in [0usize, 1, 3, 4] {
        buf[px * 4] = 8;
    }
    let (img, r, _, _, _) = exec(buf, 2, 3, 3).unwrap();
    assert_eq!((img.width, img.height), (1, 1));
    assert_eq!(img.data, vec![8, 200, 200, 200]);
    assert_eq!(r, vec![0]);
}

#[test]
fn block_of_three_divides_by_nine() {
    let mut buf = solid(3, 3, [0, 0, 0, 0]);
    buf[0] = 100; // red of pixel (0, 0)
    buf[4 * 8 + 1] = 10; // green of pixel (2, 2)
    let (img, r, g, _, _) = exec(buf, 3, 3, 3).unwrap();
    assert_eq!(img.data, vec![11, 1, 0, 0]);
    assert_eq!(r, vec![1]);
    assert_eq!(g, vec![1]);
}

#[test]
fn reduced_pixels_are_row_major() {
    // 4x2 image: left block all 4, right block all 8.
    let mut buf = Vec::new();
    for _ in 0..2 {
        buf.extend_from_slice(&[4, 4, 4, 4, 4, 4, 4, 4, 8, 8, 8, 8, 8, 8, 8, 8]);
    }
    let out = exec_mosaic(buf, 2, 4, 2).unwrap();
    assert_eq!(out, vec![4, 4, 4, 4, 8, 8, 8, 8]);
}

#[test]
fn downscale_is_deterministic() {
    let buf: Vec<u8> = (0..6 * 4 * 4).map(|i| (i * 37 % 251) as u8).collect();
    let (i1, r1, g1, b1, a1) = exec(buf.clone(), 2, 6, 4).unwrap();
    let (i2, r2, g2, b2, a2) = exec(buf, 2, 6, 4).unwrap();
    assert_eq!(i1.data, i2.data);
    assert_eq!((r1, g1, b1, a1), (r2, g2, b2, a2));
}

#[test]
fn buffer_of_wrong_length_is_refused() {
    assert_eq!(exec(vec![0; 15], 2, 2, 2).unwrap_err(), MosaicError::BufferSizeMismatch);
    assert_eq!(exec_mosaic(vec![0; 17], 2, 2, 2), Err(MosaicError::BufferSizeMismatch));
}

#[test]
fn zero_block_size_is_refused() {
    assert_eq!(exec(vec![0; 16], 0, 2, 2).unwrap_err(), MosaicError::ZeroBlockSize);
}

#[test]
fn huge_block_without_whole_block_gives_empty_image() {
    let (img, r, g, b, a) = exec(vec![], 65536, 0, 0).unwrap();
    assert_eq!((img.width, img.height), (0, 0));
    assert!(img.data.is_empty());
    assert!(r.is_empty() && g.is_empty() && b.is_empty() && a.is_empty());
    let (img, r, _, _, _) = exec(vec![7; 16], 65536, 2, 2).unwrap();
    assert_eq!((img.width, img.height), (0, 0));
    assert!(r.is_empty());
    assert_eq!(exec_mosaic(vec![7; 16], u32::MAX, 2, 2), Ok(vec![]));
    let (img, _, _, _, _) = exec(vec![7; 16], 65537, 2, 2).unwrap();
    assert!(img.data.is_empty());
}

#[test]
fn block_larger_than_image_gives_empty_image() {
    let (img, r, _, _, _) = exec(vec![9; 16], 3, 2, 2).unwrap();
    assert_eq!((img.width, img.height), (0, 0));
    assert!(img.data.is_empty());
    assert!(r.is_empty());
}

#[test]
fn image_from_raw_checks_length() {
    assert!(Image::from_raw(2, 1, vec![0; 8]).is_some());
    assert!(Image::from_raw(2, 1, vec![0; 7]).is_none());
}

#[test]
fn block_of_one_keeps_the_image() {
    let buf: Vec<u8> = (0..3 * 2 * 4).map(|i| (i * 11) as u8).collect();
    let (img, r, g, b, a) = exec(buf.clone(), 1, 3, 2).unwrap();
    assert_eq!((img.width, img.height), (3, 2));
    assert_eq!(img.data, buf);
    assert!(r.iter().chain(&g).chain(&b).chain(&a).all(|&v| v == 0));
}
