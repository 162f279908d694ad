use zk_mosaic::circuit::{build_witness, proof_inputs, public_instance, Witness};
use zk_mosaic::mosaic::{exec, MosaicError};
use zk_mosaic::session::{Session, USABLE_ROWS};

fn solid(width: u32, height: u32, px: [u8; 4]) -> Vec<u8> {
    let mut v = Vec::new();
    for _ in 0..width * height {
        v.extend_from_slice(&px);
    }
    v
}

fn sample(width: u32, height: u32) -> Vec<u8> {
    (0..width * height * 4).map(|i| (i * 53 % 256) as u8).collect()
}

#[test]
fn red_scenario_witness_and_instance() {
    let buf = solid(4, 4, [255, 0, 0, 255]);
    let wit = build_witness(buf.clone(), 4, 4).unwrap();
    assert!(wit.satisfies_constraints());
    assert_eq!(wit.rows.len(), 2);
    assert_eq!(wit.rows[0].reduced, solid(2, 1, [255, 0, 0, 255]));
    assert_eq!(wit.rows[1].remainder, vec![0; 8]);

    let (img, _, _, _, _) = exec(buf, 2, 4, 4).unwrap();
    let cols = public_instance(&img.data, 2, 2).unwrap();
    assert_eq!(cols.len(), 8);
    assert_eq!(cols[0], vec![255, 255]);
    assert_eq!(cols[2], vec![0, 0]);
    assert_eq!(cols[7], vec![255, 255]);

    // The first reduced pixel flipped to [254, 0, 0, 255].
    let mut flipped = img.data.clone();
    flipped[0] = 254;
    let changed = public_instance(&flipped, 2, 2).unwrap();
    assert_ne!(changed, cols);
    assert_eq!(changed[0], vec![254, 255]);

    let mut forged = build_witness(solid(4, 4, [255, 0, 0, 255]), 4, 4).unwrap();
    forged.rows[0].reduced[0] = 254;
    assert!(!forged.satisfies_constraints());
}

#[test]
fn witness_of_varied_image_meets_constraints() {
    let wit = build_witness(sample(6, 5), 6, 5).unwrap();
    assert_eq!((wit.width, wit.s_width), (6, 3));
    assert_eq!(wit.rows.len(), 2);
    assert!(wit.satisfies_constraints());
}

#[test]
fn witness_rows_hold_original_rows() {
    let buf = sample(2, 4);
    let wit = build_witness(buf.clone(), 2, 4).unwrap();
    assert_eq!(wit.rows[0].top, buf[0..8].to_vec());
    assert_eq!(wit.rows[0].bottom, buf[8..16].to_vec());
    assert_eq!(wit.rows[1].top, buf[16..24].to_vec());
    assert_eq!(wit.rows[1].bottom, buf[24..32].to_vec());
}

#[test]
fn witness_reduced_cells_match_downscale() {
    let buf = sample(4, 2);
    let wit = build_witness(buf.clone(), 4, 2).unwrap();
    let (img, r, g, b, a) = exec(buf, 2, 4, 2).unwrap();
    assert_eq!(wit.rows[0].reduced, img.data);
    assert_eq!(wit.rows[0].remainder, vec![r[0], g[0], b[0], a[0], r[1], g[1], b[1], a[1]]);
}

#[test]
fn witness_with_wrong_buffer_is_refused() {
    assert_eq!(build_witness(vec![0; 10], 2, 2).unwrap_err(), MosaicError::BufferSizeMismatch);
}

#[test]
fn constraint_rejects_shifted_remainder() {
    let mut wit = build_witness(sample(4, 4), 4, 4).unwrap();
    wit.rows[1].remainder[5] += 1;
    assert!(!wit.satisfies_constraints());
}

#[test]
fn constraint_rejects_wrong_row_shape() {
    let mut wit = build_witness(sample(4, 2), 4, 2).unwrap();
    wit.rows[0].top.pop();
    assert!(!wit.satisfies_constraints());
    let empty = Witness { width: 1, s_width: 1, rows: vec![] };
    assert!(!empty.satisfies_constraints());
}

#[test]
fn instance_is_column_major_per_channel() {
    // 2x2 reduced image, byte value = 10 * pixel + channel.
    let data: Vec<u8> = (0..4u8).flat_map(|p| (0..4u8).map(move |c| 10 * p + c)).collect();
    let cols = public_instance(&data, 2, 2).unwrap();
    assert_eq!(cols.len(), 8);
    assert_eq!(cols[0], vec![0, 20]); // red, column 0
    assert_eq!(cols[1], vec![10, 30]); // red, column 1
    assert_eq!(cols[2], vec![1, 21]); // green, column 0
    assert_eq!(cols[7], vec![13, 33]); // alpha, column 1
}

#[test]
fn instance_differs_with_dimensions() {
    let data = sample(2, 2);
    let square = public_instance(&data, 2, 2).unwrap();
    let wide = public_instance(&data, 4, 1).unwrap();
    assert_ne!(square, wide);
    assert_eq!(public_instance(&data, 3, 2).unwrap_err(), MosaicError::BufferSizeMismatch);
}

#[test]
fn session_checks_capacity() {
    let s = Session::new(100, 61).unwrap();
    assert_eq!((s.s_width, s.s_height), (50, 30));
    assert!(s.accepts_reduced(50, 30));
    assert!(!s.accepts_reduced(50, 31));
    assert!(Session::new(4, USABLE_ROWS + 1).is_ok());
    assert_eq!(Session::new(4, USABLE_ROWS + 2), Err(MosaicError::ExceedsCapacity));
}

#[test]
fn proof_inputs_come_from_one_downscale() {
    let buf = solid(4, 4, [255, 0, 0, 255]);
    let p = proof_inputs(buf, 4, 4).unwrap();
    assert_eq!((p.session.s_width, p.session.s_height), (2, 2));
    assert!(p.witness.satisfies_constraints());
    assert_eq!(p.reduced, solid(2, 2, [255, 0, 0, 255]));
    assert_eq!(p.instance, public_instance(&p.reduced, 2, 2).unwrap());
    assert_eq!(p.instance[0], vec![255, 255]);
}

#[test]
fn proof_inputs_refuse_bad_buffer_then_tall_image() {
    assert_eq!(proof_inputs(vec![0; 12], 2, 2).unwrap_err(), MosaicError::BufferSizeMismatch);
    let tall = USABLE_ROWS + 2;
    assert_eq!(proof_inputs(vec![0; (4 * tall) as usize], 1, tall).unwrap_err(), MosaicError::ExceedsCapacity);
}

#[test]
fn constraint_rejects_remainder_of_four() {
    // One block whose red values sum to 4, claimed as 0 with remainder 4.
    let mut wit = build_witness(solid(2, 2, [1, 0, 0, 0]), 2, 2).unwrap();
    assert_eq!(wit.rows[0].reduced[0], 1);
    assert_eq!(wit.rows[0].remainder[0], 0);
    assert!(wit.satisfies_constraints());
    wit.rows[0].reduced[0] = 0;
    wit.rows[0].remainder[0] = 4;
    assert!(!wit.satisfies_constraints());
}
