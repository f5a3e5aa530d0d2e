use foxlite::frames::{cohort_bytes, frame_bytes};

#[test]
fn cohort_file_layout() {
    // Two rows of three words.
    let words = [0x0403_0201u32, 0, 0xFFFF_FFFF, 1, 2, 0x3F80_0000];
    let out = cohort_bytes(&words, 2, 3);
    let mut want = vec![2, 0, 0, 0, 3, 0, 0, 0];
    want.extend_from_slice(&[1, 2, 3, 4]);
    want.extend_from_slice(&[0, 0, 0, 0]);
    want.extend_from_slice(&[255, 255, 255, 255]);
    want.extend_from_slice(&[1, 0, 0, 0]);
    want.extend_from_slice(&[2, 0, 0, 0]);
    want.extend_from_slice(&[0, 0, 0x80, 0x3F]);
    assert_eq!(out, want);
}

#[test]
fn cohort_file_matches_float_bytes() {
    let rows: Vec<f32> = vec![1.0, -0.5, 0.25, 3.0];
    let bits: Vec<u32> = rows.iter().map(|x| x.to_bits()).collect();
    let out = cohort_bytes(&bits, 1, 4);
    let mut want: Vec<u8> = Vec::new();
    want.extend_from_slice(&1u32.to_le_bytes());
    want.extend_from_slice(&4u32.to_le_bytes());
    for x in &rows {
        want.extend_from_slice(&x.to_le_bytes());
    }
    assert_eq!(out, want);
}

#[test]
fn empty_frame_is_a_zero_count() {
    assert_eq!(frame_bytes(&[], 0), vec![0, 0, 0, 0]);
}

#[test]
fn frame_layout() {
    let out = frame_bytes(&[0x0102_0304, 258], 1);
    assert_eq!(out, vec![1, 0, 0, 0, 4, 3, 2, 1, 2, 1, 0, 0]);
}
