use rust_gpu_chimera::majorana::{
    clear_term, copy_rotated_terms, majorana_update_op, majorana_update_op_defined,
    rotation_op_array, term_start, TermUpdate,
};

fn rot(chunks: &[u32]) -> [u32; 10] {
    rotation_op_array(&chunks.to_vec())
}

#[test]
fn term_start_of_thread() {
    assert_eq!(term_start(0, 3), 0);
    assert_eq!(term_start(2, 3), 20);
}

#[test]
fn rotation_op_is_padded_with_zeros() {
    assert_eq!(rot(&[1, 2]), [1, 2, 0, 0, 0, 0, 0, 0, 0, 0]);
}

#[test]
fn clear_term_zeroes_whole_term_only() {
    let mut data = [1u32, 2, 3, 4, 5, 6];
    clear_term(&mut data, 1, 2);
    assert_eq!(data, [1, 0, 0, 0, 0, 6]);
}

#[test]
fn anticommuting_term_gets_product() {
    // One chunk: term string has bit 0, rotation has bit 1.
    let mut data = [10u32, 11, 0b01, 7, 7, 7];
    let r = majorana_update_op(&mut data, 0, 1, &rot(&[0b10]), 5);
    assert_eq!(
        r,
        TermUpdate::Rotated {
            term_phase: false,
            rotation_phase: false,
            product_phase: true,
            cross_phase: true,
        }
    );
    assert_eq!(data, [10, 11, 0b01, 7, 7, 0b11]);
}

#[test]
fn commuting_term_is_left_alone() {
    // Both strings have bits 0 and 1: weights 2 and 2, overlap 2: even.
    let mut data = [10u32, 11, 0b11, 7, 7, 7];
    let r = majorana_update_op(&mut data, 0, 1, &rot(&[0b11]), 5);
    assert_eq!(r, TermUpdate::Commutes);
    assert_eq!(data, [10, 11, 0b11, 7, 7, 7]);
}

#[test]
fn term_with_many_unpaired_modes_is_dropped() {
    // 0b01 has one unpaired mode, which is more than a cutoff of 0.
    let mut data = [10u32, 11, 0b01, 7, 7, 7];
    let r = majorana_update_op(&mut data, 0, 1, &rot(&[0b10]), 0);
    assert_eq!(r, TermUpdate::Dropped);
    assert_eq!(data, [0, 0, 0, 7, 7, 7]);
}

#[test]
fn phases_over_two_chunks() {
    // Term string: chunk 0 = 0b11 (2 bits), chunk 1 = 0b1 (1 bit).
    // Rotation: chunk 0 = 0, chunk 1 = 0b10.
    // Weights 3 and 1, overlap 0: odd, so the strings anticommute.
    // Cross: the rotation bit (chunk 1, bit 1) has 2 + 1 term bits before it.
    // Product: 0b11, 0b11, weight 4.
    let mut data = [0u32, 0, 0b11, 0b1, 9, 9, 9, 9];
    let r = majorana_update_op(&mut data, 0, 2, &rot(&[0, 0b10]), 10);
    assert_eq!(
        r,
        TermUpdate::Rotated {
            term_phase: true,
            rotation_phase: false,
            product_phase: false,
            cross_phase: true,
        }
    );
    assert_eq!(data, [0, 0, 0b11, 0b1, 9, 9, 0b11, 0b11]);
}

#[test]
fn update_op_defined_cases() {
    // Rotated term with room for its product.
    assert!(majorana_update_op_defined(&[0, 0, 0b01, 7, 7, 7], 0, 1, &rot(&[0b10]), 5));
    // Rotated term without room for its product.
    assert!(!majorana_update_op_defined(&[0, 0, 0b01, 7, 7], 0, 1, &rot(&[0b10]), 5));
    // The same short buffer is fine when the term commutes or is dropped.
    assert!(majorana_update_op_defined(&[0, 0, 0b11, 7, 7], 0, 1, &rot(&[0b11]), 5));
    assert!(majorana_update_op_defined(&[0, 0, 0b01, 7, 7], 0, 1, &rot(&[0b10]), 0));
    // More than ten chunks are fine only for a dropped term.
    let data = [0u32, 0, 1, 1, 1, 1, 1, 1, 1, 1, 1, 1, 1];
    assert!(majorana_update_op_defined(&data, 0, 11, &rot(&[]), 0));
    assert!(!majorana_update_op_defined(&data, 0, 11, &rot(&[]), 100));
    // The term does not fit at all.
    assert!(!majorana_update_op_defined(&[0, 0], 0, 1, &rot(&[]), 5));
}

#[test]
fn copy_rotated_terms_copies_what_fits() {
    let mut out = [9u32, 9, 9];
    copy_rotated_terms(&[1, 2], &mut out);
    assert_eq!(out, [1, 2, 9]);
    let mut out = [9u32];
    copy_rotated_terms(&[1, 2], &mut out);
    assert_eq!(out, [1]);
}

#[test]
fn two_threads_commute() {
    // Two slots of 6 words each, one chunk per term.
    let start = [10u32, 11, 0b01, 0, 0, 0, 20, 21, 0b11, 0, 0, 0];
    let r = rot(&[0b10]);
    let mut a = start;
    majorana_update_op(&mut a, 0, 1, &r, 5);
    majorana_update_op(&mut a, 6, 1, &r, 5);
    let mut b = start;
    majorana_update_op(&mut b, 6, 1, &r, 5);
    majorana_update_op(&mut b, 0, 1, &r, 5);
    assert_eq!(a, b);
}
