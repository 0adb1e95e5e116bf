use stegostl::addressing::{get_available_bits, get_bit_shifts, get_keep_mask, validate_bit_range};
use stegostl::errors::StegoError;
use stegostl::manip::{ManipulatorMode, VertexManipulator};
use stegostl::vertex::{
    get_uniq_vertices_as_ordered_bits, get_vertex_as_bits, get_vertex_from_bits, Triangle,
};

fn tri(normal: [f32; 3], v1: [f32; 3], v2: [f32; 3], v3: [f32; 3]) -> Triangle {
    Triangle {
        normal: [normal[0].to_bits(), normal[1].to_bits(), normal[2].to_bits()],
        v1: [v1[0].to_bits(), v1[1].to_bits(), v1[2].to_bits()],
        v2: [v2[0].to_bits(), v2[1].to_bits(), v2[2].to_bits()],
        v3: [v3[0].to_bits(), v3[1].to_bits(), v3[2].to_bits()],
        attr_byte_count: 0,
    }
}

#[test]
fn test_get_bit_shifts() {
    assert!(matches!(get_bit_shifts(0), Err(StegoError::InvalidBitDepth)));
    assert!(matches!(get_bit_shifts(33), Err(StegoError::InvalidBitDepth)));
    let result = get_bit_shifts(1).unwrap();
    assert_eq!(result, vec![96, 64, 32]);
    let result = get_bit_shifts(3).unwrap();
    assert_eq!(result, vec![98, 97, 96, 66, 65, 64, 34, 33, 32]);
}

#[test]
fn test_get_keep_mask() {
    let result = get_keep_mask(&(1 as u8)).unwrap();
    let maskfor32: u128 = 0b11111111_11111111_11111111_11111110;
    assert_eq!(
        result,
        (0 as u128 | maskfor32 << 96 | maskfor32 << 64 | maskfor32 << 32 | maskfor32) << 32
    );

    let result = get_keep_mask(&(17 as u8)).unwrap();
    let maskfor32: u128 = 0b11111111_11111110_00000000_00000000;
    assert_eq!(
        result,
        (0 as u128 | maskfor32 << 96 | maskfor32 << 64 | maskfor32 << 32 | maskfor32) << 32
    );
}

#[test]
fn test_vertex_transform() {
    let norm: [f32; 3] = [0.0, 0.0, 0.0];
    let v1: [f32; 3] = [1.0, 2.0, 3.0];
    let v2: [f32; 3] = [4.0, 5.0, 6.0];
    let v3: [f32; 3] = [7.0, 8.0, 9.0];
    let t = tri(norm, v1, v2, v3);

    let result = get_vertex_as_bits(&t, 0);
    let result = get_vertex_from_bits(&result);
    assert_eq!(result, [v1[0].to_bits(), v1[1].to_bits(), v1[2].to_bits()]);
    let result = get_vertex_as_bits(&t, 1);
    let result = get_vertex_from_bits(&result);
    assert_eq!(result, [v2[0].to_bits(), v2[1].to_bits(), v2[2].to_bits()]);
    let result = get_vertex_as_bits(&t, 2);
    let result = get_vertex_from_bits(&result);
    assert_eq!(result, [v3[0].to_bits(), v3[1].to_bits(), v3[2].to_bits()]);
}

#[test]
fn test_get_unique_vertices() {
    let norm: [f32; 3] = [0.0, 0.0, 0.0];
    let v1: [f32; 3] = [1.0, 2.0, 3.0];
    let v2: [f32; 3] = [4.0, 5.0, 6.0];
    let v3: [f32; 3] = [7.0, 8.0, 9.0];

    let v4: [f32; 3] = [10.0, 11.0, 12.0];
    let v5: [f32; 3] = v2;
    let v6: [f32; 3] = [12.0, 13.0, 14.0];

    let v7: [f32; 3] = v4;
    let v8: [f32; 3] = v6;
    let v9: [f32; 3] = [15.0, 16.0, 17.0];

    let tris: Vec<Triangle> = vec![
        tri(norm, v1, v2, v3),
        tri(norm, v4, v5, v6),
        tri(norm, v7, v8, v9),
    ];

    let mut result: Vec<u128> = vec![];
    get_uniq_vertices_as_ordered_bits(&tris, &mut result);
    let expected: Vec<u128> = vec![
        get_vertex_as_bits(&tris[0], 0),
        get_vertex_as_bits(&tris[0], 1),
        get_vertex_as_bits(&tris[0], 2),
        get_vertex_as_bits(&tris[1], 0),
        get_vertex_as_bits(&tris[1], 2),
        get_vertex_as_bits(&tris[2], 2),
    ];

    assert_eq!(result, expected);
}

#[test]
fn test_available_bits_formula() {
    let uniq: Vec<u128> = (0u128..7).map(|i| i << 96).collect();
    assert_eq!(get_available_bits(5, &uniq), 7 * 5 * 3);
    assert_eq!(get_available_bits(1, &uniq), 21);
    let empty: Vec<u128> = vec![];
    assert_eq!(get_available_bits(32, &empty), 0);
}

#[test]
fn test_validate_bit_range_bounds() {
    assert!(matches!(validate_bit_range(0), Err(StegoError::InvalidBitDepth)));
    assert!(validate_bit_range(1).is_ok());
    assert!(validate_bit_range(32).is_ok());
    assert!(matches!(validate_bit_range(33), Err(StegoError::InvalidBitDepth)));
}

#[test]
fn test_mask_complement_instances() {
    // at depth 2 the z-block targets are bits 32 and 33; bit 40 is kept
    let mask = get_keep_mask(&2).unwrap();
    let a: u128 = 0xABCD_u128 << 96;
    let b: u128 = a | (1u128 << 33);
    // differing only in a target bit: equal under the mask
    assert_eq!(a & mask, b & mask);
    // differing in a kept bit: distinguishable under the mask
    let c: u128 = a | (1u128 << 40);
    assert_ne!(a & mask, c & mask);
    // the unused low 32 bits are always discarded
    let d: u128 = a | 0xFFFF_FFFF;
    assert_eq!(a & mask, d & mask);
}

#[test]
fn test_manipulator_wrong_mode_noops() {
    let verts: Vec<u128> = vec![0x1111_u128 << 96, 0x2222_u128 << 96];
    let mut reader = VertexManipulator::new(ManipulatorMode::READ, verts.clone(), 4).unwrap();
    assert_eq!(reader.set_next_bit_in_vertex(1), (false, 0, 0));
    let mut writer = VertexManipulator::new(ManipulatorMode::WRITE, verts, 4).unwrap();
    assert_eq!(writer.next_bit_from_vertex(), 0);
}

#[test]
fn test_manipulator_new_rejects_bad_depth() {
    let verts: Vec<u128> = vec![1u128 << 96];
    assert!(matches!(
        VertexManipulator::new(ManipulatorMode::READ, verts, 0),
        Err(StegoError::InvalidBitDepth)
    ));
}

#[test]
fn test_manipulator_reads_target_bits_in_order() {
    // one vertex, depth 1: bits read are positions 96, 64, 32, then zeros
    let v: u128 = (1u128 << 96) | (1u128 << 32);
    let mut reader = VertexManipulator::new(ManipulatorMode::READ, vec![v], 1).unwrap();
    assert_eq!(reader.next_bit_from_vertex(), 1);
    assert_eq!(reader.next_bit_from_vertex(), 0);
    assert_eq!(reader.next_bit_from_vertex(), 1);
    // past the end of the sequence the stream reads as zero
    assert_eq!(reader.next_bit_from_vertex(), 0);
    assert_eq!(reader.next_bit_from_vertex(), 0);
}

#[test]
fn test_manipulator_write_reports_vertex_completion() {
    let v0: u128 = 0x5_u128 << 96;
    let v1: u128 = 0x6_u128 << 96;
    let mut writer = VertexManipulator::new(ManipulatorMode::WRITE, vec![v0, v1], 1).unwrap();
    let (done, _, _) = writer.set_next_bit_in_vertex(1);
    assert!(!done);
    let (done, _, _) = writer.set_next_bit_in_vertex(0);
    assert!(!done);
    let (done, orig, changed) = writer.set_next_bit_in_vertex(1);
    assert!(done);
    assert_eq!(orig, v0);
    // depth 1 writes bits 96, 64, 32: values 1, 0, 1 onto v0
    assert_eq!(changed, (v0 | (1u128 << 96) | (1u128 << 32)) & !(1u128 << 64));
}

#[test]
fn test_masked_bit_rows_display() {
    // one vertex with x bit pattern 1: bit 96 set, depth 1 targets 96/64/32
    let v: u128 = 1u128 << 96;
    let reader = VertexManipulator::new(ManipulatorMode::READ, vec![v], 1).unwrap();
    let (guide, vbits, masked) = reader.masked_bit_rows();
    assert_eq!(guide.len(), 128);
    assert_eq!(vbits.len(), 128);
    assert_eq!(masked.len(), 128);
    assert_eq!(guide[32], b'_');
    assert_eq!(guide[33], b' ');
    // bit 96 prints at column 127 - 96 = 31
    assert_eq!(vbits[31], b'1');
    assert_eq!(vbits[30], b'0');
    // target positions stay visible, kept positions are blanked
    assert_eq!(masked[31], b'1');
    assert_eq!(masked[30], b' ');
    // the unused low 32 bits are never kept, so they stay visible as zeros
    assert_eq!(masked[127], b'0');
}
