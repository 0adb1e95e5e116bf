use std::collections::HashMap;

use stegostl::addressing::get_keep_mask;
use stegostl::drive::{
    decode_data_payload, decode_text_payload, encode_data_payload, encode_text_payload,
};
use stegostl::errors::StegoError;
use stegostl::survey::{fuzz_vertices, test_zeroed_bits};
use stegostl::vertex::{generate_transformed_stl, get_uniq_vertices_as_ordered_bits, Triangle};

/// A mesh of `n_tris` triangles whose corners are all distinct vertices
/// with well-separated coordinate patterns.
fn mesh(n_tris: u32) -> Vec<Triangle> {
    (0..n_tris)
        .map(|t| {
            let base = 1000 + 3 * t;
            Triangle {
                normal: [0, 0, 0],
                v1: [(base as f32).to_bits(), 1.0f32.to_bits(), 2.0f32.to_bits()],
                v2: [((base + 1) as f32).to_bits(), 1.0f32.to_bits(), 2.0f32.to_bits()],
                v3: [((base + 2) as f32).to_bits(), 1.0f32.to_bits(), 2.0f32.to_bits()],
                attr_byte_count: 0,
            }
        })
        .collect()
}

fn uniq_of(tris: &Vec<Triangle>) -> Vec<u128> {
    let mut uniq = Vec::new();
    get_uniq_vertices_as_ordered_bits(tris, &mut uniq);
    uniq
}

fn text_round_trip(tris: &Vec<Triangle>, text: &str, times: u64, bits: u8) -> Vec<u8> {
    let uniq = uniq_of(tris);
    let map = encode_text_payload(&String::from(text), times, bits, uniq).unwrap();
    let out_tris = generate_transformed_stl(tris, &map);
    let uniq2 = uniq_of(&out_tris);
    decode_text_payload(uniq2, bits).unwrap()
}

#[test]
fn test_text_repetition_round_trip() {
    // "AB" three times decodes to six bytes reading "ABABAB"
    let tris = mesh(2);
    let decoded = text_round_trip(&tris, "AB", 3, 8);
    assert_eq!(decoded, b"ABABAB".to_vec());
}

#[test]
fn test_boundary_depth_one() {
    // 24 unique vertices give 72 bits: exactly a header plus one byte
    let tris = mesh(8);
    let decoded = text_round_trip(&tris, "A", 1, 1);
    assert_eq!(decoded, b"A".to_vec());
}

#[test]
fn test_boundary_depth_thirty_two() {
    // a single unique vertex at depth 32 carries exactly 96 bits
    let tris = vec![Triangle {
        normal: [0, 0, 0],
        v1: [5.0f32.to_bits(), 6.0f32.to_bits(), 7.0f32.to_bits()],
        v2: [5.0f32.to_bits(), 6.0f32.to_bits(), 7.0f32.to_bits()],
        v3: [5.0f32.to_bits(), 6.0f32.to_bits(), 7.0f32.to_bits()],
        attr_byte_count: 0,
    }];
    let uniq = uniq_of(&tris);
    assert_eq!(uniq.len(), 1);
    let payload = b"ABCD".to_vec();
    let map = encode_data_payload(payload.clone(), 4, 32, uniq).unwrap();
    let out_tris = generate_transformed_stl(&tris, &map);
    let uniq2 = uniq_of(&out_tris);
    assert_eq!(decode_data_payload(uniq2, 32).unwrap(), payload);
}

#[test]
fn test_binary_round_trip() {
    let tris = mesh(4);
    let uniq = uniq_of(&tris);
    let payload: Vec<u8> = vec![0x00, 0xFF, 0x5A, 0xA5, 0x01, 0x80, 0x42];
    let map = encode_data_payload(payload.clone(), 7, 6, uniq).unwrap();
    let out_tris = generate_transformed_stl(&tris, &map);
    let uniq2 = uniq_of(&out_tris);
    assert_eq!(decode_data_payload(uniq2, 6).unwrap(), payload);
}

#[test]
fn test_capacity_rejection() {
    // 6 unique vertices at depth 1 hold 18 bits: far below any frame
    let tris = mesh(2);
    let uniq = uniq_of(&tris);
    let r = encode_text_payload(&String::from("far too long"), 4, 1, uniq);
    assert!(matches!(r, Err(StegoError::InsufficientCapacity)));
}

#[test]
fn test_payload_underrun() {
    let tris = mesh(4);
    let uniq = uniq_of(&tris);
    // declares ten bytes but supplies two
    let r = encode_data_payload(vec![1, 2], 10, 8, uniq);
    assert!(matches!(r, Err(StegoError::PayloadUnderrun)));
}

#[test]
fn test_invalid_depth_everywhere() {
    let tris = mesh(1);
    let uniq = uniq_of(&tris);
    assert!(matches!(
        encode_text_payload(&String::from("A"), 1, 0, uniq.clone()),
        Err(StegoError::InvalidBitDepth)
    ));
    assert!(matches!(
        encode_data_payload(vec![1], 1, 33, uniq.clone()),
        Err(StegoError::InvalidBitDepth)
    ));
    assert!(matches!(decode_text_payload(uniq.clone(), 0), Err(StegoError::InvalidBitDepth)));
    assert!(matches!(decode_data_payload(uniq, 33), Err(StegoError::InvalidBitDepth)));
}

#[test]
fn test_reconstruction_passes_fields_through() {
    let tris = mesh(2);
    let uniq = uniq_of(&tris);
    let map = encode_text_payload(&String::from("x"), 1, 8, uniq).unwrap();
    let out_tris = generate_transformed_stl(&tris, &map);
    assert_eq!(out_tris.len(), tris.len());
    for (orig, out) in tris.iter().zip(out_tris.iter()) {
        assert_eq!(orig.normal, out.normal);
        assert_eq!(orig.attr_byte_count, out.attr_byte_count);
    }
}

#[test]
fn test_mapping_consistency_shared_vertex() {
    // the shared corner between two triangles is rewritten identically
    let shared = [9.0f32.to_bits(), 9.5f32.to_bits(), 9.75f32.to_bits()];
    let tris = vec![
        Triangle {
            normal: [0, 0, 0],
            v1: shared,
            v2: [1.0f32.to_bits(), 0, 0],
            v3: [2.0f32.to_bits(), 0, 0],
            attr_byte_count: 0,
        },
        Triangle {
            normal: [0, 0, 0],
            v1: [3.0f32.to_bits(), 0, 0],
            v2: shared,
            v3: [4.0f32.to_bits(), 0, 0],
            attr_byte_count: 0,
        },
    ];
    let uniq = uniq_of(&tris);
    let map = encode_text_payload(&String::from("zz"), 1, 8, uniq).unwrap();
    let out_tris = generate_transformed_stl(&tris, &map);
    assert_eq!(out_tris[0].v1, out_tris[1].v2);
}

#[test]
fn test_zeroed_bits_heuristic() {
    // vertices that differ only in the z coordinate's lowest bit collapse
    // at depth 1; vertices with well-separated patterns do not
    let close = vec![
        Triangle {
            normal: [0, 0, 0],
            v1: [100, 200, 300],
            v2: [100, 200, 301],
            v3: [100, 200, 312],
            attr_byte_count: 0,
        },
    ];
    let uniq_close = uniq_of(&close);
    assert_eq!(uniq_close.len(), 3);
    assert_eq!(test_zeroed_bits(&1, &uniq_close).unwrap(), false);

    let wide = mesh(2);
    let uniq_wide = uniq_of(&wide);
    assert_eq!(test_zeroed_bits(&1, &uniq_wide).unwrap(), true);
    assert!(matches!(test_zeroed_bits(&0, &uniq_wide), Err(StegoError::InvalidBitDepth)));
}

#[test]
fn test_fuzz_keeps_untouched_bits() {
    let tris = mesh(3);
    let uniq = uniq_of(&tris);
    let mut dest: HashMap<u128, u128> = HashMap::new();
    fuzz_vertices(&5, &uniq, &mut dest).unwrap();
    assert_eq!(dest.len(), uniq.len());
    let mask = get_keep_mask(&5).unwrap();
    for (k, v) in dest.iter() {
        assert_eq!(k & mask, v & mask);
    }
    assert!(matches!(
        fuzz_vertices(&0, &uniq, &mut dest),
        Err(StegoError::InvalidBitDepth)
    ));
}
