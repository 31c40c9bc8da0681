use heavy_hash::Matrix;
use kaspa_pow::xoshiro::XoShiRo256PlusPlus;

fn seed_of(tag: u8) -> [u8; 32] {
    let mut seed = [0u8; 32];
    for (i, byte) in seed.iter_mut().enumerate() {
        *byte = tag.wrapping_mul(113).wrapping_add((i as u8).wrapping_mul(29)) ^ 0x3C;
    }
    seed
}

#[test]
fn test_generate_matrix() {
    let expected_rows: [[u16; 64]; 3] = [
        [4, 5, 4, 5, 4, 5, 4, 5, 4, 5, 4, 5, 4, 5, 4, 5, 15, 3, 15, 3, 15, 3, 15, 3, 15, 3, 15, 3, 15, 3, 15, 3, 2, 10, 2, 10, 2, 10, 2, 10, 2, 10, 2, 10, 2, 10, 2, 10, 14, 1, 2, 2, 14, 10, 4, 12, 4, 12, 10, 10, 10, 10, 10, 10],
        [9, 11, 1, 11, 1, 11, 9, 11, 9, 11, 9, 3, 12, 13, 11, 5, 15, 15, 5, 0, 6, 8, 1, 8, 6, 11, 15, 5, 3, 6, 7, 3, 2, 15, 14, 3, 7, 11, 14, 7, 3, 6, 14, 12, 3, 9, 5, 1, 1, 0, 8, 4, 10, 15, 9, 10, 6, 13, 1, 1, 7, 4, 4, 6],
        [2, 6, 0, 8, 11, 15, 4, 0, 5, 2, 7, 13, 15, 3, 11, 12, 6, 2, 1, 8, 13, 4, 11, 4, 10, 14, 13, 2, 6, 15, 10, 6, 6, 5, 6, 9, 3, 3, 3, 1, 9, 12, 12, 15, 6, 0, 1, 5, 7, 13, 14, 1, 10, 10, 5, 14, 4, 0, 12, 13, 2, 15, 8, 4],
    ];
    let matrix = Matrix::generate([42; 32]).unwrap();
    assert_eq!(matrix.0[0], expected_rows[0]);
    assert_eq!(matrix.0[1], expected_rows[1]);
    assert_eq!(matrix.0[2], expected_rows[2]);
}

#[test]
fn generate_returns_a_matrix_of_full_rank() {
    for tag in 0..6u8 {
        let matrix = Matrix::generate(seed_of(tag)).unwrap();
        assert_eq!(matrix.compute_rank(), 64);
    }
}

#[test]
fn generate_returns_nibbles_only() {
    for tag in 6..10u8 {
        let matrix = Matrix::generate(seed_of(tag)).unwrap();
        for row in matrix.0.iter() {
            for &entry in row.iter() {
                assert!(entry <= 15);
            }
        }
    }
}

#[test]
fn generate_is_a_function_of_the_seed() {
    let one = Matrix::generate(seed_of(21)).unwrap();
    let two = Matrix::generate(seed_of(21)).unwrap();
    assert_eq!(one, two);
    let other = Matrix::generate(seed_of(22)).unwrap();
    assert_ne!(one, other);
}

#[test]
fn generate_returns_the_first_candidate_of_full_rank() {
    for tag in 30..36u8 {
        let seed = seed_of(tag);
        let mut generator = XoShiRo256PlusPlus::new(kaspa_hashes::Hash::from_bytes(seed));
        let mut candidate = Matrix::rand_matrix_no_rank_check(&mut generator);
        while candidate.compute_rank() != 64 {
            candidate = Matrix::rand_matrix_no_rank_check(&mut generator);
        }
        assert_eq!(Matrix::generate(seed).unwrap(), candidate);
    }
}

#[test]
fn generate_accepts_the_first_candidate_of_a_typical_seed() {
    let mut generator = XoShiRo256PlusPlus::new(kaspa_hashes::Hash::from_bytes([42; 32]));
    let first = Matrix::rand_matrix_no_rank_check(&mut generator);
    assert_eq!(first.compute_rank(), 64);
    assert_eq!(Matrix::generate([42; 32]).unwrap(), first);
}

#[test]
fn generated_matrix_hashes_known_digests() {
    let matrix = Matrix::generate([42; 32]).unwrap();
    let digest: [u8; 32] = [
        82, 46, 212, 218, 28, 192, 143, 92, 213, 66, 86, 63, 245, 241, 155, 189, 73, 159, 229, 180, 202, 105, 159, 166, 109, 172,
        128, 136, 169, 195, 97, 41,
    ];
    assert_eq!(
        matrix.mix(&digest),
        [
            170, 142, 98, 159, 156, 56, 82, 143, 191, 60, 64, 159, 97, 136, 186, 62, 182, 189, 56, 95, 10, 9, 155, 156, 11, 245,
            106, 178, 165, 149, 168, 206,
        ]
    );
    assert_eq!(
        matrix.heavy_hash(digest),
        [
            22, 32, 220, 76, 119, 161, 112, 157, 133, 58, 77, 37, 12, 128, 76, 107, 207, 185, 206, 15, 183, 19, 113, 3, 50, 161,
            91, 52, 195, 35, 130, 161,
        ]
    );
    assert_eq!(
        matrix.heavy_hash([0u8; 32]),
        [
            46, 119, 243, 54, 53, 75, 208, 175, 117, 147, 20, 231, 185, 48, 209, 138, 140, 9, 207, 57, 46, 171, 206, 139, 67, 226,
            221, 35, 73, 33, 236, 187,
        ]
    );
    assert_eq!(
        matrix.0[63],
        [
            10, 5, 11, 14, 12, 1, 12, 7, 12, 8, 10, 5, 6, 10, 0, 7, 5, 6, 11, 11, 13, 12, 0, 13, 0, 6, 11, 0, 14, 4, 2, 1, 12, 7,
            1, 10, 7, 15, 5, 3, 14, 15, 1, 3, 1, 2, 10, 4, 11, 8, 2, 11, 2, 5, 5, 4, 15, 5, 10, 3, 1, 7, 2, 14,
        ]
    );
}
