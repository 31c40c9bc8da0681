use heavy_hash::order::Order;
use heavy_hash::Matrix;
use kaspa_pow::xoshiro::XoShiRo256PlusPlus;

fn drawn(tag: u8) -> Matrix {
    let mut generator = XoShiRo256PlusPlus::new(kaspa_hashes::Hash::from_bytes([tag; 32]));
    Matrix::rand_matrix_no_rank_check(&mut generator)
}

fn expected(a: &Matrix, b: &Matrix) -> Order {
    if a < b {
        Order::Less
    } else if a > b {
        Order::Greater
    } else {
        Order::Equal
    }
}

#[test]
fn compare_finds_a_matrix_equal_to_itself() {
    let a = drawn(1);
    assert_eq!(a.compare(&a), Order::Equal);
    assert_eq!(a.compare(&drawn(1)), Order::Equal);
    let zero = Matrix([[0u16; 64]; 64]);
    assert_eq!(zero.compare(&Matrix([[0u16; 64]; 64])), Order::Equal);
}

#[test]
fn compare_decides_by_the_first_difference() {
    let mut low = [[5u16; 64]; 64];
    let mut high = [[5u16; 64]; 64];
    low[3][7] = 4;
    high[3][8] = 0;
    high[63][63] = 0;
    assert_eq!(Matrix(low).compare(&Matrix(high)), Order::Less);
    assert_eq!(Matrix(high).compare(&Matrix(low)), Order::Greater);

    // A later row does not outweigh an earlier one.
    let mut first = [[5u16; 64]; 64];
    let mut second = [[5u16; 64]; 64];
    first[0][63] = 6;
    second[1][0] = 0xFFFF;
    assert_eq!(Matrix(first).compare(&Matrix(second)), Order::Greater);
}

#[test]
fn compare_sees_the_last_entry() {
    let base = [[1u16; 64]; 64];
    let mut other = base;
    other[63][63] = 2;
    assert_eq!(Matrix(base).compare(&Matrix(other)), Order::Less);
    assert_eq!(Matrix(other).compare(&Matrix(base)), Order::Greater);
}

#[test]
fn compare_agrees_with_the_derived_order() {
    let all: Vec<Matrix> = (0..8u8).map(drawn).collect();
    for a in all.iter() {
        for b in all.iter() {
            assert_eq!(a.compare(b), expected(a, b));
        }
    }
}

#[test]
fn compare_is_antisymmetric_and_transitive() {
    let all: Vec<Matrix> = (10..16u8).map(drawn).collect();
    for a in all.iter() {
        for b in all.iter() {
            let forth = a.compare(b);
            let back = b.compare(a);
            assert_eq!(forth == Order::Less, back == Order::Greater);
            assert_eq!(forth == Order::Equal, back == Order::Equal);
            for c in all.iter() {
                if forth != Order::Greater && b.compare(c) != Order::Greater {
                    assert!(a.compare(c) != Order::Greater);
                }
            }
        }
    }
}
