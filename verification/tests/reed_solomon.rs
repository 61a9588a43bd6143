//! The field, the codes over it, and what they correct.
use barclean::clean::blocks::{decode_block, Code};
use barclean::clean::field::{
    exp_in, inverse_in, mul_in, DATA_MATRIX_POLYNOMIAL, QR_POLYNOMIAL,
};
use barclean::clean::reed_solomon::{decode_with_erasures, differing_positions, syndromes};

/// Multiplies a polynomial, highest power first, by `x - root`.
fn times_root(p: u8, poly: &[u8], root: u8) -> Vec<u8> {
    let mut out = vec![0u8; poly.len() + 1];
    for (i, &c) in poly.iter().enumerate() {
        out[i] ^= c;
        out[i + 1] ^= mul_in(p, c, root);
    }
    out
}

/// Appends `ecc` check codewords to `data`.
fn encode(p: u8, base: usize, data: &[u8], ecc: usize) -> Vec<u8> {
    let mut generator = vec![1u8];
    for j in 0..ecc {
        generator = times_root(p, &generator, exp_in(p, base + j));
    }
    let mut rest: Vec<u8> = data.to_vec();
    rest.extend(vec![0u8; ecc]);
    for i in 0..data.len() {
        let lead = rest[i];
        for (j, &g) in generator.iter().enumerate() {
            rest[i + j] ^= mul_in(p, lead, g);
        }
    }
    let mut word = data.to_vec();
    word.extend_from_slice(&rest[data.len()..]);
    word
}

#[test]
fn the_fields_multiply_as_their_polynomials_say() {
    assert_eq!(mul_in(QR_POLYNOMIAL, 0x80, 2), 0x1D);
    assert_eq!(mul_in(DATA_MATRIX_POLYNOMIAL, 0x80, 2), 0x2D);
    assert_eq!(exp_in(QR_POLYNOMIAL, 8), 0x1D);
    assert_eq!(exp_in(QR_POLYNOMIAL, 255), 1);
    for p in [QR_POLYNOMIAL, DATA_MATRIX_POLYNOMIAL] {
        for a in 1..=255u8 {
            assert_eq!(mul_in(p, a, inverse_in(p, a)), 1);
            assert_eq!(mul_in(p, a, 1), a);
            assert_eq!(mul_in(p, a, 0), 0);
        }
    }
}

#[test]
fn version_one_check_codewords_are_the_published_ones() {
    // "HELLO WORLD" in a version 1-M symbol.
    let data = [
        32u8, 91, 11, 120, 209, 114, 220, 77, 67, 64, 236, 17, 236, 17, 236, 17,
    ];
    let word = encode(QR_POLYNOMIAL, 0, &data, 10);
    assert_eq!(&word[16..], &[196u8, 35, 39, 119, 235, 215, 231, 226, 93, 23]);
    assert_eq!(syndromes(QR_POLYNOMIAL, 0, &word, 10), vec![0u8; 10]);
}

#[test]
fn erasures_cost_one_unit_and_errors_two() {
    let data: Vec<u8> = (0..16).map(|i| i * 13 + 5).collect();
    let word = encode(QR_POLYNOMIAL, 0, &data, 10);
    for (errors, erasures) in [(0usize, 10usize), (1, 8), (2, 6), (3, 4), (4, 2), (5, 0)] {
        let mut received = word.clone();
        let erased: Vec<usize> = (0..erasures).map(|i| 2 * i).collect();
        for &i in &erased {
            received[i] ^= 0x5A;
        }
        for e in 0..errors {
            received[2 * e + 1] ^= 0xC3;
        }
        let (fixed, damaged) =
            decode_with_erasures(QR_POLYNOMIAL, 0, &received, 10, &erased).expect("within budget");
        assert_eq!(fixed, word);
        assert_eq!(damaged, differing_positions(&received, &word));
        assert_eq!(damaged.len(), errors + erasures);
    }
}

#[test]
fn more_than_the_budget_is_refused() {
    let data: Vec<u8> = (0..16).map(|i| i * 7).collect();
    let word = encode(QR_POLYNOMIAL, 0, &data, 10);
    let erased: Vec<usize> = (0..11).collect();
    assert!(decode_with_erasures(QR_POLYNOMIAL, 0, &word, 10, &erased).is_none());
}

#[test]
fn an_erased_codeword_that_was_right_is_not_damaged() {
    let data: Vec<u8> = (0..16).collect();
    let word = encode(QR_POLYNOMIAL, 0, &data, 10);
    let (fixed, damaged) =
        decode_with_erasures(QR_POLYNOMIAL, 0, &word, 10, &[3, 4]).expect("a codeword");
    assert_eq!(fixed, word);
    assert!(damaged.is_empty());
}

#[test]
fn blocks_of_both_codes_are_corrected_plainly_and_with_erasures() {
    for (code, p, base) in
        [(Code::Qr, QR_POLYNOMIAL, 0), (Code::DataMatrix, DATA_MATRIX_POLYNOMIAL, 1)]
    {
        let data: Vec<u8> = (0..22).map(|i| 200 - 3 * i).collect();
        let word = encode(p, base, &data, 18);

        let (clean, none) = decode_block(code, &word, 18, &[]).expect("sound");
        assert_eq!(clean, word);
        assert!(none.is_empty());

        let mut nine = word.clone();
        for i in 0..9 {
            nine[4 * i] ^= 1 + i as u8;
        }
        let (fixed, damaged) = decode_block(code, &nine, 18, &[]).expect("nine errors");
        assert_eq!(fixed, word);
        assert_eq!(damaged, (0..9).map(|i| 4 * i).collect::<Vec<usize>>());

        let mut many = word.clone();
        let erased: Vec<usize> = (10..28).collect();
        for &i in &erased {
            many[i] ^= 0xFF;
        }
        assert!(decode_block(code, &many, 18, &[]).is_none(), "eighteen errors are too many");
        let (fixed, damaged) = decode_block(code, &many, 18, &erased).expect("eighteen erasures");
        assert_eq!(fixed, word);
        assert_eq!(damaged, erased);
    }
}
