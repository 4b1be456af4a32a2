use qrgen::error_correction::ECLevel;
use qrgen::metadata::blocks_table_get;
use qrgen::patterns::PatternMaskType;
use qrgen::qr::{Encoding, EncodingError, QR};

#[test]
fn test_blocks_table() {
    for i in 1..=40 {
        assert!(blocks_table_get(i, ECLevel::L).0 > blocks_table_get(i, ECLevel::M).0, "L > M {}", i);
        assert!(blocks_table_get(i, ECLevel::M).0 > blocks_table_get(i, ECLevel::Q).0, "M > Q {}", i);
        assert!(blocks_table_get(i, ECLevel::Q).0 > blocks_table_get(i, ECLevel::H).0, "Q > H {}", i);
    }
    let mut codewords_sum = 0;
    for i in [ECLevel::L, ECLevel::M, ECLevel::Q, ECLevel::H] {
        for j in 1..=39 {
            assert!(blocks_table_get(j, i).0 < blocks_table_get(j + 1, i).0);
        }
        for j in 1..=40 {
            assert!(blocks_table_get(j, i).1 <= 30);
            codewords_sum += blocks_table_get(j, i).0;
        }
    }
    assert_eq!(codewords_sum, 122300);
}

#[test]
fn test_get_available_modules() {
    for version in 1..=40 {
        let version_size = QR::get_version_size(version);
        let mut qr = QR {
            bitmap: vec![vec![0; version_size]; version_size],
            pattern_mask: vec![vec![PatternMaskType::Free; version_size]; version_size],
            version,
            ec_level: ECLevel::L,
            mask_index: 0,
        };
        qr.apply_patterns();
        let mut empty_cells = 0;
        for vec in qr.pattern_mask.iter() {
            for el in vec.iter() {
                if *el == PatternMaskType::Free {
                    empty_cells += 1;
                }
            }
        }
        assert_eq!(
            empty_cells,
            QR::get_available_modules(version.into()),
            "Empty cells doesn't match on version {}",
            version
        );
    }
}

#[test]
fn every_version_has_room_for_its_codewords() {
    for version in 1..=40u8 {
        for level in [ECLevel::L, ECLevel::M, ECLevel::Q, ECLevel::H] {
            let (n, e, nb) = blocks_table_get(version, level);
            assert!((n + e * nb) * 8 <= QR::get_available_modules(version as usize));
        }
    }
}

#[test]
fn available_modules_of_small_versions() {
    assert_eq!(QR::get_available_modules(1), 208);
    assert_eq!(QR::get_available_modules(2), 359);
    assert_eq!(QR::get_available_modules(7), 1568);
    assert_eq!(QR::get_version_size(1), 21);
    assert_eq!(QR::get_version_size(40), 177);
}

#[test]
fn builds_a_byte_symbol() {
    let text = String::from("https://www.qrcode.com/");
    let qr = QR::new(&text, Encoding::Byte, ECLevel::Q).unwrap();
    assert_eq!(qr.version, 3);
    assert_eq!(qr.ec_level, ECLevel::Q);
    assert!(qr.mask_index < 8);
    assert_eq!(qr.bitmap.len(), 29);
    assert!(qr.bitmap.iter().all(|row| row.len() == 29 && row.iter().all(|b| *b <= 1)));
    // Finder centers and the dark module.
    assert_eq!(qr.bitmap[3][3], 1);
    assert_eq!(qr.bitmap[3][25], 1);
    assert_eq!(qr.bitmap[25][3], 1);
    assert_eq!(qr.bitmap[21][8], 1);
    assert_eq!(qr.pattern_mask[21][8], PatternMaskType::DarkModule);
}

#[test]
fn builds_symbols_with_version_information() {
    let text: String = "0123456789".repeat(30);
    let qr = QR::new(&text, Encoding::Numeric, ECLevel::H).unwrap();
    assert!(qr.version >= 7);
    let n = qr.bitmap.len();
    assert_eq!(qr.pattern_mask[0][n - 11], PatternMaskType::Version);
    assert_eq!(qr.pattern_mask[n - 11][0], PatternMaskType::Version);
    for i in 0..6 {
        for j in 0..3 {
            assert_eq!(qr.bitmap[i][n - 11 + j], qr.bitmap[n - 11 + j][i]);
        }
    }
}

#[test]
fn smallest_version_is_chosen() {
    let qr = QR::new(&String::from("01234567"), Encoding::Numeric, ECLevel::H).unwrap();
    assert_eq!(qr.version, 1);
    let qr = QR::new(&String::from("HELLO WORLD"), Encoding::Alphanumeric, ECLevel::Q).unwrap();
    assert_eq!(qr.version, 1);
    let qr = QR::new(&String::from("HELLO WORLD"), Encoding::Alphanumeric, ECLevel::H).unwrap();
    assert_eq!(qr.version, 2);
}

#[test]
fn encoding_is_deterministic() {
    let text = String::from("DETERMINISM 12345");
    let a = QR::new(&text, Encoding::Alphanumeric, ECLevel::M).unwrap();
    let b = QR::new(&text, Encoding::Alphanumeric, ECLevel::M).unwrap();
    assert_eq!(a.mask_index, b.mask_index);
    assert_eq!(a.bitmap, b.bitmap);
    assert_eq!(a.pattern_mask, b.pattern_mask);
}

#[test]
fn mask_selection_repeats_on_the_same_grid() {
    let text = String::from("mask me twice");
    let done = QR::new(&text, Encoding::Byte, ECLevel::L).unwrap();
    let size = QR::get_version_size(done.version);
    let mut fresh = QR {
        bitmap: vec![vec![0; size]; size],
        pattern_mask: vec![vec![PatternMaskType::Free; size]; size],
        version: done.version,
        ec_level: ECLevel::L,
        mask_index: 0,
    };
    fresh.apply_patterns();
    let mut again = QR {
        bitmap: fresh.bitmap.clone(),
        pattern_mask: fresh.pattern_mask.clone(),
        version: fresh.version,
        ec_level: fresh.ec_level,
        mask_index: 0,
    };
    fresh.apply_masking();
    again.apply_masking();
    assert_eq!(fresh.mask_index, again.mask_index);
    assert_eq!(fresh.bitmap, again.bitmap);
}

#[test]
fn rejects_bad_input() {
    assert_eq!(
        QR::new(&String::from("12a"), Encoding::Numeric, ECLevel::L).err(),
        Some(EncodingError::UnsupportedCharacter('a'))
    );
    assert_eq!(QR::new(&String::from("abc"), Encoding::ECI, ECLevel::L).err(), Some(EncodingError::UnsupportedMode));
    let long: String = "7".repeat(7089);
    assert_eq!(QR::new(&long, Encoding::Numeric, ECLevel::L).err(), Some(EncodingError::CapacityExceeded));
    let fits: String = "7".repeat(7088);
    assert_eq!(QR::new(&fits, Encoding::Numeric, ECLevel::L).unwrap().version, 40);
}

#[test]
fn format_field_changes_with_the_mask() {
    let size = QR::get_version_size(1);
    let mut a = QR {
        bitmap: vec![vec![0; size]; size],
        pattern_mask: vec![vec![PatternMaskType::Free; size]; size],
        version: 1,
        ec_level: ECLevel::M,
        mask_index: 0,
    };
    a.format_pattern();
    // Level M (00), mask 0 (000): the masked field is 101010000010010.
    let expected = [1, 0, 1, 0, 1, 0, 0, 0, 0, 0, 1, 0, 0, 1, 0];
    for i in 0..6 {
        assert_eq!(a.bitmap[8][i], expected[i]);
    }
    assert_eq!(a.bitmap[8][7], expected[6]);
    assert_eq!(a.bitmap[size - 1][8], expected[0]);
}

#[test]
fn version_field_is_least_significant_bit_first() {
    // Version 7 carries the 18-bit field 0x07C94.
    let size = QR::get_version_size(7);
    let mut qr = QR {
        bitmap: vec![vec![0; size]; size],
        pattern_mask: vec![vec![PatternMaskType::Free; size]; size],
        version: 7,
        ec_level: ECLevel::L,
        mask_index: 0,
    };
    qr.apply_patterns();
    let field: u32 = 0x07C94;
    for i in 0..18 {
        let bit = ((field >> i) & 1) as u8;
        assert_eq!(qr.bitmap[i / 3][size - 11 + i % 3], bit, "bit {}", i);
        assert_eq!(qr.bitmap[size - 11 + i % 3][i / 3], bit, "bit {}", i);
    }
}

#[test]
fn walk_reaches_every_free_cell_and_fits_the_codewords() {
    for version in 1..=40u8 {
        let size = QR::get_version_size(version);
        let mut qr = QR {
            bitmap: vec![vec![0; size]; size],
            pattern_mask: vec![vec![PatternMaskType::Free; size]; size],
            version,
            ec_level: ECLevel::L,
            mask_index: 0,
        };
        qr.apply_patterns();
        let capacity = qr.placement_capacity();
        assert_eq!(capacity, QR::get_available_modules(version as usize), "version {}", version);
        for level in [ECLevel::L, ECLevel::M, ECLevel::Q, ECLevel::H] {
            let (n, e, nb) = blocks_table_get(version, level);
            assert!((n + e * nb) * 8 <= capacity);
        }
    }
}

#[test]
fn reserved_cells_keep_their_modules() {
    let size = QR::get_version_size(2);
    let mut qr = QR {
        bitmap: vec![vec![0; size]; size],
        pattern_mask: vec![vec![PatternMaskType::Free; size]; size],
        version: 2,
        ec_level: ECLevel::H,
        mask_index: 0,
    };
    qr.apply_patterns();
    let before = qr.bitmap.clone();
    qr.write_message(vec![0xFF; 44]);
    for r in 0..size {
        for c in 0..size {
            if qr.pattern_mask[r][c] != PatternMaskType::Free {
                assert_eq!(qr.bitmap[r][c], before[r][c]);
            }
        }
    }
    assert_eq!(qr.bitmap[size - 1][size - 1], 1);
}
