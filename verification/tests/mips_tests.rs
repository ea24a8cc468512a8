use mipsmatch::arch::mips::{
    be_bytes_to_u32, bs_bytes_to_u32, bytes_to_be_instruction, bytes_to_le_instruction,
    bytes_to_normalized_instruction, determine_bin_fmt, le_bytes_to_u32, ls_bytes_to_u32,
    normalize_instruction, normalize_words, read_word, BinFormat, InstrType,
};
use mipsmatch::arch::n64::n64_to_z64;
use mipsmatch::MIPSFamily;

const BE_JR_RA_BYTES: [u8; 8] = [0x08, 0x00, 0xe0, 0x03, 0, 0, 0, 0];
const LE_JR_RA_BYTES: [u8; 8] = [0x03, 0xe0, 0x00, 0x08, 0, 0, 0, 0];
const BS_JR_RA_BYTES: [u8; 8] = [0x00, 0x08, 0x03, 0xe0, 0, 0, 0, 0];
const LS_JR_RA_BYTES: [u8; 8] = [0xE0, 0x03, 0x08, 0x00, 0, 0, 0, 0];

#[test]
fn bytes_to_instruction() {
    let result = bytes_to_le_instruction(&[3, 2, 1, 0]);
    assert_eq!(result, 0x00010203);
}

#[test]
fn bytes_conversion() {
    assert_eq!(be_bytes_to_u32(&BE_JR_RA_BYTES), 0x0800E003);
    assert_eq!(le_bytes_to_u32(&LE_JR_RA_BYTES), 0x0800E003);
    assert_eq!(bs_bytes_to_u32(&BS_JR_RA_BYTES), 0x0800E003);

    assert_eq!(BinFormat::BigEndian.to_canonical(&BE_JR_RA_BYTES), 0x0800E003);
    assert_eq!(
        BinFormat::LittleEndian.to_canonical(&LE_JR_RA_BYTES),
        0x0800E003
    );
    assert_eq!(BinFormat::BigSwapped.to_canonical(&BS_JR_RA_BYTES), 0x0800E003);
    assert_eq!(
        BinFormat::LittleSwapped.to_canonical(&LS_JR_RA_BYTES),
        0x0800E003
    );
}

#[test]
fn test_determine_bin_fmt() {
    assert_eq!(determine_bin_fmt(&BE_JR_RA_BYTES), Some(BinFormat::BigEndian));
    assert_eq!(
        determine_bin_fmt(&LE_JR_RA_BYTES),
        Some(BinFormat::LittleEndian)
    );
    assert_eq!(determine_bin_fmt(&BS_JR_RA_BYTES), Some(BinFormat::BigSwapped));
    assert_eq!(
        determine_bin_fmt(&LS_JR_RA_BYTES),
        Some(BinFormat::LittleSwapped)
    );
    assert_eq!(determine_bin_fmt(&[1, 2, 3, 4]), None);
}

#[test]
fn mask_instructions() {
    assert_eq!(
        normalize_instruction(0x00010203, MIPSFamily::R3000GTE),
        0x00010203
    );
    assert_eq!(
        normalize_instruction(0x08010203, MIPSFamily::R3000GTE),
        0x08000000
    );
    assert_eq!(
        normalize_instruction(0x0C010203, MIPSFamily::R3000GTE),
        0x0C000000
    );
    assert_eq!(
        normalize_instruction(0xF0010203, MIPSFamily::R3000GTE),
        0xF0010000
    );
}

#[test]
fn ls_bytes_conversion() {
    assert_eq!(ls_bytes_to_u32(&LS_JR_RA_BYTES), 0x0800E003);
    assert_eq!(bytes_to_be_instruction(&[0, 1, 2, 3]), 0x00010203);
}

#[test]
fn normalization_keeps_opcode_and_masks_operands_for_every_family() {
    let families = [
        MIPSFamily::R3000GTE,
        MIPSFamily::R4000,
        MIPSFamily::R4000Allegrex,
        MIPSFamily::R5900,
    ];
    let words: [u32; 8] = [
        0x00000000, 0x03E00008, 0x0BFFFFFF, 0x0FFFFFFF, 0x27BDFFE8, 0xFFFFFFFF, 0x04110001,
        0x7000ABCD,
    ];
    for family in families {
        for word in words {
            let mask: u32 = match word >> 26 {
                0 => 0xFFFF_FFFF,
                2 | 3 => 0xFC00_0000,
                _ => 0xFFFF_0000,
            };
            let normal = normalize_instruction(word, family);
            assert_eq!(normal & mask, word & mask);
            assert_eq!(normal & !mask, 0);
            assert_eq!(normalize_instruction(normal, family), normal);
        }
    }
}

#[test]
fn words_are_read_in_the_byte_order_of_the_family() {
    let bytes = [0x27, 0xBD, 0xFF, 0xE8];
    assert_eq!(read_word(&bytes, MIPSFamily::R4000), 0x27BDFFE8);
    assert_eq!(read_word(&bytes, MIPSFamily::R3000GTE), 0xE8FFBD27);
    assert_eq!(read_word(&bytes, MIPSFamily::R5900), 0xE8FFBD27);
    assert_eq!(
        bytes_to_normalized_instruction(&bytes, MIPSFamily::R4000),
        0x27BD0000
    );
    assert_eq!(
        bytes_to_normalized_instruction(&bytes, MIPSFamily::R4000Allegrex),
        0xE8FF0000
    );
}

#[test]
fn normalize_words_drops_a_trailing_partial_word() {
    let bytes = [0x08, 0x00, 0xE0, 0x03, 0x34, 0x12, 0x00, 0x0C, 0xAA, 0xBB];
    assert_eq!(
        normalize_words(&bytes, MIPSFamily::R3000GTE),
        vec![0x03E00008, 0x0C000000]
    );
    assert_eq!(normalize_words(&[], MIPSFamily::R3000GTE), Vec::<u32>::new());
}

#[test]
fn bin_format_ties_go_to_the_earlier_layout() {
    let be = [0x08, 0x00, 0xe0, 0x03];
    let le = [0x03, 0xe0, 0x00, 0x08];
    let bs = [0x00, 0x08, 0x03, 0xe0];
    let ls = [0xe0, 0x03, 0x08, 0x00];
    let image = |be_n: usize, le_n: usize, bs_n: usize, ls_n: usize| {
        let mut bytes: Vec<u8> = Vec::new();
        for (pattern, n) in [(ls, ls_n), (bs, bs_n), (le, le_n), (be, be_n)] {
            for _ in 0..n {
                bytes.extend_from_slice(&pattern);
                bytes.extend_from_slice(&[0, 0, 0, 0]);
            }
        }
        bytes
    };
    // one big-endian and one little-endian pattern
    let bytes = [0x08, 0x00, 0xe0, 0x03, 0x03, 0xe0, 0x00, 0x08];
    assert_eq!(determine_bin_fmt(&bytes), Some(BinFormat::BigEndian));
    assert_eq!(determine_bin_fmt(&image(1, 1, 0, 0)), Some(BinFormat::BigEndian));
    assert_eq!(determine_bin_fmt(&image(1, 1, 1, 1)), Some(BinFormat::BigEndian));
    // the greatest count wins, the earlier of two greatest ones
    assert_eq!(determine_bin_fmt(&image(2, 3, 3, 0)), Some(BinFormat::LittleEndian));
    assert_eq!(determine_bin_fmt(&image(0, 2, 2, 2)), Some(BinFormat::LittleEndian));
    assert_eq!(determine_bin_fmt(&image(1, 0, 2, 2)), Some(BinFormat::BigSwapped));
    assert_eq!(determine_bin_fmt(&image(0, 0, 1, 1)), Some(BinFormat::BigSwapped));
    assert_eq!(determine_bin_fmt(&image(3, 3, 3, 4)), Some(BinFormat::LittleSwapped));
    assert_eq!(determine_bin_fmt(&image(1, 2, 3, 2)), Some(BinFormat::BigSwapped));
    assert_eq!(determine_bin_fmt(&image(3, 1, 3, 2)), Some(BinFormat::BigEndian));
    assert_eq!(determine_bin_fmt(&image(0, 0, 0, 0)), None);
    // two big-endian patterns against one little-endian one
    let bytes = [
        0x08, 0x00, 0xe0, 0x03, 0x03, 0xe0, 0x00, 0x08, 0x08, 0x00, 0xe0, 0x03,
    ];
    assert_eq!(determine_bin_fmt(&bytes), Some(BinFormat::BigEndian));
    assert_eq!(determine_bin_fmt(&[]), None);
    // a pattern that is not aligned does not count
    let bytes = [0x00, 0x08, 0x00, 0xe0, 0x03, 0x00, 0x00, 0x00];
    assert_eq!(determine_bin_fmt(&bytes), None);
    // a trailing partial word is left alone
    let bytes = [0xE0, 0x03, 0x08, 0x00, 0x08, 0x00];
    assert_eq!(determine_bin_fmt(&bytes), Some(BinFormat::LittleSwapped));
}

#[test]
fn instr_type_from_code() {
    assert_eq!(InstrType::from_u32(0), InstrType::InstrTypeUnknown);
    assert_eq!(InstrType::from_u32(1), InstrType::InstrTypeJ);
    assert_eq!(InstrType::from_u32(2), InstrType::InstrTypeI);
    assert_eq!(InstrType::from_u32(3), InstrType::InstrTypeR);
    assert_eq!(InstrType::from_u32(4), InstrType::InstrTypeRegImm);
    assert_eq!(InstrType::from_u32(5), InstrType::InstrTypeMax);
    assert_eq!(InstrType::from_u32(6), InstrType::InstrTypeUnknown);
}

#[test]
fn n64_pairs_are_swapped() {
    assert_eq!(n64_to_z64(&[1, 2, 3, 4]), vec![2, 1, 4, 3]);
    assert_eq!(n64_to_z64(&[]), Vec::<u8>::new());
    assert_eq!(n64_to_z64(&n64_to_z64(&[9, 8, 7, 6, 5, 4])), vec![9, 8, 7, 6, 5, 4]);
}
