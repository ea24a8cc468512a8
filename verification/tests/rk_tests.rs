use mipsmatch::arch::mips::{bytes_to_normalized_instruction, normalize_words};
use mipsmatch::rk::{find_window, horner_hash, power_mod, RabinKarpMIPSHasher};
use mipsmatch::scan::find;
use mipsmatch::MIPSFamily;
use mipsmatch::Options;

fn hash(bytes: &[u8]) -> u64 {
    let mut hasher = RabinKarpMIPSHasher::new(MIPSFamily::R3000GTE);
    hasher.write(bytes);
    hasher.finish()
}

const JR_RA_NOPS: [u8; 24] = [
    0x08, 0x00, 0xE0, 0x03, // jr $ra
    0, 0, 0, 0, // nop
    0, 0, 0, 0, // nop
    0, 0, 0, 0, // nop
    0, 0, 0, 0, // nop
    0, 0, 0, 0, // nop
];

const RETURN_ZERO_NOPS: [u8; 32] = [
    0, 0, 0, 0, // nop
    0, 0, 0, 0, // nop
    0, 0, 0, 0, // nop
    0x08, 0x00, 0xE0, 0x03, // jr $ra
    0x21, 0x10, 0x00, 0x00, // addu $v0, $zero, $zero
    0, 0, 0, 0, // nop
    0, 0, 0, 0, // nop
    0, 0, 0, 0, // nop
];

#[test]
fn test_empty_hash() {
    assert_eq!(RabinKarpMIPSHasher::new(MIPSFamily::R3000GTE).finish(), 0);
    assert_eq!(hash(&[]), 0);
}

#[test]
fn test_hash() {
    let nop: [u8; 4] = [0, 0, 0, 0];

    let h = hash(&nop);
    assert_eq!(h, 0);

    let h = hash(&JR_RA_NOPS[4..12]);
    assert_eq!(h, 0);

    let h = hash(&JR_RA_NOPS[0..8]);
    assert_eq!(h, 0x41E00088);

    let h = hash(&JR_RA_NOPS[0..12]);
    assert_eq!(h, 0x5FE0094C);
}

#[test]
fn test_fletcher_64() {
    let mut hasher = RabinKarpMIPSHasher::new_fletcher_64(MIPSFamily::R3000GTE);

    hasher.write(&JR_RA_NOPS[0..8]);
    assert_eq!(hasher.finish(), 0x3E00008);
    let mut hasher = RabinKarpMIPSHasher::new_fletcher_64(MIPSFamily::R3000GTE);

    // additional NOPs don't effect the fletcher checksum
    hasher.write(&JR_RA_NOPS[0..12]);
    assert_eq!(hasher.finish(), 0x3E00008);
}

#[test]
fn test_find() {
    let mut hasher = RabinKarpMIPSHasher::new(MIPSFamily::R3000GTE);

    assert_eq!(hasher.find(0, 0, &JR_RA_NOPS), Some(0));

    assert_eq!(hasher.find(0x41E00088, 8, &JR_RA_NOPS), Some(0));

    assert_eq!(hasher.find(0x5FE0094C, 12, &JR_RA_NOPS), Some(0));

    hasher.write(&RETURN_ZERO_NOPS[12..16]);
    let h = hasher.finish();
    println!("hash: 0x{h:08X}");

    let options = Options::new();
    let words = RETURN_ZERO_NOPS
        .chunks(4)
        .map(|b| bytes_to_normalized_instruction(b, options.mips_family))
        .collect::<Vec<u32>>();
    let i = find(h, 1, &words, 0, words.len(), &options);
    assert_eq!(i, Some(12));

    assert_eq!(hasher.find(h, 4, &RETURN_ZERO_NOPS), Some(12));
}

fn horner(words: &[u32], modulus: u64) -> u64 {
    let mut acc: u128 = 0;
    for w in words {
        acc = ((acc << 32) + (*w as u128)) % (modulus as u128);
    }
    acc as u64
}

#[test]
fn write_is_the_horner_fold_of_the_normalized_words() {
    let bytes: [u8; 16] = [
        0xE8, 0xFF, 0xBD, 0x27, // addiu $sp, $sp, -24
        0x34, 0x12, 0x00, 0x0C, // jal
        0x08, 0x00, 0xE0, 0x03, // jr $ra
        0x18, 0x00, 0xBD, 0x27, // addiu $sp, $sp, 24
    ];
    let words = [0x27BD0000u32, 0x0C000000, 0x03E00008, 0x27BD0000];
    assert_eq!(normalize_words(&bytes, MIPSFamily::R3000GTE), words.to_vec());
    for modulus in [0xFFFFFFEFu64, 0xFFFFFFFF, 3, 1, 0xFFFF_FFFF_FFFF_FFC5] {
        let mut hasher = RabinKarpMIPSHasher::new_with_modulus(MIPSFamily::R3000GTE, modulus);
        hasher.write(&bytes);
        assert_eq!(hasher.finish(), horner(&words, modulus));
        // writing in two parts goes on from the first part
        let mut parts = RabinKarpMIPSHasher::new_with_modulus(MIPSFamily::R3000GTE, modulus);
        parts.write(&bytes[0..4]);
        parts.write(&bytes[4..16]);
        assert_eq!(parts.finish(), hasher.finish());
    }
    assert_eq!(horner(&words, 0xFFFFFFEF), hash(&bytes));
}

#[test]
fn big_endian_family_reads_big_endian_words() {
    let mut hasher = RabinKarpMIPSHasher::new(MIPSFamily::R4000);
    hasher.write(&[0x03, 0xE0, 0x00, 0x08, 0, 0, 0, 0]);
    assert_eq!(hasher.finish(), 0x41E00088);
}

#[test]
fn appended_nops_change_the_default_hash_only() {
    assert_ne!(hash(&JR_RA_NOPS[0..8]), hash(&JR_RA_NOPS[0..12]));
    assert_ne!(hash(&JR_RA_NOPS[0..12]), hash(&JR_RA_NOPS[0..16]));
    let mut a = RabinKarpMIPSHasher::new_fletcher_64(MIPSFamily::R3000GTE);
    a.write(&JR_RA_NOPS[0..8]);
    let mut b = RabinKarpMIPSHasher::new_fletcher_64(MIPSFamily::R3000GTE);
    b.write(&JR_RA_NOPS[0..24]);
    assert_eq!(a.finish(), b.finish());
}

#[test]
fn single_steps() {
    assert_eq!(horner_hash(0, 0, 4294967296, 0xFFFFFFEF), 0);
    assert_eq!(horner_hash(0, 7, 4294967296, 0xFFFFFFEF), 7);
    assert_eq!(horner_hash(1, 0, 4294967296, 0xFFFFFFEF), 17);
    assert_eq!(horner_hash(0x03E00008, 0, 4294967296, 0xFFFFFFEF), 0x41E00088);
    assert_eq!(horner_hash(u64::MAX, u32::MAX, u64::MAX, 1), 0);
    assert_eq!(horner_hash(u64::MAX, 5, u64::MAX, u64::MAX), 5);
    let hasher = RabinKarpMIPSHasher::new(MIPSFamily::R3000GTE);
    assert_eq!(hasher.horner_hash(1, 3), 20);
    assert_eq!(hasher.hash_be_mips_bytes(1, &[3, 0, 0, 0]), 20);
    assert_eq!(power_mod(4294967296, 0, 0xFFFFFFEF), 1);
    assert_eq!(power_mod(4294967296, 1, 0xFFFFFFEF), 17);
    assert_eq!(power_mod(4294967296, 2, 0xFFFFFFEF), 289);
    assert_eq!(power_mod(4294967296, 5, 1), 0);
}

#[test]
fn find_returns_the_first_of_several_matches() {
    let hasher = RabinKarpMIPSHasher::new(MIPSFamily::R3000GTE);
    // the window of two nops occurs at 4, 8, 12, 16
    assert_eq!(hasher.find(0, 8, &JR_RA_NOPS), Some(4));
    // the hash of `addu; nop` first occurs at 16
    let needle = hash(&RETURN_ZERO_NOPS[16..24]);
    assert_eq!(hasher.find(needle, 8, &RETURN_ZERO_NOPS), Some(16));
    // a needle at the very end of the haystack
    let needle = hash(&RETURN_ZERO_NOPS[12..32]);
    assert_eq!(hasher.find(needle, 20, &RETURN_ZERO_NOPS), Some(12));
    // the whole haystack
    let needle = hash(&RETURN_ZERO_NOPS);
    assert_eq!(hasher.find(needle, 32, &RETURN_ZERO_NOPS), Some(0));
}

#[test]
fn find_needle_at_every_aligned_offset() {
    let needle_bytes: [u8; 8] = [0x08, 0x00, 0xE0, 0x03, 0x21, 0x10, 0x00, 0x00];
    let needle = hash(&needle_bytes);
    let hasher = RabinKarpMIPSHasher::new(MIPSFamily::R3000GTE);
    for words_before in 0..6usize {
        let mut haystack: Vec<u8> = Vec::new();
        for i in 0..words_before {
            haystack.extend_from_slice(&[0x01, 0x00, (i as u8) + 1, 0x24]);
        }
        haystack.extend_from_slice(&needle_bytes);
        haystack.extend_from_slice(&[0, 0, 0, 0]);
        assert_eq!(hasher.find(needle, 8, &haystack), Some(4 * words_before));
    }
}

#[test]
fn find_misses() {
    let hasher = RabinKarpMIPSHasher::new(MIPSFamily::R3000GTE);
    // haystack shorter than the needle
    assert_eq!(hasher.find(0, 28, &JR_RA_NOPS), None);
    assert_eq!(hasher.find(0, 4, &[]), None);
    // an empty needle is found at once, whatever its hash
    assert_eq!(hasher.find(12345, 0, &JR_RA_NOPS), Some(0));
    assert_eq!(hasher.find(12345, 0, &[]), Some(0));
    // no window has this hash
    assert_eq!(hasher.find(1, 4, &JR_RA_NOPS), None);
    assert_eq!(hasher.find(0x41E00088, 8, &JR_RA_NOPS[4..]), None);
}

#[test]
fn find_window_respects_the_range() {
    let words: Vec<u32> = vec![5, 0, 0, 5, 0, 0, 9];
    let q = 0xFFFFFFEFu64;
    let r = 4294967296u64;
    let needle = horner(&[5, 0], q);
    assert_eq!(find_window(needle, 2, &words, 0, 7, r, q), Some(0));
    assert_eq!(find_window(needle, 2, &words, 1, 7, r, q), Some(3));
    assert_eq!(find_window(needle, 2, &words, 1, 4, r, q), None);
    assert_eq!(find_window(needle, 2, &words, 1, 5, r, q), Some(3));
    assert_eq!(find_window(needle, 2, &words, 4, 7, r, q), None);
    assert_eq!(find_window(needle, 0, &words, 4, 7, r, q), Some(4));
    assert_eq!(find_window(needle, 4, &words, 4, 7, r, q), None);
    let last = horner(&[0, 9], q);
    assert_eq!(find_window(last, 2, &words, 0, 7, r, q), Some(5));
    assert_eq!(find_window(last, 2, &words, 0, 6, r, q), None);
}

#[test]
fn scan_find_gives_byte_offsets_and_rejects_bad_ranges() {
    let words: Vec<u32> = vec![5, 0, 0, 5, 0, 0, 9];
    let options = Options::new();
    let needle = horner(&[5, 0], options.modulus);
    assert_eq!(find(needle, 2, &words, 0, 7, &options), Some(0));
    assert_eq!(find(needle, 2, &words, 1, 7, &options), Some(12));
    assert_eq!(find(needle, 2, &words, 5, 4, &options), None);
    assert_eq!(find(needle, 2, &words, 0, 8, &options), None);
    assert_eq!(find(needle, 0, &words, 3, 7, &options), Some(12));
}
