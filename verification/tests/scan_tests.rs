use mipsmatch::fingerprint::{exact_sig_for_range, Fingerprint};
use mipsmatch::order::{scan_order, segment_eq};
use mipsmatch::scan::{
    address_space_is_used, best_name, choose_name, find_ends_with_jump_table,
    find_only_jump_tables, find_rodata, match_functions, names_for_hash, scan,
};
use mipsmatch::arch::mips::normalize_words;
use mipsmatch::{
    FunctionOffset, FunctionSignature, MIPSFamily, Options, RODataOffset, RODataSignature,
    RODataSignatureType, SegmentOffset, SegmentSignature,
};

fn le(words: &[u32]) -> Vec<u8> {
    let mut out = Vec::new();
    for w in words {
        out.extend_from_slice(&w.to_le_bytes());
    }
    out
}

fn be(words: &[u32]) -> Vec<u8> {
    let mut out = Vec::new();
    for w in words {
        out.extend_from_slice(&w.to_be_bytes());
    }
    out
}

const TEXT_A: [u32; 8] = [
    0x27BDFFE8, 0x00851021, 0x03E00008, 0x00000000, 0x00A62021, 0x00C73021, 0x03E00008,
    0x00000000,
];

const TEXT_B: [u32; 4] = [0x00E84021, 0x01094821, 0x03E00008, 0x00000000];

fn function(name: &str, words: &[u32]) -> FunctionSignature {
    let bytes = le(words);
    FunctionSignature {
        name: name.to_string(),
        fingerprint: exact_sig_for_range(&bytes, &Options::new()),
        size: bytes.len(),
    }
}

fn segment(name: &str, words: &[u32], functions: Vec<FunctionSignature>) -> SegmentSignature {
    let bytes = le(words);
    SegmentSignature {
        name: name.to_string(),
        fingerprint: exact_sig_for_range(&bytes, &Options::new()),
        size: bytes.len(),
        family: MIPSFamily::R3000GTE,
        rodata: None,
        functions,
    }
}

fn segment_a(name: &str) -> SegmentSignature {
    segment(
        name,
        &TEXT_A,
        vec![function("first", &TEXT_A[0..4]), function("second", &TEXT_A[4..8])],
    )
}

fn segment_b(name: &str) -> SegmentSignature {
    segment(name, &TEXT_B, vec![function("third", &TEXT_B)])
}

// two words of other code, A at byte 8, a nop, B at byte 44, a nop
fn image() -> Vec<u8> {
    let mut words: Vec<u32> = vec![0x3C011234, 0x34215678];
    words.extend_from_slice(&TEXT_A);
    words.push(0);
    words.extend_from_slice(&TEXT_B);
    words.push(0);
    le(&words)
}

fn symbol(name: &str, offset: usize, size: usize) -> FunctionOffset {
    FunctionOffset {
        name: name.to_string(),
        offset,
        size,
    }
}

#[test]
fn scan_finds_segments_largest_first() {
    let library = vec![segment_b("b_seg"), segment_a("a_seg")];
    let found = scan(&library, &image(), None, &Options::new());
    assert_eq!(
        found,
        vec![
            SegmentOffset {
                name: "a_seg".to_string(),
                offset: 8,
                size: 32,
                rodata: None,
                symbols: vec![symbol("first", 8, 16), symbol("second", 24, 16)],
            },
            SegmentOffset {
                name: "b_seg".to_string(),
                offset: 44,
                size: 16,
                rodata: None,
                symbols: vec![symbol("third", 44, 16)],
            },
        ]
    );
}

#[test]
fn scan_results_ascend_and_do_not_overlap() {
    let library = vec![
        segment_b("b_seg"),
        segment_a("a_seg"),
        segment("inner", &TEXT_A[2..6], vec![]),
        segment("tail", &TEXT_B[2..4], vec![function("ret", &TEXT_B[2..4])]),
    ];
    let found = scan(&library, &image(), None, &Options::new());
    assert!(found.len() >= 2);
    for s in &found {
        for pair in s.symbols.windows(2) {
            assert!(pair[0].offset < pair[1].offset);
            assert!(pair[0].offset + pair[0].size <= pair[1].offset);
        }
        for f in &s.symbols {
            assert!(s.offset <= f.offset && f.offset + f.size <= s.offset + s.size);
        }
    }
    for (i, a) in found.iter().enumerate() {
        for b in &found[i + 1..] {
            assert!(a.offset + a.size <= b.offset || b.offset + b.size <= a.offset);
            assert!(a.size >= b.size);
        }
    }
    // `inner` and `tail` first occur inside A, which is claimed before them
    let names: Vec<&str> = found.iter().map(|s| s.name.as_str()).collect();
    assert_eq!(names, vec!["a_seg", "b_seg"]);
}

#[test]
fn scan_without_the_larger_segment_finds_the_inner_one() {
    let library = vec![segment("inner", &TEXT_A[2..6], vec![])];
    let found = scan(&library, &image(), None, &Options::new());
    assert_eq!(
        found,
        vec![SegmentOffset {
            name: "inner".to_string(),
            offset: 16,
            size: 16,
            rodata: None,
            symbols: vec![],
        }]
    );
}

#[test]
fn a_dropped_segment_keeps_its_claim() {
    let mut broken = segment_a("broken");
    broken.functions[1].fingerprint = Fingerprint::new_v0(16, broken.functions[1].fingerprint.hash() ^ 1);
    let library = vec![broken, segment("inner", &TEXT_A[2..6], vec![])];
    let found = scan(&library, &image(), None, &Options::new());
    assert_eq!(found, vec![]);
}

#[test]
fn functions_must_be_found_in_their_order() {
    // the functions of A the wrong way round: the second lies before the
    // place at which the search for it starts
    let swapped = segment(
        "swapped",
        &TEXT_A,
        vec![function("second", &TEXT_A[4..8]), function("first", &TEXT_A[0..4])],
    );
    let found = scan(&vec![swapped], &image(), None, &Options::new());
    assert_eq!(found, vec![]);
    // a function that lies behind the end of its segment is not found
    let short = segment("short", &TEXT_A[0..4], vec![function("second", &TEXT_A[4..8])]);
    let found = scan(&vec![short], &image(), None, &Options::new());
    assert_eq!(found, vec![]);
}

#[test]
fn the_most_common_name_wins() {
    let library = vec![segment_a("sword"), segment_a("blade"), segment_a("blade")];
    let found = scan(&library, &image(), None, &Options::new());
    assert_eq!(found.len(), 1);
    assert_eq!(found[0].name, "blade");
    assert_eq!(found[0].offset, 8);

    // two against two: the name that the library gives first
    let library = vec![
        segment_a("sword"),
        segment_a("blade"),
        segment_a("blade"),
        segment_a("sword"),
    ];
    let found = scan(&library, &image(), None, &Options::new());
    assert_eq!(found.len(), 1);
    assert_eq!(found[0].name, "sword");
}

#[test]
fn scan_edges() {
    let options = Options::new();
    assert_eq!(scan(&vec![], &image(), None, &options), vec![]);
    assert_eq!(scan(&vec![segment_a("a")], &[], None, &options), vec![]);
    // an image that ends with the segment
    let bytes = le(&TEXT_B);
    let found = scan(&vec![segment_b("b")], &bytes, None, &options);
    assert_eq!(found.len(), 1);
    assert_eq!(found[0].offset, 0);
    assert_eq!(found[0].symbols, vec![symbol("third", 0, 16)]);
    // an image shorter than the segment
    let found = scan(&vec![segment_b("b")], &bytes[0..12], None, &options);
    assert_eq!(found, vec![]);
}

#[test]
fn the_family_of_the_first_segment_decides_the_byte_order() {
    let mut a = segment_a("a");
    a.family = MIPSFamily::R4000;
    let mut words: Vec<u32> = vec![0x3C011234];
    words.extend_from_slice(&TEXT_A);
    let found = scan(&vec![a.clone()], &be(&words), None, &Options::new());
    assert_eq!(found.len(), 1);
    assert_eq!(found[0].offset, 4);
    let found = scan(&vec![a], &le(&words), None, &Options::new());
    assert_eq!(found, vec![]);
}

#[test]
fn scan_order_is_by_size_then_count_then_place() {
    let library = vec![
        segment_b("b"),
        segment_a("a"),
        segment_b("c"),
        segment_b("c"),
        segment_a("a"),
        segment_b("b"),
        segment_b("d"),
    ];
    // a (32 bytes, twice), then b and c (16 bytes, twice each, b named
    // first), then d (once)
    assert_eq!(scan_order(&library), vec![1, 0, 2, 6]);
    assert_eq!(scan_order(&vec![]), Vec::<usize>::new());
    assert!(segment_eq(&library[0], &library[5]));
    assert!(!segment_eq(&library[0], &library[2]));
    let mut other = segment_b("b");
    other.functions[0].name = "other".to_string();
    assert!(!segment_eq(&library[0], &other));
    let mut other = segment_b("b");
    other.rodata = Some(RODataSignature {
        rodata_type: RODataSignatureType::Unknown,
        size: 4,
    });
    assert!(!segment_eq(&library[0], &other));
}

#[test]
fn match_functions_walks_forward() {
    let options = Options::new();
    let words = normalize_words(&image(), MIPSFamily::R3000GTE);
    let functions = vec![function("first", &TEXT_A[0..4]), function("second", &TEXT_A[4..8])];
    assert_eq!(
        match_functions(&functions, &words, 8, 10, &options),
        Some(vec![symbol("first", 8, 16), symbol("second", 24, 16)])
    );
    assert_eq!(
        match_functions(&functions, &words, 0, 16, &options),
        Some(vec![symbol("first", 8, 16), symbol("second", 24, 16)])
    );
    assert_eq!(match_functions(&functions, &words, 12, 10, &options), None);
    assert_eq!(match_functions(&functions, &words, 8, 9, &options), None);
    assert_eq!(match_functions(&vec![], &words, 8, 10, &options), Some(vec![]));
    // `jr $ra; nop` occurs in A twice and in B
    let ret = vec![
        function("r1", &TEXT_A[2..4]),
        function("r2", &TEXT_A[2..4]),
        function("r3", &TEXT_A[2..4]),
    ];
    assert_eq!(
        match_functions(&ret, &words, 0, 16, &options),
        Some(vec![symbol("r1", 16, 8), symbol("r2", 32, 8), symbol("r3", 52, 8)])
    );
    assert_eq!(match_functions(&ret, &words, 0, 14, &options), None);
}

#[test]
fn claimed_address_space() {
    let claims = vec![(100usize, 50usize), (300, 10)];
    // starts inside a block
    assert!(address_space_is_used(100, 4, &claims));
    assert!(address_space_is_used(149, 400, &claims));
    assert!(address_space_is_used(305, 1, &claims));
    // ends inside a block
    assert!(address_space_is_used(90, 11, &claims));
    assert!(address_space_is_used(90, 60, &claims));
    // touches only
    assert!(!address_space_is_used(90, 10, &claims));
    assert!(!address_space_is_used(150, 10, &claims));
    assert!(!address_space_is_used(150, 150, &claims));
    // lies around a block: neither its start nor its end is inside
    assert!(!address_space_is_used(90, 100, &claims));
    assert!(!address_space_is_used(0, 4, &vec![]));
    // blocks at the end of the address space
    assert!(!address_space_is_used(usize::MAX, usize::MAX, &claims));
    assert!(address_space_is_used(usize::MAX, 1, &vec![(usize::MAX - 1, usize::MAX)]));
    // an empty block claims nothing
    assert!(!address_space_is_used(100, 0, &vec![(100, 0)]));
    assert!(address_space_is_used(100, 0, &claims));
}

#[test]
fn best_names() {
    let names = |v: &[&str]| v.iter().map(|s| s.to_string()).collect::<Vec<String>>();
    assert_eq!(best_name(&names(&[])), None);
    assert_eq!(best_name(&names(&["a"])), Some("a".to_string()));
    assert_eq!(best_name(&names(&["a", "b", "b"])), Some("b".to_string()));
    assert_eq!(best_name(&names(&["a", "b", "b", "a"])), Some("a".to_string()));
    assert_eq!(best_name(&names(&["c", "b", "a"])), Some("c".to_string()));
    assert_eq!(
        best_name(&names(&["c", "b", "a", "b", "a", "a"])),
        Some("a".to_string())
    );
    assert_eq!(choose_name(&names(&[]), &"own".to_string()), "own");
    assert_eq!(choose_name(&names(&["x", "y", "y"]), &"own".to_string()), "y");
    let library = vec![segment_b("b"), segment_a("a"), segment_b("c")];
    assert_eq!(
        names_for_hash(&library, library[0].fingerprint.hash()),
        names(&["b", "c"])
    );
    assert_eq!(names_for_hash(&library, 1), names(&[]));
}

const VRAM: usize = 0x80010000;

// two words of other code, A at byte 8, a nop at 40, three table entries
// at 44, and one more word
fn image_with_table(last: u32) -> Vec<u8> {
    let mut words: Vec<u32> = vec![0x3C011234, 0x34215678];
    words.extend_from_slice(&TEXT_A);
    words.push(0);
    words.extend_from_slice(&[0x80010010, 0x80010018, 0x80010024]);
    words.push(last);
    le(&words)
}

#[test]
fn only_jump_tables() {
    let bytes = image_with_table(1);
    let family = MIPSFamily::R3000GTE;
    let find = |size: usize, bytes: &[u8]| {
        find_only_jump_tables(VRAM + 8, VRAM + 40, 8, 40, size, family, bytes)
    };
    assert_eq!(find(12, &bytes), Some(RODataOffset { offset: 44, size: 12 }));
    assert_eq!(find(8, &bytes), None);
    assert_eq!(find(16, &bytes), None);
    // a run that the image ends is not reported
    assert_eq!(find(12, &bytes[0..56]), None);
    // the bounds of the text are no entries: they end the run
    let edge = image_with_table(0x80010008);
    assert_eq!(find(12, &edge), Some(RODataOffset { offset: 44, size: 12 }));
    let edge = image_with_table(0x80010028);
    assert_eq!(find(12, &edge), Some(RODataOffset { offset: 44, size: 12 }));
    let inside = image_with_table(0x80010009);
    assert_eq!(find(12, &inside), None);
    // a fourth entry makes the run too long
    let longer = image_with_table(0x80010027);
    assert_eq!(find(12, &longer), None);
    assert_eq!(find(12, &[]), None);
    // the first of two runs of the right length
    let mut words: Vec<u32> = vec![0x80010010, 0, 0x80010014, 0x80010018, 0, 0x8001001C, 0];
    assert_eq!(
        find_only_jump_tables(VRAM, VRAM + 0x40, 0x1000, 0x1040, 4, family, &le(&words)),
        Some(RODataOffset { offset: 0, size: 4 })
    );
    words[0] = 0;
    assert_eq!(
        find_only_jump_tables(VRAM, VRAM + 0x40, 0x1000, 0x1040, 4, family, &le(&words)),
        Some(RODataOffset { offset: 20, size: 4 })
    );
    assert_eq!(
        find_only_jump_tables(VRAM, VRAM + 0x40, 0x1000, 0x1040, 8, family, &le(&words)),
        Some(RODataOffset { offset: 8, size: 8 })
    );
    // words of the text itself are passed over, whatever they hold
    let words: Vec<u32> = vec![0x80010010, 0x80010014, 0];
    assert_eq!(
        find_only_jump_tables(VRAM, VRAM + 0x40, 4, 8, 8, family, &le(&words)),
        Some(RODataOffset { offset: 0, size: 8 })
    );
    assert_eq!(
        find_only_jump_tables(VRAM, VRAM + 0x40, 0, 4, 4, family, &le(&words)),
        Some(RODataOffset { offset: 4, size: 4 })
    );
    // big-endian words for the big-endian family
    let words: Vec<u32> = vec![0, 0x80010010, 0x80010014, 0];
    assert_eq!(
        find_only_jump_tables(VRAM, VRAM + 0x40, 0x1000, 0x1040, 8, MIPSFamily::R4000, &be(&words)),
        Some(RODataOffset { offset: 4, size: 8 })
    );
    assert_eq!(
        find_only_jump_tables(VRAM, VRAM + 0x40, 0x1000, 0x1040, 8, MIPSFamily::R4000, &le(&words)),
        None
    );
}

#[test]
fn ends_with_jump_table() {
    let bytes = image_with_table(1);
    let family = MIPSFamily::R3000GTE;
    let find = |size: usize, bytes: &[u8]| {
        find_ends_with_jump_table(VRAM + 8, VRAM + 40, 8, 40, size, family, bytes)
    };
    // the last entry is the word at 52
    assert_eq!(find(20, &bytes), Some(RODataOffset { offset: 36, size: 20 }));
    assert_eq!(find(4, &bytes), Some(RODataOffset { offset: 52, size: 4 }));
    assert_eq!(find(52, &bytes), Some(RODataOffset { offset: 4, size: 52 }));
    // a block that starts at the first byte
    assert_eq!(find(56, &bytes), Some(RODataOffset { offset: 0, size: 56 }));
    // a block that would start before it
    assert_eq!(find(60, &bytes), None);
    assert_eq!(find(57, &bytes), None);
    assert_eq!(find(usize::MAX, &bytes), None);
    // a block of no bytes would start behind the entry
    assert_eq!(find(0, &bytes), Some(RODataOffset { offset: 56, size: 0 }));
    assert_eq!(find(0, &bytes[0..56]), None);
    // no entry at all
    assert_eq!(find(4, &bytes[0..44]), None);
    assert_eq!(find(4, &[]), None);
    // entries inside the text do not count
    let words: Vec<u32> = vec![0, 0x80010010, 0x80010014, 0];
    assert_eq!(
        find_ends_with_jump_table(VRAM, VRAM + 0x40, 8, 12, 4, family, &le(&words)),
        Some(RODataOffset { offset: 4, size: 4 })
    );
}

#[test]
fn rodata_by_kind() {
    let bytes = image_with_table(1);
    let family = MIPSFamily::R3000GTE;
    let kind = |rodata_type: RODataSignatureType, size: usize| {
        Some(RODataSignature { rodata_type, size })
    };
    let vram = Some(VRAM);
    assert_eq!(
        find_rodata(&kind(RODataSignatureType::OnlyJumpTables, 12), &vram, 8, 32, family, &bytes),
        Some(RODataOffset { offset: 44, size: 12 })
    );
    assert_eq!(
        find_rodata(&kind(RODataSignatureType::EndsWithJumpTable, 20), &vram, 8, 32, family, &bytes),
        Some(RODataOffset { offset: 36, size: 20 })
    );
    // the block may start with the image
    assert_eq!(
        find_rodata(&kind(RODataSignatureType::EndsWithJumpTable, 56), &vram, 8, 32, family, &bytes),
        Some(RODataOffset { offset: 0, size: 56 })
    );
    assert_eq!(
        find_rodata(&kind(RODataSignatureType::EndsWithJumpTable, 60), &vram, 8, 32, family, &bytes),
        None
    );
    assert_eq!(
        find_rodata(&kind(RODataSignatureType::StartsWithJumpTable, 12), &vram, 8, 32, family, &bytes),
        None
    );
    assert_eq!(
        find_rodata(
            &kind(RODataSignatureType::StartsAndEndsWithJumpTable, 12),
            &vram,
            8,
            32,
            family,
            &bytes
        ),
        None
    );
    assert_eq!(
        find_rodata(&kind(RODataSignatureType::Unknown, 12), &vram, 8, 32, family, &bytes),
        None
    );
    assert_eq!(
        find_rodata(&kind(RODataSignatureType::OnlyJumpTables, 12), &None, 8, 32, family, &bytes),
        None
    );
    assert_eq!(find_rodata(&None, &vram, 8, 32, family, &bytes), None);
    // another load address: the entries point elsewhere
    assert_eq!(
        find_rodata(
            &kind(RODataSignatureType::OnlyJumpTables, 12),
            &Some(0x80020000),
            8,
            32,
            family,
            &bytes
        ),
        None
    );
}

#[test]
fn scan_locates_rodata() {
    let mut a = segment_a("a");
    a.rodata = Some(RODataSignature {
        rodata_type: RODataSignatureType::OnlyJumpTables,
        size: 12,
    });
    let bytes = image_with_table(1);
    let found = scan(&vec![a.clone()], &bytes, Some(VRAM), &Options::new());
    assert_eq!(found.len(), 1);
    assert_eq!(found[0].offset, 8);
    assert_eq!(found[0].rodata, Some(RODataOffset { offset: 44, size: 12 }));
    let found = scan(&vec![a.clone()], &bytes, None, &Options::new());
    assert_eq!(found[0].rodata, None);
    // addresses that do not fit the machine word
    let found = scan(&vec![a], &bytes, Some(usize::MAX - 16), &Options::new());
    assert_eq!(found.len(), 1);
    assert_eq!(found[0].rodata, None);
}
