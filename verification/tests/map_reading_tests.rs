use mipsmatch::map::{
    check_all_places, check_all_spans, is_object_path, read_rodata, read_segments, FunctionEntry,
    MapSection, MapSegment, ObjectMap, SegmentInfo,
};

fn section(path: &str, vram: usize, size: usize) -> MapSection {
    MapSection {
        filepath: path.to_string(),
        vram,
        size,
        vrom: Some(vram - 0x80010000 + 0x1000),
    }
}

fn entry(name: &str, offset: usize, vram: usize, size: usize) -> FunctionEntry {
    FunctionEntry {
        name: name.to_string(),
        offset,
        vram,
        size,
    }
}

fn text() -> Vec<MapSegment> {
    vec![
        MapSegment {
            vram: 0x80010000,
            vrom: 0x1000,
            sections: vec![
                section("build/header.bin", 0x80010000, 0x10),
                section("build/sword.c.o", 0x80010010, 0x20),
                section("build/linker.ld", 0x80010030, 0),
                section("build/sword.c.o", 0x80010030, 0x10),
                section("build/common.s.o", 0x80010040, 0x20),
                section("build/sword.c.o", 0x80010060, 0x8),
            ],
        },
        MapSegment {
            vram: 0x80020000,
            vrom: 0x3000,
            sections: vec![],
        },
        MapSegment {
            vram: 0x80030000,
            vrom: 0x5000,
            sections: vec![MapSection {
                filepath: "build/other.o".to_string(),
                vram: 0x80030008,
                size: 0x18,
                vrom: Some(0x5008),
            }],
        },
    ]
}

fn rodata() -> Vec<MapSegment> {
    vec![
        MapSegment {
            vram: 0x80010000,
            vrom: 0x1000,
            sections: vec![
                section("build/common.s.o", 0x80010100, 0x10),
                section("build/sword.c.o", 0x80010110, 0x10),
                section("build/common.s.o", 0x80010120, 0x14),
            ],
        },
        MapSegment {
            vram: 0x80030000,
            vrom: 0x5000,
            sections: vec![section("build/sword.c.o", 0x80030100, 0x40)],
        },
    ]
}

fn symbols() -> Vec<FunctionEntry> {
    vec![
        entry("late", 0, 0x80010038, 8),
        entry("hello", 0, 0x80010020, 0x10),
        entry("goodbye", 0, 0x80010010, 0x10),
        entry("shared", 0, 0x80010040, 0x20),
        entry("again", 0, 0x80010060, 8),
        entry("head", 0, 0x80010000, 0x10),
        entry("far", 0, 0x80030010, 0x10),
    ]
}

#[test]
fn objects_of_a_map() {
    let objects = read_segments(&text(), &rodata(), &symbols()).unwrap();
    assert_eq!(
        objects,
        vec![
            ObjectMap {
                object: "build/sword.c.o".to_string(),
                offset: 0x1010,
                vram: 0x80010010,
                vrom: 0x1000,
                size: 0x30,
                rodata: Some(SegmentInfo {
                    vram: 0x80010110,
                    vrom: 0x1110,
                    size: 0x10,
                }),
                text_symbols: vec![
                    entry("goodbye", 0x1010, 0x80010010, 0x10),
                    entry("hello", 0x1020, 0x80010020, 0x10),
                    entry("late", 0x1038, 0x80010038, 8),
                ],
            },
            ObjectMap {
                object: "build/common.s.o".to_string(),
                offset: 0x1040,
                vram: 0x80010040,
                vrom: 0x1000,
                size: 0x20,
                rodata: Some(SegmentInfo {
                    vram: 0x80010100,
                    vrom: 0x1100,
                    size: 0x34,
                }),
                text_symbols: vec![entry("shared", 0x1040, 0x80010040, 0x20)],
            },
            ObjectMap {
                object: "build/sword.c.o".to_string(),
                offset: 0x1060,
                vram: 0x80010060,
                vrom: 0x1000,
                size: 0x8,
                rodata: Some(SegmentInfo {
                    vram: 0x80010110,
                    vrom: 0x1110,
                    size: 0x10,
                }),
                text_symbols: vec![entry("again", 0x1060, 0x80010060, 8)],
            },
            ObjectMap {
                object: "build/other.o".to_string(),
                offset: 0x5008,
                vram: 0x80030008,
                vrom: 0x5000,
                size: 0x18,
                rodata: None,
                text_symbols: vec![entry("far", 0x5010, 0x80030010, 0x10)],
            },
        ]
    );
    assert_eq!(objects[0].name(), Some("sword".to_string()));
    assert_eq!(read_segments(&vec![], &rodata(), &symbols()), Some(vec![]));
    let bare = read_segments(&text(), &vec![], &vec![]).unwrap();
    assert_eq!(bare.len(), 4);
    assert_eq!(bare[0].rodata, None);
    assert_eq!(bare[0].text_symbols, vec![]);
}

#[test]
fn rodata_of_an_object() {
    let segments = rodata();
    assert_eq!(
        read_rodata(&segments, &"build/sword.c.o".to_string()),
        Some(SegmentInfo {
            vram: 0x80010110,
            vrom: 0x1110,
            size: 0x10,
        })
    );
    assert_eq!(
        read_rodata(&segments[1..].to_vec(), &"build/sword.c.o".to_string()),
        Some(SegmentInfo {
            vram: 0x80030100,
            vrom: 0x21100,
            size: 0x40,
        })
    );
    assert_eq!(read_rodata(&segments, &"build/none.c.o".to_string()), None);
    assert_eq!(read_rodata(&vec![], &"build/sword.c.o".to_string()), None);
    assert_eq!(segments[0].object_span(&"sword.c.o".to_string()), None);
}

#[test]
fn maps_that_do_not_fit() {
    assert!(check_all_spans(&text()));
    assert!(check_all_places(&text()));
    assert!(check_all_spans(&vec![]));
    // a section without a place in the image
    let mut map = text();
    map[0].sections[0].vrom = None;
    assert!(!check_all_spans(&map));
    assert_eq!(read_segments(&map, &rodata(), &symbols()), None);
    assert_eq!(read_segments(&text(), &map, &symbols()), None);
    // a section that ends before an earlier one starts
    let mut map = text();
    map[0].sections[4].vram = 0x80010008;
    map[0].sections[4].size = 0x10;
    assert!(!check_all_spans(&map));
    assert!(check_all_places(&map));
    assert_eq!(read_segments(&map, &rodata(), &symbols()), None);
    // one that ends exactly where the earlier one starts
    map[0].sections[4].size = 0x28;
    assert!(check_all_spans(&map));
    // a section that ends outside the address space
    let mut map = text();
    map[2].sections[0].size = usize::MAX;
    assert!(!check_all_spans(&map));
    // a section before the start of its segment
    let mut map = text();
    map[2].vram = 0x80030010;
    assert!(check_all_spans(&map));
    assert!(!check_all_places(&map));
    assert_eq!(read_segments(&map, &rodata(), &symbols()), None);
    assert!(read_segments(&rodata(), &map, &symbols()).is_some());
    // a place in the image outside the machine word
    let mut map = text();
    map[2].vrom = usize::MAX - 0x10;
    assert!(!check_all_places(&map));
    map[2].vrom = usize::MAX - 0x20;
    assert!(check_all_places(&map));
}

#[test]
fn object_paths() {
    assert!(is_object_path("build/sword.c.o"));
    assert!(is_object_path(".o"));
    assert!(is_object_path("a.s.o"));
    assert!(!is_object_path("build/sword.c"));
    assert!(!is_object_path("build/sword.o.txt"));
    assert!(!is_object_path("o"));
    assert!(!is_object_path(""));
    assert!(!is_object_path("a.O"));
}
