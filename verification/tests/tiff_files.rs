use wuffs_bench::parse_tiff_lzw_strips;
use wuffs_bench::tiff::{try_parse_tiff_lzw_strips, TiffFault};

/// A directory entry: tag, type, count and value field.
struct Entry(u16, u16, u32, u32);

struct Builder {
    little: bool,
    bytes: Vec<u8>,
}

impl Builder {
    fn new(little: bool) -> Builder {
        Builder { little, bytes: Vec::new() }
    }

    fn short(&mut self, value: u16) {
        let bytes = if self.little { value.to_le_bytes() } else { value.to_be_bytes() };
        self.bytes.extend(bytes);
    }

    fn long(&mut self, value: u32) {
        let bytes = if self.little { value.to_le_bytes() } else { value.to_be_bytes() };
        self.bytes.extend(bytes);
    }

    /// A file with the given entries, followed by `tail`.
    fn file(mut self, entries: &[Entry], tail: &[u8]) -> Vec<u8> {
        self.bytes.extend(if self.little { b"II" } else { b"MM" });
        self.short(42);
        self.long(8);
        self.short(entries.len() as u16);
        for &Entry(tag, kind, count, value) in entries {
            self.short(tag);
            self.short(kind);
            self.long(count);
            if kind == 3 && count == 1 {
                self.short(value as u16);
                self.short(0);
            } else if kind == 1 && count == 1 {
                self.bytes.extend([value as u8, 0, 0, 0]);
            } else {
                self.long(value);
            }
        }
        self.bytes.extend(tail);
        self.bytes
    }
}

/// Where what follows `n` entries starts.
fn behind(n: u32) -> u32 {
    10 + 12 * n
}

/// One strip, "strip", of 20 pixels by 3 rows of three samples of 8 bits.
fn one_strip(little: bool) -> Vec<u8> {
    Builder::new(little).file(
        &[
            Entry(256, 3, 1, 20),
            Entry(258, 3, 1, 8),
            Entry(259, 3, 1, 5),
            Entry(273, 4, 1, behind(7)),
            Entry(277, 3, 1, 3),
            Entry(278, 3, 1, 3),
            Entry(279, 4, 1, 5),
        ],
        b"strip",
    )
}

/// The given width, rows, samples and bits, each as a long, and one strip.
fn sized(width: u32, rows: u32, samples: u32, bits: u32) -> Vec<u8> {
    Builder::new(true).file(
        &[
            Entry(256, 4, 1, width),
            Entry(258, 4, 1, bits),
            Entry(259, 3, 1, 5),
            Entry(273, 4, 1, behind(7)),
            Entry(277, 4, 1, samples),
            Entry(278, 4, 1, rows),
            Entry(279, 4, 1, 5),
        ],
        b"strip",
    )
}

#[test]
fn single_strip_is_found_in_both_byte_orders() {
    for little in [true, false] {
        assert_eq!(parse_tiff_lzw_strips(&one_strip(little)), Some((b"strip".to_vec(), 180)));
    }
}

#[test]
fn largest_strip_is_found_and_the_first_of_equals() {
    for little in [true, false] {
        // Strips of 2, 4, 4 and 1 bytes; the lists stand behind the entries.
        let lists = behind(4);
        let data = lists + 4 * 4 + 4 * 2;
        let mut tail = Builder::new(little);
        for at in [data, data + 2, data + 6, data + 10] {
            tail.long(at);
        }
        for len in [2, 4, 4, 1] {
            tail.short(len);
        }
        tail.bytes.extend(b"aabbbbccccd");
        let file = Builder::new(little).file(
            &[
                Entry(256, 3, 1, 6),
                Entry(259, 3, 1, 5),
                Entry(273, 4, 4, lists),
                Entry(279, 3, 4, lists + 16),
            ],
            &tail.bytes,
        );
        // Rows are not stated, so the cap counts: 6 * 65536 * 1 * 1.
        assert_eq!(parse_tiff_lzw_strips(&file), Some((b"bbbb".to_vec(), 393_216)));
    }
}

#[test]
fn short_lists_stand_in_the_entry() {
    // Four bytes in one value field: strips of 1, 3, 2 and 2 bytes at 46 to 49.
    let file = Builder::new(true).file(
        &[Entry(259, 1, 1, 5), Entry(273, 1, 4, 0x3130_2F2E), Entry(279, 1, 4, 0x0202_0301)],
        b"abcdef",
    );
    assert_eq!(behind(3), 46);
    assert_eq!(parse_tiff_lzw_strips(&file), Some((b"bcd".to_vec(), 0)));
}

#[test]
fn decoded_size_is_a_product() {
    assert_eq!(parse_tiff_lzw_strips(&sized(7, 5, 4, 16)).unwrap().1, 7 * 5 * 4 * 2);
    assert_eq!(parse_tiff_lzw_strips(&sized(7, 5, 4, 1)).unwrap().1, 7 * 5 * 4);
    assert_eq!(parse_tiff_lzw_strips(&sized(7, 5, 4, 15)).unwrap().1, 7 * 5 * 4);
    assert_eq!(parse_tiff_lzw_strips(&sized(7, 65_536, 1, 8)).unwrap().1, 7 * 65_536);
    assert_eq!(parse_tiff_lzw_strips(&sized(7, 65_537, 1, 8)).unwrap().1, 7 * 65_536);
    assert_eq!(parse_tiff_lzw_strips(&sized(0, 5, 4, 8)).unwrap().1, 0);
}

#[test]
fn unstated_fields_have_defaults() {
    let file = Builder::new(true).file(
        &[
            Entry(256, 3, 1, 9),
            Entry(258, 7, 1, 99),
            Entry(259, 3, 1, 5),
            Entry(273, 4, 1, behind(7)),
            Entry(277, 7, 1, 99),
            Entry(278, 7, 1, 99),
            Entry(279, 4, 1, 5),
        ],
        b"strip",
    );
    assert_eq!(parse_tiff_lzw_strips(&file), Some((b"strip".to_vec(), 9 * 65_536)));
}

#[test]
fn last_entry_of_a_tag_counts() {
    let file = Builder::new(true).file(
        &[
            Entry(259, 3, 1, 1),
            Entry(259, 3, 1, 5),
            Entry(273, 4, 1, 0),
            Entry(273, 4, 1, behind(5)),
            Entry(279, 4, 1, 5),
        ],
        b"strip",
    );
    assert_eq!(parse_tiff_lzw_strips(&file), Some((b"strip".to_vec(), 0)));
}

#[test]
fn sixteen_bits_of_the_compression_count() {
    let with = |value| {
        let entries = [
            Entry(259, 4, 1, value),
            Entry(273, 4, 1, behind(3)),
            Entry(279, 4, 1, 1),
        ];
        parse_tiff_lzw_strips(&Builder::new(true).file(&entries, b"x"))
    };
    assert_eq!(with(5), Some((b"x".to_vec(), 0)));
    assert_eq!(with(0x0003_0005), Some((b"x".to_vec(), 0)));
    assert_eq!(with(1), None);
}

#[test]
fn no_header_no_strip() {
    assert_eq!(parse_tiff_lzw_strips(b""), None);
    assert_eq!(parse_tiff_lzw_strips(b"II\x2A\x00\x08\x00\x00"), None);
    let whole = one_strip(true);
    for (at, byte) in [(0, b'M'), (1, b'M'), (2, 43), (3, 1)] {
        let mut file = whole.clone();
        file[at] = byte;
        assert_eq!(parse_tiff_lzw_strips(&file), None);
    }
    // The directory starts behind the file, or just too late in it.
    let mut file = whole.clone();
    file[4..8].copy_from_slice(&[0xFF; 4]);
    assert_eq!(parse_tiff_lzw_strips(&file), None);
    file[4..8].copy_from_slice(&(whole.len() as u32 - 1).to_le_bytes());
    assert_eq!(parse_tiff_lzw_strips(&file), None);
}

#[test]
fn cut_directory_has_no_strip() {
    let whole = one_strip(true);
    assert_eq!(parse_tiff_lzw_strips(&whole[..behind(7) as usize - 1]), None);
    assert_eq!(parse_tiff_lzw_strips(&whole[..whole.len() - 1]), None);
    assert_eq!(parse_tiff_lzw_strips(&Builder::new(true).file(&[], b"")), None);
}

#[test]
fn lists_must_match() {
    let with = |offsets: Entry, counts: Entry| {
        parse_tiff_lzw_strips(
            &Builder::new(true).file(&[Entry(259, 3, 1, 5), offsets, counts], b"0123456789"),
        )
    };
    assert!(with(Entry(273, 4, 1, 46), Entry(279, 4, 1, 3)).is_some());
    // Two counts for one offset.
    assert_eq!(with(Entry(273, 4, 1, 46), Entry(279, 3, 2, 0x0001_0001)), None);
    // No offsets at all, or none of a type that holds numbers.
    assert_eq!(with(Entry(273, 4, 0, 46), Entry(279, 4, 0, 3)), None);
    assert_eq!(with(Entry(273, 2, 1, 46), Entry(279, 2, 1, 3)), None);
    // Numbers that lie behind the file.
    assert_eq!(with(Entry(273, 4, 2, 50), Entry(279, 4, 2, 50)), None);
    // A strip that ends behind the file.
    assert_eq!(with(Entry(273, 4, 1, 46), Entry(279, 4, 1, 11)), None);
}

#[test]
fn untyped_width_or_compression_is_a_fault() {
    for entry in [Entry(256, 2, 1, 0), Entry(259, 0, 1, 5), Entry(259, 5, 1, 5)] {
        let file = Builder::new(true).file(&[entry], b"");
        assert_eq!(try_parse_tiff_lzw_strips(&file), Err(TiffFault::UntypedValue));
    }
    // It is found even where the directory is cut behind it.
    let file = Builder::new(true).file(&[Entry(256, 2, 1, 0), Entry(259, 3, 1, 5)], b"");
    assert_eq!(
        try_parse_tiff_lzw_strips(&file[..file.len() - 1]),
        Err(TiffFault::UntypedValue)
    );
}

#[test]
fn decoded_size_beyond_the_machine_is_a_fault() {
    let file = sized(u32::MAX, 65_536, u32::MAX, 8);
    assert_eq!(try_parse_tiff_lzw_strips(&file), Err(TiffFault::DecodedSize));
    let file = sized(u32::MAX, 65_536, 1, 8);
    assert_eq!(parse_tiff_lzw_strips(&file).unwrap().1, 0xFFFF_FFFF * 65_536);
}

/// Three numbers for the bits of a sample, one for each, behind the entries.
fn rgb_strip(little: bool, bits: [u16; 3]) -> Vec<u8> {
    let lists = behind(7);
    let mut tail = Builder::new(little);
    for value in bits {
        tail.short(value);
    }
    tail.bytes.push(7);
    Builder::new(little).file(
        &[
            Entry(256, 3, 1, 2),
            Entry(258, 3, 3, lists),
            Entry(259, 3, 1, 5),
            Entry(273, 3, 1, lists + 6),
            Entry(277, 3, 1, 3),
            Entry(278, 3, 1, 4),
            Entry(279, 3, 1, 1),
        ],
        &tail.bytes,
    )
}

#[test]
fn bits_of_each_sample_are_found_behind_the_entries() {
    for little in [true, false] {
        assert_eq!(parse_tiff_lzw_strips(&rgb_strip(little, [8, 8, 8])), Some((vec![7], 24)));
        assert_eq!(parse_tiff_lzw_strips(&rgb_strip(little, [16, 16, 16])), Some((vec![7], 48)));
    }
    let file = [
        73, 73, 42, 0, 8, 0, 0, 0, 7, 0, 0, 1, 3, 0, 1, 0, 0, 0, 2, 0, 0, 0, 2, 1, 3, 0, 3, 0, 0, 0,
        94, 0, 0, 0, 3, 1, 3, 0, 1, 0, 0, 0, 5, 0, 0, 0, 17, 1, 3, 0, 1, 0, 0, 0, 100, 0, 0, 0, 21, 1,
        3, 0, 1, 0, 0, 0, 3, 0, 0, 0, 22, 1, 3, 0, 1, 0, 0, 0, 4, 0, 0, 0, 23, 1, 3, 0, 1, 0, 0, 0, 1,
        0, 0, 0, 8, 0, 8, 0, 8, 0, 7,
    ];
    assert_eq!(file.to_vec(), rgb_strip(true, [8, 8, 8]));
    assert_eq!(parse_tiff_lzw_strips(&file), Some((vec![7], 24)));
}

#[test]
fn bits_of_a_sample_are_one_number_at_least() {
    let with = |count, value| {
        let entries = [
            Entry(256, 3, 1, 2),
            Entry(258, 4, count, value),
            Entry(259, 3, 1, 5),
            Entry(273, 4, 1, behind(6)),
            Entry(278, 3, 1, 4),
            Entry(279, 4, 1, 1),
        ];
        parse_tiff_lzw_strips(&Builder::new(true).file(&entries, b"x")).unwrap().1
    };
    assert_eq!(with(1, 16), 2 * 4 * 2);
    assert_eq!(with(0, 16), 2 * 4 * 2);
    // The numbers lie behind the file, so the default counts.
    assert_eq!(with(3, 5000), 2 * 4);
}

#[test]
fn other_tags_change_nothing() {
    let with = |other: Entry| {
        let entries = [
            Entry(256, 3, 1, 20),
            other,
            Entry(259, 3, 1, 5),
            Entry(273, 4, 1, behind(6)),
            Entry(278, 3, 1, 3),
            Entry(279, 4, 1, 5),
        ];
        parse_tiff_lzw_strips(&Builder::new(true).file(&entries, b"strip"))
    };
    assert_eq!(with(Entry(257, 3, 1, 3)), Some((b"strip".to_vec(), 60)));
    assert_eq!(with(Entry(317, 99, u32::MAX, u32::MAX)), with(Entry(257, 3, 1, 3)));
    assert_eq!(with(Entry(0, 0, 0, 0)), with(Entry(257, 3, 1, 3)));
}
