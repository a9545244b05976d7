//! What holds of TIFF files as bytes: how numbers, entries and directories are
//! read, which files give a strip, and that what was written is read.

use vstd::prelude::*;
use crate::tiff::{
    directory, greatest, largest_strip, law_greatest_is_the_first_greatest, numbers, numbers_at,
    u16_in, u32_in, Directory,
};
use crate::tiff::TiffFault;

verus! {

/// A number of two or four bytes is positional: each byte counts 256 times what
/// the one on its lesser side counts.
pub proof fn law_numbers_are_positional(b: Seq<u8>, i: int)
    ensures
        u16_in(b, true, i) == b[i] + 0x100 * b[i + 1],
        u16_in(b, false, i) == 0x100 * b[i] + b[i + 1],
        u32_in(b, true, i) == b[i] + 0x100 * b[i + 1] + 0x1_0000 * b[i + 2] + 0x100_0000 * b[i + 3],
        u32_in(b, false, i) == 0x100_0000 * b[i] + 0x1_0000 * b[i + 1] + 0x100 * b[i + 2] + b[i
            + 3],
{
    assert(u16_in(b, true, i) == b[i] + 0x100 * b[i + 1]);
    assert(u16_in(b, true, i + 2) == b[i + 2] + 0x100 * b[i + 3]);
    assert(u16_in(b, false, i) == 0x100 * b[i] + b[i + 1]);
    assert(u16_in(b, false, i + 2) == 0x100 * b[i + 2] + b[i + 3]);
}

/// Whether the two bytes at `i` are those of `v` in the given byte order.
pub open spec fn holds_short(b: Seq<u8>, little: bool, i: int, v: int) -> bool {
    if little {
        b[i] == v % 0x100 && b[i + 1] == v / 0x100
    } else {
        b[i] == v / 0x100 && b[i + 1] == v % 0x100
    }
}

/// Whether the four bytes at `i` are those of `v` in the given byte order.
pub open spec fn holds_long(b: Seq<u8>, little: bool, i: int, v: int) -> bool {
    if little {
        holds_short(b, true, i, v % 0x1_0000) && holds_short(b, true, i + 2, v / 0x1_0000)
    } else {
        holds_short(b, false, i, v / 0x1_0000) && holds_short(b, false, i + 2, v % 0x1_0000)
    }
}

/// A number that was written is read back, in either byte order.
pub proof fn law_written_numbers_are_read(b: Seq<u8>, little: bool, i: int, v: int)
    ensures
        0 <= v <= u16::MAX && holds_short(b, little, i, v) ==> u16_in(b, little, i) == v,
        0 <= v <= u32::MAX && holds_long(b, little, i, v) ==> u32_in(b, little, i) == v,
{
    law_numbers_are_positional(b, i);
}

/// A file has a directory just where it starts with "II" and 42 little-endian, or
/// "MM" and 42 big-endian, and the number behind that is an offset with two bytes
/// within the file. These two bytes are the count of entries, which follow them.
pub proof fn law_directory_is_where_the_header_points(b: Seq<u8>)
    ensures
        ({
            let little = b[0] == 0x49 && b[1] == 0x49 && b[2] == 42 && b[3] == 0;
            let big = b[0] == 0x4D && b[1] == 0x4D && b[2] == 0 && b[3] == 42;
            let at = if b[0] == 0x49 {
                b[4] + 0x100 * b[5] + 0x1_0000 * b[6] + 0x100_0000 * b[7]
            } else {
                0x100_0000 * b[4] + 0x1_0000 * b[5] + 0x100 * b[6] + b[7]
            };
            &&& directory(b) is Some <==> b.len() >= 8 && (little || big) && at + 2 <= b.len()
            &&& directory(b) matches Some(dir) ==> {
                &&& dir.little == little
                &&& dir.start == at + 2
                &&& dir.entries == if little {
                    b[at] + 0x100 * b[at + 1]
                } else {
                    0x100 * b[at] + b[at + 1]
                }
            }
        }),
{
    law_numbers_are_positional(b, 2);
    law_numbers_are_positional(b, 4);
    let at = if b[0] == 0x49 {
        b[4] + 0x100 * b[5] + 0x1_0000 * b[6] + 0x100_0000 * b[7]
    } else {
        0x100_0000 * b[4] + 0x1_0000 * b[5] + 0x100 * b[6] + b[7]
    };
    law_numbers_are_positional(b, at);
}

/// Entries follow one another, twelve bytes each: two for the tag, two for the
/// type, four for the count, and four that hold the numbers or tell where they
/// are.
pub proof fn law_entries_are_twelve_bytes(b: Seq<u8>, dir: Directory, i: int)
    ensures
        dir.at(0) == dir.start,
        dir.at(i + 1) == dir.at(i) + 12,
        dir.fits(b, i) <==> dir.at(i + 1) <= b.len(),
        forall|v: int| 0 <= v <= u16::MAX && #[trigger] holds_short(b, dir.little, dir.at(i), v)
            ==> dir.tag(b, i) == v,
        forall|v: int| 0 <= v <= u16::MAX && #[trigger] holds_short(
            b,
            dir.little,
            dir.at(i) + 2,
            v,
        ) ==> dir.kind(b, i) == v,
        forall|v: int| 0 <= v <= u32::MAX && #[trigger] holds_long(b, dir.little, dir.at(i) + 4, v)
            ==> dir.count(b, i) == v,
{
    law_numbers_are_positional(b, dir.at(i));
    law_numbers_are_positional(b, dir.at(i) + 2);
    law_numbers_are_positional(b, dir.at(i) + 4);
}

/// Of entries with one tag the last counts: nothing is found just where no entry
/// has the tag, and what is found has it, and none behind it does.
pub proof fn law_last_entry_of_a_tag_counts(b: Seq<u8>, dir: Directory, tag: u16, n: int)
    ensures
        match dir.last(b, tag, n) {
            None => forall|i: int| 0 <= i < n ==> #[trigger] dir.tag(b, i) != tag,
            Some(k) => {
                &&& 0 <= k < n
                &&& dir.tag(b, k) == tag
                &&& forall|i: int| k < i < n ==> #[trigger] dir.tag(b, i) != tag
            },
        },
    decreases n,
{
    if n > 0 {
        law_last_entry_of_a_tag_counts(b, dir, tag, n - 1);
    }
}

/// Bytes, shorts and longs are numbers of one, two and four bytes; numbers of up
/// to four bytes in all stand in the entry itself and others at the offset in it;
/// numbers that do not all lie within the file, or of another type, are none.
pub proof fn law_numbers_of_an_entry(
    b: Seq<u8>,
    little: bool,
    kind: u16,
    n: nat,
    at: int,
    k: int,
)
    requires
        0 <= k < n,
    ensures
        ({
            let found = numbers(b, little, kind, n, at);
            let offset = u32_in(b, little, at) as int;
            &&& kind == 1 ==> {
                let from = if n <= 4 {
                    at
                } else {
                    offset
                };
                &&& from + n <= b.len() ==> found.len() == n && found[k] == b[from + k]
                &&& from + n > b.len() ==> found.len() == 0
            }
            &&& kind == 3 ==> {
                let from = if n <= 2 {
                    at
                } else {
                    offset
                };
                &&& from + 2 * n <= b.len() ==> {
                    &&& found.len() == n
                    &&& little ==> found[k] == b[from + 2 * k] + 0x100 * b[from + 2 * k + 1]
                    &&& !little ==> found[k] == 0x100 * b[from + 2 * k] + b[from + 2 * k + 1]
                }
                &&& from + 2 * n > b.len() ==> found.len() == 0
            }
            &&& kind == 4 ==> {
                let from = if n <= 1 {
                    at
                } else {
                    offset
                };
                &&& from + 4 * n <= b.len() ==> {
                    let i = from + 4 * k;
                    &&& found.len() == n
                    &&& little ==> found[k] == b[i] + 0x100 * b[i + 1] + 0x1_0000 * b[i + 2]
                        + 0x100_0000 * b[i + 3]
                    &&& !little ==> found[k] == 0x100_0000 * b[i] + 0x1_0000 * b[i + 1] + 0x100 * b[i
                        + 2] + b[i + 3]
                }
                &&& from + 4 * n > b.len() ==> found.len() == 0
            }
            &&& kind != 1 && kind != 3 && kind != 4 ==> found.len() == 0
        }),
{
    let from = numbers_at(b, little, kind, n, at);
    law_numbers_are_positional(b, from + 2 * k);
    law_numbers_are_positional(b, from + 4 * k);
}

/// Offsets (273) and byte counts (279) are as many as their entry says; so are the
/// bits of a sample (258), of which there is one at least. Anything else is one
/// number.
pub proof fn law_lengths_of_entries(b: Seq<u8>, dir: Directory, i: int)
    ensures
        dir.tag(b, i) == 273 || dir.tag(b, i) == 279 ==> dir.length(b, i) == dir.count(b, i),
        dir.tag(b, i) == 258 ==> dir.length(b, i) >= 1 && dir.length(b, i) >= dir.count(b, i)
            && dir.length(b, i) <= dir.count(b, i) + 1,
        dir.tag(b, i) == 258 && dir.count(b, i) >= 1 ==> dir.length(b, i) == dir.count(b, i),
        dir.tag(b, i) == 256 || dir.tag(b, i) == 259 || dir.tag(b, i) == 277 || dir.tag(b, i) == 278
            ==> dir.length(b, i) == 1,
{
}

/// What a file says for a tag is what the last entry with the tag holds: all its
/// numbers, or the first of them; where there is no entry or no number, what is
/// taken is nothing, or the default.
pub proof fn law_values_are_those_of_the_entry(
    b: Seq<u8>,
    dir: Directory,
    tag: u16,
    default: u32,
    n: int,
    k: int,
)
    requires
        0 <= k < n,
        dir.tag(b, k) == tag,
        forall|i: int| k < i < n ==> #[trigger] dir.tag(b, i) != tag,
    ensures
        ({
            let held = numbers(b, dir.little, dir.kind(b, k), dir.length(b, k), dir.at(k) + 8);
            &&& dir.list(b, tag, n) == held
            &&& held.len() > 0 ==> dir.number(b, tag, default, n) == held[0]
            &&& held.len() == 0 ==> dir.number(b, tag, default, n) == default
        }),
{
    law_last_entry_of_a_tag_counts(b, dir, tag, n);
}

/// Where no entry has a tag, the list for it is empty and the number the default.
pub proof fn law_missing_tags_have_defaults(
    b: Seq<u8>,
    dir: Directory,
    tag: u16,
    default: u32,
    n: int,
)
    requires
        forall|i: int| 0 <= i < n ==> #[trigger] dir.tag(b, i) != tag,
    ensures
        dir.list(b, tag, n).len() == 0,
        dir.number(b, tag, default, n) == default,
{
    law_last_entry_of_a_tag_counts(b, dir, tag, n);
}

/// Whether an entry within the file holds the width (256) or the compression
/// scheme (259) and is no byte, short or long.
pub open spec fn has_untyped_entry(b: Seq<u8>, dir: Directory) -> bool {
    exists|i: int|
        {
            &&& 0 <= i < dir.entries
            &&& dir.at(i) + 12 <= b.len()
            &&& #[trigger] dir.tag(b, i) == 256 || dir.tag(b, i) == 259
            &&& dir.kind(b, i) != 1 && dir.kind(b, i) != 3 && dir.kind(b, i) != 4
        }
}

/// Whether the directory lies within the file, its entries are of a type, the
/// compression scheme is 5 in its low sixteen bits, and there are as many offsets
/// as byte counts, of strips within the file.
pub open spec fn lists_lzw_strips(b: Seq<u8>, dir: Directory) -> bool {
    let offsets = dir.list(b, 273, dir.entries);
    let counts = dir.list(b, 279, dir.entries);
    &&& !has_untyped_entry(b, dir)
    &&& dir.entries == 0 || dir.at(dir.entries) <= b.len()
    &&& dir.number(b, 259, 0, dir.entries) % 0x1_0000 == 5
    &&& 0 < offsets.len() == counts.len()
    &&& forall|j: int| 0 <= j < counts.len() ==> #[trigger] offsets[j] + counts[j] <= b.len()
}

/// The pixels of a row (256), the rows of a strip (278, at most 65536 of them),
/// the samples of a pixel (277) and the bytes of a sample (258: whole bytes of its
/// bits, and one at least).
pub open spec fn stated_size(b: Seq<u8>, dir: Directory) -> (int, int, int, int) {
    let rows = dir.number(b, 278, 0xFFFF_FFFF, dir.entries) as int;
    let bits = dir.number(b, 258, 8, dir.entries) as int;
    (
        dir.number(b, 256, 0, dir.entries) as int,
        if rows > 65_536 {
            65_536
        } else {
            rows
        },
        dir.number(b, 277, 1, dir.entries) as int,
        if bits < 16 {
            1
        } else {
            bits / 8
        },
    )
}

/// A file that lists LZW strips gives the first of the longest, whole, and the
/// product of the four factors, as long as the end of the strip and the partial
/// products are numbers that the machine has.
#[verifier::rlimit(60)]
#[verifier::spinoff_prover]
pub proof fn law_strip_and_size_are_owed(b: Seq<u8>, dir: Directory, k: int)
    requires
        directory(b) == Some(dir),
        lists_lzw_strips(b, dir),
        0 <= k < dir.list(b, 279, dir.entries).len(),
        forall|j: int|
            0 <= j < dir.list(b, 279, dir.entries).len() ==> #[trigger] dir.list(
                b,
                279,
                dir.entries,
            )[j] <= dir.list(b, 279, dir.entries)[k],
        forall|j: int|
            0 <= j < k ==> #[trigger] dir.list(b, 279, dir.entries)[j] < dir.list(
                b,
                279,
                dir.entries,
            )[k],
        dir.list(b, 273, dir.entries)[k] + dir.list(b, 279, dir.entries)[k] <= 0xFFFF_FFFF,
        ({
            let (width, rows, samples, bytes) = stated_size(b, dir);
            &&& width * rows <= usize::MAX
            &&& width * rows * samples <= usize::MAX
            &&& width * rows * samples * bytes <= usize::MAX
        }),
    ensures
        ({
            let from = dir.list(b, 273, dir.entries)[k] as int;
            let len = dir.list(b, 279, dir.entries)[k] as int;
            let (width, rows, samples, bytes) = stated_size(b, dir);
            largest_strip(b) == Ok::<_, TiffFault>(
                Some((b.subrange(from, from + len), width * rows * samples * bytes)),
            )
        }),
{
    let counts = dir.list(b, 279, dir.entries);
    law_greatest_is_the_first_greatest(counts);
    assert(greatest(counts) == k);
    lemma_no_untyped_entry(b, dir);
    lemma_stated_size(b, dir);
}

/// A file whose width or compression scheme is of no type that holds a number is
/// faulty; any other that does not list LZW strips has none.
pub proof fn law_other_files_give_no_strip(b: Seq<u8>, dir: Directory)
    requires
        directory(b) == Some(dir),
    ensures
        largest_strip(b) == Err::<Option<(Seq<u8>, int)>, _>(TiffFault::UntypedValue)
            <==> has_untyped_entry(b, dir),
        !has_untyped_entry(b, dir) && !lists_lzw_strips(b, dir) ==> largest_strip(b) == Ok::<
            Option<(Seq<u8>, int)>,
            TiffFault,
        >(None),
        lists_lzw_strips(b, dir) ==> largest_strip(b) != Ok::<
            Option<(Seq<u8>, int)>,
            TiffFault,
        >(None),
{
    lemma_no_untyped_entry(b, dir);
    if dir.entries > 0 {
        assert(dir.fits(b, dir.entries - 1) <==> dir.at(dir.entries) <= b.len());
    }
}

/// A file that lists LZW strips is faulty where its longest strip ends beyond
/// what four bytes can state, and else where a partial product of its size is
/// beyond the machine's numbers.
#[verifier::rlimit(60)]
#[verifier::spinoff_prover]
pub proof fn law_sizes_beyond_the_machine_are_faults(b: Seq<u8>, dir: Directory)
    requires
        directory(b) == Some(dir),
        lists_lzw_strips(b, dir),
    ensures
        ({
            let k = greatest(dir.list(b, 279, dir.entries));
            let end = dir.list(b, 273, dir.entries)[k] + dir.list(b, 279, dir.entries)[k];
            let (width, rows, samples, bytes) = stated_size(b, dir);
            let small = width * rows <= usize::MAX && width * rows * samples <= usize::MAX && width
                * rows * samples * bytes <= usize::MAX;
            &&& end > 0xFFFF_FFFF <==> largest_strip(b) == Err::<Option<(Seq<u8>, int)>, _>(
                TiffFault::StripEnd,
            )
            &&& end <= 0xFFFF_FFFF && !small <==> largest_strip(b) == Err::<
                Option<(Seq<u8>, int)>,
                _,
            >(TiffFault::DecodedSize)
        }),
{
    lemma_no_untyped_entry(b, dir);
    lemma_stated_size(b, dir);
}

proof fn lemma_no_untyped_entry(b: Seq<u8>, dir: Directory)
    ensures
        has_untyped_entry(b, dir) <==> exists|i: int|
            0 <= i < dir.entries && dir.fits(b, i) && #[trigger] dir.untyped(b, i),
{
    if has_untyped_entry(b, dir) {
        let i = choose|i: int|
            {
                &&& 0 <= i < dir.entries
                &&& dir.at(i) + 12 <= b.len()
                &&& #[trigger] dir.tag(b, i) == 256 || dir.tag(b, i) == 259
                &&& dir.kind(b, i) != 1 && dir.kind(b, i) != 3 && dir.kind(b, i) != 4
            };
        assert(dir.fits(b, i) && dir.untyped(b, i));
    }
    if exists|i: int| 0 <= i < dir.entries && dir.fits(b, i) && #[trigger] dir.untyped(b, i) {
        let i = choose|i: int|
            0 <= i < dir.entries && dir.fits(b, i) && #[trigger] dir.untyped(b, i);
        assert(dir.tag(b, i) == 256 || dir.tag(b, i) == 259);
    }
}

proof fn lemma_stated_size(b: Seq<u8>, dir: Directory)
    ensures
        dir.factors(b) == stated_size(b, dir),
{
}

/// Whether entry `i` of a directory is written as one long: its tag, its type,
/// its count and its number.
pub open spec fn holds_entry(b: Seq<u8>, dir: Directory, i: int, tag: int, value: int) -> bool {
    let at = dir.start + 12 * i;
    &&& holds_short(b, dir.little, at, tag)
    &&& holds_short(b, dir.little, at + 2, 4)
    &&& holds_long(b, dir.little, at + 4, 1)
    &&& holds_long(b, dir.little, at + 8, value)
}

/// What a writer of one strip writes is read: wherever in the file the directory
/// and the strip stand, and in either byte order, the strip comes back whole, with
/// the size that the written numbers make.
#[verifier::rlimit(60)]
#[verifier::spinoff_prover]
pub proof fn law_written_strip_is_read(
    b: Seq<u8>,
    little: bool,
    at: int,
    width: int,
    bits: int,
    from: int,
    samples: int,
    rows: int,
    len: int,
)
    requires
        little ==> b[0] == 0x49 && b[1] == 0x49,
        !little ==> b[0] == 0x4D && b[1] == 0x4D,
        holds_short(b, little, 2, 42),
        holds_long(b, little, 4, at),
        8 <= at,
        at + 2 + 12 * 7 <= b.len(),
        at <= 0xFFFF_FFFF,
        holds_short(b, little, at, 7),
        ({
            let dir = Directory { little, start: at + 2, entries: 7 };
            &&& holds_entry(b, dir, 0, 256, width)
            &&& holds_entry(b, dir, 1, 258, bits)
            &&& holds_entry(b, dir, 2, 259, 5)
            &&& holds_entry(b, dir, 3, 273, from)
            &&& holds_entry(b, dir, 4, 277, samples)
            &&& holds_entry(b, dir, 5, 278, rows)
            &&& holds_entry(b, dir, 6, 279, len)
        }),
        0 <= width <= 0xFFFF_FFFF,
        0 <= samples <= 0xFFFF_FFFF,
        8 <= bits <= 0xFFFF_FFFF,
        0 <= rows <= 65_536,
        0 <= from,
        0 <= len,
        from + len <= b.len(),
        from + len <= 0xFFFF_FFFF,
        width * rows <= usize::MAX,
        width * rows * samples <= usize::MAX,
        width * rows * samples * (bits / 8) <= usize::MAX,
    ensures
        largest_strip(b) == Ok::<_, TiffFault>(
            Some((b.subrange(from, from + len), width * rows * samples * (bits / 8))),
        ),
{
    let dir = Directory { little, start: at + 2, entries: 7 };
    assert(directory(b) == Some(dir)) by {
        law_written_numbers_are_read(b, little, 2, 42);
        law_written_numbers_are_read(b, little, 4, at);
        law_written_numbers_are_read(b, little, at, 7);
    }
    lemma_written_entry(b, dir, 0, 256, width);
    lemma_written_entry(b, dir, 1, 258, bits);
    lemma_written_entry(b, dir, 2, 259, 5);
    lemma_written_entry(b, dir, 3, 273, from);
    lemma_written_entry(b, dir, 4, 277, samples);
    lemma_written_entry(b, dir, 5, 278, rows);
    lemma_written_entry(b, dir, 6, 279, len);
    lemma_seven_entries(b, dir);
}

/// What a directory of these seven entries, one number each, comes to.
#[verifier::rlimit(60)]
#[verifier::spinoff_prover]
proof fn lemma_seven_entries(b: Seq<u8>, dir: Directory)
    requires
        directory(b) == Some(dir),
        dir.entries == 7,
        dir.at(7) <= b.len(),
        dir.tag(b, 0) == 256 && dir.tag(b, 1) == 258 && dir.tag(b, 2) == 259 && dir.tag(b, 3) == 273,
        dir.tag(b, 4) == 277 && dir.tag(b, 5) == 278 && dir.tag(b, 6) == 279,
        forall|i: int| 0 <= i < 7 ==> #[trigger] dir.kind(b, i) == 4,
        forall|i: int| 0 <= i < 7 ==> (#[trigger] dir.values(b, i)).len() == 1,
        dir.values(b, 2)[0] == 5,
        dir.values(b, 1)[0] >= 8,
        dir.values(b, 5)[0] <= 65_536,
        dir.values(b, 3)[0] + dir.values(b, 6)[0] <= b.len(),
        dir.values(b, 3)[0] + dir.values(b, 6)[0] <= 0xFFFF_FFFF,
        ({
            let area = dir.values(b, 0)[0] * dir.values(b, 5)[0];
            &&& area <= usize::MAX
            &&& area * dir.values(b, 4)[0] <= usize::MAX
            &&& area * dir.values(b, 4)[0] * (dir.values(b, 1)[0] / 8) <= usize::MAX
        }),
    ensures
        ({
            let from = dir.values(b, 3)[0] as int;
            let len = dir.values(b, 6)[0] as int;
            let area = dir.values(b, 0)[0] * dir.values(b, 5)[0];
            largest_strip(b) == Ok::<_, TiffFault>(
                Some(
                    (
                        b.subrange(from, from + len),
                        area * dir.values(b, 4)[0] * (dir.values(b, 1)[0] / 8),
                    ),
                ),
            )
        }),
{
    law_values_are_those_of_the_entry(b, dir, 256, 0, 7, 0);
    law_values_are_those_of_the_entry(b, dir, 258, 8, 7, 1);
    law_values_are_those_of_the_entry(b, dir, 259, 0, 7, 2);
    law_values_are_those_of_the_entry(b, dir, 273, 0, 7, 3);
    law_values_are_those_of_the_entry(b, dir, 277, 1, 7, 4);
    law_values_are_those_of_the_entry(b, dir, 278, 0xFFFF_FFFF, 7, 5);
    law_values_are_those_of_the_entry(b, dir, 279, 0, 7, 6);
    assert forall|i: int| 0 <= i < 7 implies #[trigger] dir.values(b, i) == numbers(
        b,
        dir.little,
        dir.kind(b, i),
        dir.length(b, i),
        dir.at(i) + 8,
    ) by {}
    assert(dir.list(b, 273, 7) == dir.values(b, 3));
    assert(dir.list(b, 279, 7) == dir.values(b, 6));
    assert(!has_untyped_entry(b, dir));
    assert(lists_lzw_strips(b, dir));
    law_strip_and_size_are_owed(b, dir, 0);
}

proof fn lemma_written_entry(b: Seq<u8>, dir: Directory, i: int, tag: int, value: int)
    requires
        holds_entry(b, dir, i, tag, value),
        0 <= tag <= 0xFFFF,
        0 <= value <= 0xFFFF_FFFF,
        0 <= i,
        dir.start >= 0,
        dir.start + 12 * i + 12 <= b.len(),
    ensures
        dir.tag(b, i) == tag,
        dir.kind(b, i) == 4,
        dir.count(b, i) == 1,
        dir.length(b, i) == 1,
        dir.values(b, i).len() == 1,
        dir.values(b, i)[0] == value,
{
    let at = dir.start + 12 * i;
    assert(dir.at(i) == at);
    law_written_numbers_are_read(b, dir.little, at, tag);
    law_written_numbers_are_read(b, dir.little, at + 2, 4);
    law_written_numbers_are_read(b, dir.little, at + 4, 1);
    law_written_numbers_are_read(b, dir.little, at + 8, value);
}

} // verus!
