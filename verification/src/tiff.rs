//! Strip extraction from TIFF files.
//!
//! Reads the header and the first directory of a file, in either byte order,
//! and picks out the largest LZW-compressed strip. Each strip is a stream of
//! its own, with its own clear code at the start, so strips are not joined.

use vstd::prelude::*;
use vstd::slice::{slice_subrange, slice_to_vec};

verus! {

/// The tag of the image width in pixels.
pub const TAG_WIDTH: u16 = 256;

/// The tag of the number of bits of a sample.
pub const TAG_BITS_PER_SAMPLE: u16 = 258;

/// The tag of the compression scheme.
pub const TAG_COMPRESSION: u16 = 259;

/// The tag of the strips' offsets in the file.
pub const TAG_STRIP_OFFSETS: u16 = 273;

/// The tag of the number of samples of a pixel.
pub const TAG_SAMPLES_PER_PIXEL: u16 = 277;

/// The tag of the number of pixel rows in a strip.
pub const TAG_ROWS_PER_STRIP: u16 = 278;

/// The tag of the strips' lengths in bytes.
pub const TAG_STRIP_BYTE_COUNTS: u16 = 279;

/// The compression scheme that stands for LZW.
pub const COMPRESSION_LZW: u16 = 5;

/// The number of bytes in a directory entry.
pub const ENTRY_SIZE: usize = 12;

/// The most rows that a strip is taken to have.
pub const MAX_ROWS: u32 = 65536;

/// What keeps a file from being read at all.
#[derive(Clone, Copy, Debug, PartialEq, Eq, Structural)]
pub enum TiffFault {
    /// The width or the compression scheme is of a type that holds no number.
    UntypedValue,
    /// The chosen strip ends beyond the offsets that a file can state.
    StripEnd,
    /// The size of the decoded strip is beyond the machine's numbers.
    DecodedSize,
}

/// The number in the two bytes at `i`.
pub open spec fn u16_in(b: Seq<u8>, little: bool, i: int) -> u16 {
    if little {
        (b[i] + 0x100 * b[i + 1]) as u16
    } else {
        (0x100 * b[i] + b[i + 1]) as u16
    }
}

/// The number in the four bytes at `i`.
pub open spec fn u32_in(b: Seq<u8>, little: bool, i: int) -> u32 {
    if little {
        (u16_in(b, little, i) + 0x1_0000 * u16_in(b, little, i + 2)) as u32
    } else {
        (0x1_0000 * u16_in(b, little, i) + u16_in(b, little, i + 2)) as u32
    }
}

/// The first directory of a file: its byte order, where its entries start and
/// how many it says there are.
pub struct Directory {
    pub little: bool,
    pub start: int,
    pub entries: int,
}

/// The byte order that a file states: `II` for little-endian, `MM` for
/// big-endian.
pub open spec fn byte_order(b: Seq<u8>) -> Option<bool> {
    if b[0] == 0x49 && b[1] == 0x49 {
        Some(true)
    } else if b[0] == 0x4D && b[1] == 0x4D {
        Some(false)
    } else {
        None
    }
}

/// The first directory of the file `b`, if `b` has a TIFF header that points to
/// one.
pub open spec fn directory(b: Seq<u8>) -> Option<Directory> {
    if b.len() < 8 {
        None
    } else {
        match byte_order(b) {
            None => None,
            Some(little) => {
                let at = u32_in(b, little, 4) as int;
                if u16_in(b, little, 2) != 42 || at + 2 > b.len() {
                    None
                } else {
                    Some(
                        Directory { little, start: at + 2, entries: u16_in(b, little, at) as int },
                    )
                }
            },
        }
    }
}

impl Directory {
    /// Where entry `i` starts.
    pub open spec fn at(self, i: int) -> int {
        self.start + i * ENTRY_SIZE
    }

    /// Whether entry `i` lies within the file.
    pub open spec fn fits(self, b: Seq<u8>, i: int) -> bool {
        self.at(i) + ENTRY_SIZE <= b.len()
    }

    /// The tag of entry `i`: what its numbers mean.
    pub open spec fn tag(self, b: Seq<u8>, i: int) -> u16 {
        u16_in(b, self.little, self.at(i))
    }

    /// The type of the numbers of entry `i`.
    pub open spec fn kind(self, b: Seq<u8>, i: int) -> u16 {
        u16_in(b, self.little, self.at(i) + 2)
    }

    /// How many numbers entry `i` says it holds.
    pub open spec fn count(self, b: Seq<u8>, i: int) -> u32 {
        u32_in(b, self.little, self.at(i) + 4)
    }

    /// How many numbers entry `i` is taken to hold. The width, the compression
    /// scheme, the samples of a pixel and the rows of a strip are single numbers,
    /// whatever the entry says. Of the bits of a sample there is one number for
    /// each sample, and one at least.
    pub open spec fn length(self, b: Seq<u8>, i: int) -> nat {
        let tag = self.tag(b, i);
        if tag == TAG_STRIP_OFFSETS || tag == TAG_STRIP_BYTE_COUNTS || (tag == TAG_BITS_PER_SAMPLE
            && self.count(b, i) > 0) {
            self.count(b, i) as nat
        } else {
            1
        }
    }

    /// The numbers that entry `i` holds.
    pub open spec fn values(self, b: Seq<u8>, i: int) -> Seq<u32> {
        numbers(b, self.little, self.kind(b, i), self.length(b, i), self.at(i) + 8)
    }

    /// Whether entry `i` should hold the width or the compression scheme and is
    /// of a type that holds no number.
    pub open spec fn untyped(self, b: Seq<u8>, i: int) -> bool {
        &&& self.tag(b, i) == TAG_WIDTH || self.tag(b, i) == TAG_COMPRESSION
        &&& number_size(self.kind(b, i)) == 0
    }

    /// The last of the first `n` entries that has the tag `tag`.
    pub open spec fn last(self, b: Seq<u8>, tag: u16, n: int) -> Option<int>
        decreases n,
    {
        if n <= 0 {
            None
        } else if self.tag(b, n - 1) == tag {
            Some(n - 1)
        } else {
            self.last(b, tag, n - 1)
        }
    }

    /// The number that the first `n` entries give for `tag`: the first one of the
    /// last entry with the tag, or `default` where there is none.
    pub open spec fn number(self, b: Seq<u8>, tag: u16, default: u32, n: int) -> u32 {
        match self.last(b, tag, n) {
            None => default,
            Some(i) => {
                let values = self.values(b, i);
                if values.len() == 0 {
                    default
                } else {
                    values[0]
                }
            },
        }
    }

    /// The numbers that the first `n` entries give for `tag`: all those of the
    /// last entry with the tag.
    pub open spec fn list(self, b: Seq<u8>, tag: u16, n: int) -> Seq<u32> {
        match self.last(b, tag, n) {
            None => Seq::empty(),
            Some(i) => self.values(b, i),
        }
    }

    /// The compression scheme, of which sixteen bits count.
    pub open spec fn compression(self, b: Seq<u8>) -> u32 {
        self.number(b, TAG_COMPRESSION, 0, self.entries) % 0x1_0000
    }

    /// The factors whose product is the size of one decoded strip: pixels in a
    /// row, rows, samples of a pixel, bytes of a sample.
    pub open spec fn factors(self, b: Seq<u8>) -> (int, int, int, int) {
        let rows = self.number(b, TAG_ROWS_PER_STRIP, u32::MAX, self.entries);
        let bytes = self.number(b, TAG_BITS_PER_SAMPLE, 8, self.entries) / 8;
        (
            self.number(b, TAG_WIDTH, 0, self.entries) as int,
            if rows <= MAX_ROWS {
                rows as int
            } else {
                MAX_ROWS as int
            },
            self.number(b, TAG_SAMPLES_PER_PIXEL, 1, self.entries) as int,
            if bytes >= 1 {
                bytes as int
            } else {
                1
            },
        )
    }
}

/// The number of bytes in a number of the given type: byte, short or long. No
/// other type holds numbers.
pub open spec fn number_size(kind: u16) -> nat {
    if kind == 1 {
        1
    } else if kind == 3 {
        2
    } else if kind == 4 {
        4
    } else {
        0
    }
}

/// The number of the given type at `i`.
pub open spec fn number_in(b: Seq<u8>, little: bool, kind: u16, i: int) -> u32 {
    if kind == 1 {
        b[i] as u32
    } else if kind == 3 {
        u16_in(b, little, i) as u32
    } else {
        u32_in(b, little, i)
    }
}

/// Where the `n` numbers of an entry stand: in the four bytes at `at`, or, where
/// these are too few, at the offset in them.
pub open spec fn numbers_at(b: Seq<u8>, little: bool, kind: u16, n: nat, at: int) -> int {
    if n * number_size(kind) <= 4 {
        at
    } else {
        u32_in(b, little, at) as int
    }
}

/// The `n` numbers of an entry whose value field is at `at`: none where the type
/// holds no numbers or they do not all lie within the file.
pub open spec fn numbers(b: Seq<u8>, little: bool, kind: u16, n: nat, at: int) -> Seq<u32> {
    let size = number_size(kind);
    let from = numbers_at(b, little, kind, n, at);
    if size == 0 || from + n * size > b.len() {
        Seq::empty()
    } else {
        Seq::new(n, |k: int| number_in(b, little, kind, from + k * size))
    }
}

/// The index of the greatest of `counts`, the first of them where several are
/// equal.
pub open spec fn greatest(counts: Seq<u32>) -> int
    decreases counts.len(),
{
    if counts.len() <= 1 {
        0
    } else {
        let before = greatest(counts.drop_last());
        if counts.last() > counts[before] {
            counts.len() - 1
        } else {
            before
        }
    }
}

/// The largest LZW strip of a file and the size of it decoded; nothing where
/// the file has no such strip; the fault that keeps the file from being read.
pub open spec fn largest_strip(b: Seq<u8>) -> Result<Option<(Seq<u8>, int)>, TiffFault> {
    match directory(b) {
        None => Ok(None),
        Some(dir) => {
            let offsets = dir.list(b, TAG_STRIP_OFFSETS, dir.entries);
            let counts = dir.list(b, TAG_STRIP_BYTE_COUNTS, dir.entries);
            let (width, rows, samples, bytes) = dir.factors(b);
            if exists|i: int| 0 <= i < dir.entries && dir.fits(b, i) && #[trigger] dir.untyped(b, i) {
                Err(TiffFault::UntypedValue)
            } else if dir.entries > 0 && !dir.fits(b, dir.entries - 1) {
                Ok(None)
            } else if dir.compression(b) != COMPRESSION_LZW {
                Ok(None)
            } else if offsets.len() == 0 || offsets.len() != counts.len() {
                Ok(None)
            } else if exists|i: int|
                0 <= i < counts.len() && #[trigger] offsets[i] + counts[i] > b.len() {
                Ok(None)
            } else {
                let from = offsets[greatest(counts)];
                let len = counts[greatest(counts)];
                if from + len > u32::MAX {
                    Err(TiffFault::StripEnd)
                } else if width * rows > usize::MAX || width * rows * samples > usize::MAX
                    || width * rows * samples * bytes > usize::MAX {
                    Err(TiffFault::DecodedSize)
                } else {
                    Ok(
                        Some(
                            (
                                b.subrange(from as int, from + len),
                                width * rows * samples * bytes,
                            ),
                        ),
                    )
                }
            }
        },
    }
}

/// The number in the two bytes at `i`.
fn read_u16(bytes: &[u8], little: bool, i: usize) -> (value: u16)
    requires
        i + 2 <= bytes.len(),
    ensures
        value == u16_in(bytes@, little, i as int),
{
    let first = bytes[i] as u16;
    let second = bytes[i + 1] as u16;
    if little {
        first + 0x100 * second
    } else {
        0x100 * first + second
    }
}

/// The number in the four bytes at `i`.
fn read_u32(bytes: &[u8], little: bool, i: usize) -> (value: u32)
    requires
        i + 4 <= bytes.len(),
    ensures
        value == u32_in(bytes@, little, i as int),
{
    let first = read_u16(bytes, little, i) as u32;
    let second = read_u16(bytes, little, i + 2) as u32;
    if little {
        first + 0x1_0000 * second
    } else {
        0x1_0000 * first + second
    }
}

/// The numbers that an entry holds.
fn read_values(bytes: &[u8], little: bool, kind: u16, n: u32, at: usize) -> (values: Vec<u32>)
    requires
        at + 4 <= bytes.len(),
    ensures
        values@ == numbers(bytes@, little, kind, n as nat, at as int),
{
    let mut values: Vec<u32> = Vec::new();
    let size: u64 = match kind {
        1 => 1,
        3 => 2,
        4 => 4,
        _ => return values,
    };
    let total: u64 = (n as u64) * size;
    let from: u64 = if total <= 4 {
        at as u64
    } else {
        read_u32(bytes, little, at) as u64
    };
    assert(from == numbers_at(bytes@, little, kind, n as nat, at as int));
    if from > bytes.len() as u64 || total > bytes.len() as u64 - from {
        return values;
    }
    let mut k: u32 = 0;
    let mut pos: usize = from as usize;
    while k < n
        invariant
            k <= n,
            size == number_size(kind),
            size > 0,
            pos == from + k * size,
            from + n * size <= bytes.len(),
            values@ == Seq::new(
                k as nat,
                |j: int| number_in(bytes@, little, kind, from + j * size),
            ),
        decreases n - k,
    {
        assert(pos + size <= from + n * size) by (nonlinear_arith)
            requires
                pos == from + k * size,
                k < n,
                size > 0,
        ;
        let value = match kind {
            1 => bytes[pos] as u32,
            3 => read_u16(bytes, little, pos) as u32,
            _ => read_u32(bytes, little, pos),
        };
        values.push(value);
        assert(pos + size == from + (k + 1) * size) by (nonlinear_arith)
            requires
                pos == from + k * size,
        ;
        pos = pos + size as usize;
        k += 1;
        assert(values@ =~= Seq::new(
            k as nat,
            |j: int| number_in(bytes@, little, kind, from + j * size),
        ));
    }
    values
}

/// The first of the `n` numbers that an entry holds, or `default` where it holds
/// none.
fn read_value(bytes: &[u8], little: bool, kind: u16, n: u32, at: usize, default: u32) -> (value:
    u32)
    requires
        at + 4 <= bytes.len(),
    ensures
        ({
            let values = numbers(bytes@, little, kind, n as nat, at as int);
            value == if values.len() == 0 {
                default
            } else {
                values[0]
            }
        }),
{
    let values = read_values(bytes, little, kind, n, at);
    if values.len() == 0 {
        default
    } else {
        values[0]
    }
}

/// The size of a decoded strip, if the machine's numbers hold it.
fn decoded_size(width: u32, rows: u32, samples: u32, bits: u32) -> (size: Option<usize>)
    ensures
        ({
            let height: int = if rows <= MAX_ROWS {
                rows as int
            } else {
                MAX_ROWS as int
            };
            let bytes: int = if bits / 8 >= 1 {
                (bits / 8) as int
            } else {
                1
            };
            match size {
                Some(size) => {
                    &&& width * height <= usize::MAX
                    &&& width * height * samples <= usize::MAX
                    &&& width * height * samples * bytes <= usize::MAX
                    &&& size == width * height * samples * bytes
                },
                None => width * height > usize::MAX || width * height * samples > usize::MAX
                    || width * height * samples * bytes > usize::MAX,
            }
        }),
{
    let height: usize = if rows <= MAX_ROWS {
        rows as usize
    } else {
        MAX_ROWS as usize
    };
    let bytes: usize = if bits / 8 >= 1 {
        (bits / 8) as usize
    } else {
        1
    };
    match (width as usize).checked_mul(height) {
        None => None,
        Some(pixels) => match pixels.checked_mul(samples as usize) {
            None => None,
            Some(values) => values.checked_mul(bytes),
        },
    }
}

/// What the directory of a file says of its strips.
struct Fields {
    compression: u32,
    width: u32,
    bits: u32,
    samples: u32,
    rows: u32,
    offsets: Vec<u32>,
    counts: Vec<u32>,
}

impl Fields {
    /// Whether these are the fields that the first `n` entries give.
    spec fn gathered(self, b: Seq<u8>, dir: Directory, n: int) -> bool {
        &&& self.compression == dir.number(b, TAG_COMPRESSION, 0, n)
        &&& self.width == dir.number(b, TAG_WIDTH, 0, n)
        &&& self.bits == dir.number(b, TAG_BITS_PER_SAMPLE, 8, n)
        &&& self.samples == dir.number(b, TAG_SAMPLES_PER_PIXEL, 1, n)
        &&& self.rows == dir.number(b, TAG_ROWS_PER_STRIP, u32::MAX, n)
        &&& self.offsets@ == dir.list(b, TAG_STRIP_OFFSETS, n)
        &&& self.counts@ == dir.list(b, TAG_STRIP_BYTE_COUNTS, n)
    }

    /// Takes in the entry at `pos`, and tells whether it could be taken in.
    fn take_in(
        &mut self,
        bytes: &[u8],
        little: bool,
        pos: usize,
        Ghost(dir): Ghost<Directory>,
        Ghost(i): Ghost<int>,
    ) -> (taken: bool)
        requires
            dir.little == little,
            0 <= i,
            pos == dir.at(i),
            pos + ENTRY_SIZE <= bytes.len(),
            old(self).gathered(bytes@, dir, i),
        ensures
            taken == !dir.untyped(bytes@, i),
            taken ==> final(self).gathered(bytes@, dir, i + 1),
    {
        let tag = read_u16(bytes, little, pos);
        let kind = read_u16(bytes, little, pos + 2);
        let count = read_u32(bytes, little, pos + 4);
        let value = pos + 8;
        if tag == TAG_WIDTH || tag == TAG_COMPRESSION {
            if kind != 1 && kind != 3 && kind != 4 {
                return false;
            }
        }
        if tag == TAG_WIDTH {
            self.width = read_value(bytes, little, kind, 1, value, 0);
        } else if tag == TAG_BITS_PER_SAMPLE {
            let n: u32 = if count == 0 {
                1
            } else {
                count
            };
            self.bits = read_value(bytes, little, kind, n, value, 8);
        } else if tag == TAG_COMPRESSION {
            self.compression = read_value(bytes, little, kind, 1, value, 0);
        } else if tag == TAG_STRIP_OFFSETS {
            self.offsets = read_values(bytes, little, kind, count, value);
        } else if tag == TAG_SAMPLES_PER_PIXEL {
            self.samples = read_value(bytes, little, kind, 1, value, 1);
        } else if tag == TAG_ROWS_PER_STRIP {
            self.rows = read_value(bytes, little, kind, 1, value, u32::MAX);
        } else if tag == TAG_STRIP_BYTE_COUNTS {
            self.counts = read_values(bytes, little, kind, count, value);
        }
        true
    }
}

/// The index of the greatest of `counts`, if every strip lies within `len`
/// bytes.
fn choose_strip(offsets: &Vec<u32>, counts: &Vec<u32>, len: usize) -> (chosen: Option<usize>)
    requires
        offsets@.len() == counts@.len(),
        counts@.len() > 0,
    ensures
        match chosen {
            Some(i) => {
                &&& i == greatest(counts@)
                &&& i < counts@.len()
                &&& forall|k: int| 0 <= k < counts@.len() ==> #[trigger] offsets@[k] + counts@[k] <= len
            },
            None => exists|k: int|
                0 <= k < counts@.len() && #[trigger] offsets@[k] + counts@[k] > len,
        },
{
    let mut best: usize = 0;
    let mut i: usize = 0;
    while i < counts.len()
        invariant
            offsets@.len() == counts@.len(),
            i <= counts@.len(),
            best == greatest(counts@.take(i as int)),
            i > 0 ==> best < i,
            i == 0 ==> best == 0,
            forall|k: int| 0 <= k < i ==> #[trigger] offsets@[k] + counts@[k] <= len,
        decreases counts@.len() - i,
    {
        if offsets[i] as u64 + counts[i] as u64 > len as u64 {
            return None;
        }
        proof {
            let upto = counts@.take(i + 1);
            assert(upto.drop_last() =~= counts@.take(i as int));
        }
        if counts[i] > counts[best] {
            best = i;
        }
        i += 1;
    }
    assert(counts@.take(i as int) =~= counts@);
    Some(best)
}

impl Fields {
    /// The largest strip of a file all of whose entries were taken in, and the
    /// size of it decoded.
    #[verifier::rlimit(60)]
    #[verifier::spinoff_prover]
    fn pick(&self, bytes: &[u8], Ghost(dir): Ghost<Directory>) -> (result: Result<
        Option<(Vec<u8>, usize)>,
        TiffFault,
    >)
        requires
            directory(bytes@) == Some(dir),
            self.gathered(bytes@, dir, dir.entries),
            forall|k: int| 0 <= k < dir.entries ==> !#[trigger] dir.untyped(bytes@, k),
            dir.entries > 0 ==> dir.fits(bytes@, dir.entries - 1),
        ensures
            match result {
                Err(fault) => largest_strip(bytes@) == Err::<Option<(Seq<u8>, int)>, _>(fault),
                Ok(None) => largest_strip(bytes@) == Ok::<Option<(Seq<u8>, int)>, TiffFault>(None),
                Ok(Some((strip, size))) => largest_strip(bytes@) == Ok::<_, TiffFault>(
                    Some((strip@, size as int)),
                ),
            },
    {
        if self.compression % 0x1_0000 != COMPRESSION_LZW as u32 {
            return Ok(None);
        }
        if self.offsets.len() == 0 || self.offsets.len() != self.counts.len() {
            return Ok(None);
        }
        match choose_strip(&self.offsets, &self.counts, bytes.len()) {
            None => Ok(None),
            Some(best) => {
                let from: u32 = self.offsets[best];
                let len: u32 = self.counts[best];
                if from > u32::MAX - len {
                    return Err(TiffFault::StripEnd);
                }
                match decoded_size(self.width, self.rows, self.samples, self.bits) {
                    None => Err(TiffFault::DecodedSize),
                    Some(size) => {
                        let strip = slice_subrange(bytes, from as usize, (from + len) as usize);
                        Ok(Some((slice_to_vec(strip), size)))
                    },
                }
            },
        }
    }
}

/// The largest LZW strip of a file, as a stream of its own, and the size of it
/// decoded; nothing where the file has no such strip; or the fault that keeps
/// the file from being read.
#[verifier::rlimit(60)]
#[verifier::spinoff_prover]
pub fn try_parse_tiff_lzw_strips(bytes: &[u8]) -> (result: Result<
    Option<(Vec<u8>, usize)>,
    TiffFault,
>)
    ensures
        match result {
            Err(fault) => largest_strip(bytes@) == Err::<Option<(Seq<u8>, int)>, _>(fault),
            Ok(None) => largest_strip(bytes@) == Ok::<Option<(Seq<u8>, int)>, TiffFault>(None),
            Ok(Some((strip, size))) => largest_strip(bytes@) == Ok::<_, TiffFault>(
                Some((strip@, size as int)),
            ),
        },
{
    if bytes.len() < 8 {
        return Ok(None);
    }
    let little = if bytes[0] == 0x49 && bytes[1] == 0x49 {
        true
    } else if bytes[0] == 0x4D && bytes[1] == 0x4D {
        false
    } else {
        return Ok(None);
    };
    if read_u16(bytes, little, 2) != 42 {
        return Ok(None);
    }
    let at: usize = read_u32(bytes, little, 4) as usize;
    if at > bytes.len() - 2 {
        return Ok(None);
    }
    let entries: u16 = read_u16(bytes, little, at);
    let ghost dir = directory(bytes@)->Some_0;

    let mut fields = Fields {
        compression: 0,
        width: 0,
        bits: 8,
        samples: 1,
        rows: u32::MAX,
        offsets: Vec::new(),
        counts: Vec::new(),
    };
    let mut i: u16 = 0;
    let mut pos: usize = at + 2;
    while i < entries
        invariant
            directory(bytes@) == Some(dir),
            dir.little == little,
            dir.entries == entries,
            i <= entries,
            pos == dir.at(i as int),
            pos <= bytes.len(),
            forall|k: int| 0 <= k < i ==> !#[trigger] dir.untyped(bytes@, k),
            i > 0 ==> dir.fits(bytes@, i - 1),
            fields.gathered(bytes@, dir, i as int),
        decreases entries - i,
    {
        if bytes.len() - pos < ENTRY_SIZE {
            proof {
                lemma_no_later_entry_fits(bytes@, dir, i as int);
            }
            return Ok(None);
        }
        if !fields.take_in(bytes, little, pos, Ghost(dir), Ghost(i as int)) {
            assert(dir.fits(bytes@, i as int) && dir.untyped(bytes@, i as int));
            return Err(TiffFault::UntypedValue);
        }
        pos = pos + ENTRY_SIZE;
        i += 1;
    }

    fields.pick(bytes, Ghost(dir))
}

/// The largest LZW strip of a file, as a stream of its own, and the size of it
/// decoded; nothing where the file has no such strip.
pub fn parse_tiff_lzw_strips(bytes: &[u8]) -> (result: Option<(Vec<u8>, usize)>)
    requires
        largest_strip(bytes@) is Ok,
    ensures
        match result {
            None => largest_strip(bytes@) == Ok::<Option<(Seq<u8>, int)>, TiffFault>(None),
            Some((strip, size)) => largest_strip(bytes@) == Ok::<_, TiffFault>(
                Some((strip@, size as int)),
            ),
        },
{
    match try_parse_tiff_lzw_strips(bytes) {
        Ok(found) => found,
        Err(_) => {
            assert(false);
            None
        },
    }
}

/// Behind an entry that does not lie within the file no other does.
proof fn lemma_no_later_entry_fits(b: Seq<u8>, dir: Directory, i: int)
    requires
        !dir.fits(b, i),
    ensures
        forall|k: int| i <= k ==> !#[trigger] dir.fits(b, k),
{
}

/// [`greatest`] gives the first of the greatest counts: none is greater, and
/// those before it are less.
pub proof fn law_greatest_is_the_first_greatest(counts: Seq<u32>)
    requires
        counts.len() > 0,
    ensures
        0 <= greatest(counts) < counts.len(),
        forall|k: int| 0 <= k < counts.len() ==> #[trigger] counts[k] <= counts[greatest(counts)],
        forall|k: int| 0 <= k < greatest(counts) ==> #[trigger] counts[k] < counts[greatest(counts)],
    decreases counts.len(),
{
    if counts.len() > 1 {
        let before = counts.drop_last();
        law_greatest_is_the_first_greatest(before);
        assert forall|k: int| 0 <= k < counts.len() - 1 implies counts[k] == before[k] by {}
    }
}

/// A strip that is found is one of those that the file lists, it lies in the
/// file in one piece, and no strip that the file lists is longer.
pub proof fn law_found_strip_is_the_largest_listed(b: Seq<u8>, strip: Seq<u8>, size: int)
    requires
        largest_strip(b) == Ok::<_, TiffFault>(Some((strip, size))),
    ensures
        directory(b) matches Some(dir) && {
            let offsets = dir.list(b, TAG_STRIP_OFFSETS, dir.entries);
            let counts = dir.list(b, TAG_STRIP_BYTE_COUNTS, dir.entries);
            &&& offsets.len() == counts.len()
            &&& forall|k: int| 0 <= k < counts.len() ==> #[trigger] counts[k] <= strip.len()
            &&& exists|k: int|
                {
                    &&& 0 <= k < counts.len()
                    &&& #[trigger] counts[k] == strip.len()
                    &&& offsets[k] + counts[k] <= b.len()
                    &&& strip == b.subrange(offsets[k] as int, offsets[k] + counts[k])
                }
        },
{
    let dir = directory(b)->Some_0;
    let offsets = dir.list(b, TAG_STRIP_OFFSETS, dir.entries);
    let counts = dir.list(b, TAG_STRIP_BYTE_COUNTS, dir.entries);
    law_greatest_is_the_first_greatest(counts);
    let k = greatest(counts);
    assert(offsets[k] + counts[k] <= b.len());
    assert(counts[k] == strip.len());
}

/// A file that does not state its byte order, the number 42 and a directory
/// that starts within it has no strips; it is never faulty.
pub proof fn law_no_header_no_strip(b: Seq<u8>)
    requires
        b.len() < 8 || byte_order(b) is None || u16_in(b, byte_order(b)->Some_0, 2) != 42
            || u32_in(b, byte_order(b)->Some_0, 4) + 2 > b.len(),
    ensures
        largest_strip(b) == Ok::<Option<(Seq<u8>, int)>, TiffFault>(None),
{
}

/// Whether entries with this tag are read. All others are passed over.
pub open spec fn is_read(tag: u16) -> bool {
    ||| tag == TAG_WIDTH
    ||| tag == TAG_BITS_PER_SAMPLE
    ||| tag == TAG_COMPRESSION
    ||| tag == TAG_STRIP_OFFSETS
    ||| tag == TAG_SAMPLES_PER_PIXEL
    ||| tag == TAG_ROWS_PER_STRIP
    ||| tag == TAG_STRIP_BYTE_COUNTS
}

/// Whether byte `j` lies in one of the strips that the file lists.
pub open spec fn in_strip(b: Seq<u8>, dir: Directory, j: int) -> bool {
    let offsets = dir.list(b, TAG_STRIP_OFFSETS, dir.entries);
    let counts = dir.list(b, TAG_STRIP_BYTE_COUNTS, dir.entries);
    exists|k: int|
        0 <= k < offsets.len() && k < counts.len() && #[trigger] offsets[k] <= j < offsets[k]
            + counts[k]
}

/// Whether byte `j` lies in the numbers of entry `i`.
pub open spec fn in_values(b: Seq<u8>, dir: Directory, i: int, j: int) -> bool {
    let from = numbers_at(b, dir.little, dir.kind(b, i), dir.length(b, i), dir.at(i) + 8);
    from <= j < from + dir.length(b, i) * number_size(dir.kind(b, i))
}

/// Whether entry `i` is passed over in both files, or is read alike in both.
spec fn entry_alike(f: Seq<u8>, of: Directory, g: Seq<u8>, og: Directory, i: int) -> bool {
    is_read(of.tag(f, i)) || is_read(og.tag(g, i)) ==> {
        &&& of.tag(f, i) == og.tag(g, i)
        &&& of.kind(f, i) == og.kind(g, i)
        &&& of.values(f, i) == og.values(g, i)
    }
}

proof fn lemma_last_alike(
    f: Seq<u8>,
    of: Directory,
    g: Seq<u8>,
    og: Directory,
    tag: u16,
    n: int,
)
    requires
        is_read(tag),
        forall|i: int| 0 <= i < n ==> #[trigger] entry_alike(f, of, g, og, i),
    ensures
        of.last(f, tag, n) == og.last(g, tag, n),
        of.last(f, tag, n) matches Some(i) ==> of.values(f, i) == og.values(g, i),
        of.list(f, tag, n) == og.list(g, tag, n),
        forall|default: u32| #[trigger]
            of.number(f, tag, default, n) == og.number(g, tag, default, n),
    decreases n,
{
    if n > 0 {
        assert(entry_alike(f, of, g, og, n - 1));
        lemma_last_alike(f, of, g, og, tag, n - 1);
    }
}

/// Files of one length whose directories are read alike, and that hold the same
/// strips, give the same.
#[verifier::rlimit(60)]
#[verifier::spinoff_prover]
proof fn lemma_read_alike(f: Seq<u8>, of: Directory, g: Seq<u8>, og: Directory)
    requires
        f.len() == g.len(),
        directory(f) == Some(of),
        directory(g) == Some(og),
        of.start == og.start,
        of.entries == og.entries,
        forall|i: int|
            0 <= i < of.entries && of.fits(f, i) ==> #[trigger] entry_alike(f, of, g, og, i),
        forall|j: int| 0 <= j < f.len() && in_strip(f, of, j) ==> f[j] == g[j],
    ensures
        largest_strip(f) == largest_strip(g),
{
    let n = of.entries;
    assert forall|i: int| 0 <= i < n && of.fits(f, i) implies #[trigger] of.untyped(f, i)
        == og.untyped(g, i) by {
        assert(entry_alike(f, of, g, og, i));
    }
    let faulty = exists|i: int| 0 <= i < n && of.fits(f, i) && #[trigger] of.untyped(f, i);
    let faulty_too = exists|i: int| 0 <= i < n && og.fits(g, i) && #[trigger] og.untyped(g, i);
    assert(faulty == faulty_too) by {
        if faulty {
            let i = choose|i: int| 0 <= i < n && of.fits(f, i) && #[trigger] of.untyped(f, i);
            assert(og.fits(g, i) && og.untyped(g, i));
        }
        if faulty_too {
            let i = choose|i: int| 0 <= i < n && og.fits(g, i) && #[trigger] og.untyped(g, i);
            assert(of.fits(f, i) && of.untyped(f, i));
        }
    }
    if !faulty && (n == 0 || of.fits(f, n - 1)) {
        assert forall|i: int| 0 <= i < n implies #[trigger] entry_alike(f, of, g, og, i) by {
            assert(of.fits(f, i));
        }
        lemma_last_alike(f, of, g, og, TAG_WIDTH, n);
        lemma_last_alike(f, of, g, og, TAG_BITS_PER_SAMPLE, n);
        lemma_last_alike(f, of, g, og, TAG_COMPRESSION, n);
        lemma_last_alike(f, of, g, og, TAG_STRIP_OFFSETS, n);
        lemma_last_alike(f, of, g, og, TAG_SAMPLES_PER_PIXEL, n);
        lemma_last_alike(f, of, g, og, TAG_ROWS_PER_STRIP, n);
        lemma_last_alike(f, of, g, og, TAG_STRIP_BYTE_COUNTS, n);
        let offsets = of.list(f, TAG_STRIP_OFFSETS, n);
        let counts = of.list(f, TAG_STRIP_BYTE_COUNTS, n);
        assert(offsets == og.list(g, TAG_STRIP_OFFSETS, n));
        assert(counts == og.list(g, TAG_STRIP_BYTE_COUNTS, n));
        assert(of.compression(f) == og.compression(g));
        assert(of.factors(f) == og.factors(g));
        if offsets.len() > 0 && offsets.len() == counts.len() {
            law_greatest_is_the_first_greatest(counts);
            let k = greatest(counts);
            if offsets[k] + counts[k] <= f.len() {
                assert forall|j: int| offsets[k] <= j < offsets[k] + counts[k] implies f[j]
                    == g[j] by {
                    assert(in_strip(f, of, j));
                }
                assert(f.subrange(offsets[k] as int, offsets[k] + counts[k]) =~= g.subrange(
                    offsets[k] as int,
                    offsets[k] + counts[k],
                ));
            }
        }
    }
}

/// Whether byte `j` lies in an entry that is passed over in both files.
pub open spec fn passed_over(f: Seq<u8>, g: Seq<u8>, dir: Directory, j: int) -> bool {
    exists|i: int|
        {
            &&& 0 <= i < dir.entries
            &&& dir.at(i) <= j < dir.at(i) + ENTRY_SIZE
            &&& !is_read(#[trigger] dir.tag(f, i))
            &&& !is_read(dir.tag(g, i))
        }
}

/// What stands in entries with tags that are not read changes nothing: two files
/// with one directory that differ in such entries alone give the same, as long as
/// no strip and no numbers that are read lie there.
#[verifier::rlimit(60)]
#[verifier::spinoff_prover]
pub proof fn law_other_tags_change_nothing(f: Seq<u8>, g: Seq<u8>, dir: Directory)
    requires
        f.len() == g.len(),
        directory(f) == Some(dir),
        directory(g) == Some(dir),
        forall|j: int| 0 <= j < f.len() && f[j] != g[j] ==> #[trigger] passed_over(f, g, dir, j),
        forall|i: int, j: int|
            0 <= i < dir.entries && is_read(dir.tag(f, i)) && #[trigger] in_values(f, dir, i, j)
                ==> !passed_over(f, g, dir, j),
        forall|j: int| #[trigger] in_strip(f, dir, j) ==> !passed_over(f, g, dir, j),
    ensures
        largest_strip(f) == largest_strip(g),
{
    assert forall|i: int| 0 <= i < dir.entries && dir.fits(f, i) implies #[trigger] entry_alike(
        f,
        dir,
        g,
        dir,
        i,
    ) by {
        if is_read(dir.tag(f, i)) || is_read(dir.tag(g, i)) {
            assert forall|j: int| dir.at(i) <= j < dir.at(i) + ENTRY_SIZE implies f[j] == g[j] by {
                if f[j] != g[j] {
                    assert(passed_over(f, g, dir, j));
                    let k = choose|k: int|
                        {
                            &&& 0 <= k < dir.entries
                            &&& dir.at(k) <= j < dir.at(k) + ENTRY_SIZE
                            &&& !is_read(#[trigger] dir.tag(f, k))
                            &&& !is_read(dir.tag(g, k))
                        };
                    assert(k == i);
                }
            }
            let kind = dir.kind(f, i);
            let n = dir.length(f, i);
            let size = number_size(kind);
            let from = numbers_at(f, dir.little, kind, n, dir.at(i) + 8);
            if size > 0 && from + n * size <= f.len() {
                assert forall|k: int| 0 <= k < n implies number_in(
                    f,
                    dir.little,
                    kind,
                    #[trigger] (from + k * size),
                ) == number_in(g, dir.little, kind, from + k * size) by {
                    assert(0 <= k * size && k * size + size <= n * size) by (nonlinear_arith)
                        requires
                            0 <= k < n,
                    ;
                    assert forall|j: int| from + k * size <= j < from + k * size + size implies f[j]
                        == g[j] by {
                        assert(in_values(f, dir, i, j));
                    }
                }
            }
            assert(dir.values(f, i) =~= dir.values(g, i));
        }
    }
    lemma_read_alike(f, dir, g, dir);
}

/// Whether the `n` bytes at `i` in `g` are those in `f` the other way round.
pub open spec fn turned(f: Seq<u8>, g: Seq<u8>, i: int, n: nat) -> bool {
    forall|j: int| 0 <= j < n ==> #[trigger] g[i + j] == f[i + n - 1 - j]
}

/// Whether entry `i` of the little-endian file `f` is written the other way round
/// in `g`: its tag, its type, its count, and its numbers one by one, with the
/// offset to them where there is one.
pub open spec fn entry_turned(f: Seq<u8>, g: Seq<u8>, dir: Directory, i: int) -> bool {
    let size = number_size(dir.kind(f, i));
    let n = dir.count(f, i) as nat;
    let from = numbers_at(f, true, dir.kind(f, i), n, dir.at(i) + 8);
    &&& turned(f, g, dir.at(i), 2)
    &&& turned(f, g, dir.at(i) + 2, 2)
    &&& turned(f, g, dir.at(i) + 4, 4)
    &&& n * size > 4 ==> turned(f, g, dir.at(i) + 8, 4)
    &&& from + n * size <= f.len() ==> forall|k: int|
        0 <= k < n ==> turned(f, g, #[trigger] (from + k * size), size)
}

/// The byte order of a file changes nothing: a little-endian file, and the same
/// file with every number in it written in big-endian order, give the same. The
/// width, the compression scheme, the samples of a pixel and the rows of a strip
/// must be the single numbers that they are taken for, and the bits of a sample
/// one number at least.
#[verifier::rlimit(60)]
#[verifier::spinoff_prover]
pub proof fn law_byte_order_changes_nothing(f: Seq<u8>, g: Seq<u8>)
    requires
        f.len() == g.len(),
        byte_order(f) == Some(true),
        byte_order(g) == Some(false),
        f.len() >= 8 ==> turned(f, g, 2, 2) && turned(f, g, 4, 4),
        directory(f) matches Some(dir) ==> {
            &&& turned(f, g, dir.start - 2, 2)
            &&& forall|i: int|
                0 <= i < dir.entries && dir.fits(f, i) ==> {
                    &&& #[trigger] entry_turned(f, g, dir, i)
                    &&& is_read(dir.tag(f, i)) ==> dir.count(f, i) == dir.length(f, i)
                }
            &&& forall|j: int| 0 <= j < f.len() && in_strip(f, dir, j) ==> f[j] == g[j]
        },
    ensures
        largest_strip(f) == largest_strip(g),
{
    if f.len() >= 8 {
        lemma_turned_numbers(f, g, 2);
        lemma_turned_numbers(f, g, 4);
    }
    match directory(f) {
        None => {},
        Some(of) => {
            lemma_turned_numbers(f, g, of.start - 2);
            let og = Directory { little: false, start: of.start, entries: of.entries };
            assert(directory(g) == Some(og));
            assert forall|i: int| 0 <= i < of.entries && of.fits(f, i) implies #[trigger] entry_alike(
                f,
                of,
                g,
                og,
                i,
            ) by {
                assert(entry_turned(f, g, of, i));
                lemma_turned_numbers(f, g, of.at(i));
                lemma_turned_numbers(f, g, of.at(i) + 2);
                lemma_turned_numbers(f, g, of.at(i) + 4);
                lemma_turned_numbers(f, g, of.at(i) + 8);
                if is_read(of.tag(f, i)) {
                    let kind = of.kind(f, i);
                    let n = of.length(f, i);
                    let size = number_size(kind);
                    let from = numbers_at(f, true, kind, n, of.at(i) + 8);
                    if size > 0 && from + n * size <= f.len() {
                        assert forall|k: int| 0 <= k < n implies number_in(
                            f,
                            true,
                            kind,
                            #[trigger] (from + k * size),
                        ) == number_in(g, false, kind, from + k * size) by {
                            assert(turned(f, g, from + k * size, size));
                            lemma_turned_numbers(f, g, from + k * size);
                        }
                    }
                    assert(of.values(f, i) =~= og.values(g, i));
                }
            }
            lemma_read_alike(f, of, g, og);
        },
    }
}

/// Bytes the other way round are the same number in the other byte order.
proof fn lemma_turned_numbers(f: Seq<u8>, g: Seq<u8>, i: int)
    ensures
        turned(f, g, i, 1) ==> f[i] == g[i],
        turned(f, g, i, 2) ==> u16_in(f, true, i) == u16_in(g, false, i),
        turned(f, g, i, 4) ==> u32_in(f, true, i) == u32_in(g, false, i),
{
    if turned(f, g, i, 1) {
        assert(g[i + 0] == f[i]);
    }
    if turned(f, g, i, 2) {
        assert(g[i + 0] == f[i + 1]);
        assert(g[i + 1] == f[i]);
    }
    if turned(f, g, i, 4) {
        assert(g[i + 0] == f[i + 3]);
        assert(g[i + 1] == f[i + 2]);
        assert(g[i + 2] == f[i + 1]);
        assert(g[i + 3] == f[i]);
    }
}

} // verus!
