//! Corpora of LZW strips from TIFF files.

use vstd::prelude::*;
use crate::listing::{input_name, list_files, DirFile, FileKind};
use crate::listing::{file_texts, FileText};
use crate::listing::{indices, listing, names, same_directory, stem_text, tagged};
use crate::listing::{
    law_listing_ignores_directory_order, law_listing_is_complete_and_in_order,
    law_up_to_is_an_order, lemma_first_mapped, lemma_listing_of_one_more, lemma_mapped_alike,
    lemma_mapped_in_order, lemma_mapped_item, lemma_mapped_item_once,
    lemma_prefix_is_mapped_first, lemma_unmapped_item, mapped_from, up_to,
};
use crate::tiff::largest_strip;
use crate::tiff::{parse_tiff_lzw_strips, try_parse_tiff_lzw_strips, TiffFault};

verus! {

/// The least length of a strip that is worth taking.
pub const MIN_STRIP: usize = 1024;

/// The least length of a decoded strip that is worth taking.
pub const MIN_DECODED: usize = 4096;

/// The directory of the valid files of the tiff-conformance corpus.
pub const TIFF_CONFORMANCE_DIR: &'static str =
    "/home/lilith/work/codec-corpus/tiff-conformance/valid";

/// The directory of the QOI screenshots converted to LZW TIFF.
pub const QOI_TIFF_DIR: &'static str = "/tmp/tiff_corpus/qoi";

/// The directory of the gb82 screen captures converted to LZW TIFF.
pub const SC_TIFF_DIR: &'static str = "/tmp/tiff_corpus/sc";

/// The directory of the CLIC2025 photographs converted to LZW TIFF with the
/// horizontal predictor.
pub const CLIC_TIFF_PRED_DIR: &'static str = "/tmp/tiff_corpus/clic";

/// The directory of the CLIC2025 photographs converted to LZW TIFF without a
/// predictor.
pub const CLIC_TIFF_NOPRED_DIR: &'static str = "/tmp/tiff_corpus/clic-nopred";

/// A strip of a TIFF file, as a stream of its own, under a name.
pub struct TiffStrips {
    pub name: &'static str,
    pub lzw_bytes: Vec<u8>,
    /// The size of the strip decoded, by what the file states of it: the size
    /// of the space to decode it into.
    pub decompressed_size: usize,
}

/// What there is to know of a strip: its name, its bytes and the size of it
/// decoded.
pub struct StripText {
    pub name: Seq<char>,
    pub lzw_bytes: Seq<u8>,
    pub decompressed_size: int,
}

impl View for TiffStrips {
    type V = StripText;

    open spec fn view(&self) -> StripText {
        StripText {
            name: self.name@,
            lzw_bytes: self.lzw_bytes@,
            decompressed_size: self.decompressed_size as int,
        }
    }
}

/// What there is to know of each strip.
pub open spec fn strip_texts(strips: Seq<TiffStrips>) -> Seq<StripText> {
    Seq::new(strips.len(), |i: int| strips[i]@)
}

/// The TIFF files of a directory in the order in which they are taken.
pub open spec fn tiff_choice(files: Seq<FileText>) -> Seq<int> {
    listing(names(files), FileKind::Tiff)
}

/// The fault that keeps a file of a directory from being read.
pub open spec fn file_fault(file: FileText) -> Option<TiffFault> {
    match file.bytes {
        None => None,
        Some(bytes) => match largest_strip(bytes) {
            Err(fault) => Some(fault),
            Ok(_) => None,
        },
    }
}

/// The faults of the TIFF files of a directory, in the order in which the files
/// are taken.
pub open spec fn tiff_faults(files: Seq<FileText>) -> Seq<TiffFault> {
    tiff_choice(files).filter_map(|i: int| file_fault(files[i]))
}

/// The strip that a corpus takes from a file: none where the file could not be
/// read or has none, or the strip is too small.
pub open spec fn file_strip(file: FileText, tag_prefix: Seq<char>) -> Option<StripText> {
    match file.bytes {
        None => None,
        Some(bytes) => match largest_strip(bytes) {
            Ok(Some((lzw_bytes, decompressed_size))) => if lzw_bytes.len() < MIN_STRIP
                || decompressed_size < MIN_DECODED {
                None
            } else {
                Some(
                    StripText {
                        name: tagged(tag_prefix, stem_text(file.name, "?"@)),
                        lzw_bytes,
                        decompressed_size,
                    },
                )
            },
            _ => None,
        },
    }
}

/// The strips that a corpus takes from the files of a directory.
pub open spec fn tiff_strips(files: Seq<FileText>, tag_prefix: Seq<char>) -> Seq<StripText> {
    tiff_choice(files).filter_map(|i: int| file_strip(files[i], tag_prefix))
}

/// The TIFF files of a directory in the order in which they are taken. Only
/// these need be read.
pub fn choose_tiff_files(files: &Vec<DirFile>) -> (chosen: Vec<usize>)
    ensures
        indices(chosen@) == tiff_choice(file_texts(files@)),
        forall|k: int| 0 <= k < chosen@.len() ==> #[trigger] chosen@[k] < files@.len(),
{
    list_files(files, FileKind::Tiff)
}

/// The first fault of the TIFF files of a directory, if there is any.
pub fn first_tiff_fault(files: &Vec<DirFile>) -> (fault: Option<TiffFault>)
    ensures
        match fault {
            None => tiff_faults(file_texts(files@)).len() == 0,
            Some(fault) => tiff_faults(file_texts(files@)).len() > 0 && tiff_faults(file_texts(files@))[0] == fault,
        },
{
    let order = choose_tiff_files(files);
    let ghost texts_of = file_texts(files@);
    let ghost taken = tiff_choice(file_texts(files@));
    let ghost faulty = |i: int| file_fault(texts_of[i]);
    let mut k: usize = 0;
    while k < order.len()
        invariant
            k <= order@.len(),
            texts_of == file_texts(files@),
            indices(order@) == taken,
            taken == tiff_choice(texts_of),
            forall|q: int| 0 <= q < order@.len() ==> #[trigger] order@[q] < files@.len(),
            faulty == (|i: int| file_fault(texts_of[i])),
            taken.take(k as int).filter_map(faulty).len() == 0,
        decreases order@.len() - k,
    {
        proof {
            taken.lemma_filter_map_take_succ(faulty, k as int);
        }
        match &files[order[k]].bytes {
            None => {},
            Some(bytes) => match try_parse_tiff_lzw_strips(bytes.as_slice()) {
                Ok(_) => {},
                Err(fault) => {
                    proof {
                        lemma_prefix_is_mapped_first(taken, faulty, k + 1);
                        let upto = taken.take(k + 1).filter_map(faulty);
                        assert(upto =~= seq![fault]);
                        assert(tiff_faults(file_texts(files@))[0] == upto[0]);
                    }
                    return Some(fault);
                },
            },
        }
        k += 1;
    }
    assert(taken.take(k as int) =~= taken);
    None
}

/// Takes the largest strip of every TIFF file of a directory that has one large
/// enough.
pub fn load_lzw_tiff_corpus(files: &Vec<DirFile>, tag_prefix: &'static str) -> (strips: Vec<
    TiffStrips,
>)
    requires
        tiff_faults(file_texts(files@)).len() == 0,
    ensures
        strip_texts(strips@) == tiff_strips(file_texts(files@), tag_prefix@),
        strips@.len() == tiff_strips(file_texts(files@), tag_prefix@).len(),
        forall|k: int|
            0 <= k < strips@.len() ==> {
                let strip = tiff_strips(file_texts(files@), tag_prefix@)[k];
                &&& (#[trigger] strips@[k]).name@ == strip.name
                &&& strips@[k].lzw_bytes@ == strip.lzw_bytes
                &&& strips@[k].decompressed_size == strip.decompressed_size
            },
{
    let order = choose_tiff_files(files);
    let ghost texts_of = file_texts(files@);
    let ghost taken = tiff_choice(file_texts(files@));
    let ghost faulty = |i: int| file_fault(texts_of[i]);
    let ghost strip = |i: int| file_strip(texts_of[i], tag_prefix@);
    let mut strips: Vec<TiffStrips> = Vec::new();
    let mut k: usize = 0;
    assert(strip_texts(strips@) =~= taken.take(0).filter_map(strip));
    while k < order.len()
        invariant
            k <= order@.len(),
            texts_of == file_texts(files@),
            indices(order@) == taken,
            taken == tiff_choice(texts_of),
            forall|q: int| 0 <= q < order@.len() ==> #[trigger] order@[q] < files@.len(),
            faulty == (|i: int| file_fault(texts_of[i])),
            strip == (|i: int| file_strip(texts_of[i], tag_prefix@)),
            taken.filter_map(faulty).len() == 0,
            strip_texts(strips@) == taken.take(k as int).filter_map(strip),
        decreases order@.len() - k,
    {
        let ghost before = strip_texts(strips@);
        let file = &files[order[k]];
        proof {
            taken.lemma_filter_map_take_succ(strip, k as int);
            taken.lemma_filter_map_take_succ(faulty, k as int);
            lemma_prefix_is_mapped_first(taken, faulty, k + 1);
            assert(file_fault(file@) is None);
        }
        match &file.bytes {
            None => {},
            Some(bytes) => match parse_tiff_lzw_strips(bytes.as_slice()) {
                None => {},
                Some((lzw_bytes, decompressed_size)) => {
                    if lzw_bytes.len() >= MIN_STRIP && decompressed_size >= MIN_DECODED {
                        let name = input_name(tag_prefix, file.name.as_slice(), "?");
                        let found = TiffStrips { name, lzw_bytes, decompressed_size };
                        strips.push(found);
                        assert(strip_texts(strips@) =~= before.push(found@));
                    }
                },
            },
        }
        k += 1;
    }
    assert(taken.take(k as int) =~= taken);
    assert forall|q: int| 0 <= q < strips@.len() implies #[trigger] strips@[q]@ == strip_texts(
        strips@,
    )[q] by {}
    strips
}

/// The corpus of the files in [`TIFF_CONFORMANCE_DIR`].
pub fn tiff_conformance_lzw(files: &Vec<DirFile>) -> (strips: Vec<TiffStrips>)
    requires
        tiff_faults(file_texts(files@)).len() == 0,
    ensures
        strip_texts(strips@) == tiff_strips(file_texts(files@), "conform"@),
{
    load_lzw_tiff_corpus(files, "conform")
}

/// The corpus of the files in [`QOI_TIFF_DIR`].
pub fn qoi_as_lzw_tiff(files: &Vec<DirFile>) -> (strips: Vec<TiffStrips>)
    requires
        tiff_faults(file_texts(files@)).len() == 0,
    ensures
        strip_texts(strips@) == tiff_strips(file_texts(files@), "qoi-tif"@),
{
    load_lzw_tiff_corpus(files, "qoi-tif")
}

/// The corpus of the files in [`SC_TIFF_DIR`].
pub fn sc_as_lzw_tiff(files: &Vec<DirFile>) -> (strips: Vec<TiffStrips>)
    requires
        tiff_faults(file_texts(files@)).len() == 0,
    ensures
        strip_texts(strips@) == tiff_strips(file_texts(files@), "sc-tif"@),
{
    load_lzw_tiff_corpus(files, "sc-tif")
}

/// The corpus of the files in [`CLIC_TIFF_PRED_DIR`]: what most photographic
/// LZW TIFF files look like.
pub fn clic_as_lzw_tiff_pred(files: &Vec<DirFile>) -> (strips: Vec<TiffStrips>)
    requires
        tiff_faults(file_texts(files@)).len() == 0,
    ensures
        strip_texts(strips@) == tiff_strips(file_texts(files@), "clic-pred"@),
{
    load_lzw_tiff_corpus(files, "clic-pred")
}

/// The corpus of the files in [`CLIC_TIFF_NOPRED_DIR`]: raw photographic data
/// passed straight to LZW.
pub fn clic_as_lzw_tiff_nopred(files: &Vec<DirFile>) -> (strips: Vec<TiffStrips>)
    requires
        tiff_faults(file_texts(files@)).len() == 0,
    ensures
        strip_texts(strips@) == tiff_strips(file_texts(files@), "clic-raw"@),
{
    load_lzw_tiff_corpus(files, "clic-raw")
}

/// A corpus of TIFF files has at most one strip of each file; each is named
/// after the corpus and is large enough, as it is and decoded.
pub proof fn law_tiff_corpus_is_bounded(files: Seq<FileText>, tag_prefix: Seq<char>)
    ensures
        tiff_strips(files, tag_prefix).len() <= tiff_choice(files).len(),
        forall|k: int|
            0 <= k < tiff_strips(files, tag_prefix).len() ==> {
                let strip = #[trigger] tiff_strips(files, tag_prefix)[k];
                &&& strip.lzw_bytes.len() >= MIN_STRIP
                &&& strip.decompressed_size >= MIN_DECODED
                &&& (tag_prefix + "/"@).is_prefix_of(strip.name)
            },
{
    lemma_strips(files, tiff_choice(files), tag_prefix);
}

proof fn lemma_strips(files: Seq<FileText>, order: Seq<int>, tag_prefix: Seq<char>)
    ensures
        ({
            let strips = order.filter_map(|i: int| file_strip(files[i], tag_prefix));
            &&& strips.len() <= order.len()
            &&& forall|k: int|
                0 <= k < strips.len() ==> {
                    &&& (#[trigger] strips[k]).lzw_bytes.len() >= MIN_STRIP
                    &&& strips[k].decompressed_size >= MIN_DECODED
                    &&& (tag_prefix + "/"@).is_prefix_of(strips[k].name)
                }
        }),
    decreases order.len(),
{
    if order.len() > 0 {
        lemma_strips(files, order.drop_last(), tag_prefix);
    }
}

/// A directory without TIFF files makes an empty corpus, and has no faults.
pub proof fn law_no_tiff_files_no_strips(files: Seq<FileText>, tag_prefix: Seq<char>)
    requires
        forall|i: int| 0 <= i < files.len() ==> !FileKind::Tiff.takes((#[trigger] files[i]).name),
    ensures
        tiff_strips(files, tag_prefix).len() == 0,
        tiff_faults(files).len() == 0,
{
    let all = tiff_choice(files);
    law_listing_is_complete_and_in_order(names(files), FileKind::Tiff);
    if all.len() > 0 {
        assert(all.contains(all[0]));
        let i = all[0];
        assert(names(files)[i] == files[i].name);
    }
}

/// The corpus of a directory, and the faults of its files, do not depend on the
/// order in which the directory was read.
pub proof fn law_tiff_corpus_ignores_directory_order(
    a: Seq<FileText>,
    b: Seq<FileText>,
    tag_prefix: Seq<char>,
)
    requires
        same_directory(a, b),
    ensures
        tiff_strips(a, tag_prefix) == tiff_strips(b, tag_prefix),
        tiff_faults(a) == tiff_faults(b),
{
    law_listing_ignores_directory_order(a, b, FileKind::Tiff);
    lemma_mapped_alike(
        tiff_choice(a),
        |i: int| file_strip(a[i], tag_prefix),
        tiff_choice(b),
        |i: int| file_strip(b[i], tag_prefix),
    );
    lemma_mapped_alike(
        tiff_choice(a),
        |i: int| file_fault(a[i]),
        tiff_choice(b),
        |i: int| file_fault(b[i]),
    );
}

/// A file that gives no strip, put into a directory, leaves the corpus of the
/// directory as it was: one that is no TIFF file, or could not be read, or has no
/// strip large enough.
pub proof fn law_unusable_file_adds_nothing(
    files: Seq<FileText>,
    file: FileText,
    tag_prefix: Seq<char>,
)
    requires
        !FileKind::Tiff.takes(file.name) || file_strip(file, tag_prefix) is None,
    ensures
        tiff_strips(files.push(file), tag_prefix) == tiff_strips(files, tag_prefix),
{
    let more = files.push(file);
    lemma_listing_of_one_more(files, file, FileKind::Tiff);
    let before = tiff_choice(files);
    let after = tiff_choice(more);
    let strip = |i: int| file_strip(files[i], tag_prefix);
    let strip_more = |i: int| file_strip(more[i], tag_prefix);
    law_listing_is_complete_and_in_order(names(files), FileKind::Tiff);
    assert forall|k: int| 0 <= k < before.len() implies strip(#[trigger] before[k]) == strip_more(
        before[k],
    ) by {
        assert(before.contains(before[k]));
    }
    lemma_mapped_alike(before, strip, before, strip_more);
    if FileKind::Tiff.takes(file.name) {
        let p = choose|p: int|
            0 <= p < after.len() && #[trigger] after[p] == files.len() && before == after.remove(p);
        lemma_unmapped_item(after, strip_more, p);
    }
}

/// The same of any list of the directory with the file in it.
pub proof fn law_unusable_file_adds_nothing_anywhere(
    files: Seq<FileText>,
    file: FileText,
    with_file: Seq<FileText>,
    tag_prefix: Seq<char>,
)
    requires
        !FileKind::Tiff.takes(file.name) || file_strip(file, tag_prefix) is None,
        same_directory(files.push(file), with_file),
    ensures
        tiff_strips(with_file, tag_prefix) == tiff_strips(files, tag_prefix),
{
    law_unusable_file_adds_nothing(files, file, tag_prefix);
    law_tiff_corpus_ignores_directory_order(files.push(file), with_file, tag_prefix);
}

/// Whether a strip is the largest strip of a file, taken whole, of 1024 bytes or
/// more, and of 4096 bytes or more decoded.
pub open spec fn is_large_strip(file: FileText, tag_prefix: Seq<char>, strip: StripText) -> bool {
    &&& file.bytes matches Some(bytes) && largest_strip(bytes) == Ok::<_, TiffFault>(
        Some((strip.lzw_bytes, strip.decompressed_size)),
    )
    &&& strip.name == tag_prefix + "/"@ + stem_text(file.name, "?"@)
    &&& strip.lzw_bytes.len() >= 1024
    &&& strip.decompressed_size >= 4096
}

/// Every TIFF file of a directory whose largest strip is large enough is in the
/// corpus, with that strip and its size, whatever else holds of it.
pub proof fn law_every_large_strip_is_taken(
    files: Seq<FileText>,
    tag_prefix: Seq<char>,
    i: int,
    strip: StripText,
)
    requires
        0 <= i < files.len(),
        FileKind::Tiff.takes(files[i].name),
        is_large_strip(files[i], tag_prefix, strip),
    ensures
        tiff_strips(files, tag_prefix).contains(strip),
{
    let order = tiff_choice(files);
    law_listing_is_complete_and_in_order(names(files), FileKind::Tiff);
    assert(names(files)[i] == files[i].name);
    assert(order.contains(i));
    let k = choose|k: int| 0 <= k < order.len() && order[k] == i;
    lemma_mapped_item(order, |q: int| file_strip(files[q], tag_prefix), k);
}

/// A corpus holds nothing else, and in the order of names: of two strips, one
/// before the other, each is the large strip of a TIFF file of the directory, the
/// files are two, and the name of the first is not after that of the second.
pub proof fn law_strips_are_large_and_in_order(
    files: Seq<FileText>,
    tag_prefix: Seq<char>,
    p: int,
    q: int,
) -> (places: (int, int))
    requires
        0 <= p < q < tiff_strips(files, tag_prefix).len(),
    ensures
        ({
            let (i, j) = places;
            &&& 0 <= i < files.len() && 0 <= j < files.len() && i != j
            &&& FileKind::Tiff.takes(files[i].name) && FileKind::Tiff.takes(files[j].name)
            &&& is_large_strip(files[i], tag_prefix, tiff_strips(files, tag_prefix)[p])
            &&& is_large_strip(files[j], tag_prefix, tiff_strips(files, tag_prefix)[q])
            &&& up_to(files[i].name, files[j].name)
        }),
{
    let order = tiff_choice(files);
    let strip = |k: int| file_strip(files[k], tag_prefix);
    lemma_mapped_in_order(order, strip, p, q);
    let (a, b) = choose|a: int, b: int| #[trigger] mapped_from(order, strip, p, q, a, b);
    law_listing_is_complete_and_in_order(names(files), FileKind::Tiff);
    assert(order.contains(order[a]) && order.contains(order[b]));
    assert(names(files)[order[a]] == files[order[a]].name);
    assert(names(files)[order[b]] == files[order[b]].name);
    (order[a], order[b])
}

/// Every strip of a corpus is the large strip of a TIFF file of the directory.
pub proof fn law_every_strip_is_large(files: Seq<FileText>, tag_prefix: Seq<char>, p: int) -> (i:
    int)
    requires
        0 <= p < tiff_strips(files, tag_prefix).len(),
    ensures
        0 <= i < files.len(),
        FileKind::Tiff.takes(files[i].name),
        is_large_strip(files[i], tag_prefix, tiff_strips(files, tag_prefix)[p]),
{
    let order = tiff_choice(files);
    let strip = |k: int| file_strip(files[k], tag_prefix);
    lemma_mapped_in_order(order, strip, p, p);
    let (a, b) = choose|a: int, b: int| #[trigger] mapped_from(order, strip, p, p, a, b);
    law_listing_is_complete_and_in_order(names(files), FileKind::Tiff);
    assert(order.contains(order[a]));
    assert(names(files)[order[a]] == files[order[a]].name);
    order[a]
}

/// A TIFF file with a large strip, put into a directory, brings its strip into the
/// corpus in one place and leaves the others as they were.
pub proof fn law_large_strip_is_added_once(
    files: Seq<FileText>,
    file: FileText,
    tag_prefix: Seq<char>,
    strip: StripText,
) -> (p: int)
    requires
        FileKind::Tiff.takes(file.name),
        is_large_strip(file, tag_prefix, strip),
    ensures
        0 <= p <= tiff_strips(files, tag_prefix).len(),
        tiff_strips(files.push(file), tag_prefix) == tiff_strips(files, tag_prefix).insert(p, strip),
{
    let more = files.push(file);
    lemma_listing_of_one_more(files, file, FileKind::Tiff);
    let before = tiff_choice(files);
    let after = tiff_choice(more);
    let old_strip = |i: int| file_strip(files[i], tag_prefix);
    let new_strip = |i: int| file_strip(more[i], tag_prefix);
    law_listing_is_complete_and_in_order(names(files), FileKind::Tiff);
    assert forall|k: int| 0 <= k < before.len() implies old_strip(#[trigger] before[k])
        == new_strip(before[k]) by {
        assert(before.contains(before[k]));
    }
    lemma_mapped_alike(before, old_strip, before, new_strip);
    let at = choose|at: int|
        0 <= at < after.len() && #[trigger] after[at] == files.len() && before == after.remove(at);
    lemma_mapped_item_once(after, new_strip, at)
}

/// There is a fault in a directory just where a TIFF file of it that was read is
/// faulty.
pub proof fn law_faults_are_those_of_tiff_files(files: Seq<FileText>)
    ensures
        tiff_faults(files).len() > 0 <==> exists|i: int|
            {
                &&& 0 <= i < files.len()
                &&& FileKind::Tiff.takes((#[trigger] files[i]).name)
                &&& files[i].bytes matches Some(bytes) && largest_strip(bytes) is Err
            },
{
    let order = tiff_choice(files);
    let fault = |k: int| file_fault(files[k]);
    law_listing_is_complete_and_in_order(names(files), FileKind::Tiff);
    if tiff_faults(files).len() > 0 {
        lemma_mapped_in_order(order, fault, 0, 0);
        let (a, b) = choose|a: int, b: int| #[trigger] mapped_from(order, fault, 0, 0, a, b);
        assert(order.contains(order[a]));
        assert(names(files)[order[a]] == files[order[a]].name);
    }
    if exists|i: int|
        {
            &&& 0 <= i < files.len()
            &&& FileKind::Tiff.takes((#[trigger] files[i]).name)
            &&& files[i].bytes matches Some(bytes) && largest_strip(bytes) is Err
        } {
        let i = choose|i: int|
            {
                &&& 0 <= i < files.len()
                &&& FileKind::Tiff.takes((#[trigger] files[i]).name)
                &&& files[i].bytes matches Some(bytes) && largest_strip(bytes) is Err
            };
        assert(names(files)[i] == files[i].name);
        assert(order.contains(i));
        let k = choose|k: int| 0 <= k < order.len() && order[k] == i;
        lemma_mapped_item(order, fault, k);
    }
}

/// The fault that comes first is that of a TIFF file, and no faulty file has a
/// name before it.
pub proof fn law_first_fault_comes_first_by_name(files: Seq<FileText>) -> (i: int)
    requires
        tiff_faults(files).len() > 0,
    ensures
        0 <= i < files.len(),
        FileKind::Tiff.takes(files[i].name),
        files[i].bytes matches Some(bytes) && largest_strip(bytes) == Err::<
            Option<(Seq<u8>, int)>,
            _,
        >(tiff_faults(files)[0]),
        forall|j: int|
            {
                &&& 0 <= j < files.len()
                &&& FileKind::Tiff.takes((#[trigger] files[j]).name)
                &&& files[j].bytes matches Some(bytes) && largest_strip(bytes) is Err
            } ==> up_to(files[i].name, files[j].name),
{
    let order = tiff_choice(files);
    let fault = |k: int| file_fault(files[k]);
    law_listing_is_complete_and_in_order(names(files), FileKind::Tiff);
    let a = lemma_first_mapped(order, fault);
    let i = order[a];
    assert(order.contains(i));
    assert(names(files)[i] == files[i].name);
    assert forall|j: int|
        {
            &&& 0 <= j < files.len()
            &&& FileKind::Tiff.takes((#[trigger] files[j]).name)
            &&& files[j].bytes matches Some(bytes) && largest_strip(bytes) is Err
        } implies up_to(files[i].name, files[j].name) by {
        assert(names(files)[j] == files[j].name);
        assert(order.contains(j));
        let b = choose|b: int| 0 <= b < order.len() && order[b] == j;
        assert(fault(order[b]) is Some);
        if a < b {
            assert(up_to(names(files)[order[a]], names(files)[order[b]]));
        } else {
            law_up_to_is_an_order(files[i].name, files[i].name, files[i].name);
        }
    }
    i
}

/// What is said of a list of strips is said of each strip's own fields.
pub proof fn law_strip_texts_are_those_of_the_strips(strips: Seq<TiffStrips>, i: int)
    requires
        0 <= i < strips.len(),
    ensures
        strip_texts(strips).len() == strips.len(),
        strip_texts(strips)[i].name == strips[i].name@,
        strip_texts(strips)[i].lzw_bytes == strips[i].lzw_bytes@,
        strip_texts(strips)[i].decompressed_size == strips[i].decompressed_size,
{
}

/// The corpora of TIFF files are read from these directories.
pub proof fn law_strips_have_their_directories()
    ensures
        TIFF_CONFORMANCE_DIR@ == "/home/lilith/work/codec-corpus/tiff-conformance/valid"@,
        QOI_TIFF_DIR@ == "/tmp/tiff_corpus/qoi"@,
        SC_TIFF_DIR@ == "/tmp/tiff_corpus/sc"@,
        CLIC_TIFF_PRED_DIR@ == "/tmp/tiff_corpus/clic"@,
        CLIC_TIFF_NOPRED_DIR@ == "/tmp/tiff_corpus/clic-nopred"@,
{
}

} // verus!
