//! Benchmark inputs: texts together with the streams that they are encoded to.

use vstd::prelude::*;
use vstd::utf8::encode_utf8_decode_utf8;
use crate::decode::{encode_lsb8, same_bytes, DecodeError};
use crate::decode::{decode_outcome, decodes_cleanly, decodes_to, law_roundtrip, lesser};
use crate::listing::{input_name, list_files, DirFile, FileKind};
use crate::listing::{file_texts, FileText};
use crate::listing::{indices, listing, names, same_directory, stem_text, tagged};
use crate::listing::{
    law_listing_ignores_directory_order, law_listing_is_complete_and_in_order, lemma_mapped_alike,
    lemma_mapped_in_order, lemma_mapped_item, lemma_prefix_is_mapped_first, mapped_from,
};
use crate::png_frame::png_pixels;
use crate::png_frame::try_load_png_rgb;
use crate::synth::{make_palette16, make_random, make_run_length, make_solid};
use crate::synth::{law_shorter_texts_are_prefixes, palette16, random, run_length, solid};
use crate::weezl_codec::{marked_text, weezl_decoding, weezl_encoding};
use crate::weezl_codec::{BitOrder, LITERAL_WIDTH};

verus! {

/// The length of the large synthetic texts.
pub const N_LARGE: usize = 4 * 1024 * 1024;

/// The length of the small synthetic texts.
pub const N_SMALL: usize = 64 * 1024;

/// The least number of pixel bytes that an image is worth taking for.
pub const MIN_RAW: usize = 16 * 1024;

/// The directory of the screenshots of the QOI benchmark suite.
pub const QOI_SCREENSHOT_DIR: &'static str =
    "/home/lilith/work/codec-corpus/qoi-benchmark/screenshot_web";

/// The directory of the gb82 screen captures.
pub const GB82_SC_DIR: &'static str = "/home/lilith/work/codec-corpus/gb82-sc";

/// The most files that are taken from a directory of screenshots.
pub const MAX_SCREENSHOTS: usize = 6;

/// A compression ratio: the length of a text over that of its stream.
#[derive(Clone, Copy, Debug, PartialEq, Eq, Structural)]
pub struct Ratio {
    pub raw_bytes: usize,
    pub encoded_bytes: usize,
}

/// A text under a name, and the GIF-style stream that it is encoded to.
pub struct Input {
    pub name: &'static str,
    pub raw: Vec<u8>,
    pub encoded: Vec<u8>,
    pub ratio: Ratio,
}

impl Input {
    /// Whether the stream is the encoding of the text, and decodes to it, and
    /// the ratio is theirs.
    pub open spec fn wf(self) -> bool {
        &&& self.encoded@ == weezl_encoding(BitOrder::Lsb, false, LITERAL_WIDTH, self.raw@)
        &&& decodes_to(BitOrder::Lsb, false, self.encoded@, self.raw@)
        &&& self.ratio.raw_bytes == self.raw@.len()
        &&& self.ratio.encoded_bytes == self.encoded@.len()
    }

    /// The input that `raw` makes.
    pub fn build(name: &'static str, raw: Vec<u8>) -> (input: Self)
        ensures
            input.wf(),
            input.name@ == name@,
            input.raw@ == raw@,
            input.encoded@ == weezl_encoding(BitOrder::Lsb, false, 8, raw@),
            weezl_decoding(BitOrder::Lsb, false, 8, input.encoded@) == marked_text(raw@),
            input.ratio.raw_bytes == raw@.len(),
            input.ratio.encoded_bytes == input.encoded@.len(),
    {
        let encoded = encode_lsb8(raw.as_slice());
        let ratio = Ratio { raw_bytes: raw.len(), encoded_bytes: encoded.len() };
        Input { name, raw, encoded, ratio }
    }
}

/// The names and texts of the inputs.
pub open spec fn texts(inputs: Seq<Input>) -> Seq<(Seq<char>, Seq<u8>)> {
    Seq::new(inputs.len(), |i: int| (inputs[i].name@, inputs[i].raw@))
}

/// Whether every input is what [`Input::build`] makes of its name and text.
pub open spec fn all_wf(inputs: Seq<Input>) -> bool {
    forall|i: int| 0 <= i < inputs.len() ==> (#[trigger] inputs[i]).wf()
}

/// The names and texts of the standard corpus.
pub open spec fn standard_texts() -> Seq<(Seq<char>, Seq<u8>)> {
    seq![
        ("solid-4M"@, solid(N_LARGE as nat)),
        ("rle-4M"@, run_length(N_LARGE as nat)),
        ("pal16-4M"@, palette16(N_LARGE as nat)),
        ("rand-4M"@, random(N_LARGE as nat)),
        ("solid-64k"@, solid(N_SMALL as nat)),
        ("pal16-64k"@, palette16(N_SMALL as nat)),
        ("rand-64k"@, random(N_SMALL as nat)),
    ]
}

/// Inputs that cover the range of compression ratios.
pub fn standard_corpus() -> (corpus: Vec<Input>)
    ensures
        all_wf(corpus@),
        texts(corpus@) == standard_texts(),
        corpus@.len() == 7,
        corpus@[0].name@ == "solid-4M"@ && corpus@[0].raw@ == solid(4_194_304),
        corpus@[1].name@ == "rle-4M"@ && corpus@[1].raw@ == run_length(4_194_304),
        corpus@[2].name@ == "pal16-4M"@ && corpus@[2].raw@ == palette16(4_194_304),
        corpus@[3].name@ == "rand-4M"@ && corpus@[3].raw@ == random(4_194_304),
        corpus@[4].name@ == "solid-64k"@ && corpus@[4].raw@ == solid(65_536),
        corpus@[5].name@ == "pal16-64k"@ && corpus@[5].raw@ == palette16(65_536),
        corpus@[6].name@ == "rand-64k"@ && corpus@[6].raw@ == random(65_536),
{
    let corpus = vec![
        Input::build("solid-4M", make_solid(N_LARGE)),
        Input::build("rle-4M", make_run_length(N_LARGE)),
        Input::build("pal16-4M", make_palette16(N_LARGE)),
        Input::build("rand-4M", make_random(N_LARGE)),
        Input::build("solid-64k", make_solid(N_SMALL)),
        Input::build("pal16-64k", make_palette16(N_SMALL)),
        Input::build("rand-64k", make_random(N_SMALL)),
    ];
    assert(texts(corpus@) =~= standard_texts());
    corpus
}

/// The input that a corpus makes of the PNG file called `file_name` whose pixel
/// bytes are `pixels`: none where the file could not be decoded or has too few
/// of them.
pub open spec fn png_text(
    file_name: Seq<u8>,
    pixels: Option<Seq<u8>>,
    tag_prefix: Seq<char>,
) -> Option<(Seq<char>, Seq<u8>)> {
    match pixels {
        Some(raw) if raw.len() >= MIN_RAW => Some(
            (tagged(tag_prefix, stem_text(file_name, "unknown"@)), raw),
        ),
        _ => None,
    }
}

/// The pixel bytes of a file of a directory, if it could be read and decoded.
pub open spec fn file_pixels(file: FileText) -> Option<Seq<u8>> {
    match file.bytes {
        None => None,
        Some(bytes) => png_pixels(bytes),
    }
}

/// The inputs that the given files make, in the given order.
pub open spec fn png_texts(
    files: Seq<FileText>,
    order: Seq<int>,
    tag_prefix: Seq<char>,
) -> Seq<(Seq<char>, Seq<u8>)> {
    order.filter_map(|i: int| png_text(files[i].name, file_pixels(files[i]), tag_prefix))
}

/// The PNG files that a corpus of at most `max_files` files is made of: the
/// first by name.
pub open spec fn png_choice(files: Seq<FileText>, max_files: nat) -> Seq<int> {
    let all = listing(names(files), FileKind::Png);
    all.take(lesser(max_files, all.len()) as int)
}

/// The PNG files that a corpus of at most `max_files` files is made of. Only
/// these need be read.
pub fn choose_png_files(files: &Vec<DirFile>, max_files: usize) -> (chosen: Vec<usize>)
    ensures
        indices(chosen@) == png_choice(file_texts(files@), max_files as nat),
        forall|k: int| 0 <= k < chosen@.len() ==> #[trigger] chosen@[k] < files@.len(),
{
    let mut chosen = list_files(files, FileKind::Png);
    let ghost all = chosen@;
    chosen.truncate(max_files);
    assert(indices(chosen@) =~= indices(all).take(chosen@.len() as int));
    chosen
}

/// The input that a corpus makes of the PNG file called `file_name` whose pixel
/// bytes are `pixels`.
pub fn png_input(
    file_name: &[u8],
    pixels: Option<Vec<u8>>,
    tag_prefix: &'static str,
) -> (input: Option<Input>)
    ensures
        match input {
            None => png_text(
                file_name@,
                match pixels {
                    None => None,
                    Some(raw) => Some(raw@),
                },
                tag_prefix@,
            ) is None,
            Some(input) => {
                &&& input.wf()
                &&& pixels is Some
                &&& png_text(file_name@, Some(pixels->Some_0@), tag_prefix@) == Some(
                    (input.name@, input.raw@),
                )
            },
        },
        input is Some <==> pixels is Some && pixels->Some_0@.len() >= 16_384,
        input matches Some(input) ==> input.raw@ == pixels->Some_0@ && input.name@ == tag_prefix@
            + "/"@ + stem_text(file_name@, "unknown"@),
{
    match pixels {
        Some(raw) => if raw.len() >= MIN_RAW {
            Some(Input::build(input_name(tag_prefix, file_name, "unknown"), raw))
        } else {
            None
        },
        None => None,
    }
}

/// Makes a corpus of the PNG files of a directory: of the first `max_files` of
/// them by name, those that can be decoded and have pixel bytes enough.
pub fn load_png_corpus(
    files: &Vec<DirFile>,
    tag_prefix: &'static str,
    max_files: usize,
) -> (inputs: Vec<Input>)
    ensures
        all_wf(inputs@),
        texts(inputs@) == png_texts(file_texts(files@), png_choice(file_texts(files@), max_files as nat), tag_prefix@),
        ({
            let files = file_texts(files@);
            let made = png_texts(files, png_choice(files, max_files as nat), tag_prefix@);
            &&& inputs@.len() == made.len()
            &&& forall|k: int|
                0 <= k < made.len() ==> (#[trigger] inputs@[k]).name@ == made[k].0 && inputs@[k].raw@
                    == made[k].1
        }),
{
    let order = choose_png_files(files, max_files);
    let ghost texts_of = file_texts(files@);
    let ghost taken = png_choice(file_texts(files@), max_files as nat);
    let ghost text = |i: int| png_text(texts_of[i].name, file_pixels(texts_of[i]), tag_prefix@);
    let mut inputs: Vec<Input> = Vec::new();
    let mut k: usize = 0;
    assert(texts(inputs@) =~= taken.take(0).filter_map(text));
    while k < order.len()
        invariant
            k <= order@.len(),
            texts_of == file_texts(files@),
            indices(order@) == taken,
            forall|q: int| 0 <= q < order@.len() ==> #[trigger] order@[q] < files@.len(),
            text == (|i: int| png_text(texts_of[i].name, file_pixels(texts_of[i]), tag_prefix@)),
            all_wf(inputs@),
            texts(inputs@) == taken.take(k as int).filter_map(text),
        decreases order@.len() - k,
    {
        let ghost before = texts(inputs@);
        let file = &files[order[k]];
        let pixels = match &file.bytes {
            None => None,
            Some(bytes) => try_load_png_rgb(bytes.as_slice()),
        };
        proof {
            taken.lemma_filter_map_take_succ(text, k as int);
        }
        match png_input(file.name.as_slice(), pixels, tag_prefix) {
            None => {},
            Some(input) => {
                inputs.push(input);
                assert(texts(inputs@) =~= before.push((input.name@, input.raw@)));
            },
        }
        k += 1;
    }
    assert(taken.take(k as int) =~= taken);
    assert forall|q: int| 0 <= q < inputs@.len() implies (#[trigger] inputs@[q]).name@ == texts(
        inputs@,
    )[q].0 && inputs@[q].raw@ == texts(inputs@)[q].1 by {}
    inputs
}

/// The corpus of the files in [`QOI_SCREENSHOT_DIR`].
pub fn qoi_screenshot_corpus(files: &Vec<DirFile>) -> (inputs: Vec<Input>)
    ensures
        all_wf(inputs@),
        texts(inputs@) == png_texts(file_texts(files@), png_choice(file_texts(files@), MAX_SCREENSHOTS as nat), "qoi"@),
{
    load_png_corpus(files, "qoi", MAX_SCREENSHOTS)
}

/// The corpus of the files in [`GB82_SC_DIR`].
pub fn gb82_sc_corpus(files: &Vec<DirFile>) -> (inputs: Vec<Input>)
    ensures
        all_wf(inputs@),
        texts(inputs@) == png_texts(file_texts(files@), png_choice(file_texts(files@), MAX_SCREENSHOTS as nat), "sc"@),
{
    load_png_corpus(files, "sc", MAX_SCREENSHOTS)
}

/// Whether the input at `i` is the first called `name`.
pub open spec fn first_named(inputs: Seq<Input>, name: Seq<char>, i: int) -> bool {
    &&& 0 <= i < inputs.len()
    &&& inputs[i].name@ == name
    &&& forall|k: int| 0 <= k < i ==> (#[trigger] inputs[k]).name@ != name
}

/// Where in the corpus the first input called `name` is.
pub fn find_input(inputs: &Vec<Input>, name: &str) -> (at: Option<usize>)
    ensures
        match at {
            Some(i) => first_named(inputs@, name@, i as int),
            None => forall|k: int|
                0 <= k < inputs@.len() ==> (#[trigger] inputs@[k]).name@ != name@,
        },
        at matches Some(i) ==> i < inputs@.len() && inputs@[i as int].name@ == name@ && forall|k: int|
            0 <= k < i ==> (#[trigger] inputs@[k]).name@ != name@,
{
    let mut i: usize = 0;
    while i < inputs.len()
        invariant
            i <= inputs@.len(),
            forall|k: int| 0 <= k < i ==> (#[trigger] inputs@[k]).name@ != name@,
        decreases inputs@.len() - i,
    {
        if same_text(inputs[i].name, name) {
            return Some(i);
        }
        i += 1;
    }
    None
}

/// Whether two texts are the same.
pub fn same_text(a: &str, b: &str) -> (same: bool)
    ensures
        same == (a@ == b@),
{
    proof {
        encode_utf8_decode_utf8(a@);
        encode_utf8_decode_utf8(b@);
    }
    same_bytes(a.as_bytes(), b.as_bytes())
}

/// Every input decodes to its own text: decoding its stream into a space that
/// the text fits in succeeds and leaves exactly the text there.
pub proof fn law_input_decodes_to_its_text(
    input: Input,
    room: nat,
    result: Result<usize, DecodeError>,
    out: Seq<u8>,
)
    requires
        input.wf(),
        input.raw@.len() <= room,
        out.len() == room,
        decode_outcome(BitOrder::Lsb, false, input.encoded@, room, result, out),
    ensures
        decodes_cleanly(BitOrder::Lsb, false, input.encoded@, room),
        result matches Ok(n) && n == input.raw@.len() && out.take(n as int) == input.raw@,
{
    law_roundtrip(BitOrder::Lsb, false, input.raw@, input.encoded@, room, result, out);
}

/// A corpus of PNG files has at most as many inputs as files were asked for;
/// each is named after the corpus and has pixel bytes enough.
pub proof fn law_png_corpus_is_bounded(files: Seq<FileText>, tag_prefix: Seq<char>, max_files: nat)
    ensures
        png_texts(files, png_choice(files, max_files), tag_prefix).len() <= max_files,
        forall|k: int|
            0 <= k < png_texts(files, png_choice(files, max_files), tag_prefix).len() ==> {
                let (name, raw) = #[trigger] png_texts(
                    files,
                    png_choice(files, max_files),
                    tag_prefix,
                )[k];
                raw.len() >= MIN_RAW && (tag_prefix + "/"@).is_prefix_of(name)
            },
{
    let order = png_choice(files, max_files);
    lemma_png_texts(files, order, tag_prefix);
}

proof fn lemma_png_texts(files: Seq<FileText>, order: Seq<int>, tag_prefix: Seq<char>)
    ensures
        png_texts(files, order, tag_prefix).len() <= order.len(),
        forall|k: int|
            0 <= k < png_texts(files, order, tag_prefix).len() ==> {
                let (name, raw) = #[trigger] png_texts(files, order, tag_prefix)[k];
                raw.len() >= MIN_RAW && (tag_prefix + "/"@).is_prefix_of(name)
            },
    decreases order.len(),
{
    if order.len() > 0 {
        lemma_png_texts(files, order.drop_last(), tag_prefix);
    }
}

/// A directory without PNG files makes an empty corpus.
pub proof fn law_no_png_files_no_inputs(
    files: Seq<FileText>,
    tag_prefix: Seq<char>,
    max_files: nat,
)
    requires
        forall|i: int| 0 <= i < files.len() ==> !FileKind::Png.takes((#[trigger] files[i]).name),
    ensures
        png_texts(files, png_choice(files, max_files), tag_prefix).len() == 0,
{
    let all = listing(names(files), FileKind::Png);
    law_listing_is_complete_and_in_order(names(files), FileKind::Png);
    if all.len() > 0 {
        assert(all.contains(all[0]));
        let i = all[0];
        assert(names(files)[i] == files[i].name);
    }
}

/// The corpus of a directory does not depend on the order in which the directory
/// was read.
pub proof fn law_png_corpus_ignores_directory_order(
    a: Seq<FileText>,
    b: Seq<FileText>,
    tag_prefix: Seq<char>,
    max_files: nat,
)
    requires
        same_directory(a, b),
    ensures
        png_texts(a, png_choice(a, max_files), tag_prefix) == png_texts(
            b,
            png_choice(b, max_files),
            tag_prefix,
        ),
{
    law_listing_ignores_directory_order(a, b, FileKind::Png);
    let all = listing(names(a), FileKind::Png);
    let chosen = png_choice(a, max_files);
    assert forall|k: int| 0 <= k < chosen.len() implies a[#[trigger] chosen[k]] == b[png_choice(
        b,
        max_files,
    )[k]] by {
        assert(chosen[k] == all[k]);
    }
    lemma_mapped_alike(
        chosen,
        |i: int| png_text(a[i].name, file_pixels(a[i]), tag_prefix),
        png_choice(b, max_files),
        |i: int| png_text(b[i].name, file_pixels(b[i]), tag_prefix),
    );
}

/// A corpus of fewer files is the start of one of more files of the same
/// directory, and has at most as many inputs fewer as it has files fewer.
pub proof fn law_fewer_files_make_a_prefix(
    files: Seq<FileText>,
    tag_prefix: Seq<char>,
    fewer: nat,
    more: nat,
)
    requires
        fewer <= more,
    ensures
        png_texts(files, png_choice(files, fewer), tag_prefix).is_prefix_of(
            png_texts(files, png_choice(files, more), tag_prefix),
        ),
        png_texts(files, png_choice(files, more), tag_prefix).len() - png_texts(
            files,
            png_choice(files, fewer),
            tag_prefix,
        ).len() <= more - fewer,
{
    let chosen = png_choice(files, more);
    let text = |i: int| png_text(files[i].name, file_pixels(files[i]), tag_prefix);
    let k = lesser(fewer, chosen.len()) as int;
    lemma_prefix_is_mapped_first(chosen, text, k);
    assert(chosen.take(k) =~= png_choice(files, fewer));
}

/// A corpus takes all of an image: a file among those chosen whose pixel bytes
/// are 16384 or more gives an input, under the tag and its own name, and the text
/// of the input is all of those bytes.
pub proof fn law_every_large_image_is_taken(
    files: Seq<FileText>,
    tag_prefix: Seq<char>,
    max_files: nat,
    k: int,
    bytes: Seq<u8>,
    raw: Seq<u8>,
)
    requires
        0 <= k < png_choice(files, max_files).len(),
        files[png_choice(files, max_files)[k]].bytes == Some(bytes),
        png_pixels(bytes) == Some(raw),
        raw.len() >= 16_384,
    ensures
        png_texts(files, png_choice(files, max_files), tag_prefix).contains(
            (
                tag_prefix + "/"@ + stem_text(
                    files[png_choice(files, max_files)[k]].name,
                    "unknown"@,
                ),
                raw,
            ),
        ),
{
    let text = |i: int| png_text(files[i].name, file_pixels(files[i]), tag_prefix);
    lemma_mapped_item(png_choice(files, max_files), text, k);
}

/// A corpus holds nothing else, and in the order of the files: of two inputs, one
/// before the other, each is the whole of a chosen file with 16384 pixel bytes or
/// more, under the name of that file, and the files were chosen in that order.
pub proof fn law_inputs_are_images_in_order(
    files: Seq<FileText>,
    tag_prefix: Seq<char>,
    max_files: nat,
    p: int,
    q: int,
) -> (places: (int, int))
    requires
        0 <= p < q < png_texts(files, png_choice(files, max_files), tag_prefix).len(),
    ensures
        ({
            let chosen = png_choice(files, max_files);
            let (i, j) = places;
            &&& 0 <= i < j < chosen.len()
            &&& is_whole_image(
                files[chosen[i]],
                tag_prefix,
                png_texts(files, chosen, tag_prefix)[p],
            )
            &&& is_whole_image(
                files[chosen[j]],
                tag_prefix,
                png_texts(files, chosen, tag_prefix)[q],
            )
        }),
{
    let chosen = png_choice(files, max_files);
    let text = |i: int| png_text(files[i].name, file_pixels(files[i]), tag_prefix);
    lemma_mapped_in_order(chosen, text, p, q);
    let (i, j) = choose|i: int, j: int| #[trigger] mapped_from(chosen, text, p, q, i, j);
    (i, j)
}

/// Whether an input is the whole of an image file with 16384 pixel bytes or more.
pub open spec fn is_whole_image(
    file: FileText,
    tag_prefix: Seq<char>,
    input: (Seq<char>, Seq<u8>),
) -> bool {
    &&& input.0 == tag_prefix + "/"@ + stem_text(file.name, "unknown"@)
    &&& input.1.len() >= 16_384
    &&& file.bytes matches Some(bytes) && png_pixels(bytes) == Some(input.1)
}

/// One file more adds one input or none: the whole image where it has 16384 pixel
/// bytes or more, and nothing where it has fewer or could not be read or decoded.
pub proof fn law_one_file_more_adds_its_image(
    files: Seq<FileText>,
    order: Seq<int>,
    i: int,
    tag_prefix: Seq<char>,
)
    ensures
        ({
            let before = png_texts(files, order, tag_prefix);
            let after = png_texts(files, order.push(i), tag_prefix);
            &&& forall|input: (Seq<char>, Seq<u8>)| #[trigger]
                is_whole_image(files[i], tag_prefix, input) ==> after == before.push(input)
            &&& (forall|input: (Seq<char>, Seq<u8>)|
                !#[trigger] is_whole_image(files[i], tag_prefix, input)) ==> after == before
        }),
{
    let text = |k: int| png_text(files[k].name, file_pixels(files[k]), tag_prefix);
    assert(order.push(i).drop_last() =~= order);
    assert(order.push(i).last() == i);
    let before = png_texts(files, order, tag_prefix);
    match text(i) {
        None => {
            assert forall|input: (Seq<char>, Seq<u8>)|
                !#[trigger] is_whole_image(files[i], tag_prefix, input) by {}
        },
        Some(input) => {
            assert(is_whole_image(files[i], tag_prefix, input));
            assert(before + seq![input] =~= before.push(input));
        },
    }
}

/// The files chosen are the first of the listing: all of them where there are no
/// more than `max_files`, and else `max_files` of them.
pub proof fn law_first_files_are_chosen(files: Seq<FileText>, max_files: nat)
    ensures
        png_choice(files, max_files).is_prefix_of(listing(names(files), FileKind::Png)),
        png_choice(files, max_files).len() <= max_files,
        png_choice(files, max_files).len() < max_files ==> png_choice(files, max_files) == listing(
            names(files),
            FileKind::Png,
        ),
{
    let all = listing(names(files), FileKind::Png);
    assert(all.take(all.len() as int) =~= all);
}

/// Inputs of one kind hold one text: what a small input of the standard corpus
/// holds is the first 65536 bytes of what the large one of its kind holds, and
/// the large ones are 4194304 bytes of each kind.
pub proof fn law_small_inputs_start_as_the_large_ones(inputs: Seq<Input>)
    requires
        texts(inputs) == standard_texts(),
    ensures
        inputs.len() == 7,
        inputs[0].name@ == "solid-4M"@ && inputs[4].name@ == "solid-64k"@,
        inputs[2].name@ == "pal16-4M"@ && inputs[5].name@ == "pal16-64k"@,
        inputs[3].name@ == "rand-4M"@ && inputs[6].name@ == "rand-64k"@,
        inputs[1].name@ == "rle-4M"@,
        inputs[4].raw@ == inputs[0].raw@.take(65_536),
        inputs[5].raw@ == inputs[2].raw@.take(65_536),
        inputs[6].raw@ == inputs[3].raw@.take(65_536),
        inputs[0].raw@ == solid(4_194_304),
        inputs[1].raw@ == run_length(4_194_304),
        inputs[2].raw@ == palette16(4_194_304),
        inputs[3].raw@ == random(4_194_304),
{
    law_shorter_texts_are_prefixes(65_536, 4_194_304);
    assert(texts(inputs).len() == 7);
    assert forall|i: int| 0 <= i < 7 implies (#[trigger] inputs[i]).name@ == standard_texts()[i].0
        && inputs[i].raw@ == standard_texts()[i].1 by {
        assert(texts(inputs)[i] == standard_texts()[i]);
    }
}

/// No two inputs of the standard corpus share a name.
pub proof fn law_standard_names_differ(inputs: Seq<Input>, i: int, j: int)
    requires
        texts(inputs) == standard_texts(),
        0 <= i < j < inputs.len(),
    ensures
        inputs[i].name@ != inputs[j].name@,
{
    reveal_strlit("solid-4M");
    reveal_strlit("rle-4M");
    reveal_strlit("pal16-4M");
    reveal_strlit("rand-4M");
    reveal_strlit("solid-64k");
    reveal_strlit("pal16-64k");
    reveal_strlit("rand-64k");
    assert(texts(inputs).len() == 7);
    assert(texts(inputs)[i] == standard_texts()[i]);
    assert(texts(inputs)[j] == standard_texts()[j]);
    let a = inputs[i].name@;
    let b = inputs[j].name@;
    if a == b {
        assert(a.len() == b.len() && a[0] == b[0] && a[1] == b[1] && a[a.len() - 1] == b[a.len()
            - 1]);
    }
}

/// The corpora of screenshots are read from these directories.
pub proof fn law_screenshots_have_their_directories()
    ensures
        QOI_SCREENSHOT_DIR@ == "/home/lilith/work/codec-corpus/qoi-benchmark/screenshot_web"@,
        GB82_SC_DIR@ == "/home/lilith/work/codec-corpus/gb82-sc"@,
        MAX_SCREENSHOTS == 6,
{
}

/// What is said of a list of inputs is said of each input's own name and text.
pub proof fn law_texts_are_those_of_the_inputs(inputs: Seq<Input>, i: int)
    requires
        0 <= i < inputs.len(),
    ensures
        texts(inputs).len() == inputs.len(),
        texts(inputs)[i].0 == inputs[i].name@,
        texts(inputs)[i].1 == inputs[i].raw@,
{
}

/// The stream of an input is the eight-bit GIF-style encoding of its text, and
/// the ratio is that of the two lengths.
pub proof fn law_input_holds_its_encoding(inputs: Seq<Input>, i: int)
    requires
        all_wf(inputs),
        0 <= i < inputs.len(),
    ensures
        inputs[i].encoded@ == weezl_encoding(BitOrder::Lsb, false, 8, inputs[i].raw@),
        weezl_decoding(BitOrder::Lsb, false, 8, inputs[i].encoded@) == marked_text(inputs[i].raw@),
        inputs[i].ratio.raw_bytes == inputs[i].raw@.len(),
        inputs[i].ratio.encoded_bytes == inputs[i].encoded@.len(),
{
    assert(inputs[i].wf());
}

/// Every input of a corpus is the whole of a chosen image.
pub proof fn law_every_input_is_an_image(
    files: Seq<FileText>,
    tag_prefix: Seq<char>,
    max_files: nat,
    p: int,
) -> (i: int)
    requires
        0 <= p < png_texts(files, png_choice(files, max_files), tag_prefix).len(),
    ensures
        png_choice(files, max_files).contains(i),
        is_whole_image(
            files[i],
            tag_prefix,
            png_texts(files, png_choice(files, max_files), tag_prefix)[p],
        ),
{
    let chosen = png_choice(files, max_files);
    let text = |i: int| png_text(files[i].name, file_pixels(files[i]), tag_prefix);
    lemma_mapped_in_order(chosen, text, p, p);
    let (a, b) = choose|a: int, b: int| #[trigger] mapped_from(chosen, text, p, p, a, b);
    assert(chosen.contains(chosen[a]));
    chosen[a]
}

} // verus!
