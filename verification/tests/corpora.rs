use wuffs_bench::corpus::{choose_png_files, find_input, png_input, same_text, Ratio, MIN_RAW};
use wuffs_bench::listing::{file_stem, input_name, list_files, takes, DirFile, FileKind};
use wuffs_bench::png_frame::{frame_of, rgb_of, try_load_png_rgb};
use wuffs_bench::strips::{choose_tiff_files, first_tiff_fault};
use wuffs_bench::tiff::TiffFault;
use wuffs_bench::{
    clic_as_lzw_tiff_nopred, clic_as_lzw_tiff_pred, encode_lsb8, gb82_sc_corpus,
    load_lzw_tiff_corpus, load_png_corpus, make_random, qoi_as_lzw_tiff, qoi_screenshot_corpus,
    sc_as_lzw_tiff, standard_corpus, tiff_conformance_lzw, Input,
};

fn file(name: &[u8], bytes: Option<Vec<u8>>) -> DirFile {
    DirFile { name: name.to_vec(), bytes }
}

fn named(names: &[&[u8]]) -> Vec<DirFile> {
    names.iter().map(|name| file(name, None)).collect()
}

/// An image of the given size, colour and depth.
fn image(
    (width, height): (u32, u32),
    color: png::ColorType,
    depth: png::BitDepth,
    pixels: &[u8],
) -> Vec<u8> {
    image_with_palette((width, height), color, depth, pixels, &[1, 2, 3, 40, 50, 60, 7, 8, 9])
}

fn image_with_palette(
    (width, height): (u32, u32),
    color: png::ColorType,
    depth: png::BitDepth,
    pixels: &[u8],
    palette: &[u8],
) -> Vec<u8> {
    let mut bytes = Vec::new();
    let mut encoder = png::Encoder::new(&mut bytes, width, height);
    encoder.set_color(color);
    encoder.set_depth(depth);
    if color == png::ColorType::Indexed {
        encoder.set_palette(palette.to_vec());
    }
    let mut writer = encoder.write_header().unwrap();
    writer.write_image_data(pixels).unwrap();
    writer.finish().unwrap();
    bytes
}

/// An RGB image of the given size.
fn rgb_png(width: u32, height: u32, pixels: &[u8]) -> Vec<u8> {
    image((width, height), png::ColorType::Rgb, png::BitDepth::Eight, pixels)
}

/// A square RGB image of noise, with its pixel bytes.
fn noise_png(side: u32) -> (Vec<u8>, Vec<u8>) {
    let pixels = make_random((side * side * 3) as usize);
    (rgb_png(side, side, &pixels), pixels)
}

/// A little-endian TIFF file with one strip of the given length and width.
fn tiff(strip: &[u8], width: u32) -> Vec<u8> {
    let mut bytes = b"II\x2A\x00\x08\x00\x00\x00\x05\x00".to_vec();
    let entries: [(u16, u32); 5] =
        [(256, width), (259, 5), (273, 70), (278, 1), (279, strip.len() as u32)];
    for (tag, value) in entries {
        bytes.extend(tag.to_le_bytes());
        bytes.extend([4, 0, 1, 0, 0, 0]);
        bytes.extend(value.to_le_bytes());
    }
    assert_eq!(bytes.len(), 70);
    bytes.extend(strip);
    bytes
}

#[test]
fn input_holds_text_and_stream() {
    let input = Input::build("some", b"some text".to_vec());
    assert_eq!(input.name, "some");
    assert_eq!(input.raw, b"some text");
    assert_eq!(input.encoded, encode_lsb8(b"some text"));
    assert_eq!(
        input.ratio,
        Ratio { raw_bytes: 9, encoded_bytes: input.encoded.len() }
    );
}

#[test]
fn standard_corpus_is_known() {
    let corpus = standard_corpus();
    let names: Vec<&str> = corpus.iter().map(|input| input.name).collect();
    assert_eq!(
        names,
        ["solid-4M", "rle-4M", "pal16-4M", "rand-4M", "solid-64k", "pal16-64k", "rand-64k"]
    );
    let sizes: Vec<usize> = corpus.iter().map(|input| input.raw.len()).collect();
    assert_eq!(sizes, [4_194_304, 4_194_304, 4_194_304, 4_194_304, 65_536, 65_536, 65_536]);
    assert_eq!(corpus[6].raw, make_random(65_536));
    // The texts cover the range from compressible to not.
    assert!(corpus[0].ratio.encoded_bytes < corpus[2].ratio.encoded_bytes);
    assert!(corpus[3].ratio.encoded_bytes > corpus[3].ratio.raw_bytes);
}

#[test]
fn inputs_are_found_by_name() {
    let corpus = vec![
        Input::build("a", vec![1]),
        Input::build("b", vec![2]),
        Input::build("b", vec![3]),
    ];
    assert_eq!(find_input(&corpus, "a"), Some(0));
    assert_eq!(find_input(&corpus, "b"), Some(1));
    assert_eq!(find_input(&corpus, "c"), None);
    assert_eq!(find_input(&Vec::new(), "a"), None);
    assert!(same_text("\u{e9}t\u{e9}", "\u{e9}t\u{e9}"));
    assert!(!same_text("ete", "\u{e9}t\u{e9}"));
}

#[test]
fn kinds_go_by_extension() {
    for name in [&b"a.png"[..], b"a.b.png", b"..png", b"\xFF.png"] {
        assert!(takes(FileKind::Png, name));
        assert!(!takes(FileKind::Tiff, name));
    }
    for name in [&b".png"[..], b"png", b"a.PNG", b"a.png.", b"a.pngx", b"", b"a."] {
        assert!(!takes(FileKind::Png, name));
    }
    assert!(takes(FileKind::Tiff, b"a.tif"));
    assert!(takes(FileKind::Tiff, b"a.tiff"));
    assert!(!takes(FileKind::Tiff, b"a.tifff"));
    assert!(!takes(FileKind::Tiff, b".tiff"));
}

#[test]
fn stems_are_names_without_extension() {
    assert_eq!(file_stem(b"page.png", "unknown"), "page");
    assert_eq!(file_stem(b"a.b.png", "unknown"), "a.b");
    assert_eq!(file_stem(b".png", "unknown"), ".png");
    assert_eq!(file_stem(b"plain", "unknown"), "plain");
    assert_eq!(file_stem("\u{e9}t\u{e9}.tif".as_bytes(), "?"), "\u{e9}t\u{e9}");
    assert_eq!(file_stem(b"\xFF\xFE.png", "unknown"), "unknown");
    assert_eq!(input_name("qoi", b"page.png", "unknown"), "qoi/page");
    assert_eq!(input_name("conform", b"\xFF.tif", "?"), "conform/?");
}

#[test]
fn files_are_listed_by_name() {
    let files = named(&[b"b.png", b"a.tif", b"B.png", b"a.png", b"b", b"ab.png", b"a-.png"]);
    // "B" < "a"; "-" < "." < "b".
    assert_eq!(list_files(&files, FileKind::Png), [2, 6, 3, 5, 0]);
    assert_eq!(list_files(&files, FileKind::Tiff), [1]);
    assert_eq!(choose_png_files(&files, 2), [2, 6]);
    assert_eq!(choose_png_files(&files, 0), Vec::<usize>::new());
    assert_eq!(choose_png_files(&files, 99), [2, 6, 3, 5, 0]);
    assert_eq!(choose_tiff_files(&files), [1]);
}

#[test]
fn files_of_one_name_stay_as_they_come() {
    let files = named(&[b"b.png", b"a.png", b"b.png", b"a.png"]);
    assert_eq!(list_files(&files, FileKind::Png), [1, 3, 0, 2]);
}

#[test]
fn pixels_of_a_png_are_read() {
    let pixels: Vec<u8> = (0..4 * 5 * 3).collect();
    assert_eq!(try_load_png_rgb(&rgb_png(4, 5, &pixels)), Some(pixels));
    let mut cut = rgb_png(4, 5, &[9; 60]);
    cut.truncate(cut.len() / 2);
    assert_eq!(try_load_png_rgb(&cut), None);
    assert_eq!(try_load_png_rgb(b"no image"), None);
    assert_eq!(try_load_png_rgb(b""), None);
}

#[test]
fn rgba_images_lose_their_alpha() {
    let pixels: Vec<u8> = (0..5 * 3 * 4).collect();
    let rgb: Vec<u8> = pixels.chunks(4).flat_map(|p| p[..3].to_vec()).collect();
    let file = image((5, 3), png::ColorType::Rgba, png::BitDepth::Eight, &pixels);
    assert_eq!(rgb.len(), 3 * 5 * 3);
    assert_eq!(try_load_png_rgb(&file), Some(rgb));

    let pixels: Vec<u8> = (0..2 * 2 * 8).collect();
    let rgb: Vec<u8> = pixels.chunks(8).flat_map(|p| p[..6].to_vec()).collect();
    let file = image((2, 2), png::ColorType::Rgba, png::BitDepth::Sixteen, &pixels);
    assert_eq!(try_load_png_rgb(&file), Some(rgb));
}

#[test]
fn other_colours_become_rgb() {
    let deep: Vec<u8> = (0..2 * 6).collect();
    let file = image((2, 1), png::ColorType::Rgb, png::BitDepth::Sixteen, &deep);
    assert_eq!(try_load_png_rgb(&file), Some(deep));

    let file = image((3, 1), png::ColorType::Grayscale, png::BitDepth::Eight, &[5, 6, 7]);
    assert_eq!(try_load_png_rgb(&file), Some(vec![5, 5, 5, 6, 6, 6, 7, 7, 7]));

    let file = image((1, 1), png::ColorType::Grayscale, png::BitDepth::Sixteen, &[1, 2]);
    assert_eq!(try_load_png_rgb(&file), Some(vec![1, 2, 1, 2, 1, 2]));

    // Three pixels in one byte: white, black, white.
    let file = image((3, 1), png::ColorType::Grayscale, png::BitDepth::One, &[0b1010_0000]);
    assert_eq!(try_load_png_rgb(&file), Some(vec![255, 255, 255, 0, 0, 0, 255, 255, 255]));

    let file = image((2, 1), png::ColorType::GrayscaleAlpha, png::BitDepth::Eight, &[5, 9, 6, 9]);
    assert_eq!(try_load_png_rgb(&file), Some(vec![5, 5, 5, 6, 6, 6]));

    let file = image((3, 1), png::ColorType::Indexed, png::BitDepth::Eight, &[2, 0, 1]);
    assert_eq!(try_load_png_rgb(&file), Some(vec![7, 8, 9, 1, 2, 3, 40, 50, 60]));
}

#[test]
fn palettes_that_cannot_be_looked_up_leave_the_places() {
    let with = |palette: &[u8]| {
        image_with_palette(
            (2, 1),
            png::ColorType::Indexed,
            png::BitDepth::Eight,
            &[1, 0],
            palette,
        )
    };
    assert_eq!(try_load_png_rgb(&with(&[1, 2, 3, 4, 5, 6])), Some(vec![4, 5, 6, 1, 2, 3]));
    assert_eq!(try_load_png_rgb(&with(&[9; 768])), Some(vec![9; 6]));
    // A place behind the palette is black.
    assert_eq!(try_load_png_rgb(&with(&[1, 2, 3])), Some(vec![0, 0, 0, 1, 2, 3]));
    // The palette is cut short or too long.
    for len in [1, 2, 4, 5, 769, 771] {
        assert_eq!(try_load_png_rgb(&with(&vec![9; len])), Some(vec![1, 0]));
    }
    // The palette is missing.
    let mut file = with(&[1, 2, 3]);
    let at = file.windows(4).position(|word| word == b"PLTE").unwrap() - 4;
    file.drain(at..at + 12 + 3);
    assert_eq!(try_load_png_rgb(&file), Some(vec![1, 0]));
    // The file cannot be decoded in any way.
    file.truncate(at + 8);
    assert_eq!(try_load_png_rgb(&file), None);
}

#[test]
fn rows_too_long_to_widen_stay_as_they_are() {
    let row = vec![5; 34_000_000];
    let file = image((34_000_000, 1), png::ColorType::Grayscale, png::BitDepth::Eight, &row);
    assert!(try_load_png_rgb(&file) == Some(row));
}

#[test]
fn frames_turn_to_rgb() {
    assert_eq!(rgb_of(vec![1, 2, 3, 4, 5, 6, 7, 8], 4, 8), [1, 2, 3, 5, 6, 7]);
    assert_eq!(rgb_of(vec![1, 2, 3, 4, 5, 6], 3, 8), [1, 2, 3, 4, 5, 6]);
    assert_eq!(rgb_of(vec![1, 2, 3, 4], 2, 8), [1, 1, 1, 3, 3, 3]);
    assert_eq!(rgb_of(vec![1, 2], 1, 8), [1, 1, 1, 2, 2, 2]);
    assert_eq!(rgb_of(vec![1, 2, 3, 4], 2, 16), [1, 2, 1, 2, 1, 2]);
    assert_eq!(rgb_of(vec![1, 2, 3, 4, 5, 6, 7, 8], 4, 16), [1, 2, 3, 4, 5, 6]);
    assert_eq!(rgb_of(Vec::new(), 4, 8), Vec::<u8>::new());
}

#[test]
fn frame_is_the_start_of_its_space() {
    assert_eq!(frame_of(vec![1, 2, 3], 2), [1, 2]);
    assert_eq!(frame_of(vec![1, 2, 3], 3), [1, 2, 3]);
    assert_eq!(frame_of(vec![1, 2, 3], 4), [1, 2, 3]);
}

#[test]
fn images_need_pixels_enough() {
    assert_eq!(MIN_RAW, 16_384);
    assert!(png_input(b"a.png", None, "t").is_none());
    assert!(png_input(b"a.png", Some(vec![0; 16_383]), "t").is_none());
    let input = png_input(b"a.png", Some(vec![0; 16_384]), "t").unwrap();
    assert_eq!((input.name, input.raw.len()), ("t/a", 16_384));
}

#[test]
fn png_corpus_is_made_of_the_first_files() {
    let (large, pixels) = noise_png(80);
    let (small, _) = noise_png(10);
    let files = vec![
        file(b"d.png", Some(large.clone())),
        file(b"readme.txt", Some(b"text".to_vec())),
        file(b"c\xFF.png", Some(large.clone())),
        file(b"b.png", Some(small)),
        file(b"a.png", Some(large.clone())),
        file(b"ab.png", Some(b"broken".to_vec())),
        file(b"aa.png", None),
    ];
    let names = |max| -> Vec<&str> {
        load_png_corpus(&files, "tag", max).iter().map(|input| input.name).collect()
    };
    // The files that are skipped count towards the limit.
    assert_eq!(names(0), Vec::<&str>::new());
    assert_eq!(names(1), ["tag/a"]);
    assert_eq!(names(4), ["tag/a"]);
    assert_eq!(names(5), ["tag/a", "tag/unknown"]);
    assert_eq!(names(6), ["tag/a", "tag/unknown", "tag/d"]);
    let corpus = load_png_corpus(&files, "tag", 6);
    assert!(corpus.iter().all(|input| input.raw == pixels));
    assert!(corpus.iter().all(|input| input.encoded == encode_lsb8(&pixels)));
}

#[test]
fn png_corpus_ignores_directory_order() {
    let (image, _) = noise_png(80);
    let mut files: Vec<DirFile> =
        [&b"b.png"[..], b"c.png", b"a.png"].iter().map(|n| file(n, Some(image.clone()))).collect();
    let forwards: Vec<&str> =
        load_png_corpus(&files, "t", 2).iter().map(|input| input.name).collect();
    files.reverse();
    let backwards: Vec<&str> =
        load_png_corpus(&files, "t", 2).iter().map(|input| input.name).collect();
    assert_eq!(forwards, ["t/a", "t/b"]);
    assert_eq!(backwards, forwards);
}

#[test]
fn screenshot_corpora_take_six_files() {
    let (image, _) = noise_png(80);
    let files: Vec<DirFile> = (0..8)
        .map(|i| file(format!("{}.png", i).as_bytes(), Some(image.clone())))
        .collect();
    let qoi: Vec<&str> = qoi_screenshot_corpus(&files).iter().map(|input| input.name).collect();
    let sc: Vec<&str> = gb82_sc_corpus(&files).iter().map(|input| input.name).collect();
    assert_eq!(qoi, ["qoi/0", "qoi/1", "qoi/2", "qoi/3", "qoi/4", "qoi/5"]);
    assert_eq!(sc, ["sc/0", "sc/1", "sc/2", "sc/3", "sc/4", "sc/5"]);
    assert!(qoi_screenshot_corpus(&Vec::new()).is_empty());
}

#[test]
fn tiff_corpus_takes_large_strips() {
    let strip = make_random(1024);
    let files = vec![
        file(b"e.tiff", Some(tiff(&strip, 4096))),
        file(b"d.tif", Some(tiff(&strip[..1023], 4096))),
        file(b"c.tif", Some(tiff(&strip, 4095))),
        file(b"b.tif", Some(b"no image".to_vec())),
        file(b"a.tif", None),
        file(b"\xFF.tif", Some(tiff(&make_random(2000), 5000))),
        file(b"0.png", Some(tiff(&strip, 4096))),
    ];
    assert_eq!(first_tiff_fault(&files), None);
    let strips = load_lzw_tiff_corpus(&files, "t");
    assert_eq!(strips.len(), 2);
    assert_eq!(strips[0].name, "t/e");
    assert_eq!(strips[0].lzw_bytes, strip);
    assert_eq!(strips[0].decompressed_size, 4096);
    assert_eq!(strips[1].name, "t/?");
    assert_eq!(strips[1].lzw_bytes, make_random(2000));
    assert_eq!(strips[1].decompressed_size, 5000);
    assert!(load_lzw_tiff_corpus(&Vec::new(), "t").is_empty());
}

#[test]
fn tiff_corpora_have_their_tags() {
    let files = vec![file(b"x.tif", Some(tiff(&make_random(1500), 4096)))];
    assert_eq!(tiff_conformance_lzw(&files)[0].name, "conform/x");
    assert_eq!(qoi_as_lzw_tiff(&files)[0].name, "qoi-tif/x");
    assert_eq!(sc_as_lzw_tiff(&files)[0].name, "sc-tif/x");
    assert_eq!(clic_as_lzw_tiff_pred(&files)[0].name, "clic-pred/x");
    assert_eq!(clic_as_lzw_tiff_nopred(&files)[0].name, "clic-raw/x");
}

#[test]
fn first_fault_by_name_is_reported() {
    let mut untyped = tiff(b"", 1);
    untyped[12] = 2;
    let mut oversized = tiff(b"", u32::MAX);
    // The rows become samples, of which there are very many, and rows are capped.
    oversized[46..48].copy_from_slice(&277u16.to_le_bytes());
    oversized[54..58].copy_from_slice(&u32::MAX.to_le_bytes());
    let files = vec![
        file(b"c.tif", Some(untyped.clone())),
        file(b"b.tif", Some(oversized.clone())),
        file(b"a.tif", Some(tiff(b"", 1))),
        file(b"0.txt", Some(untyped.clone())),
    ];
    assert_eq!(first_tiff_fault(&files), Some(TiffFault::DecodedSize));
    assert_eq!(
        first_tiff_fault(&vec![file(b"x.tif", Some(untyped))]),
        Some(TiffFault::UntypedValue)
    );
}

#[test]
fn unusable_file_leaves_the_tiff_corpus_as_it_was() {
    let good = || file(b"m.tif", Some(tiff(&make_random(1500), 4096)));
    let unusable = [
        file(b"a.tif", None),
        file(b"a.tif", Some(b"no image".to_vec())),
        file(b"z.tiff", Some(tiff(b"small", 4096))),
        file(b"m.png", Some(tiff(&make_random(1500), 4096))),
    ];
    for extra in unusable {
        let files = vec![extra, good()];
        assert_eq!(first_tiff_fault(&files), None);
        let strips = load_lzw_tiff_corpus(&files, "t");
        assert_eq!(strips.len(), 1);
        assert_eq!((strips[0].name, &strips[0].lzw_bytes), ("t/m", &make_random(1500)));
    }
}

#[test]
fn fewer_files_make_a_prefix() {
    let (image, _) = noise_png(80);
    let files: Vec<DirFile> = (0..5)
        .map(|i| {
            let bytes = if i % 2 == 0 { image.clone() } else { b"broken".to_vec() };
            file(format!("{}.png", i).as_bytes(), Some(bytes))
        })
        .collect();
    let names = |max| -> Vec<&str> {
        load_png_corpus(&files, "t", max).iter().map(|input| input.name).collect()
    };
    let all = names(5);
    assert_eq!(all, ["t/0", "t/2", "t/4"]);
    for max in 0..5 {
        let some = names(max);
        assert_eq!(some, all[..some.len()]);
        assert!(all.len() - some.len() <= 5 - max);
    }
}
