//! RGB bytes of PNG files, read through the `png` crate.

use vstd::prelude::*;
use crate::decode::lesser;

verus! {

/// The kinds of colour that a PNG file can have.
#[derive(Clone, Copy, Debug, PartialEq, Eq, Structural)]
pub enum ColorKind {
    /// One sample a pixel: how bright it is.
    Grayscale,
    /// Three samples a pixel: red, green and blue.
    Rgb,
    /// One sample a pixel: a place in a palette.
    Indexed,
    /// Two samples a pixel: how bright it is, and how opaque.
    GrayscaleAlpha,
    /// Four samples a pixel: red, green and blue, and how opaque it is.
    Rgba,
}

/// What a PNG file says of its colours.
#[derive(Clone, Copy, Debug, PartialEq, Eq, Structural)]
pub struct Colors {
    pub kind: ColorKind,
    /// The number of bytes of the palette, if there is one.
    pub palette: Option<usize>,
}

/// The most bytes that a palette can have: 256 colours of three bytes.
pub const MAX_PALETTE: usize = 768;

/// What a decoded frame is made up of.
#[derive(Clone, Copy, Debug, PartialEq, Eq, Structural)]
pub struct FrameShape {
    /// The number of bytes of the frame.
    pub size: usize,
    pub width: u32,
    pub height: u32,
    /// The number of samples of a pixel.
    pub samples: usize,
    /// The number of bits of a sample.
    pub depth: u8,
}

/// What becomes of the pixels of a file as it is decoded.
#[derive(Clone, Copy, Debug, PartialEq, Eq, Structural)]
pub enum Transform {
    /// They stay as they are.
    Keep,
    /// Palettes are looked up, samples below eight bits are widened to eight, and
    /// alpha is added where there is none.
    AddAlpha,
}

/// The number of samples of a decoded pixel.
pub open spec fn samples_of(kind: ColorKind, transform: Transform) -> nat {
    match (kind, transform) {
        (ColorKind::Grayscale, Transform::Keep) => 1,
        (ColorKind::Indexed, Transform::Keep) => 1,
        (ColorKind::Rgb, Transform::Keep) => 3,
        (ColorKind::Grayscale, Transform::AddAlpha) => 2,
        (ColorKind::GrayscaleAlpha, _) => 2,
        _ => 4,
    }
}

/// How a file is decoded to be turned to RGB: as it is, unless its pixels are
/// single samples, which may be smaller than a byte or places in a palette.
pub open spec fn transform_for(kind: ColorKind) -> Transform {
    match kind {
        ColorKind::Grayscale | ColorKind::Indexed => Transform::AddAlpha,
        _ => Transform::Keep,
    }
}

/// Whether the palette of an indexed file, if it has one, holds whole colours,
/// and no more of them than a place in it can tell apart.
pub open spec fn usable_colors(colors: Colors) -> bool {
    colors.kind == ColorKind::Indexed ==> (colors.palette matches Some(n) ==> n % 3 == 0 && n
        <= MAX_PALETTE)
}

/// What `png` reads of the colours of the file: nothing where it cannot read the
/// file up to its image data.
pub uninterp spec fn png_colors(file: Seq<u8>) -> Option<Colors>;

/// The room that `png` asks for to decode the first frame of the file: nothing
/// where the file cannot be read up to its image data.
pub uninterp spec fn png_room(file: Seq<u8>, transform: Transform) -> Option<usize>;

/// What `png` makes of the first frame of the file when it is handed `room` to
/// decode it into: what the room holds afterwards, and what the frame is made up
/// of. Nothing where the frame cannot be decoded.
pub uninterp spec fn png_frame(file: Seq<u8>, transform: Transform, room: Seq<u8>) -> Option<
    (Seq<u8>, FrameShape),
>;

/// Calls `png::Decoder::read_info` and `png::Reader::info`: what the file says of
/// its colours, if it can be read up to its image data.
#[verifier::external_body]
fn colors_of(file: &[u8]) -> (colors: Option<Colors>)
    ensures
        colors == png_colors(file@),
{
    let reader = png::Decoder::new(file).read_info().ok()?;
    let kind = match reader.info().color_type {
        png::ColorType::Grayscale => ColorKind::Grayscale,
        png::ColorType::Rgb => ColorKind::Rgb,
        png::ColorType::Indexed => ColorKind::Indexed,
        png::ColorType::GrayscaleAlpha => ColorKind::GrayscaleAlpha,
        png::ColorType::Rgba => ColorKind::Rgba,
    };
    Some(Colors { kind, palette: reader.info().palette.as_ref().map(|p| p.len()) })
}

/// Calls `png::Decoder::set_transformations` and `read_info`, and
/// `png::Reader::output_buffer_size`: the room that the first frame of the file
/// takes, if the file can be read up to its image data.
#[verifier::external_body]
fn frame_room(file: &[u8], transform: Transform) -> (room: Option<usize>)
    ensures
        room == png_room(file@, transform),
{
    let mut decoder = png::Decoder::new(file);
    decoder.set_transformations(
        match transform {
            Transform::Keep => png::Transformations::IDENTITY,
            Transform::AddAlpha => png::Transformations::ALPHA,
        },
    );
    Some(decoder.read_info().ok()?.output_buffer_size())
}

/// Calls `png::Reader::next_frame` on a file opened as by [`frame_room`]: the
/// frame is decoded into the room, whose length stays, and its shape returned,
/// with its size from `png::OutputInfo::buffer_size`. The frame fits in the room.
/// How many samples a pixel has follows from the colour of the file and the
/// transformation; where these leave no samples below eight bits, the size is
/// that of all samples. What the room holds after a failure is left unsaid.
/// Looking up a palette that is cut short or too long makes the outside call
/// panic.
#[verifier::external_body]
fn next_frame(file: &[u8], transform: Transform, room: &mut [u8]) -> (shape: Option<FrameShape>)
    requires
        transform == Transform::AddAlpha ==> {
            &&& png_colors(file@) is Some
            &&& usable_colors(png_colors(file@)->Some_0)
        },
    ensures
        final(room)@.len() == old(room)@.len(),
        shape is Some == png_frame(file@, transform, old(room)@) is Some,
        shape is Some ==> png_frame(file@, transform, old(room)@) == Some(
            (final(room)@, shape->Some_0),
        ),
        shape is Some ==> shape->Some_0.size <= old(room)@.len(),
        shape is Some ==> png_colors(file@) is Some,
        shape is Some ==> shape->Some_0.samples == samples_of(
            png_colors(file@)->Some_0.kind,
            transform,
        ),
        shape is Some && (transform == Transform::AddAlpha || transform_for(
            png_colors(file@)->Some_0.kind,
        ) == Transform::Keep) ==> whole_samples(shape->Some_0),
{
    let mut decoder = png::Decoder::new(file);
    decoder.set_transformations(
        match transform {
            Transform::Keep => png::Transformations::IDENTITY,
            Transform::AddAlpha => png::Transformations::ALPHA,
        },
    );
    let info = decoder.read_info().ok()?.next_frame(room).ok()?;
    let (size, samples, depth) = (info.buffer_size(), info.color_type.samples(), info.bit_depth);
    Some(FrameShape { size, width: info.width, height: info.height, samples, depth: depth as u8 })
}

/// Whether samples take up whole bytes, one or two, and all of them make up the
/// frame.
pub open spec fn whole_samples(shape: FrameShape) -> bool {
    &&& shape.depth == 8 || shape.depth == 16
    &&& shape.size == shape.width * shape.height * (shape.samples * sample_bytes(shape.depth))
}

/// The number of bytes of a sample.
pub open spec fn sample_bytes(depth: u8) -> nat {
    if depth <= 8 {
        1
    } else {
        2
    }
}

/// The space that a frame is decoded into.
pub open spec fn blank(n: nat) -> Seq<u8> {
    Seq::new(n, |i: int| 0u8)
}

/// The bytes of the frame, where `size` of the bytes in `buf` make it up.
pub open spec fn framed(buf: Seq<u8>, size: usize) -> Seq<u8> {
    buf.take(lesser(size as nat, buf.len()) as int)
}

/// Which sample of a pixel becomes its red, green or blue one (`channel`): the
/// only one, or the first of two, becomes all three.
pub open spec fn source_sample(samples: nat, channel: int) -> int {
    if samples <= 2 {
        0
    } else {
        channel
    }
}

/// The RGB bytes of a frame whose pixels have the given number of samples, each
/// of the given number of bytes: pixel after pixel, three samples each, without
/// alpha.
pub open spec fn rgb_bytes(frame: Seq<u8>, samples: nat, bytes: nat) -> Seq<u8> {
    if samples == 3 {
        frame
    } else {
        let pixels = frame.len() / (samples * bytes);
        Seq::new(
            pixels * (3 * bytes),
            |i: int|
                {
                    let pixel = i / (3 * bytes as int);
                    let channel = (i % (3 * bytes as int)) / bytes as int;
                    let sample = pixel * (samples as int) + source_sample(samples, channel);
                    frame[sample * bytes + i % (bytes as int)]
                },
        )
    }
}

/// The first frame of a PNG file, decoded into a blank space of the size that
/// `png` asks for.
pub open spec fn frame_with(file: Seq<u8>, transform: Transform) -> Option<(Seq<u8>, FrameShape)> {
    match png_room(file, transform) {
        None => None,
        Some(n) => png_frame(file, transform, blank(n as nat)),
    }
}

/// How a file with these colours is decoded: as [`transform_for`] says, unless
/// that cannot be done, because its palette cannot be looked up or `png` refuses.
/// Then its pixels stay as they are.
pub open spec fn transform_used(file: Seq<u8>, colors: Colors) -> Transform {
    if usable_colors(colors) && frame_with(file, transform_for(colors.kind)) is Some {
        transform_for(colors.kind)
    } else {
        Transform::Keep
    }
}

/// Whether a file with these colours is turned to RGB. Only single samples that
/// had to stay as they are cannot be.
pub open spec fn turns_to_rgb(file: Seq<u8>, colors: Colors) -> bool {
    transform_used(file, colors) == transform_for(colors.kind)
}

/// The first frame of a PNG file as it is decoded: nothing where it cannot be.
pub open spec fn decoded_frame(file: Seq<u8>) -> Option<(Seq<u8>, FrameShape)> {
    match png_colors(file) {
        None => None,
        Some(colors) => frame_with(file, transform_used(file, colors)),
    }
}

/// The pixel bytes of the first frame of a PNG file: its RGB bytes, or the bytes
/// of the frame where it cannot be turned to RGB.
pub open spec fn png_pixels(file: Seq<u8>) -> Option<Seq<u8>> {
    match decoded_frame(file) {
        None => None,
        Some((buf, shape)) => if turns_to_rgb(file, png_colors(file)->Some_0) {
            Some(
                rgb_bytes(
                    framed(buf, shape.size),
                    shape.samples as nat,
                    sample_bytes(shape.depth),
                ),
            )
        } else {
            Some(framed(buf, shape.size))
        },
    }
}

/// Keeps the bytes of the frame, where `size` of the bytes in `buf` make it up.
pub fn frame_of(buf: Vec<u8>, size: usize) -> (frame: Vec<u8>)
    ensures
        frame@ == framed(buf@, size),
{
    let mut frame = buf;
    frame.truncate(size);
    assert(frame@ =~= framed(buf@, size));
    frame
}

/// Turns a frame whose pixels have the given number of samples, each of the given
/// number of bits, to RGB.
pub fn rgb_of(frame: Vec<u8>, samples: usize, depth: u8) -> (rgb: Vec<u8>)
    requires
        1 <= samples <= 4,
    ensures
        rgb@ == rgb_bytes(frame@, samples as nat, sample_bytes(depth)),
{
    if samples == 3 {
        return frame;
    }
    let bytes: usize = if depth <= 8 {
        1
    } else {
        2
    };
    let step: usize = samples * bytes;
    assert(1 <= step <= 8) by (nonlinear_arith)
        requires
            step == samples * bytes,
            1 <= samples <= 4,
            1 <= bytes <= 2,
    ;
    let pixels = frame.len() / step;
    let ghost whole = rgb_bytes(frame@, samples as nat, bytes as nat);
    let mut rgb: Vec<u8> = Vec::new();
    let mut p: usize = 0;
    let mut at: usize = 0;
    assert(rgb@ =~= whole.take(0));
    while p < pixels
        invariant
            p <= pixels,
            1 <= samples <= 4,
            samples != 3,
            1 <= bytes <= 2,
            step == samples * bytes,
            step >= 1,
            pixels == frame.len() / step,
            at == p * step,
            whole == rgb_bytes(frame@, samples as nat, bytes as nat),
            rgb@ == whole.take(p * (3 * bytes)),
        decreases pixels - p,
    {
        proof {
            lemma_pixel(frame@, samples as nat, bytes as nat, p as int);
        }
        let ghost before = rgb@;
        let next: usize = if samples <= 2 {
            0
        } else {
            bytes
        };
        push_bytes(&mut rgb, &frame, at, bytes);
        push_bytes(&mut rgb, &frame, at + next, bytes);
        push_bytes(&mut rgb, &frame, at + next + next, bytes);
        proof {
            let from = p * (3 * bytes);
            let to = (p + 1) * (3 * bytes);
            assert(next == source_sample(samples as nat, 1) * bytes);
            assert(rgb@ =~= before + whole.subrange(from, to));
            assert(whole.take(to) =~= whole.take(from) + whole.subrange(from, to));
        }
        p += 1;
        at = at + step;
    }
    assert(whole.take(pixels * (3 * bytes)) =~= whole);
    rgb
}

/// Adds `n` bytes of the frame, from `at` on.
fn push_bytes(rgb: &mut Vec<u8>, frame: &Vec<u8>, at: usize, n: usize)
    requires
        at + n <= frame.len(),
    ensures
        final(rgb)@ == old(rgb)@ + frame@.subrange(at as int, at + n),
{
    let mut k: usize = 0;
    assert(rgb@ =~= old(rgb)@ + frame@.subrange(at as int, at as int));
    while k < n
        invariant
            k <= n,
            at + n <= frame.len(),
            rgb@ == old(rgb)@ + frame@.subrange(at as int, at + k),
        decreases n - k,
    {
        rgb.push(frame[at + k]);
        k += 1;
        assert(rgb@ =~= old(rgb)@ + frame@.subrange(at as int, at + k));
    }
}

/// What one pixel becomes: the three samples of it that are chosen, one after
/// another.
#[verifier::rlimit(60)]
#[verifier::spinoff_prover]
proof fn lemma_pixel(frame: Seq<u8>, samples: nat, bytes: nat, p: int)
    requires
        1 <= samples <= 4,
        samples != 3,
        1 <= bytes <= 2,
        0 <= p < frame.len() / (samples * bytes),
    ensures
        ({
            let step = samples * bytes;
            let next = source_sample(samples, 1) * bytes;
            let rgb = rgb_bytes(frame, samples, bytes);
            &&& p * step + step <= frame.len()
            &&& (p + 1) * step == p * step + step
            &&& next + next + bytes <= step
            &&& (p + 1) * (3 * bytes) == p * (3 * bytes) + 3 * bytes
            &&& (p + 1) * (3 * bytes) <= rgb.len()
            &&& rgb.subrange(p * (3 * bytes), (p + 1) * (3 * bytes)) == frame.subrange(
                p * step,
                p * step + bytes,
            ) + frame.subrange(p * step + next, p * step + next + bytes) + frame.subrange(
                p * step + next + next,
                p * step + next + next + bytes,
            )
        }),
{
    let step = samples * bytes;
    let pixels = frame.len() / step;
    let rgb = rgb_bytes(frame, samples, bytes);
    assert(step >= 1) by (nonlinear_arith)
        requires
            step == samples * bytes,
            samples >= 1,
            bytes >= 1,
    ;
    assert(p * step + step <= frame.len()) by (nonlinear_arith)
        requires
            step >= 1,
            p < pixels,
            pixels == frame.len() / step,
    ;
    assert((p + 1) * step == p * step + step) by (nonlinear_arith);
    assert((p + 1) * (3 * bytes) <= pixels * (3 * bytes)) by (nonlinear_arith)
        requires
            p < pixels,
    ;
    assert((p + 1) * (3 * bytes) == p * (3 * bytes) + 3 * bytes) by (nonlinear_arith);
    if bytes == 1 {
        assert(step == samples);
        assert forall|i: int| p * 3 <= i < p * 3 + 3 implies #[trigger] rgb[i] == frame[p * samples
            + source_sample(samples, i - p * 3)] by {
            assert(i / 3 == p && i % 3 == i - p * 3);
        }
    } else {
        assert(bytes == 2);
        assert(step == 2 * samples);
        assert(p * step == 2 * (p * samples)) by (nonlinear_arith)
            requires
                step == 2 * samples,
        ;
        assert forall|i: int| p * 6 <= i < p * 6 + 6 implies #[trigger] rgb[i] == frame[p * step + 2
            * source_sample(samples, (i - p * 6) / 2) + (i - p * 6) % 2] by {
            assert(i / 6 == p && i % 6 == i - p * 6 && i % 2 == (i - p * 6) % 2);
        }
    }
    assert(rgb.subrange(p * (3 * bytes), (p + 1) * (3 * bytes)) =~= frame.subrange(
        p * step,
        p * step + bytes,
    ) + frame.subrange(
        p * step + source_sample(samples, 1) * bytes,
        p * step + source_sample(samples, 1) * bytes + bytes,
    ) + frame.subrange(
        p * step + 2 * source_sample(samples, 1) * bytes,
        p * step + 2 * source_sample(samples, 1) * bytes + bytes,
    ));
}

/// Decodes the first frame of a PNG file.
fn decode_frame(file: &[u8], transform: Transform) -> (frame: Option<(Vec<u8>, FrameShape)>)
    requires
        transform == Transform::AddAlpha ==> {
            &&& png_colors(file@) is Some
            &&& usable_colors(png_colors(file@)->Some_0)
        },
    ensures
        match frame {
            None => frame_with(file@, transform) is None,
            Some((buf, shape)) => {
                let colors = png_colors(file@)->Some_0;
                &&& frame_with(file@, transform) == Some((buf@, shape))
                &&& png_colors(file@) is Some
                &&& shape.size <= buf@.len()
                &&& shape.samples == samples_of(colors.kind, transform)
                &&& transform == Transform::AddAlpha || transform_for(colors.kind)
                    == Transform::Keep ==> whole_samples(shape)
            },
        },
{
    match frame_room(file, transform) {
        None => None,
        Some(n) => {
            let mut buf: Vec<u8> = vec![0u8; n];
            assert(buf@ =~= blank(n as nat));
            match next_frame(file, transform, buf.as_mut_slice()) {
                None => None,
                Some(shape) => Some((buf, shape)),
            }
        },
    }
}

/// Decodes the first frame of a PNG file with these colours to be turned to RGB,
/// unless its palette cannot be looked up.
fn decode_for_rgb(file: &[u8], colors: Colors) -> (frame: Option<(Vec<u8>, FrameShape)>)
    requires
        png_colors(file@) == Some(colors),
    ensures
        match frame {
            None => !usable_colors(colors) || frame_with(file@, transform_for(colors.kind)) is None,
            Some((buf, shape)) => {
                let transform = transform_for(colors.kind);
                &&& usable_colors(colors)
                &&& frame_with(file@, transform) == Some((buf@, shape))
                &&& shape.size <= buf@.len()
                &&& shape.samples == samples_of(colors.kind, transform)
                &&& whole_samples(shape)
            },
        },
{
    if colors.kind == ColorKind::Indexed {
        match colors.palette {
            Some(n) => if n % 3 != 0 || n > MAX_PALETTE {
                return None;
            },
            None => {},
        }
    }
    let transform = match colors.kind {
        ColorKind::Grayscale | ColorKind::Indexed => Transform::AddAlpha,
        _ => Transform::Keep,
    };
    decode_frame(file, transform)
}

/// The pixel bytes of the first frame of a PNG file; nothing where the file cannot
/// be decoded. They are RGB, three samples a pixel, whatever colour the file has;
/// those of a file with RGB pixels are the bytes of its frame. Only where single
/// samples cannot be turned to RGB do they come as the file has them.
pub fn try_load_png_rgb(file: &[u8]) -> (pixels: Option<Vec<u8>>)
    ensures
        match pixels {
            None => png_pixels(file@) is None,
            Some(pixels) => {
                &&& png_pixels(file@) == Some(pixels@)
                &&& png_colors(file@) is Some
                &&& decoded_frame(file@) matches Some((buf, shape)) && {
                    let colors = png_colors(file@)->Some_0;
                    let transform = transform_used(file@, colors);
                    &&& shape.size <= buf.len()
                    &&& shape.samples == samples_of(colors.kind, transform)
                    &&& turns_to_rgb(file@, colors) ==> {
                        &&& whole_samples(shape)
                        &&& pixels@.len() == shape.width * shape.height * (3 * sample_bytes(
                            shape.depth,
                        ))
                    }
                    &&& colors.kind == ColorKind::Rgb || !turns_to_rgb(file@, colors) ==> pixels@
                        == buf.take(shape.size as int)
                }
            },
        },
{
    let colors = match colors_of(file) {
        None => return None,
        Some(colors) => colors,
    };
    match decode_for_rgb(file, colors) {
        Some((buf, shape)) => {
            let frame = frame_of(buf, shape.size);
            proof {
                lemma_whole_frame(shape, frame@);
            }
            Some(rgb_of(frame, shape.samples, shape.depth))
        },
        None => match decode_frame(file, Transform::Keep) {
            None => None,
            Some((buf, shape)) => Some(frame_of(buf, shape.size)),
        },
    }
}

/// A frame of whole samples becomes three samples for every pixel.
proof fn lemma_whole_frame(shape: FrameShape, frame: Seq<u8>)
    requires
        whole_samples(shape),
        1 <= shape.samples <= 4,
        frame.len() == shape.size,
    ensures
        rgb_bytes(frame, shape.samples as nat, sample_bytes(shape.depth)).len() == shape.width
            * shape.height * (3 * sample_bytes(shape.depth)),
{
    let area = shape.width * shape.height;
    let step = shape.samples * sample_bytes(shape.depth);
    assert(step > 0) by (nonlinear_arith)
        requires
            step == shape.samples * sample_bytes(shape.depth),
            shape.samples >= 1,
            sample_bytes(shape.depth) >= 1,
    ;
    assert((area * step) / step == area) by (nonlinear_arith)
        requires
            step > 0,
    ;
}

/// A frame of samples of one byte becomes three bytes a pixel: red, green and
/// blue where a pixel has them, and nothing else of it; its brightness three
/// times where it has no more than that and alpha.
pub proof fn law_rgb_is_three_bytes_a_pixel(
    frame: Seq<u8>,
    samples: nat,
    pixels: nat,
    k: int,
    channel: int,
)
    requires
        1 <= samples <= 4,
        frame.len() == samples * pixels,
        0 <= k < pixels,
        0 <= channel < 3,
    ensures
        rgb_bytes(frame, samples, 1).len() == 3 * pixels,
        rgb_bytes(frame, samples, 1)[3 * k + channel] == frame[samples * k + source_sample(
            samples,
            channel,
        )],
{
    let i = 3 * k + channel;
    let step = samples * 1nat;
    assert(step == samples);
    assert(frame.len() / step == pixels) by (nonlinear_arith)
        requires
            frame.len() == samples * pixels,
            step == samples,
            samples >= 1,
    ;
    assert(i / 3 == k && i % 3 == channel);
    assert(k * samples == samples * k) by (nonlinear_arith);
    if samples == 3 {
        assert(samples * k == 3 * k);
    } else {
        assert(rgb_bytes(frame, samples, 1).len() == pixels * 3);
    }
}

/// Every file whose first frame can be decoded as it is gives pixel bytes: what
/// cannot be turned to RGB is not lost.
pub proof fn law_decodable_file_gives_pixels(file: Seq<u8>)
    requires
        png_colors(file) is Some,
        frame_with(file, Transform::Keep) is Some,
    ensures
        png_pixels(file) is Some,
{
}

/// Red, green and blue stay where a pixel has three samples or four, and the first
/// sample is used for all three where it has one or two: of samples of one byte.
pub proof fn law_colours_stay_in_place(
    frame: Seq<u8>,
    samples: nat,
    pixels: nat,
    k: int,
)
    requires
        1 <= samples <= 4,
        frame.len() == samples * pixels,
        0 <= k < pixels,
    ensures
        ({
            let rgb = rgb_bytes(frame, samples, 1);
            let first = samples * k;
            &&& rgb.len() == 3 * pixels
            &&& samples >= 3 ==> rgb[3 * k] == frame[first] && rgb[3 * k + 1] == frame[first + 1]
                && rgb[3 * k + 2] == frame[first + 2]
            &&& samples <= 2 ==> rgb[3 * k] == frame[first] && rgb[3 * k + 1] == frame[first]
                && rgb[3 * k + 2] == frame[first]
        }),
{
    law_rgb_is_three_bytes_a_pixel(frame, samples, pixels, k, 0);
    law_rgb_is_three_bytes_a_pixel(frame, samples, pixels, k, 1);
    law_rgb_is_three_bytes_a_pixel(frame, samples, pixels, k, 2);
}

/// The same of samples of two bytes, which stay together.
pub proof fn law_deep_colours_stay_in_place(
    frame: Seq<u8>,
    samples: nat,
    pixels: nat,
    k: int,
    t: int,
)
    requires
        1 <= samples <= 4,
        frame.len() == 2 * (samples * pixels),
        0 <= k < pixels,
        0 <= t < 2,
    ensures
        ({
            let rgb = rgb_bytes(frame, samples, 2);
            let first = 2 * (samples * k) + t;
            &&& rgb.len() == 6 * pixels
            &&& samples >= 3 ==> rgb[6 * k + t] == frame[first] && rgb[6 * k + 2 + t]
                == frame[first + 2] && rgb[6 * k + 4 + t] == frame[first + 4]
            &&& samples <= 2 ==> rgb[6 * k + t] == frame[first] && rgb[6 * k + 2 + t]
                == frame[first] && rgb[6 * k + 4 + t] == frame[first]
        }),
{
    let step = samples * 2nat;
    assert(frame.len() / step == pixels) by (nonlinear_arith)
        requires
            frame.len() == 2 * (samples * pixels),
            step == samples * 2,
            samples >= 1,
    ;
    assert(k * samples == samples * k) by (nonlinear_arith);
    if samples == 3 {
        assert(samples * k == 3 * k && samples * pixels == 3 * pixels);
    } else {
        let rgb = rgb_bytes(frame, samples, 2);
        assert(rgb.len() == pixels * 6);
        assert forall|c: int| 0 <= c < 3 implies #[trigger] rgb[6 * k + 2 * c + t] == frame[2 * (
        samples * k + source_sample(samples, c)) + t] by {
            let i = 6 * k + 2 * c + t;
            assert(i / 6 == k && i % 6 == 2 * c + t && (2 * c + t) / 2 == c && i % 2 == t);
        }
        assert(rgb[6 * k + 2 * 0 + t] == frame[2 * (samples * k + source_sample(samples, 0)) + t]);
        assert(rgb[6 * k + 2 * 1 + t] == frame[2 * (samples * k + source_sample(samples, 1)) + t]);
        assert(rgb[6 * k + 2 * 2 + t] == frame[2 * (samples * k + source_sample(samples, 2)) + t]);
    }
}

/// A palette can be looked up just where it is three bytes for each of up to 256
/// colours; a file that is not indexed has none to look up.
pub proof fn law_palettes_are_whole_colours(colors: Colors)
    ensures
        colors.kind != ColorKind::Indexed || colors.palette is None ==> usable_colors(colors),
        colors.kind == ColorKind::Indexed ==> (colors.palette matches Some(n) ==> (usable_colors(
            colors,
        ) <==> exists|k: int| 0 <= k <= 256 && n == #[trigger] (3 * k))),
{
    if colors.kind == ColorKind::Indexed && colors.palette is Some {
        let n = colors.palette->Some_0;
        let k = n as int / 3;
        if usable_colors(colors) {
            assert(0 <= k <= 256 && n == 3 * k);
        }
    }
}

/// Only grayscale and indexed files are decoded with alpha added; samples are one
/// byte up to eight bits, and two beyond; and the frame is the first `size` bytes
/// of a space that held nothing but zeroes before.
pub proof fn law_frames_are_decoded_into_zeroes(
    kind: ColorKind,
    depth: u8,
    buf: Seq<u8>,
    size: usize,
    i: int,
)
    requires
        size <= buf.len(),
    ensures
        transform_for(kind) == Transform::AddAlpha <==> kind == ColorKind::Grayscale || kind
            == ColorKind::Indexed,
        depth <= 8 <==> sample_bytes(depth) == 1,
        depth > 8 <==> sample_bytes(depth) == 2,
        framed(buf, size).len() == size,
        framed(buf, size).is_prefix_of(buf),
        blank(buf.len()).len() == buf.len(),
        0 <= i < buf.len() ==> blank(buf.len())[i] == 0,
{
}

/// A file with colours or alpha gives the frame that `png` decodes as it is, with
/// three samples kept of each pixel, and nothing where `png` gives no frame.
pub proof fn law_colour_files_give_their_frame(file: Seq<u8>, colors: Colors)
    requires
        png_colors(file) == Some(colors),
        colors.kind != ColorKind::Grayscale,
        colors.kind != ColorKind::Indexed,
    ensures
        match png_room(file, Transform::Keep) {
            None => png_pixels(file) is None,
            Some(n) => match png_frame(file, Transform::Keep, Seq::new(n as nat, |i: int| 0u8)) {
                None => png_pixels(file) is None,
                Some((buf, shape)) => shape.size <= buf.len() ==> png_pixels(file) == Some(
                    rgb_bytes(
                        buf.take(shape.size as int),
                        shape.samples as nat,
                        if shape.depth <= 8 {
                            1
                        } else {
                            2
                        },
                    ),
                ),
            },
        },
{
    assert(forall|n: nat| #[trigger] blank(n) == Seq::new(n, |i: int| 0u8));
}

/// A grayscale or indexed file gives the frame that `png` decodes with alpha added,
/// turned to RGB. Where `png` gives none, or the palette cannot be looked up, it
/// gives the bytes of the frame that `png` decodes as it is.
pub proof fn law_single_sample_files_give_rgb_or_their_frame(file: Seq<u8>, colors: Colors)
    requires
        png_colors(file) == Some(colors),
        colors.kind == ColorKind::Grayscale || colors.kind == ColorKind::Indexed,
    ensures
        ({
            let zeroes = |n: usize| Seq::new(n as nat, |i: int| 0u8);
            let wide = match png_room(file, Transform::AddAlpha) {
                None => None,
                Some(n) => png_frame(file, Transform::AddAlpha, zeroes(n)),
            };
            let kept = match png_room(file, Transform::Keep) {
                None => None,
                Some(n) => png_frame(file, Transform::Keep, zeroes(n)),
            };
            if usable_colors(colors) && wide is Some {
                let (buf, shape) = wide->Some_0;
                shape.size <= buf.len() ==> png_pixels(file) == Some(
                    rgb_bytes(
                        buf.take(shape.size as int),
                        shape.samples as nat,
                        if shape.depth <= 8 {
                            1
                        } else {
                            2
                        },
                    ),
                )
            } else {
                match kept {
                    None => png_pixels(file) is None,
                    Some((buf, shape)) => shape.size <= buf.len() ==> png_pixels(file) == Some(
                        buf.take(shape.size as int),
                    ),
                }
            }
        }),
{
    assert(forall|n: nat| #[trigger] blank(n) == Seq::new(n, |i: int| 0u8));
}

/// A file that `png` cannot read up to its image data gives nothing.
pub proof fn law_unreadable_file_gives_nothing(file: Seq<u8>)
    requires
        png_colors(file) is None,
    ensures
        png_pixels(file) is None,
{
}

} // verus!
