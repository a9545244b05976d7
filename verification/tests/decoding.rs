use wuffs_bench::decode::{
    encode_with_order, roundtrip, same_bytes, try_decode_weezl_with_order, DecodeError,
};
use wuffs_bench::{
    decode_weezl, decode_weezl_with_order, encode_lsb8, make_palette16, make_random, BitOrder,
    TableStrategy,
};

const STRATEGIES: [TableStrategy; 3] =
    [TableStrategy::Classic, TableStrategy::Chunked, TableStrategy::Tight];

const SETTINGS: [(BitOrder, bool); 4] = [
    (BitOrder::Lsb, false),
    (BitOrder::Lsb, true),
    (BitOrder::Msb, false),
    (BitOrder::Msb, true),
];

#[test]
fn encoding_of_nothing_is_a_clear_code_and_an_end_code() {
    assert_eq!(encode_lsb8(&[]), vec![0x00, 0x03, 0x02]);
    assert_eq!(encode_with_order(&[], BitOrder::Msb, false), vec![0x80, 0x40, 0x40]);
}

#[test]
fn encoding_of_one_byte() {
    // 256, 65 and 257, nine bits each.
    assert_eq!(encode_with_order(&[65], BitOrder::Msb, false), vec![0x80, 0x10, 0x60, 0x20]);
}

#[test]
fn encodings_are_those_of_weezl() {
    let data = make_palette16(5000);
    let lsb = weezl::encode::Encoder::new(weezl::BitOrder::Lsb, 8).encode(&data).unwrap();
    let tiff =
        weezl::encode::Encoder::with_tiff_size_switch(weezl::BitOrder::Msb, 8).encode(&data).unwrap();
    assert_eq!(encode_lsb8(&data), lsb);
    assert_eq!(encode_with_order(&data, BitOrder::Lsb, false), lsb);
    assert_eq!(encode_with_order(&data, BitOrder::Msb, true), tiff);
    assert_ne!(encode_with_order(&data, BitOrder::Msb, false), tiff);
}

#[test]
fn every_text_roundtrips() {
    for (order, tiff) in SETTINGS {
        for strategy in STRATEGIES {
            for data in [&b""[..], b"a", b"banana", &[7; 3000][..], &make_random(9000)] {
                let (stream, text) = roundtrip(data, strategy, order, tiff);
                assert_eq!(stream, encode_with_order(data, order, tiff));
                assert_eq!(text, data);
            }
        }
    }
}

#[test]
fn smaller_space_gets_the_start() {
    let data = make_palette16(6000);
    let stream = encode_lsb8(&data);
    for room in [0, 1, 39, 40, 41, 4096, 5999, 6000, 6001] {
        let mut out = vec![0xEE; room];
        let n = decode_weezl(&stream, &mut out, TableStrategy::Tight);
        assert_eq!(n, room.min(6000));
        assert_eq!(&out[..n], &data[..n]);
    }
}

#[test]
fn cut_stream_gives_the_start() {
    let data = make_random(3000);
    let stream = encode_lsb8(&data);
    let mut out = vec![0; 3064];
    let n = decode_weezl(&stream[..stream.len() / 2], &mut out, TableStrategy::Classic);
    assert!(n > 0 && n < 3000);
    assert_eq!(&out[..n], &data[..n]);
}

#[test]
fn empty_stream_gives_nothing() {
    let mut out = [1, 2, 3];
    assert_eq!(decode_weezl(&[], &mut out, TableStrategy::Chunked), 0);
}

#[test]
fn invalid_code_is_reported() {
    // The first code is 511, far above what an empty table knows.
    for (order, tiff) in SETTINGS {
        let mut out = [0; 16];
        let result =
            try_decode_weezl_with_order(&[0xFF; 8], &mut out, TableStrategy::Tight, order, tiff);
        assert_eq!(result, Err(DecodeError::InvalidCode));
    }
}

#[test]
fn invalid_code_behind_the_space_is_not_met() {
    // 256, 65, 66 and then 511, nine bits each.
    let stream = [0x80, 0x10, 0x48, 0x5F, 0xF0];
    let mut out = [0; 1];
    let n =
        decode_weezl_with_order(&stream, &mut out, TableStrategy::Tight, BitOrder::Msb, false);
    assert_eq!((n, out), (1, [65]));
    let mut out = [0; 8];
    let result = try_decode_weezl_with_order(
        &stream,
        &mut out,
        TableStrategy::Tight,
        BitOrder::Msb,
        false,
    );
    assert_eq!(result, Err(DecodeError::InvalidCode));
    assert_eq!(out[..2], [65, 66]);
}

#[test]
fn invalid_code_right_behind_the_space() {
    // 256, 65, 258 and 511, nine bits each: the text is "AAA".
    let stream = [0x80, 0x10, 0x60, 0x5F, 0xF0];
    for strategy in STRATEGIES {
        let mut out = [0; 3];
        let n = decode_weezl_with_order(&stream, &mut out, strategy, BitOrder::Msb, false);
        assert_eq!((n, &out), (3, b"AAA"));
        let mut out = [0; 4];
        let result =
            try_decode_weezl_with_order(&stream, &mut out, strategy, BitOrder::Msb, false);
        assert_eq!(result, Err(DecodeError::InvalidCode));
        assert_eq!(&out[..3], b"AAA");
    }
}

#[test]
fn count_is_the_sum_of_the_replies() {
    let data = make_random(20_000);
    let stream = encode_lsb8(&data);
    for room in [0, 1, 5000, 20_000, 20_064] {
        let mut decoder = weezl::decode::Configuration::new(weezl::BitOrder::Lsb, 8).build();
        let mut space = vec![0; room];
        let (mut read, mut sum) = (0, 0);
        loop {
            let reply = decoder.decode_bytes(&stream[read..], &mut space[sum..]);
            read += reply.consumed_in;
            sum += reply.consumed_out;
            match reply.status.unwrap() {
                weezl::LzwStatus::Ok if read < stream.len() || sum < room => {}
                _ => break,
            }
        }
        let mut out = vec![0; room];
        assert_eq!(decode_weezl(&stream, &mut out, TableStrategy::Classic), sum);
        assert_eq!(out[..sum], space[..sum]);
    }
}

#[test]
fn size_switches_differ() {
    let data = make_random(3000);
    let stream = encode_with_order(&data, BitOrder::Msb, true);
    let mut out = vec![0; 3064];
    let result = try_decode_weezl_with_order(
        &stream,
        &mut out,
        TableStrategy::Tight,
        BitOrder::Msb,
        false,
    );
    assert!(result != Ok(3000) || out[..3000] != data[..]);
}

#[test]
fn bytes_are_compared_whole() {
    assert!(same_bytes(b"", b""));
    assert!(same_bytes(b"ab", b"ab"));
    assert!(!same_bytes(b"ab", b"abc"));
    assert!(!same_bytes(b"abd", b"abc"));
}
