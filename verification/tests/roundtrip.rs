use weezl::encode::Encoder;
use wuffs_bench::{
    decode_weezl, decode_weezl_with_order, standard_corpus, BitOrder, Input, TableStrategy,
};

fn check(input: &Input) {
    let mut out_classic = vec![0u8; input.raw.len() + 64];
    let mut out_chunked = vec![0u8; input.raw.len() + 64];
    let mut out_tight = vec![0u8; input.raw.len() + 64];

    let n1 = decode_weezl(&input.encoded, &mut out_classic, TableStrategy::Classic);
    let n2 = decode_weezl(&input.encoded, &mut out_chunked, TableStrategy::Chunked);
    let n4 = decode_weezl(&input.encoded, &mut out_tight, TableStrategy::Tight);

    assert_eq!(n1, input.raw.len(), "{} classic size", input.name);
    assert_eq!(n2, input.raw.len(), "{} chunked size", input.name);
    assert_eq!(n4, input.raw.len(), "{} tight size", input.name);

    assert_eq!(&out_classic[..n1], &input.raw[..], "{} classic bytes", input.name);
    assert_eq!(&out_chunked[..n2], &input.raw[..], "{} chunked bytes", input.name);
    assert_eq!(&out_tight[..n4], &input.raw[..], "{} tight bytes", input.name);
}

#[test]
fn all_three_agree_on_corpus() {
    for input in standard_corpus() {
        check(&input);
    }
}

#[test]
fn tight_msb_tiff_roundtrip() {
    let corpus = standard_corpus();
    for input in corpus.iter() {
        // Re-encode with the most significant bit first and the size switch of TIFF.
        let encoded = Encoder::with_tiff_size_switch(weezl::BitOrder::Msb, 8)
            .encode(&input.raw)
            .unwrap();

        let mut out_classic = vec![0u8; input.raw.len() + 64];
        let mut out_chunked = vec![0u8; input.raw.len() + 64];
        let mut out_tight = vec![0u8; input.raw.len() + 64];

        let n1 = decode_weezl_with_order(
            &encoded,
            &mut out_classic,
            TableStrategy::Classic,
            BitOrder::Msb,
            true,
        );
        let n2 = decode_weezl_with_order(
            &encoded,
            &mut out_chunked,
            TableStrategy::Chunked,
            BitOrder::Msb,
            true,
        );
        let n3 = decode_weezl_with_order(
            &encoded,
            &mut out_tight,
            TableStrategy::Tight,
            BitOrder::Msb,
            true,
        );

        assert_eq!(n1, input.raw.len(), "{} classic", input.name);
        assert_eq!(n2, input.raw.len(), "{} chunked", input.name);
        assert_eq!(n3, input.raw.len(), "{} tight", input.name);

        assert_eq!(&out_classic[..n1], &input.raw[..], "{} classic bytes", input.name);
        assert_eq!(&out_chunked[..n2], &input.raw[..], "{} chunked bytes", input.name);
        assert_eq!(&out_tight[..n3], &input.raw[..], "{} tight/msb/tiff bytes", input.name);
    }
}

#[test]
fn tight_msb_non_tiff_roundtrip() {
    for input in standard_corpus() {
        let encoded = Encoder::new(weezl::BitOrder::Msb, 8).encode(&input.raw).unwrap();
        let mut out_tight = vec![0u8; input.raw.len() + 64];
        let n = decode_weezl_with_order(
            &encoded,
            &mut out_tight,
            TableStrategy::Tight,
            BitOrder::Msb,
            false,
        );
        assert_eq!(n, input.raw.len(), "{} tight/msb", input.name);
        assert_eq!(&out_tight[..n], &input.raw[..], "{} tight/msb bytes", input.name);
    }
}
