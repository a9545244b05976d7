use wuffs_bench::profile::{build_and_decode, decode_input, parse_backend, table_strategy, Backend};
use wuffs_bench::report::{compare, report, Comparison};
use wuffs_bench::weezl_codec::{Step, StepStatus};
use wuffs_bench::wuffs::{literal_width_plus_one, wuffs_outcome, WuffsError};
use wuffs_bench::{make_palette16, standard_corpus, Input, TableStrategy};

#[test]
fn backends_go_by_name() {
    assert_eq!(parse_backend("classic"), Some(Backend::Classic));
    assert_eq!(parse_backend("chunked"), Some(Backend::Chunked));
    assert_eq!(parse_backend("wuffs"), Some(Backend::Wuffs));
    assert_eq!(parse_backend("tight"), None);
    assert_eq!(parse_backend("Classic"), None);
    assert_eq!(parse_backend(""), None);
    assert_eq!(table_strategy(Backend::Classic), Some(TableStrategy::Classic));
    assert_eq!(table_strategy(Backend::Chunked), Some(TableStrategy::Chunked));
    assert_eq!(table_strategy(Backend::Wuffs), None);
}

#[test]
fn inputs_decode_to_their_text() {
    let input = Input::build("p", make_palette16(5000));
    for strategy in [TableStrategy::Classic, TableStrategy::Chunked, TableStrategy::Tight] {
        for room in [5000, 5064] {
            let mut out = vec![0xEE; room];
            assert_eq!(decode_input(&input, &mut out, strategy), 5000);
            assert_eq!(out[..5000], input.raw[..]);
        }
        let (built, text) = build_and_decode("q", make_palette16(5000), strategy);
        assert_eq!((built.name, &built.raw, &built.encoded), ("q", &input.raw, &input.encoded));
        assert_eq!(text, input.raw);
    }
}

#[test]
fn wuffs_is_told_the_code_width() {
    assert_eq!(literal_width_plus_one(8), 9);
    assert_eq!(literal_width_plus_one(255), 256);
}

#[test]
fn wuffs_outcome_tells_failure_apart() {
    assert_eq!(wuffs_outcome(0), Ok(0));
    assert_eq!(wuffs_outcome(4096), Ok(4096));
    assert_eq!(wuffs_outcome(usize::MAX - 1), Ok(usize::MAX - 1));
    assert_eq!(wuffs_outcome(usize::MAX), Err(WuffsError::Failed));
}

fn step(consumed_out: usize, status: StepStatus) -> Step {
    Step { consumed_in: 0, consumed_out, status }
}

#[test]
fn comparison_finds_the_first_difference() {
    let done = StepStatus::Done;
    let at = |ok, first_diff| Comparison { ok, first_diff };
    assert_eq!(compare(b"abc", b"abc__", step(3, done)), at(true, None));
    assert_eq!(compare(b"abc", b"abc__", step(2, done)), at(false, None));
    assert_eq!(compare(b"abc", b"abc__", step(5, done)), at(false, None));
    assert_eq!(compare(b"abc", b"axx__", step(3, done)), at(false, Some(1)));
    assert_eq!(compare(b"abc", b"axx__", step(1, done)), at(false, None));
    assert_eq!(compare(b"abc", b"abc", step(3, StepStatus::InvalidCode)), at(false, None));
    assert_eq!(compare(b"abc", b"abc", step(3, StepStatus::Progress)), at(true, None));
    assert_eq!(compare(b"", b"", step(0, StepStatus::NoProgress)), at(true, None));
}

#[test]
fn single_calls_write_the_start_of_the_text() {
    for input in standard_corpus() {
        let found = report(&input);
        let encoded =
            weezl::encode::Encoder::new(weezl::BitOrder::Msb, 8).encode(&input.raw).unwrap();
        let mut out = vec![0; input.raw.len() + 64];
        let reply = weezl::decode::Configuration::new(weezl::BitOrder::Msb, 8)
            .build()
            .decode_bytes(&encoded, &mut out);
        assert_eq!(found.encoded_bytes, encoded.len());
        assert_eq!(found.step.consumed_in, reply.consumed_in);
        assert_eq!(found.step.consumed_out, reply.consumed_out);
        assert_eq!(found.raw_bytes, input.raw.len());
        assert!(found.encoded_bytes > 0);
        assert!(found.step.consumed_in <= found.encoded_bytes);
        assert!(found.step.consumed_out <= found.raw_bytes);
        assert_ne!(found.step.status, StepStatus::InvalidCode);
        assert_eq!(found.comparison.first_diff, None);
        assert_eq!(found.comparison.ok, found.step.consumed_out == found.raw_bytes);
    }
}
