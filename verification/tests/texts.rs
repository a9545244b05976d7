use wuffs_bench::{make_palette16, make_random, make_run_length, make_solid};

#[test]
fn solid_text_is_zero() {
    assert_eq!(make_solid(0), Vec::<u8>::new());
    assert_eq!(make_solid(3), vec![0, 0, 0]);
}

#[test]
fn run_length_text_steps_every_64_bytes() {
    let text = make_run_length(1100);
    assert_eq!(text.len(), 1100);
    assert_eq!((text[0], text[63], text[64], text[127], text[128]), (0, 0, 1, 1, 2));
    assert_eq!((text[511], text[512]), (7, 0));
    assert_eq!(text[..512], text[512..1024]);
}

#[test]
fn palette_text_starts_with_known_runs() {
    let runs = [(4, 40), (11, 35), (13, 24), (5, 40), (14, 29), (7, 27), (14, 44)];
    let mut expected = Vec::new();
    for (byte, len) in runs {
        expected.extend(vec![byte; len]);
    }
    assert_eq!(make_palette16(239), expected);
    assert_eq!(make_palette16(57), expected[..57]);
    assert!(make_palette16(10_000).iter().all(|&byte| byte < 16));
}

#[test]
fn random_text_starts_with_known_bytes() {
    assert_eq!(
        make_random(16),
        vec![
            0x2C, 0xCA, 0x86, 0xE2, 0xC6, 0x04, 0xF7, 0xD8, 0x0C, 0x0D, 0xE3, 0xB8, 0x76, 0x38,
            0x7F, 0x3C
        ]
    );
}

#[test]
fn shorter_texts_are_prefixes() {
    for make in [make_solid, make_run_length, make_palette16, make_random] {
        let long = make(2000);
        assert_eq!(long.len(), 2000);
        for n in [0, 1, 63, 64, 777, 1999] {
            assert_eq!(make(n), long[..n]);
        }
    }
}
