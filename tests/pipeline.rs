use stegosaurust::cli::{BitDistribution, ConfigError, EncodeOpts, StegMethod};
use stegosaurust::disguise::{disguised_name, hide_files, is_not_hidden, original_name, CoverPool};
use stegosaurust::image::CoverImage;
use stegosaurust::payload::{hide_message, hide_payload, reveal_message, reveal_payload};
use stegosaurust::steganography::{encoder_from_opts, linear_length};
use stegosaurust::{CompressionError, StegError};

fn opts() -> EncodeOpts {
    EncodeOpts {
        decode: false,
        base64: false,
        compress: false,
        key: None,
        method: None,
        distribution: None,
        seed: None,
        max_bit: None,
    }
}

#[test]
fn payload_round_trip_all_steps() {
    let mut o = opts();
    o.base64 = true;
    o.compress = true;
    o.key = Some("hunter2".to_string());
    let msg = b"the quick brown fox jumps over the lazy dog".to_vec();
    let p = hide_payload(&msg, &o).unwrap();
    assert!(p.iter().all(|b| b.is_ascii()));
    assert_eq!(reveal_payload(&p, &o).unwrap(), msg);
}

#[test]
fn base64_step_encodes() {
    let mut o = opts();
    o.base64 = true;
    assert_eq!(hide_payload(b"hi", &o).unwrap(), b"aGk=".to_vec());
    assert_eq!(reveal_payload(b"aGk=", &o).unwrap(), b"hi".to_vec());
    assert_eq!(reveal_payload(b"!!!", &o).unwrap_err(), StegError::InvalidBase64);
}

#[test]
fn compress_step_refuses_empty_message() {
    let mut o = opts();
    o.compress = true;
    assert_eq!(
        hide_payload(b"", &o).unwrap_err(),
        StegError::Compression(CompressionError::EmptyData)
    );
}

#[test]
fn message_round_trip_with_rsb_and_options() {
    let mut o = opts();
    o.method = Some(StegMethod::RandomSignificantBit);
    o.seed = Some("seed".to_string());
    o.max_bit = Some(3);
    o.base64 = true;
    let cover = CoverImage::new(40, 40);
    let img = hide_message(&cover, b"payload text", &o).unwrap();
    assert_eq!(reveal_message(&img, &o).unwrap(), b"payload text".to_vec());
}

#[test]
fn options_are_checked_first() {
    let cover = CoverImage::new(40, 40);
    let mut o = opts();
    o.method = Some(StegMethod::RandomSignificantBit);
    o.max_bit = Some(2);
    assert_eq!(
        hide_message(&cover, b"x", &o).unwrap_err(),
        StegError::InvalidConfiguration(ConfigError::EmptySeed)
    );
    o.seed = Some("s".to_string());
    o.max_bit = Some(5);
    assert_eq!(
        encoder_from_opts(&o).err(),
        Some(StegError::InvalidConfiguration(ConfigError::MaxBit))
    );
    let mut o = opts();
    o.decode = true;
    o.distribution = Some(BitDistribution::Linear { length: 0 });
    assert_eq!(o.validate(), Err(StegError::InvalidConfiguration(ConfigError::LinearLength)));
    let mut o = opts();
    o.key = Some(String::new());
    assert_eq!(o.validate(), Err(StegError::InvalidConfiguration(ConfigError::EmptyKey)));
    assert_eq!(opts().validate(), Ok(()));
}

#[test]
fn batch_skips_the_file_no_cover_holds() {
    // capacities: 8x8 -> 20 bytes, 10x10 -> 33 bytes
    let mut pool = CoverPool::new(vec![CoverImage::new(8, 8), CoverImage::new(10, 10)]);
    let files = vec![vec![7u8; 100], vec![9u8; 30]];
    let results = hide_files(&mut pool, &files, &opts());
    assert_eq!(results.len(), 2);
    assert_eq!(results[0].as_ref().unwrap_err(), &StegError::NoCoverFits { length: 100 });
    let (cover, img) = results[1].as_ref().unwrap();
    assert_eq!(*cover, 1);
    assert_eq!(reveal_message(img, &opts()).unwrap(), vec![9u8; 30]);
    assert_eq!(pool.cursor, 0);
}

#[test]
fn pool_cycles_from_cursor() {
    let mut pool = CoverPool::new(vec![
        CoverImage::new(10, 10),
        CoverImage::new(8, 8),
        CoverImage::new(10, 10),
    ]);
    assert_eq!(pool.select_cover(10), Some(0));
    assert_eq!(pool.select_cover(10), Some(1));
    assert_eq!(pool.select_cover(30), Some(2));
    assert_eq!(pool.select_cover(30), Some(0));
    assert_eq!(pool.cursor, 1);
    assert_eq!(pool.select_cover(1000), None);
    assert_eq!(pool.cursor, 1);
}

#[test]
fn disguised_names_round_trip() {
    let name = disguised_name(b"notes.txt");
    assert_eq!(name, b"bm90ZXMudHh0.png".to_vec());
    assert_eq!(original_name(b"bm90ZXMudHh0"), Some(b"notes.txt".to_vec()));
    assert_eq!(original_name(b"not base64!"), None);
    // base64 of the bytes ff fe, which are not UTF-8
    assert_eq!(original_name(b"//4="), None);
}

#[test]
fn hidden_files_are_skipped() {
    assert!(!is_not_hidden(b".secret"));
    assert!(is_not_hidden(b"visible.txt"));
    assert!(is_not_hidden(b""));
}

#[test]
fn parse_method_names() {
    assert_eq!(StegMethod::parse("lsb"), Some(StegMethod::LeastSignificantBit));
    assert_eq!(StegMethod::parse("rsb"), Some(StegMethod::RandomSignificantBit));
    assert_eq!(StegMethod::parse("xyz"), None);
    assert_eq!(StegMethod::variants(), ["lsb", "rsb"]);
}

#[test]
fn parse_distribution_names() {
    assert_eq!(BitDistribution::parse("sequential"), Some(BitDistribution::Sequential));
    assert_eq!(BitDistribution::parse("linear"), Some(BitDistribution::Linear { length: 0 }));
    assert_eq!(BitDistribution::parse("linear-42"), Some(BitDistribution::Linear { length: 42 }));
    assert_eq!(BitDistribution::parse("linear-7-x"), Some(BitDistribution::Linear { length: 7 }));
    assert_eq!(BitDistribution::parse("linear-+3"), Some(BitDistribution::Linear { length: 3 }));
    assert_eq!(BitDistribution::parse("linear-x"), None);
    assert_eq!(BitDistribution::parse("linear-"), None);
    assert_eq!(BitDistribution::parse("linear-99999999999999999999999"), None);
    assert_eq!(BitDistribution::parse("spiral"), None);
}

#[test]
fn batch_with_key_hides_what_fits() {
    // 10x10 holds 33 bytes; with a key a 1-byte file becomes a 32-byte container
    let mut pool = CoverPool::new(vec![CoverImage::new(10, 10)]);
    let mut o = opts();
    o.key = Some("k".to_string());
    let files = vec![vec![1u8; 40], vec![2u8; 1]];
    let results = hide_files(&mut pool, &files, &o);
    assert_eq!(results[0].as_ref().unwrap_err(), &StegError::NoCoverFits { length: 64 });
    let (_, img) = results[1].as_ref().unwrap();
    assert_eq!(reveal_message(img, &o).unwrap(), vec![2u8; 1]);
}

#[test]
fn hide_message_reports_both_sizes() {
    let cover = CoverImage::new(8, 8);
    let mut o = opts();
    o.base64 = true;
    // 30 bytes become 40 base64 characters; an 8x8 image holds 20 bytes
    assert_eq!(
        hide_message(&cover, &[5u8; 30], &o).unwrap_err(),
        StegError::MessageTooLong { length: 40, capacity: 20 }
    );
}

#[test]
fn linear_length_counts_groups() {
    assert_eq!(linear_length(10, true), Some(38));
    assert_eq!(linear_length(1, false), Some(3));
    assert_eq!(linear_length(0, false), Some(0));
}
