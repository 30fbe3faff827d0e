use stegosaurust::cli::BitDistribution;
use stegosaurust::image::CoverImage;
use stegosaurust::steganography::{get_linspace, has_end, BitEncoder, Lsb, Rsb, Steganography};
use stegosaurust::StegError;

#[test]
fn test_lsb_steganography() {
    let img = CoverImage::new(32, 32);
    let mut enc = BitEncoder::new(Lsb::default(), None);
    let secret_message = "🦕 hiding text!".as_bytes();
    let encoded = enc.encode(&img, secret_message).unwrap();
    assert_eq!(enc.decode(&encoded).unwrap(), secret_message);
}

#[test]
fn test_rsb_steganography() {
    let img = CoverImage::new(32, 32);
    let mut enc = BitEncoder::new(Rsb::new(2, "seed"), None);
    let mut dec = BitEncoder::new(Rsb::new(2, "seed"), None);
    let secret_message = "🦕 hiding text!".as_bytes();
    let encoded = enc.encode(&img, secret_message).unwrap();
    assert_eq!(dec.decode(&encoded).unwrap(), secret_message);
}

#[test]
fn test_rsb_random_determined_from_seed() {
    let mut rsb1 = Rsb::new(2, "seed");
    let mut rsb2 = Rsb::new(2, "seed");
    for _ in 0..10 {
        assert_eq!(rsb1.next_mask(), rsb2.next_mask());
    }
}

#[test]
fn test_rsb_random_determined_from_seed_different() {
    let mut rsb1 = Rsb::new(2, "seed");
    let mut rsb2 = Rsb::new(2, "seeb");
    let it = 1000;
    let mut matches = Vec::with_capacity(it);
    for _ in 0..it {
        matches.push(rsb1.next_mask() == rsb2.next_mask());
    }
    assert!(matches.contains(&false));
}

#[test]
fn test_rsb_1_decrypts_with_lsb() {
    let img = CoverImage::new(32, 32);
    let mut rsb_enc = BitEncoder::new(Rsb::new(1, "seed"), None);
    let mut lsb_enc = BitEncoder::new(Lsb::default(), None);
    let secret_message = "🦕 hiding text!".as_bytes();
    let encoded = rsb_enc.encode(&img, secret_message).unwrap();
    assert_eq!(lsb_enc.decode(&encoded).unwrap(), secret_message);
}

#[test]
fn test_rsb_3_not_decrypts_with_lsb() {
    let img = CoverImage::new(32, 32);
    let mut rsb_enc = BitEncoder::new(Rsb::new(3, "seed"), None);
    let mut lsb_enc = BitEncoder::new(Lsb::default(), None);
    let secret_message = "🦕 hiding text!".as_bytes();
    let encoded = rsb_enc.encode(&img, secret_message).unwrap();
    let result = lsb_enc.decode(&encoded);
    assert!(result.is_err());
    assert_eq!(result.unwrap_err(), StegError::EncodingNotFound);
}

fn black_4x4() -> CoverImage {
    let mut img = CoverImage::new(4, 4);
    for x in 0..4 {
        for y in 0..4 {
            img.put_pixel(x, y, [0, 0, 0]);
        }
    }
    for x in 0..4 {
        for y in 0..4 {
            assert_eq!(img.get_pixel(x, y), [0, 0, 0]);
        }
    }
    img
}

#[test]
fn test_linear_distribution_encoding() {
    let img = black_4x4();
    let mut lsb_enc = BitEncoder {
        encoder: Lsb::default(),
        bit_dist: BitDistribution::Linear { length: 0 },
        end_sequence: false,
    };
    let new_img = lsb_enc.encode(&img, b"\xFF").unwrap();
    // the eight bits land in pixels 0, 7 and 15
    assert_eq!(new_img.get_pixel(0, 0), [1, 1, 1]);
    assert_eq!(new_img.get_pixel(3, 1), [1, 1, 1]);
    assert_eq!(new_img.get_pixel(3, 3), [1, 1, 0]);
    assert_eq!(new_img.get_pixel(1, 0), [0, 0, 0]);
}

#[test]
fn test_linear_distribution_decoding() {
    let img = black_4x4();
    let mut lsb_enc = BitEncoder {
        encoder: Lsb::default(),
        bit_dist: BitDistribution::Linear { length: 0 },
        end_sequence: false,
    };
    let new_img = lsb_enc.encode(&img, b"\xFF").unwrap();

    let mut lsb_dec = BitEncoder {
        encoder: Lsb::default(),
        bit_dist: BitDistribution::Linear { length: 3 },
        end_sequence: false,
    };
    let result = lsb_dec.decode(&new_img).unwrap();
    assert_eq!(result[0], 255);

    let mut lsb_dec = BitEncoder {
        encoder: Lsb::default(),
        bit_dist: BitDistribution::Linear { length: 4 },
        end_sequence: false,
    };
    let result = lsb_dec.decode(&new_img).unwrap();
    assert_ne!(result[0], 255);
}

#[test]
fn linear_round_trip_with_group_count() {
    let img = CoverImage::new(20, 20);
    let msg = b"spread out";
    let mut enc = BitEncoder::new(Lsb::new(), Some(BitDistribution::Linear { length: 0 }));
    let out = enc.encode(&img, msg).unwrap();
    // (10 + 4) bytes * 8 bits = 112 bits in 38 groups
    let mut dec = BitEncoder::new(Lsb::new(), Some(BitDistribution::Linear { length: 38 }));
    assert_eq!(dec.decode(&out).unwrap(), msg.to_vec());
}

#[test]
fn capacity_formula_and_limits() {
    let img = CoverImage::new(32, 32);
    let mut enc = BitEncoder::new(Lsb::new(), None);
    // (32 * 32 * 3 - 32) / 8
    assert_eq!(enc.max_len(&img), 380);
    let full = vec![0x41u8; 380];
    let out = enc.encode(&img, &full).unwrap();
    let mut dec = BitEncoder::new(Lsb::new(), None);
    assert_eq!(dec.decode(&out).unwrap(), full);
    let over = vec![0x41u8; 381];
    assert_eq!(
        enc.encode(&img, &over).unwrap_err(),
        StegError::MessageTooLong { length: 381, capacity: 380 }
    );
}

#[test]
fn capacity_of_tiny_image_is_zero() {
    let img = CoverImage::new(2, 2);
    let mut enc = BitEncoder::new(Lsb::new(), None);
    assert_eq!(enc.max_len(&img), 0);
    assert_eq!(
        enc.encode(&img, b"").unwrap_err(),
        StegError::MessageTooLong { length: 0, capacity: 0 }
    );
}

#[test]
fn encode_leaves_source_image_untouched() {
    let img = CoverImage::new(8, 8);
    let mut enc = BitEncoder::new(Lsb::new(), None);
    let out = enc.encode(&img, b"hi").unwrap();
    assert_eq!(img, CoverImage::new(8, 8));
    assert_ne!(out, img);
}

#[test]
fn empty_message_round_trip() {
    let img = CoverImage::new(8, 8);
    let mut enc = BitEncoder::new(Lsb::new(), None);
    let out = enc.encode(&img, b"").unwrap();
    let mut dec = BitEncoder::new(Lsb::new(), None);
    assert_eq!(dec.decode(&out).unwrap(), Vec::<u8>::new());
}

#[test]
fn blank_image_has_no_message() {
    let img = CoverImage::new(16, 16);
    let mut dec = BitEncoder::new(Lsb::new(), None);
    assert_eq!(dec.decode(&img).unwrap_err(), StegError::EncodingNotFound);
}

#[test]
fn rsb_other_seed_does_not_reproduce() {
    let img = CoverImage::new(32, 32);
    let msg = b"a message long enough to matter";
    let mut enc = BitEncoder::new(Rsb::new(4, "alpha"), None);
    let out = enc.encode(&img, msg).unwrap();
    let mut dec = BitEncoder::new(Rsb::new(4, "beta"), None);
    match dec.decode(&out) {
        Ok(m) => assert_ne!(m, msg.to_vec()),
        Err(e) => assert_eq!(e, StegError::EncodingNotFound),
    }
    let mut dec = BitEncoder::new(Rsb::new(3, "alpha"), None);
    match dec.decode(&out) {
        Ok(m) => assert_ne!(m, msg.to_vec()),
        Err(e) => assert_eq!(e, StegError::EncodingNotFound),
    }
}

#[test]
fn rsb_masks_are_single_low_bits() {
    let mut rsb = Rsb::new(4, "seed");
    let mut seen = [false; 4];
    for _ in 0..200 {
        let m = rsb.next_mask();
        assert!(m == 1 || m == 2 || m == 4 || m == 8);
        seen[m.trailing_zeros() as usize] = true;
    }
    assert!(seen.iter().all(|s| *s));
}

#[test]
fn codec_through_trait() {
    let img = CoverImage::new(16, 16);
    let mut enc: Box<dyn Steganography> = Box::new(BitEncoder::new(Lsb::new(), None));
    let out = enc.encode(&img, b"boxed").unwrap();
    assert_eq!(enc.max_len(&img), 92);
    assert_eq!(enc.decode(&out).unwrap(), b"boxed".to_vec());
}

#[test]
fn has_end_examples() {
    assert!(has_end(&[1, 2, 3], &[2, 3]));
    assert!(!has_end(&[1, 2, 2], &[2, 3]));
    assert!(!has_end(&[3], &[2, 3]));
    assert!(has_end(&[3], &[]));
}

#[test]
fn linspace_examples() {
    assert_eq!(get_linspace(0, 10, 3), vec![0, 5, 10]);
    assert_eq!(get_linspace(0, 15, 3), vec![0, 7, 15]);
    assert_eq!(get_linspace(0, 15, 4), vec![0, 5, 10, 15]);
    assert_eq!(get_linspace(5, 9, 1), vec![5]);
    assert_eq!(get_linspace(2, 3, 0), Vec::<usize>::new());
}

#[test]
fn rsb_leaves_high_bits_alone() {
    let img = CoverImage::new(16, 16);
    let mut enc = BitEncoder::new(Rsb::new(2, "seed"), None);
    let out = enc.encode(&img, b"some text here").unwrap();
    assert!(out.data.iter().all(|v| *v < 4));
}
