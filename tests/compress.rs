use stegosaurust::compress::{compress, decompress};
use stegosaurust::CompressionError;

#[test]
fn test_compression() {
    let input = "a".repeat(100);
    let output = compress(input.as_bytes()).unwrap();
    assert!(output.len() < input.len());
}

#[test]
fn test_decompression() {
    let input = "a".repeat(100);
    let output = compress(input.as_bytes()).unwrap();
    assert_eq!(decompress(&output).unwrap(), input.as_bytes());
}

#[test]
fn test_empty_input_compression() {
    let input = "";
    let output = compress(input.as_bytes());
    assert!(output.is_err());
    assert_eq!(output.unwrap_err(), CompressionError::EmptyData);
}

#[test]
fn test_empty_input_decompression() {
    let input = "";
    let output = decompress(input.as_bytes());
    assert!(output.is_err());
    assert_eq!(output.unwrap_err(), CompressionError::EmptyData);
}

#[test]
fn compressed_output_differs_from_input() {
    let input = b"xyz xyz xyz xyz xyz xyz";
    let output = compress(input).unwrap();
    assert_ne!(output, input.to_vec());
    assert_eq!(&output[0..3], b"BZh");
}

#[test]
fn decompress_rejects_garbage() {
    let out = decompress(b"not bzip2 at all");
    assert!(matches!(out, Err(CompressionError::Decompression)));
}
