use custom_dmq::compression::{compression_enabled, preferred_codec, unwrap_batch, wrap_batch, CODEC_LZ4, CODEC_NONE};
use custom_dmq::error::DmqError;

#[test]
fn lz4_roundtrip() {
    let data = b"hello world hello world hello world";
    let wrapped = wrap_batch(CODEC_LZ4, data).unwrap();
    assert_eq!(wrapped[0], CODEC_LZ4);
    assert_eq!(unwrap_batch(&wrapped).unwrap(), data);
}

#[test]
fn uncompressed_batches_and_errors() {
    let wrapped = wrap_batch(CODEC_NONE, b"abc").unwrap();
    assert_eq!(wrapped, vec![CODEC_NONE, b'a', b'b', b'c']);
    assert_eq!(unwrap_batch(&wrapped).unwrap(), b"abc".to_vec());
    let tiny = wrap_batch(CODEC_LZ4, b"ab").unwrap();
    assert_eq!(tiny[0], CODEC_NONE);
    assert_eq!(wrap_batch(9, b"x"), Err(DmqError::UnknownCodec(9)));
    assert_eq!(unwrap_batch(&[]), Err(DmqError::EmptyBatch));
    assert_eq!(unwrap_batch(&[7, 1]), Err(DmqError::UnknownCodec(7)));
    assert_eq!(unwrap_batch(&[CODEC_LZ4, 0xff]), Err(DmqError::Decompress));
}

#[test]
fn compression_settings() {
    assert!(compression_enabled(Some(b"LZ4")));
    assert!(compression_enabled(Some(b"1")));
    assert!(compression_enabled(Some(b"True")));
    assert!(!compression_enabled(Some(b"yes")));
    assert!(!compression_enabled(None));
    assert_eq!(preferred_codec(true), CODEC_LZ4);
    assert_eq!(preferred_codec(false), CODEC_NONE);
}
