use blobular::chunking::chunk_file;
use blobular::compress::{compress_object, decompress_object};
use blobular::digest::digest_hex;
use blobular::error::RepoError;
use blobular::manifest::{decode_manifest, encode_manifest};

fn sample_buffer(len: usize) -> Vec<u8> {
    let mut v = Vec::with_capacity(len);
    for i in 0..len {
        v.push(((i * 7 + (i >> 3)) % 256) as u8);
    }
    v
}

#[test]
fn digest_is_forty_lowercase_hex() {
    let h = digest_hex(b"x");
    assert_eq!(h, b"11f6ad8ec52a2984abaafd7c3b516503785c2072".to_vec());
    let h2 = digest_hex(b"hello world");
    assert_eq!(h2, b"2aae6c35c94fcfb415dbe95f408b9ce91ee846ed".to_vec());
}

#[test]
fn chunks_partition_the_buffer() {
    let buf = sample_buffer(200 * 1024);
    let chunks = chunk_file(&buf);
    assert!(!chunks.is_empty());
    let mut pos = 0usize;
    let mut rebuilt = Vec::new();
    for (i, c) in chunks.iter().enumerate() {
        assert_eq!(c.offset, pos);
        assert!(c.length >= 1);
        assert!(c.length <= 65535);
        if i + 1 < chunks.len() {
            assert!(c.length >= 2048);
        }
        rebuilt.extend_from_slice(&buf[c.offset..c.offset + c.length]);
        pos += c.length;
    }
    assert_eq!(pos, buf.len());
    assert_eq!(rebuilt, buf);
}

#[test]
fn chunking_is_deterministic() {
    let buf = sample_buffer(64 * 1024);
    let a = chunk_file(&buf);
    let b = chunk_file(&buf);
    assert_eq!(a, b);
}

#[test]
fn short_buffer_is_one_chunk() {
    let buf = sample_buffer(100);
    let chunks = chunk_file(&buf);
    assert_eq!(chunks.len(), 1);
    assert_eq!(chunks[0].offset, 0);
    assert_eq!(chunks[0].length, 100);
}

#[test]
fn compression_round_trips() {
    let buf = sample_buffer(10_000);
    let z = compress_object(&buf);
    let back = decompress_object(&z).unwrap();
    assert_eq!(back, buf);
}

#[test]
fn garbage_does_not_decompress() {
    assert!(decompress_object(b"not a compressed stream").is_none());
}

#[test]
fn manifest_encode_has_one_line_per_hash() {
    let h1 = b"aaaa000000000000000000000000000000000000".to_vec();
    let h2 = b"bbbb000000000000000000000000000000000000".to_vec();
    let m = encode_manifest(&vec![h1.clone(), h2.clone()]);
    let expected = b"blob aaaa000000000000000000000000000000000000\nblob bbbb000000000000000000000000000000000000\n".to_vec();
    assert_eq!(m, expected);
}

#[test]
fn manifest_decode_inverts_encode() {
    let hashes = vec![
        b"aaaa000000000000000000000000000000000000".to_vec(),
        b"bbbb000000000000000000000000000000000000".to_vec(),
        b"cccc000000000000000000000000000000000000".to_vec(),
    ];
    let m = encode_manifest(&hashes);
    let back = decode_manifest(&m).unwrap();
    assert_eq!(back, hashes);
}

#[test]
fn empty_manifest_decodes_to_empty_list() {
    assert_eq!(decode_manifest(b"").unwrap(), Vec::<Vec<u8>>::new());
    assert_eq!(decode_manifest(b"  \n\t\n").unwrap(), Vec::<Vec<u8>>::new());
}

#[test]
fn manifest_line_without_prefix_is_malformed() {
    let bad = b"blob aaaa000000000000000000000000000000000000\noops\n";
    assert!(matches!(
        decode_manifest(bad),
        Err(RepoError::MalformedManifest)
    ));
    assert!(matches!(
        decode_manifest(b"glob aaaa\n"),
        Err(RepoError::MalformedManifest)
    ));
}

#[test]
fn manifest_trailing_whitespace_is_trimmed() {
    let m = b"blob aaaa000000000000000000000000000000000000\n\n  \t";
    let back = decode_manifest(m).unwrap();
    assert_eq!(
        back,
        vec![b"aaaa000000000000000000000000000000000000".to_vec()]
    );
}
