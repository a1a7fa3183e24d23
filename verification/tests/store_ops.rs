use blobular::error::RepoError;
use blobular::store::{full_hash_from_prefix, shard_parts, Repo};

fn sample_buffer(len: usize) -> Vec<u8> {
    let mut v = Vec::with_capacity(len);
    for i in 0..len {
        v.push(((i * 7 + (i >> 3)) % 256) as u8);
    }
    v
}

#[test]
fn add_rejects_empty_file() {
    let mut repo = Repo::new();
    let r = repo.add(&[]);
    assert!(matches!(r, Err(RepoError::EmptyFile)));
    assert_eq!(repo.object_count(), 0);
}

#[test]
fn add_one_byte_file_succeeds() {
    let mut repo = Repo::new();
    let h = repo.add(b"x").unwrap();
    assert_eq!(h.len(), 40);
    assert_eq!(h, b"11f6ad8ec52a2984abaafd7c3b516503785c2072".to_vec());
}

#[test]
fn single_chunk_file_collapses_to_its_chunk() {
    // A file that fits in one chunk has the same hash as its only chunk, so
    // the manifest write is a dedup no-op: the raw bytes sit under the file
    // hash.  cat_blob returns them; cat_file cannot decode them.
    let mut repo = Repo::new();
    let h = repo.add(b"x").unwrap();
    assert_eq!(repo.object_count(), 1);
    assert_eq!(repo.cat_blob(&h).unwrap(), b"x".to_vec());
    assert!(matches!(repo.cat_file(&h), Err(RepoError::MalformedManifest)));
}

#[test]
fn round_trip_200k() {
    let buf = sample_buffer(200 * 1024);
    let mut repo = Repo::new();
    let h = repo.add(&buf).unwrap();
    assert_eq!(h, b"05244a811a00d5151ab59eb36d9dae9528632452".to_vec());
    let out = repo.cat_file(&h).unwrap();
    assert_eq!(out, buf);
}

#[test]
fn re_add_returns_same_hash_and_stores_nothing() {
    let buf = sample_buffer(200 * 1024);
    let mut repo = Repo::new();
    let h1 = repo.add(&buf).unwrap();
    let count = repo.object_count();
    let h2 = repo.add(&buf).unwrap();
    assert_eq!(h1, h2);
    assert_eq!(repo.object_count(), count);
}

#[test]
fn add_hash_is_independent_of_store_contents() {
    let buf = sample_buffer(30 * 1024);
    let mut fresh = Repo::new();
    let mut busy = Repo::new();
    busy.add(&sample_buffer(50 * 1024)).unwrap();
    let h1 = fresh.add(&buf).unwrap();
    let h2 = busy.add(&buf).unwrap();
    assert_eq!(h1, h2);
}

#[test]
fn put_existing_hash_is_a_no_op() {
    let mut repo = Repo::new();
    let h = b"aaaa000000000000000000000000000000000000";
    assert!(!repo.contains(h));
    repo.put(h, b"first");
    assert!(repo.contains(h));
    repo.put(h, b"second");
    assert_eq!(repo.object_count(), 1);
    assert_eq!(repo.cat_blob(h).unwrap(), b"first".to_vec());
}

#[test]
fn get_missing_object_fails() {
    let repo = Repo::new();
    let r = repo.get(b"aaaa000000000000000000000000000000000000");
    assert!(matches!(r, Err(RepoError::ObjectNotFound)));
}

#[test]
fn cat_blob_short_argument_rejected_before_any_lookup() {
    let repo = Repo::new();
    let r = repo.cat_blob(b"abc");
    assert!(matches!(r, Err(RepoError::InvalidPrefix)));
}

#[test]
fn prefix_resolves_unique_match() {
    let mut repo = Repo::new();
    let h1 = b"aabbcc0000000000000000000000000000000000";
    let h2 = b"ddeeff0000000000000000000000000000000000";
    repo.put(h1, b"one");
    repo.put(h2, b"two");
    assert_eq!(repo.resolve(b"aabb").unwrap(), h1.to_vec());
    assert_eq!(repo.cat_blob(b"ddeeff00").unwrap(), b"two".to_vec());
}

#[test]
fn prefix_with_no_match_is_not_found() {
    let mut repo = Repo::new();
    repo.put(b"aabbcc0000000000000000000000000000000000", b"one");
    assert!(matches!(repo.resolve(b"bbcc"), Err(RepoError::ObjectNotFound)));
}

#[test]
fn ambiguous_prefix_lists_all_candidates() {
    let mut repo = Repo::new();
    let h1 = b"aabbcc1100000000000000000000000000000000";
    let h2 = b"aabbcc2200000000000000000000000000000000";
    repo.put(h1, b"one");
    repo.put(h2, b"two");
    match repo.resolve(b"aabbcc") {
        Err(RepoError::AmbiguousHash(cands)) => {
            assert_eq!(cands, vec![h1.to_vec(), h2.to_vec()]);
        }
        other => panic!("expected an ambiguous result, got {:?}", other),
    }
}

#[test]
fn full_length_argument_is_returned_unexamined() {
    let repo = Repo::new();
    let h = b"0123456789abcdef0123456789abcdef01234567";
    assert_eq!(repo.resolve(h).unwrap(), h.to_vec());
    // The object does not exist, so retrieval still fails afterwards.
    assert!(matches!(repo.cat_blob(h), Err(RepoError::ObjectNotFound)));
}

#[test]
fn free_resolver_checks_length_first() {
    let hashes: Vec<Vec<u8>> = vec![b"aabbcc0000000000000000000000000000000000".to_vec()];
    assert!(matches!(
        full_hash_from_prefix(b"abc", &hashes),
        Err(RepoError::InvalidPrefix)
    ));
    assert_eq!(
        full_hash_from_prefix(b"aabbcc00", &hashes).unwrap(),
        hashes[0].clone()
    );
}

#[test]
fn manifest_referencing_missing_chunk_fails() {
    let mut repo = Repo::new();
    let h = b"aaaa000000000000000000000000000000000000";
    repo.put(h, b"blob bbbb000000000000000000000000000000000000\n");
    assert!(matches!(repo.cat_file(h), Err(RepoError::ObjectNotFound)));
}

#[test]
fn non_manifest_payload_fails_cat_file() {
    let mut repo = Repo::new();
    let h = b"aaaa000000000000000000000000000000000000";
    repo.put(h, b"just some bytes");
    assert!(matches!(repo.cat_file(h), Err(RepoError::MalformedManifest)));
}

#[test]
fn cat_file_reconstructs_through_manifest() {
    let mut repo = Repo::new();
    let c1 = b"aaaa000000000000000000000000000000000000";
    let c2 = b"bbbb000000000000000000000000000000000000";
    let m = b"cccc000000000000000000000000000000000000";
    repo.put(c1, b"hello ");
    repo.put(c2, b"world");
    repo.put(
        m,
        b"blob aaaa000000000000000000000000000000000000\nblob bbbb000000000000000000000000000000000000\n",
    );
    assert_eq!(repo.cat_file(m).unwrap(), b"hello world".to_vec());
}

#[test]
fn shard_parts_splits_two_and_thirtyeight() {
    let h = b"0123456789abcdef0123456789abcdef01234567";
    let (d, f) = shard_parts(h);
    assert_eq!(d, b"01".to_vec());
    assert_eq!(f, b"23456789abcdef0123456789abcdef01234567".to_vec());
}
