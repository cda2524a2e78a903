use gitpow::hasher::{digest, make_object_header, object_digest, PrefixCache};

fn hex(bytes: &[u8]) -> String {
    let mut out = String::new();
    for b in bytes {
        out.push_str(&format!("{:02x}", b));
    }
    out
}

const PLAIN: &[u8] = b"tree 4b825dc642cb6eb9a060e54bf8d69288fbee4904\nauthor A U Thor <author@example.com> 1600000000 +0000\ncommitter A U Thor <author@example.com> 1600000000 +0000\n\nInitial commit\n";

#[test]
fn digest_matches_known_sha1_values() {
    assert_eq!(hex(&digest(b"abc")), "a9993e364706816aba3e25717850c26c9cd0d89d");
    assert_eq!(hex(&digest(b"")), "da39a3ee5e6b4b0d3255bfef95601890afd80709");
}

#[test]
fn object_header_names_kind_and_length() {
    assert_eq!(make_object_header(0), b"commit 0\0");
    assert_eq!(make_object_header(7), b"commit 7\0");
    assert_eq!(make_object_header(212), b"commit 212\0");
    assert_eq!(make_object_header(1_000_000), b"commit 1000000\0");
}

#[test]
fn object_digest_is_the_git_identifier() {
    assert_eq!(hex(&object_digest(PLAIN)), "6d6aa43ce6819ad60b4d11ebc833af8ebf9e28af");
    assert_eq!(hex(&object_digest(b"")), "dcf5b16e76cce7425d0beaef62d79a7d10fce1f5");
}

#[test]
fn object_digest_hashes_header_then_record() {
    let mut framed = make_object_header(PLAIN.len());
    framed.extend_from_slice(PLAIN);
    assert_eq!(object_digest(PLAIN), digest(&framed));
}

#[test]
fn object_digest_agrees_with_the_object_store() {
    for data in [PLAIN, b"".as_slice(), b"tree 0\n\nmessage".as_slice()] {
        let oid = git2::Oid::hash_object(git2::ObjectType::Commit, data).unwrap();
        assert_eq!(oid.as_bytes(), object_digest(data).as_slice());
    }
}

#[test]
fn cached_prefix_gives_the_digest_of_one_pass() {
    let data = b"The quick brown fox jumps over the lazy dog";
    for cut in [0usize, 1, 10, 42, 43] {
        let cache = PrefixCache::new(&data[..cut]);
        assert_eq!(cache.digest_with(&data[cut..]), digest(data));
    }
    assert_eq!(hex(&digest(data)), "2fd4e1c67a2d28fced849ee1bb76e7391b93eb12");
}

#[test]
fn cache_serves_many_suffixes() {
    let cache = PrefixCache::new(b"prefix-");
    let first = cache.digest_with(b"one");
    let second = cache.digest_with(b"two");
    assert_eq!(first, digest(b"prefix-one"));
    assert_eq!(second, digest(b"prefix-two"));
    assert_eq!(cache.digest_with(b"one"), first);
    assert_ne!(first, second);
}
