use gitpow::error::MineError;
use gitpow::hasher::object_digest;
use gitpow::oid::{accept_oid, object_oid};

#[test]
fn object_id_holds_the_bytes_of_the_digest() {
    let digest = object_digest(b"tree 0\n\nmessage");
    let id = object_oid(&digest).unwrap();
    assert_eq!(id.as_bytes(), &digest);
    assert_eq!(id, git2::Oid::hash_object(git2::ObjectType::Commit, b"tree 0\n\nmessage").unwrap());
}

#[test]
fn object_id_prints_as_hex() {
    let mut digest = [0u8; 20];
    digest[0] = 0x00;
    digest[1] = 0x83;
    digest[19] = 0x43;
    let id = object_oid(&digest).unwrap();
    assert_eq!(id.to_string(), "0083000000000000000000000000000000000043");
}

#[test]
fn answer_of_the_store_is_handed_on() {
    let id = git2::Oid::from_bytes(&[7u8; 20]);
    assert_eq!(accept_oid(id), Ok(git2::Oid::from_bytes(&[7u8; 20]).unwrap()));
}

#[test]
fn refusal_of_the_store_is_an_object_store_failure() {
    let refused = git2::Oid::from_bytes(&[7u8; 19]);
    assert!(refused.is_err());
    assert_eq!(accept_oid(refused), Err(MineError::ObjectStoreFailure));
}
