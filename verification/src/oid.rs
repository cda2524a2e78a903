//! The identifier of a commit as the object store knows it.

use crate::error::MineError;
use vstd::prelude::*;

verus! {

/// `git2::Oid`, the object id of the store. Nothing inside it is seen here.
#[verifier::external_type_specification]
#[verifier::external_body]
pub struct ExOid(git2::Oid);

/// `git2::Error`, what the store reports when it refuses. Nothing inside it is seen
/// here.
#[verifier::external_type_specification]
#[verifier::external_body]
pub struct ExStoreError(git2::Error);

/// The 20 bytes of an object id, as `git2::Oid::as_bytes` hands them out.
pub uninterp spec fn oid_bytes(id: git2::Oid) -> Seq<u8>;

/// `git2::Oid::from_bytes`: the object id that holds the given bytes. The call
/// succeeds on 20 bytes, which it copies into the id, and fails on any other number.
#[verifier::external_body]
fn oid_from_bytes(bytes: &[u8]) -> (made: Result<git2::Oid, git2::Error>)
    ensures
        made is Ok <==> bytes@.len() == 20,
        made matches Ok(id) ==> oid_bytes(id) == bytes@,
{
    git2::Oid::from_bytes(bytes)
}

/// What the session makes of the store's answer: the object id, or an
/// `ObjectStoreFailure` in place of the store's own error.
pub fn accept_oid(made: Result<git2::Oid, git2::Error>) -> (id: Result<git2::Oid, MineError>)
    ensures
        match made {
            Ok(found) => id == Ok::<git2::Oid, MineError>(found),
            Err(_) => id == Err::<git2::Oid, MineError>(MineError::ObjectStoreFailure),
        },
{
    match made {
        Ok(found) => Ok(found),
        Err(_) => Err(MineError::ObjectStoreFailure),
    }
}

/// The object id for a digest: the id that holds the 20 bytes of the digest.
pub fn object_oid(digest: &[u8; 20]) -> (id: Result<git2::Oid, MineError>)
    ensures
        id matches Ok(found) && oid_bytes(found) == digest@,
{
    accept_oid(oid_from_bytes(digest.as_slice()))
}

} // verus!
