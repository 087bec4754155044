//! 128-bit identities and their 16-byte form inside keys.

use crate::bytes::{be_bytes, be_value, lemma_be_bytes_len};
use crate::error::{ErrorKind, WHError};
use vstd::prelude::*;

verus! {

/// The identity with all bits clear.
pub const UUID_NIL: u128 = 0;

/// The identity with all bits set.
pub const UUID_MAX: u128 = 0xffff_ffff_ffff_ffff_ffff_ffff_ffff_ffff;

#[verifier::external_type_specification]
#[verifier::external_body]
pub struct ExUuidError(uuid::Error);

/// `uuid::Uuid::from_u128` followed by `Uuid::into_bytes`: the sixteen bytes
/// of the identity, most significant first.
#[verifier::external_body]
fn uuid_bytes(id: u128) -> (r: [u8; 16])
    ensures
        r@ == be_bytes(id as nat, 16),
{
    uuid::Uuid::from_u128(id).into_bytes()
}

/// `uuid::Uuid::from_slice` followed by `Uuid::as_u128`: fails unless exactly
/// sixteen bytes are given, and otherwise reads them most significant first.
#[verifier::external_body]
fn uuid_from_slice(b: &Vec<u8>) -> (r: Result<u128, uuid::Error>)
    ensures
        r is Ok <==> b@.len() == 16,
        r matches Ok(v) ==> v as nat == be_value(b@),
{
    match uuid::Uuid::from_slice(b.as_slice()) {
        Ok(u) => Ok(u.as_u128()),
        Err(e) => Err(e),
    }
}

/// Appends the sixteen bytes of `id`.
pub fn push_id(buf: &mut Vec<u8>, id: u128)
    ensures
        final(buf)@ == old(buf)@ + be_bytes(id as nat, 16),
{
    let b: [u8; 16] = uuid_bytes(id);
    let mut i: usize = 0;
    proof {
        lemma_be_bytes_len(id as nat, 16);
    }
    while i < 16
        invariant
            i <= 16,
            b@ == be_bytes(id as nat, 16),
            b@.len() == 16,
            buf@ == old(buf)@ + b@.subrange(0, i as int),
        decreases 16 - i,
    {
        buf.push(b[i]);
        assert(buf@ =~= old(buf)@ + b@.subrange(0, i + 1));
        i = i + 1;
    }
    assert(b@.subrange(0, 16) =~= b@);
}

/// Reads the identity held in bytes `off .. off + 16` of `buf`.
pub fn read_id(buf: &Vec<u8>, off: usize) -> (r: Result<u128, WHError>)
    ensures
        r is Ok <==> off + 16 <= buf@.len(),
        r matches Ok(v) ==> v as nat == be_value(buf@.subrange(off as int, off + 16)),
        r matches Err(e) ==> e.kind == ErrorKind::Corrupt,
{
    let total: usize = buf.len();
    if total < 16 || off > total - 16 {
        return Err(WHError::new(ErrorKind::Corrupt, "key too short for an identity"));
    }
    let mut part: Vec<u8> = Vec::new();
    let mut i: usize = 0;
    while i < 16
        invariant
            i <= 16,
            off + 16 <= total,
            total == buf@.len(),
            part@ == buf@.subrange(off as int, off + i),
        decreases 16 - i,
    {
        part.push(buf[off + i]);
        assert(part@ =~= buf@.subrange(off as int, off + i + 1));
        i = i + 1;
    }
    match uuid_from_slice(&part) {
        Ok(v) => Ok(v),
        Err(_) => Err(WHError::new(ErrorKind::Corrupt, "key too short for an identity")),
    }
}

} // verus!
