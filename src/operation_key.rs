use vstd::prelude::*;

verus! {

/// The 16 bytes of a 128-bit value, most significant first.
pub open spec fn be_bytes(v: u128) -> Seq<u8> {
    seq![
        (v >> 120u128) as u8, (v >> 112u128) as u8, (v >> 104u128) as u8, (v >> 96u128) as u8,
        (v >> 88u128) as u8, (v >> 80u128) as u8, (v >> 72u128) as u8, (v >> 64u128) as u8,
        (v >> 56u128) as u8, (v >> 48u128) as u8, (v >> 40u128) as u8, (v >> 32u128) as u8,
        (v >> 24u128) as u8, (v >> 16u128) as u8, (v >> 8u128) as u8, v as u8,
    ]
}

/// The version nibble of a UUID held as a big-endian 128-bit value.
pub open spec fn uuid_version(v: u128) -> u128 {
    (v >> 76u128) & 0xfu128
}

/// Relies on uuid::Uuid::new_v4: a random UUID whose version nibble is set to 4.
#[verifier::external_body]
fn random_uuid_v4() -> (r: u128)
    ensures
        uuid_version(r) == 4,
{
    uuid::Uuid::new_v4().as_u128()
}

/// Relies on uuid::Uuid::from_u128: the UUID's bytes are the value in big-endian order.
#[verifier::external_body]
fn uuid_to_bytes(v: u128) -> (r: Vec<u8>)
    ensures
        r@ == be_bytes(v),
{
    uuid::Uuid::from_u128(v).as_bytes().to_vec()
}

/// Relies on uuid::Uuid::from_slice: it accepts exactly 16 bytes, read in big-endian order.
#[verifier::external_body]
fn uuid_from_slice(b: &[u8]) -> (r: Option<u128>)
    ensures
        r.is_some() == (b@.len() == 16),
        r matches Some(v) ==> be_bytes(v) == b@,
{
    uuid::Uuid::from_slice(b).ok().map(|u| u.as_u128())
}

/// The key that correlates the entries written by one logical multi-backend
/// operation. The all-zero value is the sentinel "no correlation".
#[derive(Clone, Copy, Debug, PartialEq, Eq, Hash, Structural)]
pub struct OperationKey(pub u128);

/// Why a stored correlation key could not be read back.
#[derive(Clone, Copy, Debug, PartialEq, Eq, Structural)]
pub enum OperationKeyError {
    /// The stored value is not 16 bytes long.
    WrongLength,
}

impl OperationKey {
    pub open spec fn is_null_spec(&self) -> bool {
        self.0 == 0
    }

    /// A fresh random (version 4) UUID; it is never the sentinel.
    pub fn gen() -> (r: OperationKey)
        ensures
            uuid_version(r.0) == 4,
            !r.is_null_spec(),
    {
        let v = random_uuid_v4();
        proof {
            lemma_versioned_nonzero(v);
        }
        OperationKey(v)
    }

    /// The sentinel key, carried by entries that belong to no operation.
    pub fn null() -> (r: OperationKey)
        ensures
            r.is_null_spec(),
    {
        OperationKey(0)
    }

    pub fn is_null(&self) -> (r: bool)
        ensures
            r == self.is_null_spec(),
    {
        self.0 == 0
    }

    /// The 16-byte storage encoding.
    pub fn to_bytes(&self) -> (r: Vec<u8>)
        ensures
            r@ == be_bytes(self.0),
            r@.len() == 16,
    {
        uuid_to_bytes(self.0)
    }

    /// Reads a key back from its storage encoding.
    pub fn from_bytes(b: &[u8]) -> (r: Result<OperationKey, OperationKeyError>)
        ensures
            r is Ok <==> b@.len() == 16,
            r matches Ok(k) ==> be_bytes(k.0) == b@,
            r matches Err(e) ==> e == OperationKeyError::WrongLength,
    {
        match uuid_from_slice(b) {
            Some(v) => Ok(OperationKey(v)),
            None => Err(OperationKeyError::WrongLength),
        }
    }
}

proof fn lemma_versioned_nonzero(v: u128)
    requires
        uuid_version(v) == 4,
    ensures
        v != 0,
{
    assert(((v >> 76u128) & 0xfu128) == 4 ==> v != 0) by (bit_vector);
}

/// Two values with the same 16-byte encoding are equal.
pub proof fn lemma_be_bytes_injective(a: u128, b: u128)
    requires
        be_bytes(a) == be_bytes(b),
    ensures
        a == b,
{
    let (x, y) = (be_bytes(a), be_bytes(b));
    assert(x[0] == y[0] && x[1] == y[1] && x[2] == y[2] && x[3] == y[3]);
    assert(x[4] == y[4] && x[5] == y[5] && x[6] == y[6] && x[7] == y[7]);
    assert(x[8] == y[8] && x[9] == y[9] && x[10] == y[10] && x[11] == y[11]);
    assert(x[12] == y[12] && x[13] == y[13] && x[14] == y[14] && x[15] == y[15]);
    assert(a == b) by (bit_vector)
        requires
            (a >> 120u128) as u8 == (b >> 120u128) as u8,
            (a >> 112u128) as u8 == (b >> 112u128) as u8,
            (a >> 104u128) as u8 == (b >> 104u128) as u8,
            (a >> 96u128) as u8 == (b >> 96u128) as u8,
            (a >> 88u128) as u8 == (b >> 88u128) as u8,
            (a >> 80u128) as u8 == (b >> 80u128) as u8,
            (a >> 72u128) as u8 == (b >> 72u128) as u8,
            (a >> 64u128) as u8 == (b >> 64u128) as u8,
            (a >> 56u128) as u8 == (b >> 56u128) as u8,
            (a >> 48u128) as u8 == (b >> 48u128) as u8,
            (a >> 40u128) as u8 == (b >> 40u128) as u8,
            (a >> 32u128) as u8 == (b >> 32u128) as u8,
            (a >> 24u128) as u8 == (b >> 24u128) as u8,
            (a >> 16u128) as u8 == (b >> 16u128) as u8,
            (a >> 8u128) as u8 == (b >> 8u128) as u8,
            a as u8 == b as u8,
    ;
}

/// Decoding the storage encoding of a key gives back the same key.
pub proof fn lemma_encoding_round_trip(k: OperationKey, bytes: Seq<u8>, back: OperationKey)
    requires
        bytes == be_bytes(k.0),
        be_bytes(back.0) == bytes,
    ensures
        back == k,
{
    lemma_be_bytes_injective(back.0, k.0);
}

} // verus!
