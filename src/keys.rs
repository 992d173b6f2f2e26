//! Fixed-width integer keys: a `u32` as four big-endian bytes, so that the
//! byte order of keys is their numeric order.
use vstd::prelude::*;

verus! {

/// The four big-endian bytes of `v`.
pub open spec fn be_bytes(v: u32) -> Seq<u8> {
    seq![(v >> 24u32) as u8, (v >> 16u32) as u8, (v >> 8u32) as u8, v as u8]
}

/// The number that four big-endian bytes stand for.
pub open spec fn be_value(b: Seq<u8>) -> u32
    recommends
        b.len() == 4,
{
    ((b[0] as u32) << 24u32) | ((b[1] as u32) << 16u32) | ((b[2] as u32) << 8u32) | (b[3] as u32)
}

/// Reading back the bytes of a number gives the number.
pub proof fn lemma_be_round_trip(v: u32)
    ensures
        be_value(be_bytes(v)) == v,
        be_bytes(v).len() == 4,
{
    let b0 = (v >> 24u32) as u8;
    let b1 = (v >> 16u32) as u8;
    let b2 = (v >> 8u32) as u8;
    let b3 = v as u8;
    assert(((b0 as u32) << 24u32) | ((b1 as u32) << 16u32) | ((b2 as u32) << 8u32) | (b3 as u32)
        == v) by (bit_vector)
        requires
            b0 == (v >> 24u32) as u8,
            b1 == (v >> 16u32) as u8,
            b2 == (v >> 8u32) as u8,
            b3 == v as u8,
    ;
}

/// Two numbers with the same bytes are equal.
pub proof fn lemma_be_injective(a: u32, b: u32)
    ensures
        be_bytes(a) == be_bytes(b) ==> a == b,
{
    lemma_be_round_trip(a);
    lemma_be_round_trip(b);
}

/// A table key made of a `u32`.
pub struct IntKey {
    bytes: Vec<u8>,
}

impl View for IntKey {
    type V = Seq<u8>;

    closed spec fn view(&self) -> Seq<u8> {
        self.bytes@
    }
}

impl IntKey {
    /// The key of `value`: its four big-endian bytes.
    pub fn new(value: u32) -> (r: IntKey)
        ensures
            r@ == be_bytes(value),
    {
        let r = IntKey {
            bytes: vec![(value >> 24u32) as u8, (value >> 16u32) as u8, (value >> 8u32) as u8, value as u8],
        };
        assert(r@ =~= be_bytes(value));
        r
    }

    /// The bytes of the key.
    pub fn as_bytes(&self) -> (r: &[u8])
        ensures
            r@ == self@,
    {
        self.bytes.as_slice()
    }

    /// The bytes of the key, as an owned vector.
    pub fn to_vec(&self) -> (r: Vec<u8>)
        ensures
            r@ == self@,
    {
        self.bytes.clone()
    }
}

/// Why bytes could not be read as a `u32`.
#[derive(Debug, Clone, Copy, PartialEq, Eq, Structural)]
pub enum KeyError {
    /// The value does not hold exactly four bytes.
    WrongLength,
}

/// Reads a stored `u32`: four big-endian bytes, and nothing else.
pub fn as_u32(bytes: &[u8]) -> (r: Result<u32, KeyError>)
    ensures
        bytes@.len() == 4 <==> r is Ok,
        r is Ok ==> r->Ok_0 == be_value(bytes@),
        r is Err ==> r->Err_0 == KeyError::WrongLength,
{
    if bytes.len() != 4 {
        return Err(KeyError::WrongLength);
    }
    let n = ((bytes[0] as u32) << 24u32) | ((bytes[1] as u32) << 16u32) | ((bytes[2] as u32) << 8u32)
        | (bytes[3] as u32);
    Ok(n)
}

} // verus!
