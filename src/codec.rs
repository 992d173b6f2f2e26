//! The binary encoding of stored values, made by bincode.
use vstd::prelude::*;
use crate::table::{Pair, pairs_view};

verus! {

/// The bytes that bincode makes of a sequence of pairs of byte strings.
pub uninterp spec fn pairs_encoding(s: Seq<Pair>) -> Seq<u8>;

/// The bytes that bincode makes of a sequence of byte strings.
pub uninterp spec fn list_encoding(s: Seq<Seq<u8>>) -> Seq<u8>;

/// The sequence of byte strings that bincode reads from bytes, if it reads one.
pub uninterp spec fn list_decoding(b: Seq<u8>) -> Option<Seq<Seq<u8>>>;

/// The values of a vector of byte vectors.
pub open spec fn list_view(v: Seq<Vec<u8>>) -> Seq<Seq<u8>> {
    v.map_values(|b: Vec<u8>| b@)
}

/// Relies on bincode::serialize: the encoding of the pairs. With the default
/// options there is no size limit, and a vector always has a length, so this
/// serialization does not fail.
#[verifier::external_body]
pub(crate) fn encode_pairs(v: &Vec<(Vec<u8>, Vec<u8>)>) -> (r: Vec<u8>)
    ensures
        r@ == pairs_encoding(pairs_view(v@)),
{
    bincode::serialize(v).unwrap_or_default()
}

/// Relies on bincode::deserialize: the encoding of pairs decodes to those pairs.
#[verifier::external_body]
pub(crate) fn decode_pairs(b: &[u8]) -> (r: Option<Vec<(Vec<u8>, Vec<u8>)>>)
    ensures
        forall|s: Seq<Pair>| #[trigger] pairs_encoding(s) == b@ ==> r is Some && pairs_view(r->Some_0@) == s,
{
    bincode::deserialize::<Vec<(Vec<u8>, Vec<u8>)>>(b).ok()
}

/// Relies on bincode::serialize: the encoding of the list. With the default
/// options there is no size limit, and a vector always has a length, so this
/// serialization does not fail.
#[verifier::external_body]
pub(crate) fn encode_list(v: &Vec<Vec<u8>>) -> (r: Vec<u8>)
    ensures
        r@ == list_encoding(list_view(v@)),
{
    bincode::serialize(v).unwrap_or_default()
}

/// Relies on bincode::deserialize: what it reads from the bytes, and that the
/// encoding of a list decodes to that list.
#[verifier::external_body]
pub(crate) fn decode_list(b: &[u8]) -> (r: Option<Vec<Vec<u8>>>)
    ensures
        r is Some <==> list_decoding(b@) is Some,
        r is Some ==> list_view(r->Some_0@) == list_decoding(b@)->Some_0,
        forall|s: Seq<Seq<u8>>| #[trigger] list_encoding(s) == b@ ==> r is Some && list_view(r->Some_0@) == s,
{
    bincode::deserialize::<Vec<Vec<u8>>>(b).ok()
}

} // verus!
