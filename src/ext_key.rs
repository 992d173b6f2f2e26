//! Keys longer than a table's native key bound. A key shorter than the bound
//! is stored as it is. A longer key goes into the bucket named by its first
//! `MAX_KEY_LEN` bytes; the bucket's value encodes a table from the rest of
//! each key to its value. Direct keys are shorter than bucket keys, so the two
//! never meet, and keys that share a bucket differ in the rest.
use vstd::prelude::*;
use crate::codec::{pairs_encoding, encode_pairs, decode_pairs};
use crate::table::{Pair, Table, pairs_map, pairs_view, copy_bytes};

verus! {

/// The longest key that a table holds natively.
pub const MAX_KEY_LEN: usize = 511;

/// The pairs that bytes encode, if they encode any.
pub open spec fn decoded(b: Seq<u8>) -> Option<Seq<Pair>> {
    if exists|s: Seq<Pair>| pairs_encoding(s) == b {
        Some(choose|s: Seq<Pair>| pairs_encoding(s) == b)
    } else {
        None
    }
}

/// The key under which a long key's bucket is stored.
pub open spec fn bucket_key(k: Seq<u8>) -> Seq<u8> {
    k.subrange(0, MAX_KEY_LEN as int)
}

/// What a long key keeps inside its bucket.
pub open spec fn bucket_rest(k: Seq<u8>) -> Seq<u8> {
    k.subrange(MAX_KEY_LEN as int, k.len() as int)
}

/// Every bucket of a physical table holds an encoding of pairs.
pub open spec fn buckets_valid(phys: Map<Seq<u8>, Seq<u8>>) -> bool {
    forall|b: Seq<u8>| #[trigger] phys.contains_key(b) && b.len() == MAX_KEY_LEN ==> decoded(phys[b]) is Some
}

/// The value of the logical key `k` in the physical table `phys`.
pub open spec fn ext_lookup(phys: Map<Seq<u8>, Seq<u8>>, k: Seq<u8>) -> Option<Seq<u8>> {
    if k.len() < MAX_KEY_LEN {
        if phys.contains_key(k) {
            Some(phys[k])
        } else {
            None
        }
    } else if phys.contains_key(bucket_key(k)) && decoded(phys[bucket_key(k)]) is Some
        && pairs_map(decoded(phys[bucket_key(k)])->Some_0).contains_key(bucket_rest(k)) {
        Some(pairs_map(decoded(phys[bucket_key(k)])->Some_0)[bucket_rest(k)])
    } else {
        None
    }
}

/// The encoding of a table's entries. Decoding it once pins down which
/// pairs the encoding stands for.
pub(crate) fn encode_table(items: &Table) -> (r: Vec<u8>)
    ensures
        decoded(r@) == Some(items.pairs()),
{
    let pairs = items.to_pairs();
    let encoded = encode_pairs(&pairs);
    let back = decode_pairs(encoded.as_slice());
    proof {
        let s = pairs_view(pairs@);
        assert(pairs_encoding(s) == encoded@);
        let c = choose|c: Seq<Pair>| pairs_encoding(c) == encoded@;
        assert(pairs_encoding(c) == encoded@);
        assert(c == pairs_view(back->Some_0@));
    }
    encoded
}

/// The bytes of `a` from `lo` up to `hi`.
pub fn sub_bytes(a: &[u8], lo: usize, hi: usize) -> (r: Vec<u8>)
    requires
        lo <= hi <= a@.len(),
    ensures
        r@ == a@.subrange(lo as int, hi as int),
{
    let mut r: Vec<u8> = Vec::new();
    let mut i: usize = lo;
    while i < hi
        invariant
            lo <= i <= hi,
            hi <= a@.len(),
            r@ =~= a@.subrange(lo as int, i as int),
        decreases hi - i,
    {
        r.push(a[i]);
        i = i + 1;
    }
    r
}

/// Reads a bucket into a table.
pub(crate) fn read_bucket(bytes: &[u8]) -> (r: Option<Table>)
    ensures
        decoded(bytes@) is Some ==> r is Some && r->Some_0.wf() && r->Some_0@ == pairs_map(
            decoded(bytes@)->Some_0,
        ),
        r is Some ==> r->Some_0.wf(),
{
    match decode_pairs(bytes) {
        Some(pairs) => {
            let t = Table::from_pairs(&pairs);
            proof {
                if decoded(bytes@) is Some {
                    let s = choose|s: Seq<Pair>| pairs_encoding(s) == bytes@;
                    assert(pairs_encoding(s) == bytes@);
                    assert(pairs_view(pairs@) == s);
                }
            }
            Some(t)
        },
        None => None,
    }
}

/// The value of `key`, as if the table had no bound on keys.
pub fn get(phys: &Table, key: &[u8]) -> (r: Option<Vec<u8>>)
    requires
        phys.wf(),
        buckets_valid(phys@),
    ensures
        r is Some <==> ext_lookup(phys@, key@) is Some,
        r is Some ==> r->Some_0@ == ext_lookup(phys@, key@)->Some_0,
{
    if key.len() < MAX_KEY_LEN {
        return phys.get(key);
    }
    let bucket = sub_bytes(key, 0, MAX_KEY_LEN);
    let rest = sub_bytes(key, MAX_KEY_LEN, key.len());
    match phys.get(bucket.as_slice()) {
        None => None,
        Some(bytes) => {
            match read_bucket(bytes.as_slice()) {
                None => None,
                Some(t) => t.get(rest.as_slice()),
            }
        },
    }
}

/// Sets the value of `key`, as if the table had no bound on keys.
pub fn put(phys: &mut Table, key: &[u8], value: &[u8])
    requires
        old(phys).wf(),
        buckets_valid(old(phys)@),
    ensures
        final(phys).wf(),
        buckets_valid(final(phys)@),
        ext_lookup(final(phys)@, key@) == Some(value@),
        forall|k: Seq<u8>| k != key@ ==> ext_lookup(final(phys)@, k) == ext_lookup(old(phys)@, k),
{
    if key.len() < MAX_KEY_LEN {
        phys.put(key, value);
        proof {
            assert forall|k: Seq<u8>| k != key@ implies ext_lookup(phys@, k) == ext_lookup(old(phys)@, k) by {
                if k.len() >= MAX_KEY_LEN {
                    assert(bucket_key(k).len() == MAX_KEY_LEN);
                }
            }
            assert forall|b: Seq<u8>| #[trigger] phys@.contains_key(b) && b.len() == MAX_KEY_LEN
                implies decoded(phys@[b]) is Some by {
                assert(old(phys)@.contains_key(b));
            }
        }
        return;
    }
    let bucket = sub_bytes(key, 0, MAX_KEY_LEN);
    let rest = sub_bytes(key, MAX_KEY_LEN, key.len());
    let mut t = match phys.get(bucket.as_slice()) {
        None => Table::new(),
        Some(bytes) => {
            match read_bucket(bytes.as_slice()) {
                None => Table::new(),
                Some(t) => t,
            }
        },
    };
    let ghost before = t@;
    t.put(rest.as_slice(), value);
    let encoded = encode_table(&t);
    phys.put(bucket.as_slice(), encoded.as_slice());
    proof {
        t.lemma_view();
        let nt = pairs_map(decoded(encoded@)->Some_0);
        assert(nt == before.insert(rest@, value@));
        assert(bucket@ == bucket_key(key@));
        assert(rest@ == bucket_rest(key@));
        assert forall|k: Seq<u8>| k != key@ implies ext_lookup(phys@, k) == ext_lookup(old(phys)@, k) by {
            if k.len() >= MAX_KEY_LEN && bucket_key(k) == bucket@ {
                assert(k =~= bucket_key(k) + bucket_rest(k));
                assert(key@ =~= bucket_key(key@) + bucket_rest(key@));
                assert(bucket_rest(k) != rest@);
            }
        }
        assert forall|b: Seq<u8>| #[trigger] phys@.contains_key(b) && b.len() == MAX_KEY_LEN
            implies decoded(phys@[b]) is Some by {
            if b != bucket@ {
                assert(old(phys)@.contains_key(b));
            }
        }
    }
}

} // verus!
