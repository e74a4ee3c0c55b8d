use vstd::prelude::*;
use crate::bits::{lemma_pack_len, lemma_unpack_pack, pack, padding_of};
use crate::code::{encode_bits, lemma_walk_encode};
use crate::container::{
    container_bytes,
    decode_parts,
    lemma_container_round_trip,
    parse_container,
    Encoded,
};
use crate::error::HuffError;
use crate::rank::{
    count_frequencies,
    is_rank_order,
    lemma_rank_order,
    lemma_rank_order_distinct,
    rank_order,
};
use crate::tree::{lemma_serialized_round_trip, serialized, HuffmanTree};

verus! {

/// Every byte of `data` equals its first byte: at most one distinct symbol.
pub open spec fn single_symbol(data: Seq<u8>) -> bool {
    forall|i: int| 0 <= i < data.len() ==> (#[trigger] data[i]) == data[0]
}

/// The container that encodes `data` with the chain over `symbols`.
pub open spec fn encoding(symbols: Seq<u8>, data: Seq<u8>) -> Seq<u8> {
    let bits = encode_bits(symbols, data);
    container_bytes(padding_of(bits.len()), serialized(symbols), pack(bits))
}

/// What a container decodes to.
pub open spec fn decoding(buf: Seq<u8>) -> Result<Seq<u8>, HuffError> {
    match parse_container(buf) {
        Err(e) => Err(e),
        Ok((padding, tree, bytes)) => decode_parts(padding, tree, bytes),
    }
}

/// A non-empty buffer has a single ranked symbol exactly when all its bytes are equal.
pub proof fn lemma_rank_order_len(data: Seq<u8>, r: Seq<u8>)
    requires
        data.len() > 0,
        is_rank_order(data, r),
    ensures
        r.len() >= 1,
        r.len() < 2 <==> single_symbol(data),
{
    assert(data.contains(data[0]));
    assert(r.contains(data[0]));
    lemma_rank_order_distinct(data, r);
    if single_symbol(data) && r.len() >= 2 {
        assert(r.contains(r[0]) && r.contains(r[1]));
        let i = choose|i: int| 0 <= i < data.len() && data[i] == r[0];
        let j = choose|j: int| 0 <= j < data.len() && data[j] == r[1];
        assert(false);
    }
    if r.len() < 2 {
        assert forall|i: int| 0 <= i < data.len() implies (#[trigger] data[i]) == data[0] by {
            assert(data.contains(data[i]));
            assert(r.contains(data[i]));
        }
    }
}

/// Decoding inverts encoding: the container that encodes `data` decodes to
/// `data`, for every non-empty buffer with at least two and fewer than 256
/// distinct byte values. (With all 256 byte values the count byte of the
/// container wraps to zero and no longer says how many symbols follow.)
pub proof fn lemma_round_trip(data: Seq<u8>)
    requires
        data.len() > 0,
        !single_symbol(data),
        rank_order(data).len() < 256,
    ensures
        decoding(encoding(rank_order(data), data)) == Ok::<Seq<u8>, HuffError>(data),
{
    let r = rank_order(data);
    lemma_rank_order(data);
    lemma_rank_order_len(data, r);
    let bits = encode_bits(r, data);
    let padding = padding_of(bits.len());
    let tree = serialized(r);
    let packed = pack(bits);
    lemma_serialized_round_trip(r);
    lemma_container_round_trip(padding, tree, packed);
    lemma_pack_len(bits);
    lemma_unpack_pack(bits);
    lemma_rank_order_distinct(data, r);
    assert forall|i: int| 0 <= i < data.len() implies r.contains(#[trigger] data[i]) by {
        assert(data.contains(data[i]));
    }
    lemma_walk_encode(r, data);
}

/// Compresses a buffer: ranks its bytes, codes each byte along the chain over
/// the rank order, and lays the result out as a container. A buffer with
/// fewer than two distinct byte values is rejected.
pub fn encode(data: &[u8]) -> (res: Result<Vec<u8>, HuffError>)
    ensures
        match res {
            Ok(out) => {
                &&& data@.len() > 0
                &&& !single_symbol(data@)
                &&& out@ == encoding(rank_order(data@), data@)
            },
            Err(e) => if data@.len() == 0 {
                e == HuffError::EmptyInput
            } else {
                single_symbol(data@) && e == HuffError::InsufficientSymbols
            },
        },
{
    let sorted = match count_frequencies(data) {
        Ok(sorted) => sorted,
        Err(e) => {
            return Err(e);
        },
    };
    proof {
        lemma_rank_order_len(data@, sorted@);
    }
    let tree = match HuffmanTree::from_sorted(sorted.as_slice()) {
        Ok(tree) => tree,
        Err(e) => {
            return Err(e);
        },
    };
    proof {
        assert forall|i: int| 0 <= i < data@.len() implies tree@.contains(#[trigger] data@[i]) by {
            assert(data@.contains(data@[i]));
        }
    }
    match tree.encode(data) {
        Ok(encoded) => Ok(encoded.to_bytes()),
        Err(e) => Err(e),
    }
}

/// Decompresses a container.
pub fn decode(data: &[u8]) -> (res: Result<Vec<u8>, HuffError>)
    ensures
        match res {
            Ok(out) => decoding(data@) == Ok::<Seq<u8>, HuffError>(out@),
            Err(e) => decoding(data@) == Err::<Seq<u8>, HuffError>(e),
        },
{
    match Encoded::from_bytes(data) {
        Ok(encoded) => encoded.decode(),
        Err(e) => Err(e),
    }
}

} // verus!
