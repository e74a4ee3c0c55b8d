use vstd::prelude::*;
use crate::bits::{bit_at, pack, pack_bits, padding_of, test_bit, unpack};
use crate::code::{decode_bits, walk};
use crate::error::HuffError;
use crate::tree::{parse_tree, HuffmanTree, Node};

verus! {

/// The parts of a container: the serialized tree, the packed code words and
/// the number of filler bits at the end of the last packed byte.
#[derive(Debug)]
pub struct Encoded {
    /// The serialized tree: the count byte, then the symbols in rank order.
    pub tree: Vec<u8>,
    /// The packed code words, most significant bit first.
    pub bytes: Vec<u8>,
    /// The number of filler bits at the end of `bytes`.
    pub padding: u8,
}

/// The container layout: the padding byte, the serialized tree, the packed data.
pub open spec fn container_bytes(padding: u8, tree: Seq<u8>, data: Seq<u8>) -> Seq<u8> {
    seq![padding] + tree + data
}

/// The parts of a container: the padding is byte 0, the tree region starts at
/// byte 1 with its count and holds that many symbols after it, the packed
/// data is the rest. A buffer too short for its declared tree is malformed.
pub open spec fn parse_container(buf: Seq<u8>) -> Result<(u8, Seq<u8>, Seq<u8>), HuffError> {
    if buf.len() < 2 || 2 + buf[1] > buf.len() {
        Err(HuffError::MalformedContainer)
    } else {
        Ok((buf[0], buf.subrange(1, 2 + buf[1]), buf.subrange(2 + buf[1], buf.len() as int)))
    }
}

/// What the parts of a container decode to. The tree region is read first;
/// then the padding must not exceed the packed bits; then the bits before the
/// padding are walked along the chain.
pub open spec fn decode_parts(padding: u8, tree: Seq<u8>, bytes: Seq<u8>) -> Result<
    Seq<u8>,
    HuffError,
> {
    match parse_tree(tree) {
        Err(e) => Err(e),
        Ok(symbols) => if padding > 8 * bytes.len() {
            Err(HuffError::MalformedContainer)
        } else {
            decode_bits(symbols, unpack(bytes, (8 * bytes.len() - padding) as nat))
        },
    }
}

/// Splitting a container gives back the parts it was laid out from, provided
/// the tree part is as long as its count byte says.
pub proof fn lemma_container_round_trip(padding: u8, tree: Seq<u8>, data: Seq<u8>)
    requires
        tree.len() > 0,
        tree.len() == 1 + tree[0],
    ensures
        parse_container(container_bytes(padding, tree, data)) == Ok::<
            (u8, Seq<u8>, Seq<u8>),
            HuffError,
        >((padding, tree, data)),
{
    let buf = container_bytes(padding, tree, data);
    assert(buf[1] == tree[0]);
    assert(buf.subrange(1, 2 + buf[1]) =~= tree);
    assert(buf.subrange(2 + buf[1], buf.len() as int) =~= data);
}

impl Encoded {
    /// Packs `bits` and keeps them with the serialized tree they were coded with.
    pub fn from_bits(bits: &[bool], tree: Vec<u8>) -> (res: Encoded)
        ensures
            res.tree@ == tree@,
            res.bytes@ == pack(bits@),
            res.padding == padding_of(bits@.len()),
    {
        let rest: usize = bits.len() % 8;
        let padding: u8 = if rest == 0 {
            0
        } else {
            (8 - rest) as u8
        };
        let bytes = pack_bits(bits);
        Encoded { tree, bytes, padding }
    }

    /// The container: the padding byte, then the serialized tree, then the packed data.
    pub fn to_bytes(&self) -> (out: Vec<u8>)
        ensures
            out@ == container_bytes(self.padding, self.tree@, self.bytes@),
    {
        let mut out: Vec<u8> = Vec::new();
        out.push(self.padding);
        let mut i: usize = 0;
        while i < self.tree.len()
            invariant
                i <= self.tree@.len(),
                out@ == seq![self.padding] + self.tree@.take(i as int),
            decreases self.tree@.len() - i,
        {
            out.push(self.tree[i]);
            assert(out@ =~= seq![self.padding] + self.tree@.take(i + 1));
            i = i + 1;
        }
        assert(self.tree@.take(i as int) =~= self.tree@);
        let mut k: usize = 0;
        while k < self.bytes.len()
            invariant
                k <= self.bytes@.len(),
                out@ == seq![self.padding] + self.tree@ + self.bytes@.take(k as int),
            decreases self.bytes@.len() - k,
        {
            out.push(self.bytes[k]);
            assert(out@ =~= seq![self.padding] + self.tree@ + self.bytes@.take(k + 1));
            k = k + 1;
        }
        assert(self.bytes@.take(k as int) =~= self.bytes@);
        out
    }

    /// Splits a container into its parts.
    pub fn from_bytes(data: &[u8]) -> (res: Result<Encoded, HuffError>)
        ensures
            match res {
                Ok(e) => parse_container(data@) == Ok::<(u8, Seq<u8>, Seq<u8>), HuffError>(
                    (e.padding, e.tree@, e.bytes@),
                ),
                Err(err) => parse_container(data@) == Err::<(u8, Seq<u8>, Seq<u8>), HuffError>(err),
            },
    {
        if data.len() < 2 {
            return Err(HuffError::MalformedContainer);
        }
        let padding: u8 = data[0];
        let count: usize = data[1] as usize;
        if count > data.len() - 2 {
            return Err(HuffError::MalformedContainer);
        }
        let tree_end: usize = 2 + count;
        let tree = vstd::slice::slice_to_vec(vstd::slice::slice_subrange(data, 1, tree_end));
        let bytes = vstd::slice::slice_to_vec(vstd::slice::slice_subrange(data, tree_end, data.len()));
        Ok(Encoded { tree, bytes, padding })
    }

    /// Decodes the packed data: rebuilds the chain from the tree region and
    /// walks the bits before the padding along it.
    pub fn decode(&self) -> (res: Result<Vec<u8>, HuffError>)
        ensures
            match res {
                Ok(out) => decode_parts(self.padding, self.tree@, self.bytes@) == Ok::<
                    Seq<u8>,
                    HuffError,
                >(out@),
                Err(e) => decode_parts(self.padding, self.tree@, self.bytes@) == Err::<
                    Seq<u8>,
                    HuffError,
                >(e),
            },
    {
        let tree = match HuffmanTree::deserialize(self.tree.as_slice()) {
            Ok(tree) => tree,
            Err(e) => {
                return Err(e);
            },
        };
        let ghost s = tree@;
        let len: usize = self.bytes.len();
        let capacity: u128 = 8 * (len as u128);
        let padding: u128 = self.padding as u128;
        if padding > capacity {
            return Err(HuffError::MalformedContainer);
        }
        let total: u128 = capacity - padding;
        let mut out: Vec<u8> = Vec::new();
        let mut current: &HuffmanTree = &tree;
        let mut inside: bool = false;
        let ghost mut level: nat = 0;
        let mut i: u128 = 0;
        proof {
            tree.lemma_shape();
            assert(s.skip(0) =~= s);
        }
        while i < total
            invariant
                s == tree@,
                s.len() >= 2,
                len == self.bytes@.len(),
                total <= 8 * len,
                i <= total,
                level + 2 <= s.len(),
                current@ == s.skip(level as int),
                inside == (level != 0),
                (out@, level) == walk(s, unpack(self.bytes@, i as nat)),
            decreases total - i,
        {
            let byte: u8 = self.bytes[(i / 8) as usize];
            let bit = test_bit(byte, (i % 8) as u8);
            proof {
                let next = unpack(self.bytes@, (i + 1) as nat);
                assert(next.drop_last() =~= unpack(self.bytes@, i as nat));
                assert(next.last() == bit_at(self.bytes@, i as int));
                current.lemma_shape();
                assert(s.skip(level as int)[0] == s[level as int]);
                assert(s.skip(level as int)[1] == s[level as int + 1]);
            }
            if !bit {
                out.push(current.left);
                current = &tree;
                inside = false;
                proof {
                    level = 0;
                }
            } else {
                match &current.right {
                    Node::Leaf(b) => {
                        out.push(*b);
                        current = &tree;
                        inside = false;
                        proof {
                            level = 0;
                        }
                    },
                    Node::Tree(t) => {
                        proof {
                            t.lemma_shape();
                            assert(s.skip(level as int).skip(1) =~= s.skip(level as int + 1));
                            level = level + 1;
                        }
                        current = &**t;
                        inside = true;
                    },
                }
            }
            i = i + 1;
        }
        if inside {
            return Err(HuffError::TruncatedBitstream);
        }
        Ok(out)
    }
}

} // verus!
