use vstd::prelude::*;
use std::collections::HashMap;
use crate::bits::{pack, padding_of};
use crate::code::{code_of, codeword, encode_bits, last_index_of, lemma_last_index_of, ones};
use crate::container::Encoded;
use crate::error::HuffError;

verus! {

/// The right-hand side of one level of the chain.
#[derive(Debug)]
pub enum Node {
    /// The chain ends here with its last symbol.
    Leaf(u8),
    /// The chain goes on with the remaining symbols.
    Tree(Box<HuffmanTree>),
}

/// A chain-shaped prefix-code tree: every level holds one symbol on its left
/// and, on its right, either the last symbol or the rest of the chain.
#[derive(Debug)]
pub struct HuffmanTree {
    /// The symbol of this level, reached by a zero bit.
    pub left: u8,
    /// What a one bit leads to.
    pub right: Node,
}

/// The serialized form of a chain: the number of its symbols in one byte
/// (reduced modulo 256), then the symbols in rank order.
pub open spec fn serialized(symbols: Seq<u8>) -> Seq<u8> {
    seq![(symbols.len() % 256) as u8] + symbols
}

/// The symbols that a serialized tree declares: as many bytes as its first
/// byte says, taken from the bytes that follow it.
pub open spec fn parse_tree(bytes: Seq<u8>) -> Result<Seq<u8>, HuffError> {
    if bytes.len() == 0 || 1 + bytes[0] > bytes.len() {
        Err(HuffError::MalformedTree)
    } else if bytes[0] < 2 {
        Err(HuffError::InsufficientSymbols)
    } else {
        Ok(bytes.subrange(1, 1 + bytes[0]))
    }
}

/// Reading a serialized chain gives back its symbols, provided they are at
/// least two and their number fits the count byte.
pub proof fn lemma_serialized_round_trip(symbols: Seq<u8>)
    requires
        2 <= symbols.len() <= 255,
    ensures
        serialized(symbols).len() == 1 + serialized(symbols)[0],
        parse_tree(serialized(symbols)) == Ok::<Seq<u8>, HuffError>(symbols),
{
    let bytes = serialized(symbols);
    assert(bytes[0] == symbols.len());
    assert(bytes.subrange(1, 1 + bytes[0]) =~= symbols);
}

impl View for HuffmanTree {
    type V = Seq<u8>;

    /// The symbols of the chain from the root down: its rank order.
    open spec fn view(&self) -> Seq<u8> {
        self.symbols()
    }
}

/// Appends the bits of `code` to `bits`.
fn append_bits(bits: &mut Vec<bool>, code: &Vec<bool>)
    ensures
        final(bits)@ == old(bits)@ + code@,
{
    let ghost start = bits@;
    let mut i: usize = 0;
    while i < code.len()
        invariant
            i <= code@.len(),
            bits@ == start + code@.take(i as int),
        decreases code@.len() - i,
    {
        bits.push(code[i]);
        assert(bits@ =~= start + code@.take(i + 1));
        i = i + 1;
    }
    assert(code@.take(i as int) =~= code@);
}

impl HuffmanTree {
    /// The symbols of the chain from the root down.
    pub open spec fn symbols(&self) -> Seq<u8>
        decreases self,
    {
        seq![self.left] + match self.right {
            Node::Leaf(b) => seq![b],
            Node::Tree(t) => t.symbols(),
        }
    }

    /// A chain holds at least two symbols: the one on its left, then either
    /// its last symbol or the symbols of the rest of the chain.
    pub proof fn lemma_shape(&self)
        ensures
            self@.len() >= 2,
            self@[0] == self.left,
            match self.right {
                Node::Leaf(b) => self@ == seq![self.left, b],
                Node::Tree(t) => self@.skip(1) == t@ && self@ == seq![self.left] + t@,
            },
        decreases self,
    {
        match self.right {
            Node::Leaf(b) => {
                assert(self@ =~= seq![self.left, b]);
            },
            Node::Tree(t) => {
                t.lemma_shape();
                assert(self@.skip(1) =~= t@);
            },
        }
    }

    /// Two chains with the same symbols are the same tree.
    pub proof fn lemma_symbols_determine_tree(&self, other: &HuffmanTree)
        requires
            self@ == other@,
        ensures
            *self == *other,
        decreases self,
    {
        self.lemma_shape();
        other.lemma_shape();
        assert(self@[0] == other@[0]);
        match (self.right, other.right) {
            (Node::Leaf(a), Node::Leaf(b)) => {
                assert(self@[1] == a && other@[1] == b);
            },
            (Node::Tree(s), Node::Tree(t)) => {
                assert(s@ =~= self@.skip(1));
                assert(t@ =~= other@.skip(1));
                s.lemma_symbols_determine_tree(&*t);
            },
            (Node::Leaf(a), Node::Tree(t)) => {
                t.lemma_shape();
            },
            (Node::Tree(s), Node::Leaf(b)) => {
                s.lemma_shape();
            },
        }
    }

    /// Serializing a chain of at most 255 symbols and reading the bytes back
    /// gives a tree with the same symbol on every level: any tree with the
    /// symbols that are read back is this tree.
    pub proof fn lemma_tree_round_trip(&self, back: &HuffmanTree)
        requires
            self@.len() <= 255,
            parse_tree(serialized(self@)) == Ok::<Seq<u8>, HuffError>(back@),
        ensures
            *back == *self,
    {
        self.lemma_shape();
        lemma_serialized_round_trip(self@);
        self.lemma_symbols_determine_tree(back);
    }

    /// Builds the chain over a rank order: the first symbol on the left of the
    /// root, the last symbol as the leaf that ends the chain. Fewer than two
    /// symbols cannot form a chain.
    pub fn from_sorted(bytes: &[u8]) -> (res: Result<HuffmanTree, HuffError>)
        ensures
            match res {
                Ok(tree) => bytes@.len() >= 2 && tree@ == bytes@,
                Err(e) => bytes@.len() < 2 && e == HuffError::InsufficientSymbols,
            },
    {
        let n: usize = bytes.len();
        if n < 2 {
            return Err(HuffError::InsufficientSymbols);
        }
        let mut tree = HuffmanTree { left: bytes[n - 2], right: Node::Leaf(bytes[n - 1]) };
        let mut i: usize = n - 2;
        assert(tree@ =~= bytes@.skip(i as int));
        while i > 0
            invariant
                n == bytes@.len(),
                i <= n - 2,
                tree@ == bytes@.skip(i as int),
            decreases i,
        {
            i = i - 1;
            tree = HuffmanTree { left: bytes[i], right: Node::Tree(Box::new(tree)) };
            assert(tree@ =~= bytes@.skip(i as int));
        }
        assert(bytes@.skip(0) =~= bytes@);
        Ok(tree)
    }

    /// Rebuilds a chain from its serialized form: the count byte, then that
    /// many symbols. Bytes after the declared symbols are not read.
    pub fn deserialize(bytes: &[u8]) -> (res: Result<HuffmanTree, HuffError>)
        ensures
            match res {
                Ok(tree) => parse_tree(bytes@) == Ok::<Seq<u8>, HuffError>(tree@),
                Err(e) => parse_tree(bytes@) == Err::<Seq<u8>, HuffError>(e),
            },
    {
        if bytes.len() == 0 {
            return Err(HuffError::MalformedTree);
        }
        let count: usize = bytes[0] as usize;
        if count > bytes.len() - 1 {
            return Err(HuffError::MalformedTree);
        }
        let symbols = vstd::slice::slice_subrange(bytes, 1, 1 + count);
        HuffmanTree::from_sorted(symbols)
    }

    /// Appends the symbols of the chain, from the root down, to `out`.
    pub fn collect_leaves(&self, out: &mut Vec<u8>)
        ensures
            final(out)@ == old(out)@ + self@,
    {
        let ghost start = out@;
        let mut current: &HuffmanTree = self;
        let mut done: bool = false;
        assert(out@ + current@ =~= start + self@);
        while !done
            invariant
                !done ==> out@ + current@ == start + self@,
                done ==> out@ == start + self@,
            decreases current@.len() + if done { 0int } else { 1int },
        {
            let ghost before = out@;
            out.push(current.left);
            match &current.right {
                Node::Leaf(b) => {
                    out.push(*b);
                    done = true;
                    assert(out@ =~= before + current@);
                },
                Node::Tree(t) => {
                    assert(out@ + t@ =~= before + current@);
                    current = &**t;
                },
            }
        }
    }

    /// The serialized form of the chain: the count byte, then the symbols.
    pub fn serialize(&self) -> (res: Vec<u8>)
        ensures
            res@ == serialized(self@),
    {
        let mut symbols: Vec<u8> = Vec::new();
        self.collect_leaves(&mut symbols);
        let mut result: Vec<u8> = Vec::new();
        result.push((symbols.len() % 256) as u8);
        result.append(&mut symbols);
        assert(result@ =~= serialized(self@));
        result
    }

    /// The code table of the chain: every symbol of the chain with its code word.
    pub fn build_map(&self) -> (map: HashMap<u8, Vec<bool>>)
        ensures
            forall|b: u8| map@.contains_key(b) <==> self@.contains(b),
            forall|b: u8| map@.contains_key(b) ==> (#[trigger] map@[b])@ == code_of(self@, b),
    {
        let mut map: HashMap<u8, Vec<bool>> = HashMap::new();
        let mut code: Vec<bool> = Vec::new();
        let mut current: &HuffmanTree = self;
        let mut done: bool = false;
        let ghost mut level: int = 0;
        let ghost s = self@;
        proof {
            self.lemma_shape();
            assert(s.skip(0) =~= s);
            assert(code@ =~= ones(0));
        }
        while !done
            invariant
                s == self@,
                s.len() >= 2,
                !done ==> 0 <= level <= s.len() - 2 && current@ == s.skip(level) && code@ == ones(
                    level as nat,
                ),
                done ==> level == s.len(),
                forall|b: u8| map@.contains_key(b) <==> s.take(level).contains(b),
                forall|b: u8|
                    map@.contains_key(b) ==> (#[trigger] map@[b])@ == codeword(
                        s.len(),
                        last_index_of(s.take(level), b) as nat,
                    ),
            decreases s.len() - level,
        {
            proof {
                current.lemma_shape();
            }
            let ghost old_map = map@;
            code.push(false);
            let left_code = code.clone();
            assert(left_code@ =~= codeword(s.len(), level as nat));
            map.insert(current.left, left_code);
            proof {
                let grown = s.take(level + 1);
                assert(grown.drop_last() =~= s.take(level));
                assert(grown.last() == current.left);
                assert(s.skip(level)[0] == s[level]);
                assert forall|b: u8| map@.contains_key(b) <==> grown.contains(b) by {
                    lemma_last_index_of(grown, b);
                    lemma_last_index_of(s.take(level), b);
                }
                assert forall|b: u8| map@.contains_key(b) implies (#[trigger] map@[b])@ == codeword(
                    s.len(),
                    last_index_of(grown, b) as nat,
                ) by {
                    if b != current.left {
                        assert(old_map.contains_key(b));
                        assert(map@[b] == old_map[b]);
                    }
                }
            }
            let ghost mid_map = map@;
            code.pop();
            code.push(true);
            assert(code@ =~= ones((level + 1) as nat));
            match &current.right {
                Node::Leaf(b) => {
                    let last_code = code.clone();
                    assert(last_code@ =~= codeword(s.len(), (level + 1) as nat));
                    map.insert(*b, last_code);
                    proof {
                        assert(s.skip(level).len() == 2);
                        assert(s.skip(level)[1] == *b);
                        assert(s.take(level + 2) =~= s);
                        assert(s.drop_last() =~= s.take(level + 1));
                        assert(s.last() == *b);
                        assert forall|c: u8| map@.contains_key(c) <==> s.contains(c) by {
                            lemma_last_index_of(s, c);
                            lemma_last_index_of(s.take(level + 1), c);
                        }
                        assert forall|c: u8| map@.contains_key(c) implies (#[trigger] map@[c])@
                            == codeword(s.len(), last_index_of(s, c) as nat) by {
                            if c != *b {
                                assert(mid_map.contains_key(c));
                                assert(map@[c] == mid_map[c]);
                            }
                        }
                        level = level + 2;
                        assert(s.take(level) =~= s);
                    }
                    done = true;
                },
                Node::Tree(t) => {
                    proof {
                        t.lemma_shape();
                        assert(s.skip(level).skip(1) =~= s.skip(level + 1));
                        level = level + 1;
                    }
                    current = &**t;
                },
            }
        }
        assert(s.take(level) =~= s);
        map
    }

    /// Encodes `data` with the code table of the chain and packs the bits.
    /// A byte that the chain does not list cannot be encoded.
    pub fn encode(&self, data: &[u8]) -> (res: Result<Encoded, HuffError>)
        ensures
            match res {
                Ok(encoded) => {
                    &&& forall|i: int| 0 <= i < data@.len() ==> self@.contains(#[trigger] data@[i])
                    &&& encoded.tree@ == serialized(self@)
                    &&& encoded.bytes@ == pack(encode_bits(self@, data@))
                    &&& encoded.padding == padding_of(encode_bits(self@, data@).len())
                },
                Err(e) => {
                    &&& e == HuffError::UnknownSymbol
                    &&& exists|i: int| 0 <= i < data@.len() && !self@.contains(#[trigger] data@[i])
                },
            },
    {
        let map = self.build_map();
        let mut bits: Vec<bool> = Vec::new();
        let mut i: usize = 0;
        while i < data.len()
            invariant
                i <= data@.len(),
                forall|b: u8| map@.contains_key(b) <==> self@.contains(b),
                forall|b: u8| map@.contains_key(b) ==> (#[trigger] map@[b])@ == code_of(self@, b),
                forall|j: int| 0 <= j < i ==> self@.contains(#[trigger] data@[j]),
                bits@ == encode_bits(self@, data@.take(i as int)),
            decreases data@.len() - i,
        {
            let b: u8 = data[i];
            match map.get(&b) {
                Some(code) => {
                    assert(map@.contains_key(b) && map@[b] == *code);
                    append_bits(&mut bits, code);
                    assert(data@.take(i + 1).drop_last() =~= data@.take(i as int));
                },
                None => {
                    assert(!map@.contains_key(b));
                    assert(!self@.contains(data@[i as int]));
                    return Err(HuffError::UnknownSymbol);
                },
            }
            i = i + 1;
        }
        assert(data@.take(i as int) =~= data@);
        Ok(Encoded::from_bits(bits.as_slice(), self.serialize()))
    }
}

} // verus!
