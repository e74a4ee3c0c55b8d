use vstd::prelude::*;
use crate::error::HuffError;

verus! {

/// `k` one bits.
pub open spec fn ones(k: nat) -> Seq<bool> {
    Seq::new(k, |i: int| true)
}

/// The code word of the symbol at rank `k` (counted from zero) among `n`
/// ranked symbols: `k` one bits closed by a zero bit, except for the last
/// symbol, whose `n - 1` one bits need no closing bit.
pub open spec fn codeword(n: nat, k: nat) -> Seq<bool> {
    if k + 1 < n {
        ones(k).push(false)
    } else {
        ones(k)
    }
}

/// The last position at which `b` occurs in `s`, or -1 if it does not occur.
pub open spec fn last_index_of(s: Seq<u8>, b: u8) -> int
    decreases s.len(),
{
    if s.len() == 0 {
        -1
    } else if s.last() == b {
        s.len() - 1
    } else {
        last_index_of(s.drop_last(), b)
    }
}

/// The code word that a chain over `symbols` gives to `b`.
pub open spec fn code_of(symbols: Seq<u8>, b: u8) -> Seq<bool> {
    codeword(symbols.len(), last_index_of(symbols, b) as nat)
}

/// The code words of the bytes of `data`, one after the other.
pub open spec fn encode_bits(symbols: Seq<u8>, data: Seq<u8>) -> Seq<bool>
    decreases data.len(),
{
    if data.len() == 0 {
        Seq::empty()
    } else {
        encode_bits(symbols, data.drop_last()) + code_of(symbols, data.last())
    }
}

/// The state of a reader that has walked `bits` from the root of the chain
/// over `symbols`: the symbols emitted so far, and the level of the chain at
/// which the reader stands (zero between two code words).
///
/// A zero bit emits the symbol of the current level; a one bit at the last
/// level emits the last symbol; both return to the root. A one bit at any
/// other level descends one level.
pub open spec fn walk(symbols: Seq<u8>, bits: Seq<bool>) -> (Seq<u8>, nat)
    decreases bits.len(),
{
    if bits.len() == 0 {
        (Seq::empty(), 0)
    } else {
        let (out, level) = walk(symbols, bits.drop_last());
        if !bits.last() {
            (out.push(symbols[level as int]), 0)
        } else if level + 2 >= symbols.len() {
            (out.push(symbols[level as int + 1]), 0)
        } else {
            (out, level + 1)
        }
    }
}

/// What a bit sequence decodes to: the symbols that the walk emits, unless
/// the bits end inside a code word.
pub open spec fn decode_bits(symbols: Seq<u8>, bits: Seq<bool>) -> Result<Seq<u8>, HuffError> {
    let (out, level) = walk(symbols, bits);
    if level == 0 {
        Ok(out)
    } else {
        Err(HuffError::TruncatedBitstream)
    }
}

/// The code word of rank `k` has `k + 1` bits, except that of the last rank,
/// which is as long as the one before it.
pub proof fn lemma_codeword_len(n: nat, k: nat)
    requires
        n >= 2,
        k < n,
    ensures
        codeword(n, k).len() == (if k + 1 < n {
            k + 1
        } else {
            k
        }),
        1 <= codeword(n, k).len() <= n - 1,
{
}

/// The code words of the last two ranks differ in their final bit only.
pub proof fn lemma_last_two_codewords(n: nat)
    requires
        n >= 2,
    ensures
        codeword(n, (n - 2) as nat).drop_last() == codeword(n, (n - 1) as nat).drop_last(),
        !codeword(n, (n - 2) as nat).last(),
        codeword(n, (n - 1) as nat).last(),
{
    assert(codeword(n, (n - 2) as nat).drop_last() =~= codeword(n, (n - 1) as nat).drop_last());
}

/// The code is prefix-free: no code word is the start of the code word of another rank.
pub proof fn lemma_codewords_prefix_free(n: nat, j: nat, k: nat)
    requires
        j < n,
        k < n,
        j != k,
    ensures
        !codeword(n, j).is_prefix_of(codeword(n, k)),
{
    let a = codeword(n, j);
    let b = codeword(n, k);
    if a.is_prefix_of(b) {
        if j < k {
            assert(!a[j as int]);
            assert(b.subrange(0, a.len() as int)[j as int] == b[j as int]);
            assert(b[j as int]);
        } else {
            assert(a[k as int]);
            assert(b.subrange(0, a.len() as int)[k as int] == b[k as int]);
            assert(!b[k as int]);
        }
    }
}

/// `last_index_of` finds a position of `b` exactly when `s` contains `b`, and
/// no later position holds `b`.
pub proof fn lemma_last_index_of(s: Seq<u8>, b: u8)
    ensures
        -1 <= last_index_of(s, b) < s.len(),
        s.contains(b) <==> last_index_of(s, b) >= 0,
        last_index_of(s, b) >= 0 ==> s[last_index_of(s, b)] == b,
        forall|j: int| last_index_of(s, b) < j < s.len() ==> s[j] != b,
    decreases s.len(),
{
    if s.len() > 0 {
        let init = s.drop_last();
        lemma_last_index_of(init, b);
        if s.last() == b {
            assert(s[s.len() - 1] == b);
        } else {
            if s.contains(b) {
                let i = choose|i: int| 0 <= i < s.len() && s[i] == b;
                assert(init[i] == b);
            }
            if init.contains(b) {
                let i = choose|i: int| 0 <= i < init.len() && init[i] == b;
                assert(s[i] == b);
            }
            assert forall|j: int| last_index_of(s, b) < j < s.len() implies s[j] != b by {
                if j < init.len() {
                    assert(init[j] == s[j]);
                }
            }
        }
    }
}

/// After a whole number of code words, `j` one bits lead the reader down to level `j`.
proof fn lemma_walk_ones(symbols: Seq<u8>, pre: Seq<bool>, j: nat)
    requires
        symbols.len() >= 2,
        j + 2 <= symbols.len(),
        walk(symbols, pre).1 == 0,
    ensures
        walk(symbols, pre + ones(j)) == (walk(symbols, pre).0, j),
    decreases j,
{
    if j == 0 {
        assert(pre + ones(0) =~= pre);
    } else {
        lemma_walk_ones(symbols, pre, (j - 1) as nat);
        assert((pre + ones(j)).drop_last() =~= pre + ones((j - 1) as nat));
    }
}

/// After a whole number of code words, the code word of rank `k` makes the
/// reader emit the symbol of rank `k` and return to the root.
pub proof fn lemma_walk_codeword(symbols: Seq<u8>, pre: Seq<bool>, k: nat)
    requires
        symbols.len() >= 2,
        k < symbols.len(),
        walk(symbols, pre).1 == 0,
    ensures
        walk(symbols, pre + codeword(symbols.len(), k)) == (
            walk(symbols, pre).0.push(symbols[k as int]),
            0nat,
        ),
{
    let n = symbols.len();
    let all = pre + codeword(n, k);
    if k + 1 < n {
        lemma_walk_ones(symbols, pre, k);
        assert(all.drop_last() =~= pre + ones(k));
        assert(!all.last());
    } else {
        lemma_walk_ones(symbols, pre, (k - 1) as nat);
        assert(all.drop_last() =~= pre + ones((k - 1) as nat));
        assert(all.last());
    }
}

/// Walking the code words of `data` emits `data` and ends at the root,
/// provided the chain lists no symbol twice and lists every byte of `data`.
pub proof fn lemma_walk_encode(symbols: Seq<u8>, data: Seq<u8>)
    requires
        symbols.len() >= 2,
        symbols.no_duplicates(),
        forall|i: int| 0 <= i < data.len() ==> symbols.contains(#[trigger] data[i]),
    ensures
        walk(symbols, encode_bits(symbols, data)) == (data, 0nat),
        decode_bits(symbols, encode_bits(symbols, data)) == Ok::<Seq<u8>, HuffError>(data),
    decreases data.len(),
{
    if data.len() > 0 {
        let init = data.drop_last();
        assert forall|i: int| 0 <= i < init.len() implies symbols.contains(#[trigger] init[i]) by {
            assert(init[i] == data[i]);
        }
        lemma_walk_encode(symbols, init);
        let b = data.last();
        assert(symbols.contains(data[data.len() - 1]));
        lemma_last_index_of(symbols, b);
        let k = last_index_of(symbols, b) as nat;
        lemma_walk_codeword(symbols, encode_bits(symbols, init), k);
        assert(init.push(b) =~= data);
    }
}

} // verus!
