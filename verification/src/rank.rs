use vstd::prelude::*;
use vstd::set_lib::set_int_range;
use crate::error::HuffError;

verus! {

/// How many times `b` occurs in `data`.
pub open spec fn occurrences(data: Seq<u8>, b: u8) -> nat
    decreases data.len(),
{
    if data.len() == 0 {
        0
    } else {
        occurrences(data.drop_last(), b) + if data.last() == b {
            1nat
        } else {
            0nat
        }
    }
}

/// The ranking rule: `a` comes before `b` when it occurs more often, and among
/// symbols that occur equally often when its byte value is smaller.
pub open spec fn outranks(data: Seq<u8>, a: u8, b: u8) -> bool {
    occurrences(data, a) > occurrences(data, b) || (occurrences(data, a) == occurrences(data, b)
        && a < b)
}

/// `r` lists exactly the bytes that occur in `data`, each before every byte that it outranks.
pub open spec fn is_rank_order(data: Seq<u8>, r: Seq<u8>) -> bool {
    &&& forall|b: u8| r.contains(b) <==> data.contains(b)
    &&& forall|i: int, j: int| 0 <= i < j < r.len() ==> outranks(data, r[i], r[j])
}

/// The rank order of `data`: its distinct bytes, the most frequent first, ties
/// in ascending byte value.
pub open spec fn rank_order(data: Seq<u8>) -> Seq<u8> {
    choose|r: Seq<u8>| is_rank_order(data, r)
}

/// A byte occurs at most as often as the buffer is long, and at least once
/// exactly when the buffer contains it.
pub proof fn lemma_occurrences(data: Seq<u8>, b: u8)
    ensures
        occurrences(data, b) <= data.len(),
        occurrences(data, b) > 0 <==> data.contains(b),
    decreases data.len(),
{
    if data.len() > 0 {
        let init = data.drop_last();
        lemma_occurrences(init, b);
        if data.contains(b) {
            let i = choose|i: int| 0 <= i < data.len() && data[i] == b;
            if i < data.len() - 1 {
                assert(init[i] == b);
            }
        }
        if init.contains(b) {
            let i = choose|i: int| 0 <= i < init.len() && init[i] == b;
            assert(data[i] == b);
        }
    }
}

/// A rank order lists no byte twice.
pub proof fn lemma_rank_order_distinct(data: Seq<u8>, r: Seq<u8>)
    requires
        is_rank_order(data, r),
    ensures
        r.no_duplicates(),
        r.len() <= 256,
{
    assert forall|i: int, j: int| 0 <= i < r.len() && 0 <= j < r.len() && i != j implies r[i]
        != r[j] by {
        if i < j {
            assert(outranks(data, r[i], r[j]));
        } else {
            assert(outranks(data, r[j], r[i]));
        }
    }
    let as_ints = r.map_values(|b: u8| b as int);
    assert(as_ints.no_duplicates());
    as_ints.unique_seq_to_set();
    vstd::set_lib::lemma_int_range(0, 256);
    assert(as_ints.to_set().subset_of(set_int_range(0, 256))) by {
        assert forall|x: int| as_ints.to_set().contains(x) implies set_int_range(0, 256).contains(
            x,
        ) by {
            let i = choose|i: int| 0 <= i < as_ints.len() && as_ints[i] == x;
            assert(as_ints[i] == r[i] as int);
        }
    }
    vstd::set_lib::lemma_len_subset(as_ints.to_set(), set_int_range(0, 256));
}

proof fn lemma_rank_orders_agree(data: Seq<u8>, r1: Seq<u8>, r2: Seq<u8>, k: int)
    requires
        is_rank_order(data, r1),
        is_rank_order(data, r2),
        0 <= k <= r1.len(),
    ensures
        k <= r2.len(),
        forall|i: int| 0 <= i < k ==> r1[i] == r2[i],
    decreases k,
{
    if k > 0 {
        lemma_rank_orders_agree(data, r1, r2, k - 1);
        lemma_rank_order_distinct(data, r1);
        lemma_rank_order_distinct(data, r2);
        let a = r1[k - 1];
        assert(r1.contains(a));
        assert(r2.contains(a));
        let j = choose|j: int| 0 <= j < r2.len() && r2[j] == a;
        if j < k - 1 {
            assert(r1[j] == r2[j]);
            assert(false);
        }
        assert(k <= r2.len());
        let b = r2[k - 1];
        assert(r2.contains(b));
        assert(r1.contains(b));
        let i = choose|i: int| 0 <= i < r1.len() && r1[i] == b;
        if i < k - 1 {
            assert(r2[i] == r1[i]);
            assert(false);
        }
        if a != b {
            assert(j > k - 1);
            assert(i > k - 1);
            assert(outranks(data, r2[k - 1], r2[j]));
            assert(outranks(data, r1[k - 1], r1[i]));
            assert(false);
        }
    }
}

/// A buffer has one rank order only: every sequence that meets the ranking
/// rule is `rank_order(data)`.
pub proof fn lemma_rank_order_unique(data: Seq<u8>, r: Seq<u8>)
    requires
        is_rank_order(data, r),
    ensures
        r == rank_order(data),
{
    let other = rank_order(data);
    lemma_rank_orders_agree(data, r, other, r.len() as int);
    lemma_rank_orders_agree(data, other, r, other.len() as int);
    assert(r =~= other);
}

/// `r` ranks exactly the bytes of `data` whose value is below `c`.
pub open spec fn ranks_below(data: Seq<u8>, r: Seq<u8>, c: int) -> bool {
    &&& forall|i: int, j: int| 0 <= i < j < r.len() ==> outranks(data, r[i], r[j])
    &&& forall|i: int| 0 <= i < r.len() ==> r[i] < c && data.contains(#[trigger] r[i])
    &&& forall|b: u8| b < c && data.contains(b) ==> r.contains(b)
}

/// Putting `b` behind the bytes that outrank it and before the first byte
/// that it outranks keeps a ranking in order.
proof fn lemma_insert_ranked(data: Seq<u8>, before: Seq<u8>, p: int, b: u8)
    requires
        ranks_below(data, before, b as int),
        data.contains(b),
        0 <= p <= before.len(),
        forall|q: int| 0 <= q < p ==> outranks(data, before[q], b),
        p < before.len() ==> outranks(data, b, before[p]),
    ensures
        ranks_below(data, before.insert(p, b), b + 1),
{
    let after = before.insert(p, b);
    assert forall|i: int| 0 <= i < after.len() implies after[i] == (if i < p {
        before[i]
    } else if i == p {
        b
    } else {
        before[i - 1]
    }) by {}
    assert forall|i: int, j: int| 0 <= i < j < after.len() implies outranks(
        data,
        after[i],
        after[j],
    ) by {
        if j < p {
            assert(outranks(data, before[i], before[j]));
        } else if j == p {
            assert(outranks(data, before[i], b));
        } else if i < p {
            assert(outranks(data, before[i], before[j - 1]));
        } else if i == p {
            assert(outranks(data, b, before[p]));
            if j - 1 > p {
                assert(outranks(data, before[p], before[j - 1]));
            }
        } else {
            assert(outranks(data, before[i - 1], before[j - 1]));
        }
    }
    assert forall|i: int| 0 <= i < after.len() implies after[i] < b + 1 && data.contains(
        #[trigger] after[i],
    ) by {
        if i < p {
            assert(data.contains(before[i]));
        } else if i > p {
            assert(data.contains(before[i - 1]));
        }
    }
    assert forall|c: u8| c < b + 1 && data.contains(c) implies after.contains(c) by {
        if c == b {
            assert(after[p] == c);
        } else {
            assert(before.contains(c));
            let t = choose|t: int| 0 <= t < before.len() && before[t] == c;
            if t < p {
                assert(after[t] == c);
            } else {
                assert(after[t + 1] == c);
            }
        }
    }
}

/// The place of `b` in a ranking of smaller bytes: behind every byte that
/// outranks it, before the first that it outranks.
proof fn lemma_insertion_point(data: Seq<u8>, r: Seq<u8>, b: u8, from: int) -> (p: int)
    requires
        ranks_below(data, r, b as int),
        0 <= from <= r.len(),
        forall|q: int| 0 <= q < from ==> outranks(data, r[q], b),
    ensures
        from <= p <= r.len(),
        forall|q: int| 0 <= q < p ==> outranks(data, r[q], b),
        p < r.len() ==> outranks(data, b, r[p]),
    decreases r.len() - from,
{
    if from == r.len() || outranks(data, b, r[from]) {
        from
    } else {
        assert(r[from] < b);
        lemma_insertion_point(data, r, b, from + 1)
    }
}

/// A ranking of the bytes below `c` exists for every `c`.
proof fn lemma_ranked_below(data: Seq<u8>, c: int) -> (r: Seq<u8>)
    requires
        0 <= c <= 256,
    ensures
        ranks_below(data, r, c),
    decreases c,
{
    if c == 0 {
        Seq::empty()
    } else {
        let prev = lemma_ranked_below(data, c - 1);
        let b = (c - 1) as u8;
        if data.contains(b) {
            let p = lemma_insertion_point(data, prev, b, 0);
            lemma_insert_ranked(data, prev, p, b);
            prev.insert(p, b)
        } else {
            assert forall|i: int| 0 <= i < prev.len() implies prev[i] < c && data.contains(
                #[trigger] prev[i],
            ) by {}
            prev
        }
    }
}

/// Every buffer has a rank order, and `rank_order` is it.
pub proof fn lemma_rank_order(data: Seq<u8>)
    ensures
        is_rank_order(data, rank_order(data)),
{
    let r = lemma_ranked_below(data, 256);
    assert forall|b: u8| r.contains(b) <==> data.contains(b) by {
        if r.contains(b) {
            let i = choose|i: int| 0 <= i < r.len() && r[i] == b;
            assert(data.contains(r[i]));
        }
    }
    assert(is_rank_order(data, r));
}

/// Whether `a` comes before `b` under the counts in `counts`.
fn comes_before(counts: &Vec<usize>, a: u8, b: u8) -> (res: bool)
    requires
        counts@.len() == 256,
    ensures
        res == (counts@[a as int] > counts@[b as int] || (counts@[a as int] == counts@[b as int]
            && a < b)),
{
    let ca: usize = counts[a as usize];
    let cb: usize = counts[b as usize];
    ca > cb || (ca == cb && a < b)
}

/// Counts every byte value of `bytes`; entry `c` of the result is the count of byte `c`.
fn tally(bytes: &[u8]) -> (counts: Vec<usize>)
    ensures
        counts@.len() == 256,
        forall|c: u8| #[trigger] counts@[c as int] == occurrences(bytes@, c),
{
    let mut counts: Vec<usize> = Vec::new();
    while counts.len() < 256
        invariant
            counts@.len() <= 256,
            forall|c: int| 0 <= c < counts@.len() ==> counts@[c] == 0,
        decreases 256 - counts@.len(),
    {
        counts.push(0);
    }
    let mut i: usize = 0;
    while i < bytes.len()
        invariant
            i <= bytes@.len(),
            counts@.len() == 256,
            forall|c: u8| #[trigger] counts@[c as int] == occurrences(bytes@.take(i as int), c),
        decreases bytes@.len() - i,
    {
        let b: u8 = bytes[i];
        proof {
            lemma_occurrences(bytes@.take(i as int), b);
            assert(bytes@.take(i + 1).drop_last() =~= bytes@.take(i as int));
        }
        let seen: usize = counts[b as usize];
        counts.set(b as usize, seen + 1);
        i = i + 1;
    }
    assert(bytes@.take(i as int) =~= bytes@);
    counts
}

/// Ranks the distinct bytes of a buffer: the most frequent first, bytes that
/// occur equally often in ascending byte value. An empty buffer has nothing to rank.
pub fn count_frequencies(bytes: &[u8]) -> (res: Result<Vec<u8>, HuffError>)
    ensures
        match res {
            Ok(sorted) => bytes@.len() > 0 && sorted@ == rank_order(bytes@) && is_rank_order(
                bytes@,
                sorted@,
            ),
            Err(e) => bytes@.len() == 0 && e == HuffError::EmptyInput,
        },
{
    if bytes.len() == 0 {
        return Err(HuffError::EmptyInput);
    }
    let counts = tally(bytes);
    let mut sorted: Vec<u8> = Vec::new();
    let mut c: usize = 0;
    while c < 256
        invariant
            c <= 256,
            counts@.len() == 256,
            forall|b: u8| #[trigger] counts@[b as int] == occurrences(bytes@, b),
            ranks_below(bytes@, sorted@, c as int),
        decreases 256 - c,
    {
        let s: u8 = c as u8;
        proof {
            lemma_occurrences(bytes@, s);
        }
        if counts[c] > 0 {
            let mut p: usize = 0;
            while p < sorted.len() && !comes_before(&counts, s, sorted[p])
                invariant
                    p <= sorted@.len(),
                    counts@.len() == 256,
                    forall|b: u8| #[trigger] counts@[b as int] == occurrences(bytes@, b),
                    ranks_below(bytes@, sorted@, s as int),
                    forall|q: int| 0 <= q < p ==> outranks(bytes@, sorted@[q], s),
                decreases sorted@.len() - p,
            {
                assert(sorted@[p as int] < s);
                p = p + 1;
            }
            proof {
                lemma_insert_ranked(bytes@, sorted@, p as int, s);
            }
            sorted.insert(p, s);
        } else {
            assert forall|i: int| 0 <= i < sorted@.len() implies sorted@[i] < c + 1
                && bytes@.contains(#[trigger] sorted@[i]) by {}
        }
        c = c + 1;
    }
    proof {
        assert forall|b: u8| sorted@.contains(b) <==> bytes@.contains(b) by {
            if sorted@.contains(b) {
                let i = choose|i: int| 0 <= i < sorted@.len() && sorted@[i] == b;
                assert(bytes@.contains(sorted@[i]));
            }
        }
        lemma_rank_order_unique(bytes@, sorted@);
    }
    Ok(sorted)
}

} // verus!
