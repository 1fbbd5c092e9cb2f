//! Huffman trees: building one from a frequency table, the code of each
//! symbol, and reading symbols back from bits.
//!
//! The builder is deterministic, so that encoder and decoder rebuild the same
//! tree from the same table: it keeps a pool of weighted trees in table
//! order, takes out the lightest (the earliest of equally light ones), then
//! the lightest of what remains, and appends the node that joins them, the
//! first one on the left.
use vstd::prelude::*;
use crate::bits::{bits_between, get_bit};

verus! {

/// A binary code tree: each leaf holds a byte, each inner node two subtrees.
#[derive(Debug)]
pub enum HuffTree {
    Leaf(u8),
    Node(Box<HuffTree>, Box<HuffTree>),
}

/// A pool of weighted trees.
pub type Pool = Seq<(u64, HuffTree)>;

/// The saturating sum of two weights.
pub open spec fn weight_sum(a: u64, b: u64) -> u64 {
    if a + b > u64::MAX {
        u64::MAX
    } else {
        (a + b) as u64
    }
}

/// The position of the lightest tree of the pool; the first one on ties.
pub open spec fn min_index(s: Pool) -> int
    decreases s.len(),
{
    if s.len() <= 1 {
        0
    } else {
        let m = min_index(s.drop_last());
        if s.last().0 < s[m].0 {
            s.len() - 1
        } else {
            m
        }
    }
}

/// The pool after joining its two lightest trees.
pub open spec fn merge_step(s: Pool) -> Pool {
    let i = min_index(s);
    let a = s[i];
    let s1 = s.remove(i);
    let j = min_index(s1);
    let b = s1[j];
    s1.remove(j).push((weight_sum(a.0, b.0), HuffTree::Node(Box::new(a.1), Box::new(b.1))))
}

/// The tree left when the pool has been joined down to one.
pub open spec fn build_pool(s: Pool) -> HuffTree
    decreases s.len(),
    via build_pool_decreases
{
    if s.len() <= 1 {
        s[0].1
    } else {
        build_pool(merge_step(s))
    }
}

pub proof fn lemma_min_index(s: Pool)
    requires
        s.len() >= 1,
    ensures
        0 <= min_index(s) < s.len(),
        forall|k: int| 0 <= k < s.len() ==> s[min_index(s)].0 <= #[trigger] s[k].0,
    decreases s.len(),
{
    if s.len() > 1 {
        let d = s.drop_last();
        lemma_min_index(d);
        assert forall|k: int| 0 <= k < s.len() implies s[min_index(s)].0 <= #[trigger] s[k].0 by {
            if k < s.len() - 1 {
                assert(d[k] == s[k]);
            }
        }
    }
}

pub proof fn lemma_merge_step_len(s: Pool)
    requires
        s.len() >= 2,
    ensures
        merge_step(s).len() == s.len() - 1,
{
    lemma_min_index(s);
    lemma_min_index(s.remove(min_index(s)));
}

#[via_fn]
proof fn build_pool_decreases(s: Pool) {
    if s.len() > 1 {
        lemma_merge_step_len(s);
    }
}

/// One leaf per entry of a frequency table, weighted by its count.
pub open spec fn leaves(freqs: Seq<(u8, u32)>) -> Pool {
    Seq::new(freqs.len(), |i: int| (freqs[i].1 as u64, HuffTree::Leaf(freqs[i].0)))
}

/// The tree built from a non-empty frequency table.
pub open spec fn huffman_tree(freqs: Seq<(u8, u32)>) -> HuffTree {
    build_pool(leaves(freqs))
}

/// The position of the lightest tree of the pool; the first one on ties.
fn min_position(pool: &Vec<(u64, HuffTree)>) -> (r: usize)
    requires
        pool@.len() >= 1,
    ensures
        r == min_index(pool@),
{
    let mut best: usize = 0;
    let mut k: usize = 1;
    assert(pool@.subrange(0, 1).len() == 1);
    while k < pool.len()
        invariant
            1 <= k <= pool@.len(),
            best == min_index(pool@.subrange(0, k as int)),
        decreases pool@.len() - k,
    {
        proof {
            lemma_min_index(pool@.subrange(0, k as int));
            assert(pool@.subrange(0, k + 1).drop_last() =~= pool@.subrange(0, k as int));
        }
        if pool[k].0 < pool[best].0 {
            best = k;
        }
        k = k + 1;
    }
    assert(pool@.subrange(0, pool@.len() as int) =~= pool@);
    best
}

/// Builds the Huffman tree of a frequency table; `None` for an empty table.
pub fn frequency_list_to_huffman_tree(freqs: &Vec<(u8, u32)>) -> (r: Option<HuffTree>)
    ensures
        freqs@.len() == 0 ==> r is None,
        freqs@.len() > 0 ==> r == Some(huffman_tree(freqs@)),
{
    let mut pool: Vec<(u64, HuffTree)> = Vec::new();
    let mut i: usize = 0;
    while i < freqs.len()
        invariant
            i <= freqs@.len(),
            pool@ == leaves(freqs@).subrange(0, i as int),
        decreases freqs@.len() - i,
    {
        let (value, count) = freqs[i];
        pool.push((count as u64, HuffTree::Leaf(value)));
        i = i + 1;
        assert(pool@ =~= leaves(freqs@).subrange(0, i as int));
    }
    assert(pool@ =~= leaves(freqs@));
    if pool.len() == 0 {
        return None;
    }
    while pool.len() > 1
        invariant
            pool@.len() >= 1,
            build_pool(pool@) == huffman_tree(freqs@),
        decreases pool@.len(),
    {
        let ghost s = pool@;
        proof {
            lemma_merge_step_len(s);
            lemma_min_index(s);
        }
        let i = min_position(&pool);
        let (wa, ta) = pool.remove(i);
        proof {
            lemma_min_index(pool@);
        }
        let j = min_position(&pool);
        let (wb, tb) = pool.remove(j);
        let w = if wa > u64::MAX - wb {
            u64::MAX
        } else {
            wa + wb
        };
        pool.push((w, HuffTree::Node(Box::new(ta), Box::new(tb))));
        assert(pool@ =~= merge_step(s));
    }
    match pool.pop() {
        Some(e) => {
            let (_, t) = e;
            Some(t)
        },
        None => None,
    }
}

/// The path from the root of `t` to a leaf holding `b`, `false` for left;
/// where several leaves hold `b`, the one furthest right.
pub open spec fn code_of(t: HuffTree, b: u8) -> Option<Seq<bool>>
    decreases t,
{
    match t {
        HuffTree::Leaf(v) => if v == b {
            Some(Seq::empty())
        } else {
            None
        },
        HuffTree::Node(l, r) => match code_of(*r, b) {
            Some(p) => Some(seq![true] + p),
            None => match code_of(*l, b) {
                Some(p) => Some(seq![false] + p),
                None => None,
            },
        },
    }
}

/// The bits that encode `b`: its path, or the single bit `false` when the
/// tree is one leaf.
pub open spec fn codeword(t: HuffTree, b: u8) -> Option<Seq<bool>> {
    match t {
        HuffTree::Leaf(v) => if v == b {
            Some(seq![false])
        } else {
            None
        },
        HuffTree::Node(_, _) => code_of(t, b),
    }
}

/// The encoding of `s`, symbol by symbol (a symbol without a code adds
/// nothing).
pub open spec fn encode_bits(t: HuffTree, s: Seq<u8>) -> Seq<bool>
    decreases s.len(),
{
    if s.len() == 0 {
        Seq::empty()
    } else {
        match codeword(t, s[0]) {
            Some(c) => c + encode_bits(t, s.drop_first()),
            None => encode_bits(t, s.drop_first()),
        }
    }
}

/// Following `bits` down from the root to a leaf: its byte and how many
/// bits were read.
pub open spec fn walk(t: HuffTree, bits: Seq<bool>) -> Option<(u8, nat)>
    decreases t,
{
    match t {
        HuffTree::Leaf(v) => Some((v, 0)),
        HuffTree::Node(l, r) => if bits.len() == 0 {
            None
        } else if bits[0] {
            match walk(*r, bits.drop_first()) {
                Some(x) => Some((x.0, x.1 + 1)),
                None => None,
            }
        } else {
            match walk(*l, bits.drop_first()) {
                Some(x) => Some((x.0, x.1 + 1)),
                None => None,
            }
        },
    }
}

/// The next symbol at the front of `bits` and how many bits it takes; a
/// tree of one leaf reads one bit per symbol.
pub open spec fn next_symbol(t: HuffTree, bits: Seq<bool>) -> Option<(u8, nat)> {
    match t {
        HuffTree::Leaf(v) => if bits.len() > 0 {
            Some((v, 1))
        } else {
            None
        },
        HuffTree::Node(_, _) => walk(t, bits),
    }
}

/// The symbols that `bits` decode to; `None` when they end inside a code.
pub open spec fn decode_bits(t: HuffTree, bits: Seq<bool>) -> Option<Seq<u8>>
    decreases bits.len(),
{
    if bits.len() == 0 {
        Some(Seq::empty())
    } else {
        match next_symbol(t, bits) {
            Some(x) => if 1 <= x.1 <= bits.len() {
                match decode_bits(t, bits.skip(x.1 as int)) {
                    Some(rest) => Some(seq![x.0] + rest),
                    None => None,
                }
            } else {
                None
            },
            None => None,
        }
    }
}

/// A walk reads no more bits than there are.
pub proof fn lemma_walk_len(t: HuffTree, bits: Seq<bool>)
    ensures
        walk(t, bits) matches Some(x) ==> x.1 <= bits.len(),
    decreases t,
{
    match t {
        HuffTree::Leaf(_) => {},
        HuffTree::Node(l, r) => {
            if bits.len() > 0 {
                lemma_walk_len(*l, bits.drop_first());
                lemma_walk_len(*r, bits.drop_first());
            }
        },
    }
}

/// Walking the code of `b`, and whatever follows it, ends at `b` after
/// exactly the code's bits.
pub proof fn lemma_walk_code(t: HuffTree, b: u8, rest: Seq<bool>)
    requires
        code_of(t, b) is Some,
    ensures
        walk(t, code_of(t, b).unwrap() + rest) == Some((b, code_of(t, b).unwrap().len())),
    decreases t,
{
    match t {
        HuffTree::Leaf(v) => {
            assert(Seq::<bool>::empty() + rest =~= rest);
        },
        HuffTree::Node(l, r) => {
            let p = code_of(t, b).unwrap();
            match code_of(*r, b) {
                Some(q) => {
                    lemma_walk_code(*r, b, rest);
                    assert((p + rest).drop_first() =~= q + rest);
                },
                None => {
                    let q = code_of(*l, b).unwrap();
                    lemma_walk_code(*l, b, rest);
                    assert((p + rest).drop_first() =~= q + rest);
                },
            }
        },
    }
}

/// Decoding the encoding of `s` gives `s`, when every symbol of `s` has a
/// code.
pub proof fn lemma_decode_encode(t: HuffTree, s: Seq<u8>)
    requires
        forall|i: int| 0 <= i < s.len() ==> #[trigger] codeword(t, s[i]) is Some,
    ensures
        decode_bits(t, encode_bits(t, s)) == Some(s),
    decreases s.len(),
{
    if s.len() > 0 {
        let c = codeword(t, s[0]).unwrap();
        let rest = encode_bits(t, s.drop_first());
        assert forall|i: int| 0 <= i < s.drop_first().len() implies #[trigger] codeword(
            t,
            s.drop_first()[i],
        ) is Some by {
            assert(s.drop_first()[i] == s[i + 1]);
        }
        lemma_decode_encode(t, s.drop_first());
        match t {
            HuffTree::Leaf(v) => {},
            HuffTree::Node(_, _) => {
                lemma_walk_code(t, s[0], rest);
            },
        }
        assert((c + rest).skip(c.len() as int) =~= rest);
        assert(seq![s[0]] + s.drop_first() =~= s);
    }
}

/// Encoding `s` and then one more symbol appends that symbol's code.
pub proof fn lemma_encode_push(t: HuffTree, s: Seq<u8>, b: u8)
    requires
        codeword(t, b) is Some,
    ensures
        encode_bits(t, s.push(b)) == encode_bits(t, s) + codeword(t, b).unwrap(),
    decreases s.len(),
{
    if s.len() == 0 {
        assert(s.push(b).drop_first() =~= Seq::<u8>::empty());
        assert(s.push(b)[0] == b);
        assert(encode_bits(t, Seq::<u8>::empty()) == Seq::<bool>::empty());
        assert(codeword(t, b).unwrap() + Seq::<bool>::empty() =~= codeword(t, b).unwrap());
    } else {
        lemma_encode_push(t, s.drop_first(), b);
        assert(s.push(b).drop_first() =~= s.drop_first().push(b));
        assert(s.push(b)[0] == s[0]);
        match codeword(t, s[0]) {
            Some(c) => {
                assert(c + (encode_bits(t, s.drop_first()) + codeword(t, b).unwrap()) =~= (c
                    + encode_bits(t, s.drop_first())) + codeword(t, b).unwrap());
            },
            None => {},
        }
    }
}

/// Copies `p` with one more bit.
fn with_bit(p: &Vec<bool>, bit: bool) -> (r: Vec<bool>)
    ensures
        r@ == p@.push(bit),
{
    let mut r: Vec<bool> = Vec::new();
    let mut i: usize = 0;
    while i < p.len()
        invariant
            i <= p@.len(),
            r@ == p@.subrange(0, i as int),
        decreases p@.len() - i,
    {
        r.push(p[i]);
        i = i + 1;
        assert(r@ =~= p@.subrange(0, i as int));
    }
    r.push(bit);
    assert(r@ =~= p@.push(bit));
    r
}

/// Records, for every leaf under `node`, `progress` followed by its path.
pub fn fill_lookup_table(node: &HuffTree, table: &mut Vec<Vec<bool>>, progress: Vec<bool>)
    requires
        old(table)@.len() == 256,
    ensures
        final(table)@.len() == 256,
        forall|b: u8|
            #[trigger] final(table)@[b as int]@ == match code_of(*node, b) {
                Some(p) => progress@ + p,
                None => old(table)@[b as int]@,
            },
    decreases node,
{
    match node {
        HuffTree::Leaf(v) => {
            let ghost pr = progress@;
            table.set(*v as usize, progress);
            assert forall|b: u8| #[trigger] table@[b as int]@ == match code_of(*node, b) {
                Some(p) => pr + p,
                None => old(table)@[b as int]@,
            } by {
                if b == *v {
                    assert(pr + Seq::<bool>::empty() =~= pr);
                }
            }
        },
        HuffTree::Node(l, r) => {
            let lp = with_bit(&progress, false);
            let rp = with_bit(&progress, true);
            fill_lookup_table(l, table, lp);
            fill_lookup_table(r, table, rp);
            assert forall|b: u8| #[trigger] table@[b as int]@ == match code_of(*node, b) {
                Some(p) => progress@ + p,
                None => old(table)@[b as int]@,
            } by {
                match code_of(**r, b) {
                    Some(q) => {
                        assert(progress@.push(true) + q =~= progress@ + (seq![true] + q));
                    },
                    None => match code_of(**l, b) {
                        Some(q) => {
                            assert(progress@.push(false) + q =~= progress@ + (seq![false] + q));
                        },
                        None => {},
                    },
                }
            }
        },
    }
}

/// The code of every byte under `t`: entry `b` holds `codeword(t, b)`, or
/// nothing when `b` has no leaf.
pub fn code_table(t: &HuffTree) -> (r: Vec<Vec<bool>>)
    ensures
        r@.len() == 256,
        forall|b: u8|
            #[trigger] r@[b as int]@ == match codeword(*t, b) {
                Some(p) => p,
                None => Seq::<bool>::empty(),
            },
{
    let mut table: Vec<Vec<bool>> = Vec::new();
    let mut i: usize = 0;
    while i < 256
        invariant
            i <= 256,
            table@.len() == i,
            forall|k: int| 0 <= k < i ==> (#[trigger] table@[k])@ == Seq::<bool>::empty(),
        decreases 256 - i,
    {
        table.push(Vec::new());
        i = i + 1;
    }
    match t {
        HuffTree::Leaf(v) => {
            let mut c: Vec<bool> = Vec::new();
            c.push(false);
            table.set(*v as usize, c);
            assert forall|b: u8| #[trigger] table@[b as int]@ == match codeword(*t, b) {
                Some(p) => p,
                None => Seq::<bool>::empty(),
            } by {
                if b == *v {
                    assert(table@[b as int]@ =~= seq![false]);
                }
            }
        },
        HuffTree::Node(_, _) => {
            fill_lookup_table(t, &mut table, Vec::new());
            assert forall|b: u8| #[trigger] table@[b as int]@ == match codeword(*t, b) {
                Some(p) => p,
                None => Seq::<bool>::empty(),
            } by {
                match code_of(*t, b) {
                    Some(p) => {
                        assert(Seq::<bool>::empty() + p =~= p);
                    },
                    None => {},
                }
            }
        },
    }
    table
}

/// Follows the bits of `bytes` from `pos` (and before `stop`) down `t` to a
/// leaf: its byte and the position after the bits read.
pub fn walk_bits(t: &HuffTree, bytes: &Vec<u8>, pos: usize, stop: usize) -> (r: Option<(u8, usize)>)
    requires
        pos <= stop,
        stop <= bytes@.len() * 8,
    ensures
        match walk(*t, bits_between(bytes@, pos as int, stop as int)) {
            Some(x) => r == Some((x.0, (pos + x.1) as usize)),
            None => r is None,
        },
        r matches Some(x) ==> x.1 <= stop,
    decreases t,
{
    proof {
        lemma_walk_len(*t, bits_between(bytes@, pos as int, stop as int));
    }
    match t {
        HuffTree::Leaf(v) => Some((*v, pos)),
        HuffTree::Node(l, r) => {
            if pos >= stop {
                return None;
            }
            let bit = get_bit(bytes.as_slice(), pos);
            assert(bits_between(bytes@, pos as int, stop as int).drop_first() =~= bits_between(
                bytes@,
                pos + 1,
                stop as int,
            ));
            if bit {
                walk_bits(r, bytes, pos + 1, stop)
            } else {
                walk_bits(l, bytes, pos + 1, stop)
            }
        },
    }
}

/// Some tree of the pool has a leaf holding `b`.
pub open spec fn in_pool(s: Pool, b: u8) -> bool {
    exists|i: int| 0 <= i < s.len() && (#[trigger] code_of(s[i].1, b)) is Some
}

proof fn lemma_remove_in_pool(s: Pool, i: int, b: u8)
    requires
        0 <= i < s.len(),
    ensures
        in_pool(s, b) == (in_pool(s.remove(i), b) || code_of(s[i].1, b) is Some),
{
    let r = s.remove(i);
    if in_pool(s, b) {
        let k = choose|k: int| 0 <= k < s.len() && (#[trigger] code_of(s[k].1, b)) is Some;
        if k < i {
            assert(r[k] == s[k]);
        } else if k > i {
            assert(r[k - 1] == s[k]);
        }
    }
    if in_pool(r, b) {
        let k = choose|k: int| 0 <= k < r.len() && (#[trigger] code_of(r[k].1, b)) is Some;
        if k < i {
            assert(r[k] == s[k]);
        } else {
            assert(r[k] == s[k + 1]);
        }
    }
}

proof fn lemma_push_in_pool(s: Pool, e: (u64, HuffTree), b: u8)
    ensures
        in_pool(s.push(e), b) == (in_pool(s, b) || code_of(e.1, b) is Some),
{
    let t = s.push(e);
    if in_pool(s, b) {
        let k = choose|k: int| 0 <= k < s.len() && (#[trigger] code_of(s[k].1, b)) is Some;
        assert(t[k] == s[k]);
    }
    if in_pool(t, b) {
        let k = choose|k: int| 0 <= k < t.len() && (#[trigger] code_of(t[k].1, b)) is Some;
        if k < s.len() {
            assert(t[k] == s[k]);
        }
    }
    if code_of(e.1, b) is Some {
        assert(t[s.len() as int] == e);
    }
}

/// The built tree has a leaf for exactly the bytes that the pool's trees
/// have leaves for.
pub proof fn lemma_build_covers(s: Pool, b: u8)
    requires
        s.len() >= 1,
    ensures
        (code_of(build_pool(s), b) is Some) == in_pool(s, b),
    decreases s.len(),
{
    if s.len() == 1 {
        if code_of(s[0].1, b) is Some {
            assert(in_pool(s, b));
        }
    } else {
        let i = min_index(s);
        lemma_min_index(s);
        let a = s[i];
        let s1 = s.remove(i);
        lemma_min_index(s1);
        let j = min_index(s1);
        let c = s1[j];
        let s2 = s1.remove(j);
        let e = (weight_sum(a.0, c.0), HuffTree::Node(Box::new(a.1), Box::new(c.1)));
        lemma_remove_in_pool(s, i, b);
        lemma_remove_in_pool(s1, j, b);
        lemma_push_in_pool(s2, e, b);
        lemma_merge_step_len(s);
        lemma_build_covers(merge_step(s), b);
    }
}

/// A byte has a codeword exactly when the tree has a leaf for it.
pub proof fn lemma_codeword_some(t: HuffTree, b: u8)
    ensures
        (codeword(t, b) is Some) == (code_of(t, b) is Some),
        codeword(t, b) is Some ==> codeword(t, b).unwrap().len() >= 1,
{
}

/// Every byte of the frequency table has a codeword in its tree.
pub proof fn lemma_table_covers(freqs: Seq<(u8, u32)>, k: int)
    requires
        0 <= k < freqs.len(),
    ensures
        codeword(huffman_tree(freqs), freqs[k].0) is Some,
{
    let l = leaves(freqs);
    assert(code_of(l[k].1, freqs[k].0) is Some);
    lemma_build_covers(l, freqs[k].0);
    lemma_codeword_some(huffman_tree(freqs), freqs[k].0);
}

} // verus!
