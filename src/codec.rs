//! The entropy stage: a frequency-table header followed by the Huffman-coded
//! bits of the stream.
//!
//! Layout: one byte holding the number of table entries minus one; per entry
//! the byte value and its count as a big-endian `u32`; the packed code bits;
//! and a last byte saying how many bits of the last payload byte are used.
use vstd::prelude::*;
use crate::bits::{bit_at, bits_between, packs, BitWriter};
use crate::bytes::{be_value, be_bytes, lemma_be_round_trip, get_u32_from_byte_array, get_byte_array_from_u32};
use crate::error::CodecError;
use crate::huffman::{
    HuffTree, huffman_tree, codeword, encode_bits, decode_bits, next_symbol,
    frequency_list_to_huffman_tree, code_table, walk_bits, lemma_table_covers, lemma_encode_push,
    lemma_decode_encode,
};

verus! {

/// How often `b` occurs in `s`.
pub open spec fn count_of(s: Seq<u8>, b: u8) -> nat
    decreases s.len(),
{
    if s.len() == 0 {
        0
    } else {
        count_of(s.drop_last(), b) + if s.last() == b {
            1nat
        } else {
            0nat
        }
    }
}

/// The entries `(value, count)` for the values below `k` that occur in `s`,
/// in ascending order of value.
pub open spec fn freq_upto(s: Seq<u8>, k: nat) -> Seq<(u8, u32)>
    decreases k,
{
    if k == 0 {
        Seq::empty()
    } else {
        let prev = freq_upto(s, (k - 1) as nat);
        let c = count_of(s, (k - 1) as u8);
        if c > 0 {
            prev.push((((k - 1) as u8), c as u32))
        } else {
            prev
        }
    }
}

/// The frequency table of `s`: every byte value that occurs, ascending,
/// with its count.
pub open spec fn frequency_table(s: Seq<u8>) -> Seq<(u8, u32)> {
    freq_upto(s, 256)
}

/// The table entries as bytes: each value, then its count on four bytes.
pub open spec fn entries_bytes(f: Seq<(u8, u32)>) -> Seq<u8>
    decreases f.len(),
{
    if f.len() == 0 {
        Seq::empty()
    } else {
        entries_bytes(f.drop_last()) + seq![f.last().0] + be_bytes(f.last().1 as nat, 4)
    }
}

/// The header for a table of one to 256 entries.
pub open spec fn header_bytes(f: Seq<(u8, u32)>) -> Seq<u8> {
    seq![(f.len() - 1) as u8] + entries_bytes(f)
}

/// The `count` table entries that a header at the front of `blob` holds.
pub open spec fn parse_entries(blob: Seq<u8>, count: nat) -> Seq<(u8, u32)> {
    Seq::new(
        count,
        |i: int| (blob[1 + 5 * i], be_value(blob.subrange(2 + 5 * i, 6 + 5 * i)) as u32),
    )
}

/// `blob` is the encoding of `s`: the header of its frequency table, then
/// the codes of its bytes, packed.
pub open spec fn hc_encoded(s: Seq<u8>, blob: Seq<u8>) -> bool {
    let f = frequency_table(s);
    let h = header_bytes(f).len();
    &&& h <= blob.len()
    &&& blob.subrange(0, h as int) == header_bytes(f)
    &&& packs(blob.subrange(h as int, blob.len() as int), encode_bits(huffman_tree(f), s))
}

/// The bytes that `blob` decodes to; `None` when it is malformed.
pub open spec fn hc_decode_spec(blob: Seq<u8>) -> Option<Seq<u8>> {
    if blob.len() == 0 {
        None
    } else {
        let count = blob[0] as nat + 1;
        let h = 1 + 5 * count;
        let trailer = blob.last() as int;
        if trailer > 8 || (blob.len() - 1) * 8 + trailer < h * 8 + 8 {
            None
        } else {
            decode_bits(
                huffman_tree(parse_entries(blob, count)),
                bits_between(blob, (h * 8) as int, (blob.len() - 1) * 8 - 8 + trailer),
            )
        }
    }
}

proof fn lemma_count_bound(s: Seq<u8>, b: u8)
    ensures
        count_of(s, b) <= s.len(),
    decreases s.len(),
{
    if s.len() > 0 {
        lemma_count_bound(s.drop_last(), b);
    }
}

proof fn lemma_count_positive(s: Seq<u8>, i: int)
    requires
        0 <= i < s.len(),
    ensures
        count_of(s, s[i]) > 0,
    decreases s.len(),
{
    if i < s.len() - 1 {
        assert(s.drop_last()[i] == s[i]);
        lemma_count_positive(s.drop_last(), i);
    }
}

proof fn lemma_freq_upto(s: Seq<u8>, k: nat)
    requires
        k <= 256,
        s.len() <= u32::MAX,
    ensures
        freq_upto(s, k).len() <= k,
        forall|j: int|
            0 <= j < freq_upto(s, k).len() ==> #[trigger] freq_upto(s, k)[j].0 < k,
        forall|b: u8|
            b < k && count_of(s, b) > 0 ==> exists|j: int|
                0 <= j < freq_upto(s, k).len() && #[trigger] freq_upto(s, k)[j].0 == b,
    decreases k,
{
    if k > 0 {
        lemma_freq_upto(s, (k - 1) as nat);
        let prev = freq_upto(s, (k - 1) as nat);
        let cur = freq_upto(s, k);
        assert forall|b: u8| b < k && count_of(s, b) > 0 implies exists|j: int|
            0 <= j < cur.len() && #[trigger] cur[j].0 == b by {
            if b < k - 1 {
                let j = choose|j: int| 0 <= j < prev.len() && #[trigger] prev[j].0 == b;
                assert(cur[j] == prev[j]);
            } else {
                assert(cur[prev.len() as int].0 == b);
            }
        }
    }
}

/// Every byte of a non-empty input has a codeword in the tree of its
/// frequency table, and that table has one to 256 entries.
proof fn lemma_input_covered(s: Seq<u8>)
    requires
        0 < s.len() <= u32::MAX,
    ensures
        1 <= frequency_table(s).len() <= 256,
        forall|i: int| 0 <= i < s.len() ==> #[trigger] codeword(huffman_tree(frequency_table(s)), s[i]) is Some,
{
    lemma_freq_upto(s, 256);
    let f = frequency_table(s);
    lemma_count_positive(s, 0);
    assert forall|i: int| 0 <= i < s.len() implies #[trigger] codeword(huffman_tree(f), s[i]) is Some by {
        lemma_count_positive(s, i);
        let j = choose|j: int| 0 <= j < f.len() && #[trigger] f[j].0 == s[i];
        lemma_table_covers(f, j);
    }
    let j = choose|j: int| 0 <= j < f.len() && #[trigger] f[j].0 == s[0];
}

proof fn lemma_entries_layout(f: Seq<(u8, u32)>)
    ensures
        entries_bytes(f).len() == 5 * f.len(),
        forall|i: int|
            0 <= i < f.len() ==> entries_bytes(f)[5 * i] == (#[trigger] f[i]).0
                && entries_bytes(f).subrange(5 * i + 1, 5 * i + 5) == be_bytes(f[i].1 as nat, 4),
    decreases f.len(),
{
    if f.len() > 0 {
        let d = f.drop_last();
        lemma_entries_layout(d);
        let a = entries_bytes(d);
        let e = entries_bytes(f);
        let last = f.last();
        lemma_be_round_trip_len(last.1 as nat);
        assert(e =~= a + seq![last.0] + be_bytes(last.1 as nat, 4));
        assert forall|i: int| 0 <= i < f.len() implies e[5 * i] == (#[trigger] f[i]).0
            && e.subrange(5 * i + 1, 5 * i + 5) == be_bytes(f[i].1 as nat, 4) by {
            if i < f.len() - 1 {
                assert(d[i] == f[i]);
                assert(a[5 * i] == d[i].0 && a.subrange(5 * i + 1, 5 * i + 5) == be_bytes(d[i].1 as nat, 4));
                assert(e[5 * i] == a[5 * i]);
                assert(e.subrange(5 * i + 1, 5 * i + 5) =~= a.subrange(5 * i + 1, 5 * i + 5));
            } else {
                assert(e.subrange(5 * i + 1, 5 * i + 5) =~= be_bytes(last.1 as nat, 4));
            }
        }
    }
}

proof fn lemma_be_round_trip_len(v: nat)
    requires
        v <= u32::MAX,
    ensures
        be_bytes(v, 4).len() == 4,
        be_value(be_bytes(v, 4)) == v,
{
    crate::lz::lemma_pow256(4);
    vstd::arithmetic::power2::lemma2_to64();
    lemma_be_round_trip(v, 4);
}

/// A header read back gives the table it was written from.
pub proof fn lemma_header_round_trip(f: Seq<(u8, u32)>, rest: Seq<u8>)
    requires
        1 <= f.len() <= 256,
    ensures
        (header_bytes(f) + rest)[0] as nat + 1 == f.len(),
        header_bytes(f).len() == 1 + 5 * f.len(),
        parse_entries(header_bytes(f) + rest, f.len()) == f,
{
    lemma_entries_layout(f);
    let blob = header_bytes(f) + rest;
    let e = entries_bytes(f);
    assert forall|i: int| 0 <= i < f.len() implies #[trigger] parse_entries(blob, f.len())[i] == f[i] by {
        assert(blob[1 + 5 * i] == e[5 * i]);
        assert(blob.subrange(2 + 5 * i, 6 + 5 * i) =~= e.subrange(5 * i + 1, 5 * i + 5));
        lemma_be_round_trip_len(f[i].1 as nat);
    }
    assert(parse_entries(blob, f.len()) =~= f);
}

/// A tree rebuilt from a written frequency table is the tree the table
/// gives, and its code for each byte of the table decodes to that byte.
pub proof fn lemma_header_rebuilds_tree(f: Seq<(u8, u32)>, rest: Seq<u8>)
    requires
        1 <= f.len() <= 256,
    ensures
        huffman_tree(parse_entries(header_bytes(f) + rest, f.len())) == huffman_tree(f),
        forall|k: int|
            0 <= k < f.len() ==> decode_bits(
                huffman_tree(f),
                #[trigger] codeword(huffman_tree(f), f[k].0).unwrap(),
            ) == Some(seq![f[k].0]),
{
    lemma_header_round_trip(f, rest);
    let t = huffman_tree(f);
    assert forall|k: int| 0 <= k < f.len() implies decode_bits(
        t,
        #[trigger] codeword(t, f[k].0).unwrap(),
    ) == Some(seq![f[k].0]) by {
        let b = f[k].0;
        lemma_table_covers(f, k);
        lemma_decode_encode(t, seq![b]);
        assert(seq![b].drop_first() =~= Seq::<u8>::empty());
        assert(encode_bits(t, Seq::<u8>::empty()) == Seq::<bool>::empty());
        assert(codeword(t, b).unwrap() + Seq::<bool>::empty() =~= codeword(t, b).unwrap());
    }
}

/// Decoding an encoding of `s` gives `s`.
pub proof fn lemma_hc_round_trip(s: Seq<u8>, blob: Seq<u8>)
    requires
        0 < s.len() <= u32::MAX,
        hc_encoded(s, blob),
    ensures
        hc_decode_spec(blob) == Some(s),
{
    lemma_input_covered(s);
    let f = frequency_table(s);
    let t = huffman_tree(f);
    let bits = encode_bits(t, s);
    let head = header_bytes(f);
    let h = head.len();
    let body = blob.subrange(h as int, blob.len() as int);
    assert(blob =~= head + body);
    lemma_header_round_trip(f, body);
    assert(blob.last() == body.last());
    let stop = (blob.len() - 1) * 8 - 8 + blob.last() as int;
    assert(stop == h * 8 + bits.len());
    assert(bits_between(blob, (h * 8) as int, stop) =~= bits) by {
        assert forall|i: int| 0 <= i < bits.len() implies #[trigger] bit_at(blob, h * 8 + i)
            == bits[i] by {
            assert((h * 8 + i) / 8 == h + i / 8);
            assert((h * 8 + i) % 8 == i % 8);
            assert(blob[h + i / 8] == body[i / 8]);
            assert(bit_at(body, i) == (i < bits.len() && bits[i]));
        }
    }
    lemma_decode_encode(t, s);
}

/// Counts the bytes of `bytes`: every value that occurs, ascending, with
/// its count.
pub fn frequency_list(bytes: &Vec<u8>) -> (r: Vec<(u8, u32)>)
    requires
        bytes@.len() <= u32::MAX,
    ensures
        r@ == frequency_table(bytes@),
{
    let ghost s = bytes@;
    let mut counts: Vec<u32> = Vec::new();
    let mut v: usize = 0;
    while v < 256
        invariant
            v <= 256,
            counts@.len() == v,
            forall|k: int| 0 <= k < v ==> #[trigger] counts@[k] == 0,
        decreases 256 - v,
    {
        counts.push(0);
        v = v + 1;
    }
    let mut i: usize = 0;
    while i < bytes.len()
        invariant
            s == bytes@,
            s.len() <= u32::MAX,
            i <= s.len(),
            counts@.len() == 256,
            forall|b: u8| #[trigger] counts@[b as int] == count_of(s.subrange(0, i as int), b),
        decreases s.len() - i,
    {
        let b = bytes[i];
        proof {
            lemma_count_bound(s.subrange(0, i as int), b);
            assert forall|c: u8| count_of(s.subrange(0, i + 1), c) == count_of(s.subrange(0, i as int), c)
                + if c == b { 1nat } else { 0nat } by {
                assert(s.subrange(0, i + 1).drop_last() =~= s.subrange(0, i as int));
            }
        }
        let c = counts[b as usize];
        counts.set(b as usize, c + 1);
        i = i + 1;
        assert forall|c: u8| #[trigger] counts@[c as int] == count_of(s.subrange(0, i as int), c) by {
            assert(count_of(s.subrange(0, i as int), c) == count_of(s.subrange(0, i - 1), c)
                + if c == b { 1nat } else { 0nat });
        }
    }
    assert(s.subrange(0, s.len() as int) =~= s);
    let mut r: Vec<(u8, u32)> = Vec::new();
    let mut k: usize = 0;
    while k < 256
        invariant
            k <= 256,
            s == bytes@,
            counts@.len() == 256,
            forall|b: u8| #[trigger] counts@[b as int] == count_of(s, b),
            r@ == freq_upto(s, k as nat),
        decreases 256 - k,
    {
        let c = counts[k];
        assert(counts@[(k as u8) as int] == count_of(s, k as u8));
        if c > 0 {
            r.push((k as u8, c));
        }
        k = k + 1;
    }
    r
}

/// Huffman-encodes `bytes`: the header of its frequency table, then the
/// packed codes of its bytes.
pub fn hc_encode(bytes: &Vec<u8>) -> (r: Result<Vec<u8>, CodecError>)
    ensures
        bytes@.len() == 0 ==> r == Err::<Vec<u8>, CodecError>(CodecError::EmptyInput),
        bytes@.len() > u32::MAX ==> r == Err::<Vec<u8>, CodecError>(CodecError::InputTooLarge),
        0 < bytes@.len() <= u32::MAX ==> (r matches Ok(o) && hc_encoded(bytes@, o@)),
        r matches Ok(o) ==> hc_decode_spec(o@) == Some(bytes@),
{
    let n = bytes.len();
    if n == 0 {
        return Err(CodecError::EmptyInput);
    }
    if n as u64 > 0xffff_ffff {
        return Err(CodecError::InputTooLarge);
    }
    let ghost s = bytes@;
    proof {
        lemma_input_covered(s);
    }
    let freqs = frequency_list(bytes);
    let tree = match frequency_list_to_huffman_tree(&freqs) {
        Some(t) => t,
        None => return Err(CodecError::EmptyInput),
    };
    let table = code_table(&tree);
    let mut out: Vec<u8> = Vec::new();
    out.push((freqs.len() - 1) as u8);
    let mut i: usize = 0;
    while i < freqs.len()
        invariant
            i <= freqs@.len(),
            1 <= freqs@.len() <= 256,
            out@ == seq![(freqs@.len() - 1) as u8] + entries_bytes(freqs@.subrange(0, i as int)),
        decreases freqs@.len() - i,
    {
        let (value, count) = freqs[i];
        let quad = get_byte_array_from_u32(count);
        out.push(value);
        out.push(quad[0]);
        out.push(quad[1]);
        out.push(quad[2]);
        out.push(quad[3]);
        proof {
            let f = freqs@.subrange(0, i + 1);
            assert(f.drop_last() =~= freqs@.subrange(0, i as int));
            assert(quad@ =~= seq![quad[0], quad[1], quad[2], quad[3]]);
        }
        i = i + 1;
        assert(out@ =~= seq![(freqs@.len() - 1) as u8] + entries_bytes(freqs@.subrange(0, i as int)));
    }
    assert(freqs@.subrange(0, freqs@.len() as int) =~= freqs@);
    let mut w = BitWriter::new();
    let mut k: usize = 0;
    while k < n
        invariant
            s == bytes@,
            n == s.len(),
            k <= n,
            w.wf(),
            tree == huffman_tree(frequency_table(s)),
            table@.len() == 256,
            forall|b: u8| #[trigger] table@[b as int]@ == match codeword(tree, b) {
                Some(p) => p,
                None => Seq::<bool>::empty(),
            },
            forall|j: int| 0 <= j < s.len() ==> #[trigger] codeword(tree, s[j]) is Some,
            w.bits() == encode_bits(tree, s.subrange(0, k as int)),
        decreases n - k,
    {
        let b = bytes[k];
        proof {
            assert(codeword(tree, s[k as int]) is Some);
            lemma_encode_push(tree, s.subrange(0, k as int), b);
            assert(s.subrange(0, k as int).push(b) =~= s.subrange(0, k + 1));
        }
        w.extend(&table[b as usize]);
        k = k + 1;
    }
    assert(s.subrange(0, n as int) =~= s);
    let body = w.collect();
    let ghost head = out@;
    let mut j: usize = 0;
    while j < body.len()
        invariant
            j <= body@.len(),
            out@ == head + body@.subrange(0, j as int),
        decreases body@.len() - j,
    {
        out.push(body[j]);
        j = j + 1;
        assert(out@ =~= head + body@.subrange(0, j as int));
    }
    proof {
        assert(body@.subrange(0, body@.len() as int) =~= body@);
        let h = head.len();
        assert(out@.subrange(0, h as int) =~= head);
        assert(out@.subrange(h as int, out@.len() as int) =~= body@);
        lemma_hc_round_trip(s, out@);
    }
    Ok(out)
}

/// Reads the next symbol from the bits of `bytes` between `pos` and `stop`.
fn read_symbol(t: &HuffTree, bytes: &Vec<u8>, pos: usize, stop: usize) -> (r: Option<(u8, usize)>)
    requires
        pos <= stop,
        stop <= bytes@.len() * 8,
    ensures
        match next_symbol(*t, bits_between(bytes@, pos as int, stop as int)) {
            Some(x) => r == Some((x.0, (pos + x.1) as usize)),
            None => r is None,
        },
        r matches Some(x) ==> x.1 <= stop,
{
    match t {
        HuffTree::Leaf(v) => {
            if pos < stop {
                Some((*v, pos + 1))
            } else {
                None
            }
        },
        HuffTree::Node(_, _) => walk_bits(t, bytes, pos, stop),
    }
}

/// `out` followed by what `rest` holds, if anything.
pub open spec fn prepend(out: Seq<u8>, rest: Option<Seq<u8>>) -> Option<Seq<u8>> {
    match rest {
        Some(r) => Some(out + r),
        None => None,
    }
}

/// Decodes a Huffman-encoded stream; malformed streams are refused.
pub fn hc_decode(bytes: &Vec<u8>) -> (r: Result<Vec<u8>, CodecError>)
    requires
        bytes@.len() * 8 <= usize::MAX,
    ensures
        match hc_decode_spec(bytes@) {
            Some(o) => r matches Ok(v) && v@ == o,
            None => r == Err::<Vec<u8>, CodecError>(CodecError::Corrupt),
        },
{
    let ghost blob = bytes@;
    let n = bytes.len();
    if n == 0 {
        return Err(CodecError::Corrupt);
    }
    let count = bytes[0] as usize + 1;
    let h = 1 + 5 * count;
    let trailer = bytes[n - 1] as usize;
    if trailer > 8 || n - 1 < h || (n - 1 - h) * 8 + trailer < 8 {
        return Err(CodecError::Corrupt);
    }
    let mut freqs: Vec<(u8, u32)> = Vec::new();
    let mut i: usize = 0;
    while i < count
        invariant
            blob == bytes@,
            n == blob.len(),
            h == 1 + 5 * count,
            h < n,
            i <= count,
            freqs@ == parse_entries(blob, count as nat).subrange(0, i as int),
        decreases count - i,
    {
        let base = 1 + 5 * i;
        let quad = [bytes[base + 1], bytes[base + 2], bytes[base + 3], bytes[base + 4]];
        assert(quad@ =~= blob.subrange(2 + 5 * i, 6 + 5 * i));
        let c = get_u32_from_byte_array(&quad);
        freqs.push((bytes[base], c));
        i = i + 1;
        assert(freqs@ =~= parse_entries(blob, count as nat).subrange(0, i as int));
    }
    assert(freqs@ =~= parse_entries(blob, count as nat));
    let tree = match frequency_list_to_huffman_tree(&freqs) {
        Some(t) => t,
        None => return Err(CodecError::Corrupt),
    };
    let start = h * 8;
    let stop = (n - 1) * 8 - 8 + trailer;
    let mut out: Vec<u8> = Vec::new();
    let mut pos = start;
    assert(prepend(Seq::<u8>::empty(), decode_bits(tree, bits_between(blob, start as int, stop as int)))
        =~= decode_bits(tree, bits_between(blob, start as int, stop as int))) by {
        match decode_bits(tree, bits_between(blob, start as int, stop as int)) {
            Some(r) => {
                assert(Seq::<u8>::empty() + r =~= r);
            },
            None => {},
        }
    }
    while pos < stop
        invariant
            blob == bytes@,
            start <= pos <= stop,
            stop <= blob.len() * 8,
            hc_decode_spec(blob) == prepend(out@, decode_bits(tree, bits_between(blob, pos as int, stop as int))),
        decreases stop - pos,
    {
        let ghost bits = bits_between(blob, pos as int, stop as int);
        match read_symbol(&tree, bytes, pos, stop) {
            Some((v, next)) => {
                if next <= pos {
                    return Err(CodecError::Corrupt);
                }
                proof {
                    let k = (next - pos) as nat;
                    crate::huffman::lemma_walk_len(tree, bits);
                    assert(next_symbol(tree, bits) == Some((v, k)));
                    assert(bits.skip(k as int) =~= bits_between(blob, next as int, stop as int));
                    match decode_bits(tree, bits.skip(k as int)) {
                        Some(rest) => {
                            assert(out@ + (seq![v] + rest) =~= out@.push(v) + rest);
                        },
                        None => {},
                    }
                }
                out.push(v);
                pos = next;
            },
            None => {
                return Err(CodecError::Corrupt);
            },
        }
    }
    assert(out@ + Seq::<u8>::empty() =~= out@);
    Ok(out)
}

} // verus!
