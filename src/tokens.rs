//! The token stream of the dictionary stage.
//!
//! A stream is a 16-bit big-endian length `r`, then `r` literal bytes, then
//! any number of records, each an indicator `(back_ref, length, run)`
//! followed by `run` literal bytes. Decoding an indicator copies `length`
//! bytes, one at a time and front to back, from `back_ref` bytes before the
//! end of the output, so that a copy may overlap what it produces.
use vstd::prelude::*;
use crate::bytes::{be_value, be_bytes, lemma_be_round_trip};
use crate::error::CodecError;
use crate::lz::{
    LzConfig, best_match, indicator_of, fields_of, lemma_indicator_round_trip,
    get_indicator_from_data, get_data_from_indicator, get_byte_array_from_u16,
    get_u16_from_byte_array, find_match_in_window, pow2_u64,
};
use vstd::arithmetic::power2::{lemma_pow2_pos, lemma_pow2_strictly_increases, lemma2_to64};

verus! {

/// What opens the literal run `run` long that ends at the current flush:
/// the 16-bit length for the first run, else the indicator of the match
/// before it.
pub open spec fn run_header(cfg: LzConfig, first: bool, back_ref: nat, length: nat, run: nat) -> Seq<
    u8,
> {
    if first {
        be_bytes(run, 2)
    } else {
        indicator_of(cfg, back_ref, length, run)
    }
}

/// The greedy encoder from position `split`, with the pending literal run
/// starting at `start` and the pending match `(back_ref, length)` (unless
/// `first`). At each position it takes the best match when that is longer
/// than an indicator, or when the pending run has reached its largest
/// length; else the byte joins the literal run. Taking a match emits the
/// pending header and run and continues right after the match. (The empty
/// branch is never reached: a chosen match fits in the input, and a run
/// that forces a flush is not empty.)
pub open spec fn lz_steps(
    cfg: LzConfig,
    x: Seq<u8>,
    split: nat,
    start: nat,
    first: bool,
    back_ref: nat,
    length: nat,
) -> Seq<u8>
    decreases 2 * (x.len() - split) + (if split > start {
        1int
    } else {
        0int
    }),
{
    if split >= x.len() {
        run_header(cfg, first, back_ref, length, (x.len() - start) as nat) + x.subrange(
            start as int,
            x.len() as int,
        )
    } else {
        let m = best_match(cfg, x, split);
        if m.1 > cfg.indicator_len() || split - start >= cfg.max_run() {
            if split + m.1 <= x.len() && (m.1 > 0 || split > start) {
                run_header(cfg, first, back_ref, length, (split - start) as nat) + x.subrange(
                    start as int,
                    split as int,
                ) + lz_steps(cfg, x, split + m.1, split + m.1, false, m.0, m.1)
            } else {
                Seq::empty()
            }
        } else {
            lz_steps(cfg, x, split + 1, start, first, back_ref, length)
        }
    }
}

/// The token stream that encodes `x`.
pub open spec fn lz_tokens(cfg: LzConfig, x: Seq<u8>) -> Seq<u8> {
    lz_steps(cfg, x, 0, 0, true, 0, 0)
}

/// `out` extended by `length` bytes, each a copy of the byte `back_ref`
/// before the end at the moment it is written.
pub open spec fn copy_back(out: Seq<u8>, back_ref: nat, length: nat) -> Seq<u8>
    decreases length,
{
    if length == 0 {
        out
    } else {
        let o = copy_back(out, back_ref, (length - 1) as nat);
        o.push(o[o.len() - back_ref])
    }
}

/// A copy that reaches back `back_ref` bytes and runs longer than that
/// repeats the last `back_ref` bytes over and over.
pub proof fn lemma_overlapping_copy(out: Seq<u8>, back_ref: nat, length: nat, i: nat)
    requires
        1 <= back_ref <= out.len(),
        i < length,
    ensures
        copy_back(out, back_ref, length).len() == out.len() + length,
        copy_back(out, back_ref, length)[(out.len() + i) as int] == out[out.len() - back_ref + (i
            % back_ref) as int],
    decreases length,
{
    let m = out.len();
    let o = copy_back(out, back_ref, (length - 1) as nat);
    lemma_copy_back_prefix(out, back_ref, (length - 1) as nat);
    if i < length - 1 {
        lemma_overlapping_copy(out, back_ref, (length - 1) as nat, i);
    } else if i < back_ref {
        vstd::arithmetic::div_mod::lemma_small_mod(i, back_ref);
    } else {
        let j = (i - back_ref) as nat;
        lemma_overlapping_copy(out, back_ref, (length - 1) as nat, j);
        vstd::arithmetic::div_mod::lemma_mod_sub_multiples_vanish(i as int, back_ref as int);
    }
}

proof fn lemma_copy_back_prefix(out: Seq<u8>, back_ref: nat, length: nat)
    ensures
        copy_back(out, back_ref, length).len() == out.len() + length,
        forall|k: int| 0 <= k < out.len() ==> #[trigger] copy_back(out, back_ref, length)[k] == out[k],
    decreases length,
{
    if length > 0 {
        lemma_copy_back_prefix(out, back_ref, (length - 1) as nat);
    }
}

/// Decoding the records of `t` from `pos` on, after `out` was produced.
pub open spec fn lz_decode_from(cfg: LzConfig, t: Seq<u8>, pos: nat, out: Seq<u8>) -> Option<
    Seq<u8>,
>
    decreases t.len() - pos,
{
    let k = cfg.indicator_len();
    if pos >= t.len() {
        Some(out)
    } else if k == 0 || pos + k > t.len() {
        None
    } else {
        let f = fields_of(cfg, t.subrange(pos as int, (pos + k) as int));
        if f.0 > out.len() || (f.0 == 0 && f.1 > 0) || pos + k + f.2 > t.len() {
            None
        } else {
            lz_decode_from(
                cfg,
                t,
                pos + k + f.2,
                copy_back(out, f.0, f.1) + t.subrange((pos + k) as int, (pos + k + f.2) as int),
            )
        }
    }
}

/// The bytes that the token stream `t` decodes to; `None` when it is
/// malformed.
pub open spec fn lz_decode_spec(cfg: LzConfig, t: Seq<u8>) -> Option<Seq<u8>> {
    if t.len() < 2 {
        None
    } else {
        let r = be_value(t.subrange(0, 2));
        if 2 + r > t.len() {
            None
        } else {
            lz_decode_from(cfg, t, 2 + r, t.subrange(2, 2 + r as int))
        }
    }
}

proof fn lemma_copy_back(x: Seq<u8>, m: nat, back_ref: nat, length: nat)
    requires
        m + length <= x.len(),
        length > 0 ==> 1 <= back_ref <= m,
        forall|i: int| 0 <= i < length ==> #[trigger] x[m - back_ref + i] == x[m + i],
    ensures
        copy_back(x.subrange(0, m as int), back_ref, length) == x.subrange(0, (m + length) as int),
    decreases length,
{
    if length == 0 {
    } else {
        lemma_copy_back(x, m, back_ref, (length - 1) as nat);
        let i = length - 1;
        assert(x[m - back_ref + i] == x[m + i]);
        assert(x.subrange(0, m + (length - 1)).push(x[m + i]) =~= x.subrange(0, (m + length) as int));
    }
}

/// One record, an indicator and its literal run, decodes to the match it
/// names and the run.
proof fn lemma_one_record(
    cfg: LzConfig,
    x: Seq<u8>,
    split: nat,
    start: nat,
    back_ref: nat,
    length: nat,
    p: Seq<u8>,
    rest: Seq<u8>,
)
    requires
        cfg.wf(),
        start <= split <= x.len(),
        length <= start,
        split - start <= cfg.max_run(),
        back_ref <= cfg.window(),
        length <= cfg.max_length(),
        back_ref <= start - length,
        length > 0 ==> back_ref >= 1,
        forall|i: int|
            0 <= i < length ==> #[trigger] x[start - length - back_ref + i] == x[start - length
                + i],
    ensures
        ({
            let t = p + indicator_of(cfg, back_ref, length, (split - start) as nat) + x.subrange(
                start as int,
                split as int,
            ) + rest;
            lz_decode_from(cfg, t, p.len(), x.subrange(0, start - length)) == lz_decode_from(
                cfg,
                t,
                p.len() + cfg.indicator_len() + (split - start) as nat,
                x.subrange(0, split as int),
            )
        }),
{
    let k = cfg.indicator_len();
    let run = (split - start) as nat;
    let ind = indicator_of(cfg, back_ref, length, run);
    let t = p + ind + x.subrange(start as int, split as int) + rest;
    lemma_indicator_round_trip(cfg, back_ref, length, run);
    assert(t.subrange(p.len() as int, (p.len() + k) as int) =~= ind);
    assert(t.subrange((p.len() + k) as int, (p.len() + k + run) as int) =~= x.subrange(
        start as int,
        split as int,
    ));
    lemma_copy_back(x, (start - length) as nat, back_ref, length);
    assert(x.subrange(0, start as int) + x.subrange(start as int, split as int) =~= x.subrange(
        0,
        split as int,
    ));
}

/// The records that the encoder emits from a state decode, after the bytes
/// before the pending match, to the whole input.
#[verifier::spinoff_prover]
#[verifier::rlimit(40)]
proof fn lemma_steps_decode(
    cfg: LzConfig,
    x: Seq<u8>,
    split: nat,
    start: nat,
    back_ref: nat,
    length: nat,
    p: Seq<u8>,
)
    requires
        cfg.wf(),
        start <= split <= x.len(),
        length <= start,
        split - start <= cfg.max_run(),
        back_ref <= cfg.window(),
        length <= cfg.max_length(),
        back_ref <= start - length,
        length > 0 ==> back_ref >= 1,
        forall|i: int|
            0 <= i < length ==> #[trigger] x[start - length - back_ref + i] == x[start - length
                + i],
    ensures
        lz_decode_from(
            cfg,
            p + lz_steps(cfg, x, split, start, false, back_ref, length),
            p.len(),
            x.subrange(0, start - length),
        ) == Some(x),
    decreases 2 * (x.len() - split) + (if split > start {
        1int
    } else {
        0int
    }),
{
    let k = cfg.indicator_len();
    if split >= x.len() {
        let run = (x.len() - start) as nat;
        let ind = indicator_of(cfg, back_ref, length, run);
        let t = p + lz_steps(cfg, x, split, start, false, back_ref, length);
        lemma_indicator_round_trip(cfg, back_ref, length, run);
        assert(t =~= p + ind + x.subrange(start as int, split as int) + Seq::empty());
        lemma_one_record(cfg, x, split, start, back_ref, length, p, Seq::empty());
        assert(x.subrange(0, split as int) =~= x);
    } else {
        let m = best_match(cfg, x, split);
        crate::lz::lemma_best_upto(
            x,
            split as int,
            crate::lz::search_width(cfg, split),
            crate::lz::length_cap(cfg, x, split),
        );
        if m.1 > k || split - start >= cfg.max_run() {
            lemma_pow2_strictly_increases(0, cfg.distance_bits as nat);
            lemma2_to64();
            assert(k >= 1);
            assert(split + m.1 <= x.len() && (m.1 > 0 || split > start));
            let run = (split - start) as nat;
            let ind = indicator_of(cfg, back_ref, length, run);
            let rest = lz_steps(cfg, x, split + m.1, split + m.1, false, m.0, m.1);
            let t = p + lz_steps(cfg, x, split, start, false, back_ref, length);
            let p2 = p + ind + x.subrange(start as int, split as int);
            lemma_indicator_round_trip(cfg, back_ref, length, run);
            assert(t =~= p2 + rest);
            lemma_one_record(cfg, x, split, start, back_ref, length, p, rest);
            lemma_steps_decode(cfg, x, split + m.1, split + m.1, m.0, m.1, p2);
            assert((split + m.1 - m.1) as nat == split);
        } else {
            lemma_steps_decode(cfg, x, split + 1, start, back_ref, length, p);
        }
    }
}

/// The stream that the encoder emits while the first literal run is still
/// pending decodes to the whole input.
proof fn lemma_first_run_decode(cfg: LzConfig, x: Seq<u8>, split: nat)
    requires
        cfg.wf(),
        split <= x.len(),
        split <= cfg.max_run(),
    ensures
        lz_decode_spec(cfg, lz_steps(cfg, x, split, 0, true, 0, 0)) == Some(x),
    decreases 2 * (x.len() - split) + (if split > 0 {
        1int
    } else {
        0int
    }),
{
    let t = lz_steps(cfg, x, split, 0, true, 0, 0);
    lemma_pow2_pos(cfg.distance_bits as nat);
    crate::lz::lemma_pow2_strictly_increases_or_eq(cfg.distance_bits as nat, 16);
    lemma2_to64();
    crate::lz::lemma_pow256(2);
    if split >= x.len() {
        let n = x.len();
        lemma_be_round_trip(n, 2);
        assert(t =~= be_bytes(n, 2) + x);
        assert(t.subrange(0, 2) =~= be_bytes(n, 2));
        assert(t.subrange(2, 2 + n as int) =~= x);
    } else {
        let m = best_match(cfg, x, split);
        crate::lz::lemma_best_upto(
            x,
            split as int,
            crate::lz::search_width(cfg, split),
            crate::lz::length_cap(cfg, x, split),
        );
        if m.1 > cfg.indicator_len() || split >= cfg.max_run() {
            let rest = lz_steps(cfg, x, split + m.1, split + m.1, false, m.0, m.1);
            let p = be_bytes(split, 2) + x.subrange(0, split as int);
            lemma_be_round_trip(split, 2);
            assert(t =~= p + rest);
            assert(t.subrange(0, 2) =~= be_bytes(split, 2));
            assert(t.subrange(2, 2 + split as int) =~= x.subrange(0, split as int));
            lemma_steps_decode(cfg, x, split + m.1, split + m.1, m.0, m.1, p);
            assert((split + m.1 - m.1) as nat == split);
        } else {
            lemma_first_run_decode(cfg, x, split + 1);
        }
    }
}

/// Decoding the token stream of any input gives the input back.
pub proof fn lemma_lz_round_trip(cfg: LzConfig, x: Seq<u8>)
    requires
        cfg.wf(),
    ensures
        lz_decode_spec(cfg, lz_tokens(cfg, x)) == Some(x),
{
    lemma_first_run_decode(cfg, x, 0);
}

/// Appends `src[from..to]` to `out`.
fn extend_from(out: &mut Vec<u8>, src: &Vec<u8>, from: usize, to: usize)
    requires
        from <= to <= src@.len(),
    ensures
        final(out)@ == old(out)@ + src@.subrange(from as int, to as int),
{
    let ghost base = out@;
    let mut i = from;
    while i < to
        invariant
            from <= i <= to <= src@.len(),
            out@ == base + src@.subrange(from as int, i as int),
        decreases to - i,
    {
        out.push(src[i]);
        i = i + 1;
        assert(out@ =~= base + src@.subrange(from as int, i as int));
    }
}

/// Appends the header that opens a literal run: the 16-bit run length for
/// the first run, else the indicator of the pending match.
fn push_run_header(
    out: &mut Vec<u8>,
    cfg: &LzConfig,
    first: bool,
    back_ref: usize,
    length: usize,
    run: usize,
)
    requires
        cfg.wf(),
        back_ref <= cfg.window(),
        length <= cfg.max_length(),
        run <= cfg.max_run(),
    ensures
        final(out)@ == old(out)@ + run_header(*cfg, first, back_ref as nat, length as nat, run as nat),
{
    if first {
        proof {
            crate::lz::lemma_pow2_strictly_increases_or_eq(cfg.distance_bits as nat, 16);
            lemma2_to64();
        }
        let head = get_byte_array_from_u16(run as u16);
        out.push(head[0]);
        out.push(head[1]);
        assert(head@ =~= seq![head[0], head[1]]);
        assert(out@ =~= old(out)@ + head@);
    } else {
        let ind = get_indicator_from_data(cfg, back_ref as u64, length as u64, run as u64);
        let ghost before = out@;
        let mut i: usize = 0;
        while i < ind.len()
            invariant
                i <= ind@.len(),
                out@ == before + ind@.subrange(0, i as int),
            decreases ind@.len() - i,
        {
            out.push(ind[i]);
            i = i + 1;
            assert(out@ =~= before + ind@.subrange(0, i as int));
        }
        assert(ind@.subrange(0, ind@.len() as int) =~= ind@);
    }
}

/// Encodes `bytes` as a token stream: greedy windowed matching, a match
/// being taken when it is longer than an indicator.
pub fn lz_encode(cfg: &LzConfig, bytes: &Vec<u8>) -> (r: Vec<u8>)
    requires
        cfg.wf(),
    ensures
        r@ == lz_tokens(*cfg, bytes@),
        lz_decode_spec(*cfg, r@) == Some(bytes@),
{
    let n = bytes.len();
    let ib = cfg.indicator_bytes();
    proof {
        lemma_pow2_pos(cfg.distance_bits as nat);
        crate::lz::lemma_pow2_strictly_increases_or_eq(cfg.distance_bits as nat, 16);
        lemma_pow2_strictly_increases(0, cfg.distance_bits as nat);
        lemma2_to64();
    }
    let max_run = (pow2_u64(cfg.distance_bits) - 1) as usize;
    let ghost x = bytes@;
    let mut out: Vec<u8> = Vec::new();
    let mut split: usize = 0;
    let mut start: usize = 0;
    let mut first = true;
    let mut back_ref: usize = 0;
    let mut length: usize = 0;
    assert(out@ + lz_steps(*cfg, x, 0, 0, true, 0, 0) =~= lz_tokens(*cfg, x));
    while split < n
        invariant
            cfg.wf(),
            x == bytes@,
            n == x.len(),
            ib == cfg.indicator_len(),
            max_run == cfg.max_run(),
            1 <= max_run,
            start <= split <= n,
            split - start <= max_run,
            back_ref <= cfg.window(),
            length <= cfg.max_length(),
            out@ + lz_steps(*cfg, x, split as nat, start as nat, first, back_ref as nat, length as nat)
                == lz_tokens(*cfg, x),
        decreases 2 * (n - split) + (if split > start {
            1int
        } else {
            0int
        }),
    {
        let (br, len) = find_match_in_window(cfg, bytes, split);
        if len > ib || split - start >= max_run {
            let ghost old_out = out@;
            let ghost rest = lz_steps(*cfg, x, (split + len) as nat, (split + len) as nat, false, br as nat, len as nat);
            push_run_header(&mut out, cfg, first, back_ref, length, split - start);
            extend_from(&mut out, bytes, start, split);
            assert(out@ + rest =~= old_out + lz_steps(*cfg, x, split as nat, start as nat, first, back_ref as nat, length as nat));
            first = false;
            back_ref = br;
            length = len;
            split = split + len;
            start = split;
        } else {
            split = split + 1;
        }
    }
    let ghost old_out = out@;
    push_run_header(&mut out, cfg, first, back_ref, length, n - start);
    extend_from(&mut out, bytes, start, n);
    assert(out@ =~= old_out + lz_steps(*cfg, x, split as nat, start as nat, first, back_ref as nat, length as nat));
    proof {
        lemma_lz_round_trip(*cfg, x);
    }
    out
}

/// Decodes a token stream; malformed streams are refused.
pub fn lz_decode(cfg: &LzConfig, bytes: &Vec<u8>) -> (r: Result<Vec<u8>, CodecError>)
    requires
        cfg.wf(),
    ensures
        match lz_decode_spec(*cfg, bytes@) {
            Some(o) => r matches Ok(v) && v@ == o,
            None => r == Err::<Vec<u8>, CodecError>(CodecError::Corrupt),
        },
{
    let n = bytes.len();
    let ghost t = bytes@;
    if n < 2 {
        return Err(CodecError::Corrupt);
    }
    let head = [bytes[0], bytes[1]];
    assert(head@ =~= t.subrange(0, 2));
    let first_len = get_u16_from_byte_array(&head) as usize;
    if first_len > n - 2 {
        return Err(CodecError::Corrupt);
    }
    let mut out: Vec<u8> = Vec::new();
    extend_from(&mut out, bytes, 2, 2 + first_len);
    assert(out@ =~= t.subrange(2, 2 + first_len as int));
    let ib = cfg.indicator_bytes();
    let mut pos: usize = 2 + first_len;
    while pos < n
        invariant
            cfg.wf(),
            t == bytes@,
            n == t.len(),
            ib == cfg.indicator_len(),
            pos <= n,
            lz_decode_spec(*cfg, t) == lz_decode_from(*cfg, t, pos as nat, out@),
        decreases n - pos,
    {
        if ib > n - pos {
            return Err(CodecError::Corrupt);
        }
        let mut ind: Vec<u8> = Vec::new();
        extend_from(&mut ind, bytes, pos, pos + ib);
        assert(ind@ =~= t.subrange(pos as int, (pos + ib) as int));
        let (back_ref, length, run) = get_data_from_indicator(cfg, ind.as_slice());
        if back_ref > out.len() as u64 || (back_ref == 0 && length > 0) || run > (n - pos - ib) as u64 {
            return Err(CodecError::Corrupt);
        }
        let ghost out0 = out@;
        let br = back_ref as usize;
        let mut j: u64 = 0;
        while j < length
            invariant
                j <= length,
                1 <= br <= out0.len() || length == 0,
                br == back_ref,
                out@ == copy_back(out0, back_ref as nat, j as nat),
                out@.len() == out0.len() + j,
            decreases length - j,
        {
            let b = out[out.len() - br];
            out.push(b);
            j = j + 1;
        }
        let run_end = pos + ib + run as usize;
        extend_from(&mut out, bytes, pos + ib, run_end);
        pos = run_end;
    }
    Ok(out)
}

} // verus!
