//! The dictionary stage's building blocks: the field widths, packing of the
//! fixed-width match indicators, and the windowed longest-match search.
use vstd::prelude::*;
use vstd::arithmetic::power::pow;
use vstd::arithmetic::power2::{pow2, lemma_pow2_unfold, lemma_pow2_adds, lemma_pow2_strictly_increases, lemma2_to64, lemma2_to64_rest, lemma_pow2_pos};
use vstd::arithmetic::div_mod::lemma_fundamental_div_mod_converse;
use crate::bytes::{be_value, be_bytes, lemma_be_round_trip};
use crate::error::CodecError;

verus! {

/// Bit widths of the three fields of a match indicator.
///
/// A wider window finds more matches but makes every indicator longer; the
/// widths together decide how many bytes an indicator takes.
#[derive(Debug, Clone, Copy, PartialEq, Eq, Structural)]
pub struct LzConfig {
    /// Bits of the back-reference offset.
    pub window_bits: u32,
    /// Bits of the match length.
    pub length_bits: u32,
    /// Bits of the literal-run length that follows a match.
    pub distance_bits: u32,
}

impl LzConfig {
    /// Every field has at least one bit, a literal run fits the 16-bit
    /// prefix of the stream, and an indicator fits in seven bytes.
    pub open spec fn wf(self) -> bool {
        &&& 1 <= self.window_bits
        &&& 1 <= self.length_bits
        &&& 1 <= self.distance_bits <= 16
        &&& self.window_bits + self.length_bits + self.distance_bits <= 56
    }

    /// Bytes taken by one indicator.
    pub open spec fn indicator_len(self) -> nat {
        ((self.window_bits + self.length_bits + self.distance_bits + 7) / 8) as nat
    }

    /// The largest back-reference offset.
    pub open spec fn window(self) -> nat {
        (pow2(self.window_bits as nat) - 1) as nat
    }

    /// The largest match length.
    pub open spec fn max_length(self) -> nat {
        (pow2(self.length_bits as nat) - 1) as nat
    }

    /// The longest literal run between two indicators.
    pub open spec fn max_run(self) -> nat {
        (pow2(self.distance_bits as nat) - 1) as nat
    }

    /// Builds a configuration, refusing widths that do not fit the format.
    pub fn new(window_bits: u32, length_bits: u32, distance_bits: u32) -> (r: Result<
        LzConfig,
        CodecError,
    >)
        ensures
            r is Ok <==> (LzConfig { window_bits, length_bits, distance_bits }).wf(),
            r matches Ok(c) ==> c == (LzConfig { window_bits, length_bits, distance_bits }),
            r matches Err(e) ==> e == CodecError::InvalidConfig,
    {
        if 1 <= window_bits && 1 <= length_bits && 1 <= distance_bits && distance_bits <= 16
            && window_bits <= 56 && length_bits <= 56 && distance_bits + window_bits + length_bits
            <= 56 {
            Ok(LzConfig { window_bits, length_bits, distance_bits })
        } else {
            Err(CodecError::InvalidConfig)
        }
    }

    /// The usual widths: an 18-bit window, 12-bit lengths and 10-bit runs,
    /// five bytes per indicator.
    pub fn standard() -> (r: LzConfig)
        ensures
            r.wf(),
            r == (LzConfig { window_bits: 18, length_bits: 12, distance_bits: 10 }),
    {
        LzConfig { window_bits: 18, length_bits: 12, distance_bits: 10 }
    }

    /// Bytes taken by one indicator.
    pub fn indicator_bytes(&self) -> (r: usize)
        requires
            self.wf(),
        ensures
            r == self.indicator_len(),
            1 <= r <= 7,
    {
        ((self.window_bits + self.length_bits + self.distance_bits + 7) / 8) as usize
    }
}

/// `2^k` as a machine integer.
pub fn pow2_u64(k: u32) -> (r: u64)
    requires
        k < 64,
    ensures
        r as nat == pow2(k as nat),
{
    let mut r: u64 = 1;
    let mut i: u32 = 0;
    proof {
        lemma2_to64();
    }
    while i < k
        invariant
            i <= k < 64,
            r as nat == pow2(i as nat),
        decreases k - i,
    {
        proof {
            lemma_pow2_unfold((i + 1) as nat);
            lemma_pow2_strictly_increases((i + 1) as nat, 64);
            lemma2_to64_rest();
        }
        r = r * 2;
        i = i + 1;
    }
    r
}

/// The number an indicator packs: back-reference, then length, then run
/// length, from the most significant bits down.
pub open spec fn indicator_value(cfg: LzConfig, back_ref: nat, length: nat, run: nat) -> nat {
    (back_ref * pow2(cfg.length_bits as nat) + length) * pow2(cfg.distance_bits as nat) + run
}

/// The bytes of an indicator, most significant first.
pub open spec fn indicator_of(cfg: LzConfig, back_ref: nat, length: nat, run: nat) -> Seq<u8> {
    be_bytes(indicator_value(cfg, back_ref, length, run), cfg.indicator_len())
}

/// The fields `(back_ref, length, run)` that the bytes of an indicator hold.
pub open spec fn fields_of(cfg: LzConfig, s: Seq<u8>) -> (nat, nat, nat) {
    let v = be_value(s);
    let pl = pow2(cfg.length_bits as nat);
    let pd = pow2(cfg.distance_bits as nat);
    ((v / pd / pl) % pow2(cfg.window_bits as nat), (v / pd) % pl, v % pd)
}

/// Unpacking a packed indicator gives its fields back.
pub proof fn lemma_indicator_round_trip(cfg: LzConfig, back_ref: nat, length: nat, run: nat)
    requires
        cfg.wf(),
        back_ref <= cfg.window(),
        length <= cfg.max_length(),
        run <= cfg.max_run(),
    ensures
        indicator_of(cfg, back_ref, length, run).len() == cfg.indicator_len(),
        fields_of(cfg, indicator_of(cfg, back_ref, length, run)) == (back_ref, length, run),
{
    let w = cfg.window_bits as nat;
    let l = cfg.length_bits as nat;
    let d = cfg.distance_bits as nat;
    let pw = pow2(w);
    let pl = pow2(l);
    let pd = pow2(d);
    lemma_pow2_pos(w);
    lemma_pow2_pos(l);
    lemma_pow2_pos(d);
    let hi = back_ref * pl + length;
    let v = hi * pd + run;
    lemma_fundamental_div_mod_converse(v as int, pd as int, hi as int, run as int);
    lemma_fundamental_div_mod_converse(hi as int, pl as int, back_ref as int, length as int);
    lemma_fundamental_div_mod_converse(back_ref as int, pw as int, 0, back_ref as int);
    // v < 2^(w + l + d) <= 256^indicator_len
    assert(hi < pw * pl) by (nonlinear_arith)
        requires hi == back_ref * pl + length, back_ref + 1 <= pw, length + 1 <= pl;
    assert(v < pw * pl * pd) by (nonlinear_arith)
        requires v == hi * pd + run, hi + 1 <= pw * pl, run + 1 <= pd;
    lemma_pow2_adds(w, l);
    lemma_pow2_adds(w + l, d);
    let k = cfg.indicator_len();
    assert(w + l + d <= 8 * k);
    lemma_pow2_strictly_increases_or_eq(w + l + d, 8 * k);
    lemma_pow256(k);
    lemma_be_round_trip(v, k);
}

pub proof fn lemma_pow2_strictly_increases_or_eq(a: nat, b: nat)
    requires
        a <= b,
    ensures
        pow2(a) <= pow2(b),
{
    if a < b {
        lemma_pow2_strictly_increases(a, b);
    }
}

pub proof fn lemma_pow256(k: nat)
    ensures
        pow(256, k) == pow2(8 * k),
    decreases k,
{
    if k == 0 {
        vstd::arithmetic::power::lemma_pow0(256);
        vstd::arithmetic::power2::lemma_pow2(0);
        vstd::arithmetic::power::lemma_pow0(2);
    } else {
        lemma_pow256((k - 1) as nat);
        vstd::arithmetic::power::lemma_pow_adds(256, 1, (k - 1) as nat);
        vstd::arithmetic::power::lemma_pow1(256);
        lemma_pow2_adds(8, 8 * (k - 1) as nat);
        lemma2_to64();
        assert(8 + 8 * (k - 1) as nat == 8 * k);
    }
}

/// The `k` low-order big-endian bytes of `v`.
pub fn be_bytes_of(v: u64, k: usize) -> (r: Vec<u8>)
    ensures
        r@ == be_bytes(v as nat, k as nat),
    decreases k,
{
    if k == 0 {
        Vec::new()
    } else {
        let mut r = be_bytes_of(v / 256, k - 1);
        r.push((v % 256) as u8);
        r
    }
}

/// The value of at most seven big-endian bytes.
pub fn be_value_of(s: &[u8]) -> (r: u64)
    requires
        s@.len() <= 7,
    ensures
        r as nat == be_value(s@),
{
    let mut acc: u64 = 0;
    let mut i: usize = 0;
    proof {
        vstd::arithmetic::power::lemma_pow0(256);
        assert(s@.subrange(0, 0) =~= Seq::<u8>::empty());
        lemma_pow256(7);
        lemma_pow256(6);
        lemma2_to64_rest();
    }
    while i < s.len()
        invariant
            i <= s@.len() <= 7,
            acc as nat == be_value(s@.subrange(0, i as int)),
            acc < pow(256, i as nat),
            pow(256, 7) == 0x100_0000_0000_0000,
            pow(256, 6) == 0x1_0000_0000_0000,
        decreases s@.len() - i,
    {
        proof {
            vstd::arithmetic::power::lemma_pow_increases(256, i as nat, 6);
            vstd::arithmetic::power::lemma_pow_adds(256, i as nat, 1);
            vstd::arithmetic::power::lemma_pow1(256);
            assert(s@.subrange(0, i + 1).drop_last() =~= s@.subrange(0, i as int));
        }
        acc = acc * 256 + s[i] as u64;
        i = i + 1;
    }
    assert(s@.subrange(0, s@.len() as int) =~= s@);
    acc
}

/// Packs `(back_ref, length, run)` into an indicator.
pub fn get_indicator_from_data(cfg: &LzConfig, back_ref: u64, length: u64, run: u64) -> (r: Vec<
    u8,
>)
    requires
        cfg.wf(),
        back_ref <= cfg.window(),
        length <= cfg.max_length(),
        run <= cfg.max_run(),
    ensures
        r@ == indicator_of(*cfg, back_ref as nat, length as nat, run as nat),
        r@.len() == cfg.indicator_len(),
{
    let pl = pow2_u64(cfg.length_bits);
    let pd = pow2_u64(cfg.distance_bits);
    let pw = pow2_u64(cfg.window_bits);
    proof {
        lemma_indicator_round_trip(*cfg, back_ref as nat, length as nat, run as nat);
        lemma_pow2_pos(cfg.window_bits as nat);
        lemma_pow2_pos(cfg.length_bits as nat);
        lemma_pow2_pos(cfg.distance_bits as nat);
        lemma_pow2_adds(cfg.window_bits as nat, cfg.length_bits as nat);
        lemma_pow2_adds((cfg.window_bits + cfg.length_bits) as nat, cfg.distance_bits as nat);
        lemma_pow2_strictly_increases_or_eq(
            (cfg.window_bits + cfg.length_bits + cfg.distance_bits) as nat,
            56,
        );
        lemma2_to64_rest();
        assert(back_ref * pl + length < pw * pl) by (nonlinear_arith)
            requires back_ref + 1 <= pw, length + 1 <= pl;
        assert((back_ref * pl + length) * pd + run < pw * pl * pd) by (nonlinear_arith)
            requires back_ref * pl + length + 1 <= pw * pl, run + 1 <= pd;
        assert(pw * pl * pd <= 0x100_0000_0000_0000);
        assert(pw * pl <= pw * pl * pd) by (nonlinear_arith)
            requires pd >= 1;
        assert(back_ref * pl <= (back_ref * pl + length) * pd) by (nonlinear_arith)
            requires pd >= 1;
        assert((back_ref * pl + length) * pd <= (back_ref * pl + length) * pd + run);
    }
    let hi = back_ref * pl + length;
    let v = hi * pd + run;
    be_bytes_of(v, cfg.indicator_bytes())
}

/// Reads `(back_ref, length, run)` back from the bytes of an indicator.
pub fn get_data_from_indicator(cfg: &LzConfig, indicator: &[u8]) -> (r: (u64, u64, u64))
    requires
        cfg.wf(),
        indicator@.len() == cfg.indicator_len(),
    ensures
        (r.0 as nat, r.1 as nat, r.2 as nat) == fields_of(*cfg, indicator@),
{
    let v = be_value_of(indicator);
    let pl = pow2_u64(cfg.length_bits);
    let pd = pow2_u64(cfg.distance_bits);
    let pw = pow2_u64(cfg.window_bits);
    proof {
        lemma_pow2_pos(cfg.length_bits as nat);
        lemma_pow2_pos(cfg.distance_bits as nat);
        lemma_pow2_pos(cfg.window_bits as nat);
    }
    (v / pd / pl % pw, v / pd % pl, v % pd)
}

/// Writes a literal-run length as two big-endian bytes.
pub fn get_byte_array_from_u16(input: u16) -> (r: [u8; 2])
    ensures
        r@ == be_bytes(input as nat, 2),
{
    proof {
        reveal_with_fuel(be_bytes, 3);
    }
    let r = [(input / 256) as u8, (input % 256) as u8];
    assert(r@ =~= be_bytes(input as nat, 2));
    r
}

/// Reads a literal-run length from two big-endian bytes.
pub fn get_u16_from_byte_array(input: &[u8]) -> (r: u16)
    requires
        input@.len() == 2,
    ensures
        r as nat == be_value(input@),
{
    proof {
        assert(input@.drop_last().drop_last() =~= Seq::<u8>::empty());
        reveal_with_fuel(be_value, 3);
    }
    (input[0] as u16) * 256 + input[1] as u16
}

/// How many bytes of `x`, read forward from `a` and from `b`, agree, but at
/// most `cap`.
pub open spec fn match_len(x: Seq<u8>, a: int, b: int, cap: nat) -> nat
    decreases cap,
{
    if cap == 0 || a < 0 || b < 0 || a >= x.len() || b >= x.len() || x[a] != x[b] {
        0
    } else {
        1 + match_len(x, a + 1, b + 1, (cap - 1) as nat)
    }
}

/// The best `(back_ref, length)` among the offsets `1..=k` before `split`:
/// the longest match, and of equally long ones the closest.
pub open spec fn best_upto(x: Seq<u8>, split: int, k: nat, cap: nat) -> (nat, nat)
    decreases k,
{
    if k == 0 {
        (0, 0)
    } else {
        let prev = best_upto(x, split, (k - 1) as nat, cap);
        let m = match_len(x, split - k, split, cap);
        if m > prev.1 {
            (k, m)
        } else {
            prev
        }
    }
}

/// How far back a match may start at `split`.
pub open spec fn search_width(cfg: LzConfig, split: nat) -> nat {
    if split < cfg.window() {
        split
    } else {
        cfg.window()
    }
}

/// How long a match may be at `split`.
pub open spec fn length_cap(cfg: LzConfig, x: Seq<u8>, split: nat) -> nat {
    if cfg.max_length() < x.len() - split {
        cfg.max_length()
    } else {
        (x.len() - split) as nat
    }
}

/// The match chosen at `split`; `(0, 0)` when no byte matches.
pub open spec fn best_match(cfg: LzConfig, x: Seq<u8>, split: nat) -> (nat, nat) {
    best_upto(x, split as int, search_width(cfg, split), length_cap(cfg, x, split))
}

proof fn lemma_match_len(x: Seq<u8>, a: int, b: int, cap: nat)
    requires
        0 <= a,
    ensures
        match_len(x, a, b, cap) <= cap,
        b + match_len(x, a, b, cap) <= x.len() || match_len(x, a, b, cap) == 0,
        forall|i: int|
            0 <= i < match_len(x, a, b, cap) ==> #[trigger] x[a + i] == x[b + i],
    decreases cap,
{
    if !(cap == 0 || a < 0 || b < 0 || a >= x.len() || b >= x.len() || x[a] != x[b]) {
        lemma_match_len(x, a + 1, b + 1, (cap - 1) as nat);
        assert forall|i: int| 0 <= i < match_len(x, a, b, cap) implies #[trigger] x[a + i] == x[b
            + i] by {
            if i > 0 {
                assert(x[(a + 1) + (i - 1)] == x[(b + 1) + (i - 1)]);
            }
        }
    }
}

/// What the chosen match satisfies: it lies in the window, it fits the
/// remaining input and the length field, and the bytes it names repeat the
/// bytes at `split`.
pub proof fn lemma_best_upto(x: Seq<u8>, split: int, k: nat, cap: nat)
    requires
        k <= split,
        split + cap <= x.len(),
    ensures
        best_upto(x, split, k, cap).1 <= cap,
        best_upto(x, split, k, cap).0 <= k,
        best_upto(x, split, k, cap).1 == 0 <==> best_upto(x, split, k, cap).0 == 0,
        best_upto(x, split, k, cap).1 > 0 ==> best_upto(x, split, k, cap).1 == match_len(
            x,
            split - best_upto(x, split, k, cap).0,
            split,
            cap,
        ),
        forall|i: int|
            0 <= i < best_upto(x, split, k, cap).1 ==> #[trigger] x[split
                - best_upto(x, split, k, cap).0 + i] == x[split + i],
    decreases k,
{
    if k > 0 {
        lemma_best_upto(x, split, (k - 1) as nat, cap);
        lemma_match_len(x, split - k, split, cap);
    }
}

/// Once a match of the largest allowed length is found, no later offset
/// replaces it.
proof fn lemma_best_upto_saturated(x: Seq<u8>, split: int, k0: nat, k: nat, cap: nat)
    requires
        k0 <= k <= split,
        split + cap <= x.len(),
        best_upto(x, split, k0, cap).1 == cap,
    ensures
        best_upto(x, split, k, cap) == best_upto(x, split, k0, cap),
    decreases k,
{
    if k > k0 {
        lemma_best_upto_saturated(x, split, k0, (k - 1) as nat, cap);
        lemma_match_len(x, split - k, split, cap);
    }
}

/// The length of the common run of `bytes` from `a` and from `b`, at most
/// `cap`.
fn common_length(bytes: &Vec<u8>, a: usize, b: usize, cap: usize) -> (r: usize)
    requires
        a < b <= bytes@.len(),
    ensures
        r == match_len(bytes@, a as int, b as int, cap as nat),
{
    let mut i: usize = 0;
    while i < cap && i < bytes.len() - b && bytes[a + i] == bytes[b + i]
        invariant
            a < b <= bytes@.len(),
            i <= cap,
            b + i <= bytes@.len(),
            match_len(bytes@, a as int, b as int, cap as nat) == i + match_len(
                bytes@,
                a + i,
                b + i,
                (cap - i) as nat,
            ),
        decreases cap - i,
    {
        i = i + 1;
    }
    i
}

/// Finds the longest match for the bytes at `split` within the window
/// before it; of equally long matches the closest one wins.
pub fn find_match_in_window(cfg: &LzConfig, bytes: &Vec<u8>, split: usize) -> (r: (usize, usize))
    requires
        cfg.wf(),
        split <= bytes@.len(),
    ensures
        (r.0 as nat, r.1 as nat) == best_match(*cfg, bytes@, split as nat),
        r.0 <= split,
        r.0 <= cfg.window(),
        r.1 <= cfg.max_length(),
        split + r.1 <= bytes@.len(),
        r.1 == 0 <==> r.0 == 0,
        forall|i: int| 0 <= i < r.1 ==> #[trigger] bytes@[split - r.0 + i] == bytes@[split + i],
{
    proof {
        lemma_pow2_pos(cfg.window_bits as nat);
        lemma_pow2_pos(cfg.length_bits as nat);
        lemma_pow2_strictly_increases(cfg.window_bits as nat, 64);
        lemma_pow2_strictly_increases(cfg.length_bits as nat, 64);
        lemma2_to64_rest();
    }
    let window = pow2_u64(cfg.window_bits) - 1;
    let max_length = pow2_u64(cfg.length_bits) - 1;
    let n = bytes.len();
    let width: usize = if (split as u64) < window {
        split
    } else {
        window as usize
    };
    let cap: usize = if max_length < (bytes.len() - split) as u64 {
        max_length as usize
    } else {
        bytes.len() - split
    };
    let ghost x = bytes@;
    let mut best_ref: usize = 0;
    let mut best_len: usize = 0;
    let mut back: usize = 1;
    while back <= width && best_len < cap
        invariant
            1 <= back <= width + 1,
            width <= split <= x.len(),
            x == bytes@,
            n == x.len(),
            split + cap <= x.len(),
            width == search_width(*cfg, split as nat),
            cap == length_cap(*cfg, x, split as nat),
            (best_ref as nat, best_len as nat) == best_upto(x, split as int, (back - 1) as nat, cap as nat),
        decreases width + 1 - back,
    {
        let m = common_length(bytes, split - back, split, cap);
        if m > best_len {
            best_ref = back;
            best_len = m;
        }
        back = back + 1;
    }
    proof {
        lemma_best_upto(x, split as int, (back - 1) as nat, cap as nat);
        if back <= width {
            lemma_best_upto_saturated(x, split as int, (back - 1) as nat, width as nat, cap as nat);
        }
        lemma_best_upto(x, split as int, width as nat, cap as nat);
    }
    (best_ref, best_len)
}

} // verus!
