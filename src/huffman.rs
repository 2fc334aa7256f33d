use vstd::prelude::*;
use vstd::arithmetic::power2::{pow2, lemma_pow2_unfold, lemma_pow2_pos, lemma2_to64, lemma_pow2_adds};
use vstd::arithmetic::div_mod::{lemma_fundamental_div_mod_converse, lemma_div_denominator};
use vstd::bits::lemma_u32_shr_is_div;
use crate::bitreader::{BitReader, bits_at};

verus! {

/// Codes that a table may hold for lengths `0..MAX_CODE_BITS_LENGTH`.
pub const MAX_CODE_BITS_LENGTH: usize = 32;

/// Symbols run over `0..MAX_SYMBOL_VALUE`.
pub const MAX_SYMBOL_VALUE: usize = 285;

/// Codes up to this many bits are resolved by the lookup on the next byte.
pub const MAX_BITS_HASH: usize = 8;

/// How many codes are still free at length `b` once every shorter length has taken its
/// codes (`decl[b]` holds the symbols declared with length `b`).
pub open spec fn free_codes(decl: Seq<Seq<u16>>, b: nat) -> int
    decreases b,
{
    if b == 0 {
        1
    } else {
        2 * (free_codes(decl, (b - 1) as nat) - decl[b - 1].len())
    }
}

/// The canonical code of the `k`-th symbol of the chain of length `b`: codes are handed out
/// from the top of the free range down, chain order first.
pub open spec fn code_of(decl: Seq<Seq<u16>>, b: nat, k: int) -> int {
    free_codes(decl, b) - 1 - k
}

/// Kraft's inequality, length by length: no length declares more symbols than it has free
/// codes (equivalently, the sum of `2^-b` over all declarations is at most one).
pub open spec fn fits_code_space(decl: Seq<Seq<u16>>) -> bool {
    &&& decl.len() == MAX_CODE_BITS_LENGTH
    &&& decl[0].len() == 0
    &&& forall|b: int|
        0 <= b < MAX_CODE_BITS_LENGTH ==> #[trigger] decl[b].len() <= free_codes(decl, b as nat)
}

/// The first 32-bit value, left-aligned, above every code of length `b` or more.
pub open spec fn top(decl: Seq<Seq<u16>>, b: nat) -> int {
    free_codes(decl, b) * pow2((32 - b) as nat)
}

/// The 32-bit value `x` starts with the code of the `k`-th symbol of length `b`.
pub open spec fn matches(decl: Seq<Seq<u16>>, x: u32, b: int, k: int) -> bool {
    &&& 1 <= b < MAX_CODE_BITS_LENGTH
    &&& 0 <= k < decl[b].len()
    &&& x as int / pow2((32 - b) as nat) as int == code_of(decl, b as nat, k)
}

/// What the canonical code decodes from the 32-bit value `x`: the symbol whose code `x`
/// starts with, and the code's length.
pub open spec fn decodes(decl: Seq<Seq<u16>>, x: u32) -> Option<(u16, nat)> {
    if exists|b: int, k: int| matches(decl, x, b, k) {
        let (b, k) = choose|b: int, k: int| matches(decl, x, b, k);
        Some((decl[b][k], b as nat))
    } else {
        None
    }
}

/// No declarations: an empty chain for every length.
pub open spec fn empty_chains() -> Seq<Seq<u16>> {
    Seq::new(32, |b: int| Seq::<u16>::empty())
}

/// A table can be built from `decl`: something is declared and the code space holds it.
pub open spec fn builds(decl: Seq<Seq<u16>>) -> bool {
    !(forall|b: int| 0 <= b < MAX_CODE_BITS_LENGTH ==> #[trigger] decl[b].len() == 0)
        && fits_code_space(decl)
}

/// `symbol` appears in one of the chains.
pub open spec fn in_chains(decl: Seq<Seq<u16>>, symbol: u16) -> bool {
    exists|b: int, k: int| 0 <= b < decl.len() && 0 <= k < decl[b].len() && decl[b][k] == symbol
}

/// The number of symbols declared with a length below `n`.
pub open spec fn total(decl: Seq<Seq<u16>>, n: int) -> int
    decreases n,
{
    if n <= 0 {
        0
    } else {
        total(decl, n - 1) + decl[n - 1].len()
    }
}

pub proof fn lemma_total_update(decl: Seq<Seq<u16>>, b: int, x: Seq<u16>, n: int)
    requires
        0 <= b < decl.len(),
        n <= decl.len(),
    ensures
        total(decl.update(b, x), n) == total(decl, n) + (if b < n {
            x.len() - decl[b].len()
        } else {
            0
        }),
    decreases n,
{
    if n > 0 {
        lemma_total_update(decl, b, x, n - 1);
    }
}

proof fn lemma_total_nonneg(decl: Seq<Seq<u16>>, m: int, n: int)
    requires
        0 <= m <= n,
    ensures
        0 <= total(decl, m) <= total(decl, n),
    decreases n,
{
    if n > m {
        lemma_total_nonneg(decl, m, n - 1);
    } else if n > 0 {
        lemma_total_nonneg(decl, 0, n - 1);
    }
}

proof fn lemma_long_index(decl: Seq<Seq<u16>>, b: int, k: int, e: int)
    requires
        9 <= b < e <= 32,
        0 <= k < decl[b].len(),
    ensures
        0 <= long_before(decl, b) + k < long_before(decl, b + 1) <= long_before(decl, e),
{
    assert(total(decl, b + 1) == total(decl, b) + decl[b].len());
    lemma_total_nonneg(decl, 9, b);
    lemma_total_nonneg(decl, b + 1, e);
}

proof fn lemma_div_bounds(x: int, p: int, lo: int, hi: int)
    requires
        p > 0,
        lo * p <= x < hi * p,
    ensures
        lo <= x / p < hi,
{
    let q = x / p;
    let r = x % p;
    assert(x == q * p + r && 0 <= r < p) by (nonlinear_arith)
        requires
            p > 0,
            q == x / p,
            r == x % p,
    ;
    assert(lo <= q) by (nonlinear_arith)
        requires
            p > 0,
            lo * p <= q * p + r,
            r < p,
    ;
    assert(q < hi) by (nonlinear_arith)
        requires
            p > 0,
            q * p + r < hi * p,
            r >= 0,
    ;
}

proof fn lemma_free_nonneg(decl: Seq<Seq<u16>>, b: nat)
    requires
        fits_code_space(decl),
        b <= 32,
    ensures
        free_codes(decl, b) >= 0,
    decreases b,
{
    if b > 0 {
        lemma_free_nonneg(decl, (b - 1) as nat);
        assert(decl[b - 1].len() <= free_codes(decl, (b - 1) as nat));
    }
}

/// `top` never grows with the length.
proof fn lemma_top_mono(decl: Seq<Seq<u16>>, a: nat, b: nat)
    requires
        fits_code_space(decl),
        a <= b <= 32,
    ensures
        top(decl, b) <= top(decl, a),
    decreases b - a,
{
    if a < b {
        lemma_top_mono(decl, a, (b - 1) as nat);
        let c = (b - 1) as nat;
        lemma_free_step(decl, c);
        lemma_pow2_pos((32 - c) as nat);
        let f = free_codes(decl, c);
        let n = decl[c as int].len() as int;
        let p = pow2((32 - c) as nat) as int;
        assert((f - n) * p <= f * p) by (nonlinear_arith)
            requires
                n >= 0,
                p > 0,
        ;
    }
}

/// Across lengths with no symbols, `top` stays put.
proof fn lemma_top_flat(decl: Seq<Seq<u16>>, a: nat, b: nat)
    requires
        a <= b <= 32,
        forall|l: int| a <= l < b ==> #[trigger] decl[l].len() == 0,
    ensures
        top(decl, b) == top(decl, a),
    decreases b - a,
{
    if a < b {
        lemma_top_flat(decl, a, (b - 1) as nat);
        lemma_free_step(decl, (b - 1) as nat);
        assert(decl[b - 1].len() == 0);
    }
}

/// A value that starts with a code of length `b` lies in `top(b + 1) .. top(b)`.
proof fn lemma_match_range(decl: Seq<Seq<u16>>, x: u32, b: int, k: int)
    requires
        fits_code_space(decl),
        matches(decl, x, b, k),
    ensures
        top(decl, (b + 1) as nat) <= x < top(decl, b as nat),
{
    let p = pow2((32 - b) as nat) as int;
    lemma_pow2_pos((32 - b) as nat);
    lemma_free_step(decl, b as nat);
    let f = free_codes(decl, b as nat);
    let n = decl[b].len() as int;
    let c = f - 1 - k;
    let q = x as int / p;
    let r = x as int % p;
    assert(x as int == q * p + r && 0 <= r < p) by (nonlinear_arith)
        requires
            p > 0,
            q == x as int / p,
            r == x as int % p,
    ;
    assert(q == c);
    assert((f - n) * p <= c * p) by (nonlinear_arith)
        requires
            p > 0,
            f - n <= c,
    ;
    assert(c * p + r < f * p) by (nonlinear_arith)
        requires
            p > 0,
            c + 1 <= f,
            r < p,
    ;
}

/// Canonical codes are prefix-free: a value starts with at most one declared code.
proof fn lemma_match_unique(decl: Seq<Seq<u16>>, x: u32, b1: int, k1: int, b2: int, k2: int)
    requires
        fits_code_space(decl),
        matches(decl, x, b1, k1),
        matches(decl, x, b2, k2),
    ensures
        b1 == b2 && k1 == k2,
{
    lemma_match_range(decl, x, b1, k1);
    lemma_match_range(decl, x, b2, k2);
    if b1 < b2 {
        lemma_top_mono(decl, (b1 + 1) as nat, b2 as nat);
    } else if b2 < b1 {
        lemma_top_mono(decl, (b2 + 1) as nat, b1 as nat);
    }
}

/// Decoding the canonical code: a 32-bit value that starts with the code of the `k`-th
/// symbol of length `b` decodes to that symbol, with a code length of `b`, for every
/// declaration set that satisfies Kraft's inequality.
pub proof fn lemma_canonical_round_trip(decl: Seq<Seq<u16>>, b: int, k: int, x: u32)
    requires
        fits_code_space(decl),
        1 <= b < MAX_CODE_BITS_LENGTH,
        0 <= k < decl[b].len(),
        x as int / pow2((32 - b) as nat) as int == code_of(decl, b as nat, k),
    ensures
        code_of(decl, b as nat, k) >= 0,
        decodes(decl, x) == Some((decl[b][k], b as nat)),
{
    assert(matches(decl, x, b, k));
    let (b2, k2) = choose|b2: int, k2: int| matches(decl, x, b2, k2);
    lemma_match_unique(decl, x, b, k, b2, k2);
    assert(decl[b].len() <= free_codes(decl, b as nat));
}

/// Accumulates (symbol, length) declarations as one LIFO chain per length.
pub struct HuffmanTreeBuilder {
    bits_head_exist: Vec<bool>,
    bits_head: Vec<u16>,
    bits_body_exist: Vec<bool>,
    bits_body: Vec<u16>,
    symbol_declared: Vec<bool>,
    symbol_count: u16,
    chains: Ghost<Seq<Seq<u16>>>,
}

impl HuffmanTreeBuilder {
    /// The chain of each length, most recent declaration first.
    pub closed spec fn chains(&self) -> Seq<Seq<u16>> {
        self.chains@
    }

    /// Whether `symbol` has been declared.
    pub closed spec fn declares(&self, symbol: u16) -> bool {
        in_chains(self.chains@, symbol)
    }

    /// One chain per length, none of length zero, at most `MAX_SYMBOL_VALUE` symbols.
    pub proof fn lemma_shape(&self)
        requires
            self.wf(),
        ensures
            self.chains().len() == MAX_CODE_BITS_LENGTH,
            self.chains()[0].len() == 0,
            total(self.chains(), 32) <= MAX_SYMBOL_VALUE,
    {
    }

    /// A symbol is declared when it stands in one of the chains.
    pub proof fn lemma_declares(&self, symbol: u16)
        ensures
            self.declares(symbol) == in_chains(self.chains(), symbol),
    {
    }

    pub closed spec fn wf(&self) -> bool {
        let c = self.chains@;
        &&& self.bits_head_exist@.len() == MAX_CODE_BITS_LENGTH
        &&& self.bits_head@.len() == MAX_CODE_BITS_LENGTH
        &&& self.bits_body_exist@.len() == MAX_SYMBOL_VALUE
        &&& self.bits_body@.len() == MAX_SYMBOL_VALUE
        &&& self.symbol_declared@.len() == MAX_SYMBOL_VALUE
        &&& c.len() == MAX_CODE_BITS_LENGTH
        &&& c[0].len() == 0
        &&& self.symbol_count == total(c, 32)
        &&& total(c, 32) <= MAX_SYMBOL_VALUE
        &&& forall|b: int|
            0 <= b < 32 ==> (#[trigger] self.bits_head_exist@[b] <==> c[b].len() > 0)
        &&& forall|b: int| 0 <= b < 32 && c[b].len() > 0 ==> #[trigger] self.bits_head@[b] == c[b][0]
        &&& forall|b: int, k: int|
            0 <= b < 32 && 0 <= k < c[b].len() ==> (#[trigger] c[b][k]) < MAX_SYMBOL_VALUE
                && self.symbol_declared@[c[b][k] as int]
        &&& forall|b: int, k: int|
            0 <= b < 32 && 0 <= k < c[b].len() - 1 ==> self.bits_body_exist@[(#[trigger] c[b][k]) as int]
                && self.bits_body@[c[b][k] as int] == c[b][k + 1]
        &&& forall|b: int|
            0 <= b < 32 && c[b].len() > 0 ==> !self.bits_body_exist@[(#[trigger] c[b][c[b].len()
                - 1]) as int]
        &&& forall|s: int|
            0 <= s < MAX_SYMBOL_VALUE && #[trigger] self.symbol_declared@[s] ==> exists|b: int, k: int|
                0 <= b < 32 && 0 <= k < c[b].len() && c[b][k] == s
        &&& forall|s: int|
            0 <= s < MAX_SYMBOL_VALUE && !#[trigger] self.symbol_declared@[s]
                ==> !self.bits_body_exist@[s]
    }

    /// A builder with no declarations.
    pub fn new() -> (r: HuffmanTreeBuilder)
        ensures
            r.wf(),
            r.chains() == empty_chains(),
    {
        let r = HuffmanTreeBuilder {
            bits_head_exist: vec![false; MAX_CODE_BITS_LENGTH],
            bits_head: vec![0u16; MAX_CODE_BITS_LENGTH],
            bits_body_exist: vec![false; MAX_SYMBOL_VALUE],
            bits_body: vec![0u16; MAX_SYMBOL_VALUE],
            symbol_declared: vec![false; MAX_SYMBOL_VALUE],
            symbol_count: 0,
            chains: Ghost(Seq::new(32, |b: int| Seq::<u16>::empty())),
        };
        proof {
            let c = r.chains@;
            assert forall|n: int| 0 <= n <= 32 implies total(c, n) == 0 by {
                lemma_total_zero(c, n);
            }
        }
        r
    }

    /// Declares `symbol` with a code of `bits` bits. A symbol that is already declared, or a
    /// declaration beyond the table's capacity, leaves the builder as it is.
    pub fn add_symbol(&mut self, symbol: u16, bits: u8)
        requires
            old(self).wf(),
            symbol < MAX_SYMBOL_VALUE,
            1 <= bits < MAX_CODE_BITS_LENGTH,
        ensures
            final(self).wf(),
            final(self).chains() == if old(self).declares(symbol) || total(old(self).chains(), 32)
                >= MAX_SYMBOL_VALUE {
                old(self).chains()
            } else {
                old(self).chains().update(bits as int, seq![symbol] + old(self).chains()[bits as int])
            },
    {
        let ghost c = self.chains@;
        let s = symbol as usize;
        let b = bits as usize;
        if self.symbol_declared[s] {
            return ;
        }
        if self.symbol_count as usize >= MAX_SYMBOL_VALUE {
            return ;
        }
        assert(!old(self).declares(symbol));
        let ghost nc = c.update(b as int, seq![symbol] + c[b as int]);
        proof {
            lemma_total_update(c, b as int, seq![symbol] + c[b as int], 32);
        }
        if self.bits_head_exist[b] {
            let h = self.bits_head[b];
            self.bits_body.set(s, h);
            self.bits_body_exist.set(s, true);
            self.bits_head.set(b, symbol);
        } else {
            self.bits_head.set(b, symbol);
            self.bits_head_exist.set(b, true);
        }
        self.symbol_declared.set(s, true);
        self.symbol_count = self.symbol_count + 1;
        self.chains = Ghost(nc);
        proof {
            assert forall|bb: int, k: int| 0 <= bb < 32 && 0 <= k < nc[bb].len() implies (
            #[trigger] nc[bb][k]) < MAX_SYMBOL_VALUE && self.symbol_declared@[nc[bb][k] as int] by {
                if bb == b && k > 0 {
                    assert(nc[bb][k] == c[bb][k - 1]);
                }
            }
            assert forall|bb: int, k: int| 0 <= bb < 32 && 0 <= k < nc[bb].len() - 1 implies self.bits_body_exist@[(
            #[trigger] nc[bb][k]) as int] && self.bits_body@[nc[bb][k] as int] == nc[bb][k + 1] by {
                if bb == b {
                    if k > 0 {
                        assert(nc[bb][k] == c[bb][k - 1]);
                        assert(nc[bb][k + 1] == c[bb][k]);
                        assert(c[bb][k - 1] != symbol);
                    }
                } else {
                    assert(c[bb][k] != symbol);
                }
            }
            assert forall|bb: int| 0 <= bb < 32 && nc[bb].len() > 0 implies !self.bits_body_exist@[(
            #[trigger] nc[bb][nc[bb].len() - 1]) as int] by {
                if bb == b {
                    if c[bb].len() > 0 {
                        assert(nc[bb][nc[bb].len() - 1] == c[bb][c[bb].len() - 1]);
                        assert(c[bb][c[bb].len() - 1] != symbol);
                    }
                } else {
                    assert(c[bb][c[bb].len() - 1] != symbol);
                }
            }
            assert forall|x: int| 0 <= x < MAX_SYMBOL_VALUE && #[trigger] self.symbol_declared@[x] implies exists|bb: int, k: int|
                0 <= bb < 32 && 0 <= k < nc[bb].len() && nc[bb][k] == x by {
                if x == s {
                    assert(nc[b as int][0] == x);
                } else {
                    let (bb, k) = choose|bb: int, k: int|
                        0 <= bb < 32 && 0 <= k < c[bb].len() && c[bb][k] == x;
                    if bb == b {
                        assert(nc[bb][k + 1] == x);
                    } else {
                        assert(nc[bb][k] == x);
                    }
                }
            }
        }
    }

    /// Whether no length has any symbol declared.
    pub fn check_bits_head(&self) -> (r: bool)
        requires
            self.wf(),
        ensures
            r == (forall|b: int| 0 <= b < MAX_CODE_BITS_LENGTH ==> #[trigger] self.chains()[b].len()
                == 0),
    {
        let mut i: usize = 0;
        while i < MAX_CODE_BITS_LENGTH
            invariant
                self.wf(),
                i <= MAX_CODE_BITS_LENGTH,
                forall|b: int| 0 <= b < i ==> #[trigger] self.chains()[b].len() == 0,
            decreases MAX_CODE_BITS_LENGTH - i,
        {
            if self.bits_head_exist[i] {
                assert(self.chains()[i as int].len() > 0);
                return false;
            }
            i = i + 1;
        }
        true
    }
}

/// No declarations count zero symbols.
pub proof fn lemma_total_empty(n: int)
    requires
        0 <= n <= 32,
    ensures
        total(empty_chains(), n) == 0,
{
    lemma_total_zero(empty_chains(), n);
}

proof fn lemma_total_zero(c: Seq<Seq<u16>>, n: int)
    requires
        0 <= n <= c.len(),
        forall|b: int| 0 <= b < c.len() ==> #[trigger] c[b].len() == 0,
    ensures
        total(c, n) == 0,
    decreases n,
{
    if n > 0 {
        lemma_total_zero(c, n - 1);
    }
}

/// The number of symbols declared with a length in `9..e` (those outside the byte lookup).
pub open spec fn long_before(decl: Seq<Seq<u16>>, e: int) -> int {
    total(decl, e) - total(decl, 9)
}

/// The byte-lookup entry `h` stands for the `k`-th symbol of length `b`: the code is the top
/// `b` bits of `h`.
pub open spec fn short_entry(decl: Seq<Seq<u16>>, h: int, b: int, k: int) -> bool {
    &&& 1 <= b <= MAX_BITS_HASH
    &&& 0 <= k < decl[b].len()
    &&& h / pow2((8 - b) as nat) as int == code_of(decl, b as nat, k)
}

proof fn lemma_free_step(decl: Seq<Seq<u16>>, b: nat)
    requires
        b < 32,
    ensures
        free_codes(decl, b + 1) == 2 * (free_codes(decl, b) - decl[b as int].len()),
        top(decl, b + 1) == (free_codes(decl, b) - decl[b as int].len()) * pow2((32 - b) as nat),
        b < 8 ==> free_codes(decl, b + 1) * pow2((7 - b) as nat) == (free_codes(decl, b)
            - decl[b as int].len()) * pow2((8 - b) as nat),
{
    let f = free_codes(decl, b) - decl[b as int].len();
    assert(free_codes(decl, b + 1) == 2 * f);
    lemma_pow2_unfold((32 - b) as nat);
    let p = pow2((31 - b) as nat) as int;
    assert(pow2((32 - b) as nat) == 2 * p);
    assert(2 * f * p == f * (2 * p)) by (nonlinear_arith);
    if b < 8 {
        lemma_pow2_unfold((8 - b) as nat);
        let q = pow2((7 - b) as nat) as int;
        assert(pow2((8 - b) as nat) == 2 * q);
        assert(2 * f * q == f * (2 * q)) by (nonlinear_arith);
    }
}

/// Canonical Huffman table: a lookup on the next byte for codes of at most eight bits, and
/// one class per longer length, ordered by length.
pub struct HuffmanTree {
    code_comparison: Vec<u32>,
    symbol_value_offset: Vec<u16>,
    code_bits: Vec<u8>,
    symbol_value: Vec<u16>,
    symbol_value_hash_exist: Vec<bool>,
    symbol_value_hash: Vec<u16>,
    code_bits_hash: Vec<u8>,
    code_classes: usize,
    decl: Ghost<Seq<Seq<u16>>>,
}

impl HuffmanTree {
    /// The declarations the table was built from, one chain per length.
    pub closed spec fn decl(&self) -> Seq<Seq<u16>> {
        self.decl@
    }

    pub closed spec fn shape(&self) -> bool {
        &&& self.code_comparison@.len() == MAX_CODE_BITS_LENGTH
        &&& self.symbol_value_offset@.len() == MAX_CODE_BITS_LENGTH
        &&& self.code_bits@.len() == MAX_CODE_BITS_LENGTH
        &&& self.symbol_value@.len() == MAX_SYMBOL_VALUE
        &&& self.symbol_value_hash_exist@.len() == 256
        &&& self.symbol_value_hash@.len() == 256
        &&& self.code_bits_hash@.len() == 256
        &&& self.code_classes <= MAX_CODE_BITS_LENGTH
    }

    /// Whether the byte-lookup entry `h` is present.
    pub closed spec fn hash_present(&self, h: int) -> bool {
        self.symbol_value_hash_exist@[h]
    }

    /// The symbol and code length of the byte-lookup entry `h`.
    pub closed spec fn hash_entry(&self, h: int) -> (u16, u8) {
        (self.symbol_value_hash@[h], self.code_bits_hash@[h])
    }

    pub closed spec fn hash_ok(&self) -> bool {
        let d = self.decl@;
        &&& forall|h: int|
            0 <= h < 256 ==> (#[trigger] self.symbol_value_hash_exist@[h] <==> h * pow2(24) >= top(
                d,
                9,
            ))
        &&& forall|h: int|
            0 <= h < 256 && #[trigger] self.symbol_value_hash_exist@[h] ==> exists|b: int, k: int|
                short_entry(d, h, b, k) && self.symbol_value_hash@[h] == d[b][k]
                    && self.code_bits_hash@[h] == b
    }

    /// The first `n` length classes describe every length in `9..e` that has symbols.
    pub closed spec fn class_list(&self, n: int, e: int) -> bool {
        let d = self.decl@;
        &&& forall|i: int|
            0 <= i < n ==> {
                let l = #[trigger] self.code_bits@[i] as int;
                &&& 9 <= l < e
                &&& d[l].len() > 0
                &&& self.code_comparison@[i] as int == top(d, (l + 1) as nat)
                &&& self.symbol_value_offset@[i] as int == long_before(d, l + 1) - 1
            }
        &&& forall|i: int, j: int|
            0 <= i < j < n ==> (#[trigger] self.code_bits@[i]) < (#[trigger] self.code_bits@[j])
        &&& forall|b: int|
            9 <= b < e && (#[trigger] d[b]).len() > 0 ==> exists|i: int|
                0 <= i < n && self.code_bits@[i] == b
    }

    /// The symbols of every length in `9..e` stand in order in `symbol_value`.
    pub closed spec fn symbols_below(&self, e: int) -> bool {
        let d = self.decl@;
        forall|b: int, k: int|
            9 <= b < e && 0 <= k < d[b].len() ==> self.symbol_value@[long_before(d, b) + k] == (
            #[trigger] d[b][k])
    }

    pub closed spec fn classes_below(&self, n: int, e: int) -> bool {
        self.class_list(n, e) && self.symbols_below(e)
    }

    /// The byte lookup holds every code of at most eight bits, and is filled from entry
    /// `bound` up.
    pub closed spec fn hash_from(&self, bound: int) -> bool {
        let d = self.decl@;
        &&& forall|h: int|
            0 <= h < 256 ==> (#[trigger] self.symbol_value_hash_exist@[h] <==> h >= bound)
        &&& forall|h: int|
            0 <= h < 256 && #[trigger] self.symbol_value_hash_exist@[h] ==> exists|b: int, k: int|
                short_entry(d, h, b, k) && self.symbol_value_hash@[h] == d[b][k]
                    && self.code_bits_hash@[h] == b
    }

    pub closed spec fn classes_ok(&self) -> bool {
        &&& long_before(self.decl@, 32) <= MAX_SYMBOL_VALUE
        &&& self.classes_below(self.code_classes as int, 32)
    }

    /// The table decodes exactly the canonical code of `decl()`.
    pub closed spec fn wf(&self) -> bool {
        &&& self.shape()
        &&& fits_code_space(self.decl@)
        &&& self.hash_ok()
        &&& self.classes_ok()
    }

    /// No entry of the table is filled: no byte-lookup entry is present and there is no
    /// length class.
    pub closed spec fn blank(&self) -> bool {
        &&& self.code_classes == 0
        &&& forall|h: int| 0 <= h < 256 ==> !#[trigger] self.symbol_value_hash_exist@[h]
    }

    /// An empty table.
    pub fn new() -> (r: HuffmanTree)
        ensures
            r.shape(),
            r.blank(),
    {
        HuffmanTree {
            code_comparison: vec![0u32; MAX_CODE_BITS_LENGTH],
            symbol_value_offset: vec![0u16; MAX_CODE_BITS_LENGTH],
            code_bits: vec![0u8; MAX_CODE_BITS_LENGTH],
            symbol_value: vec![0u16; MAX_SYMBOL_VALUE],
            symbol_value_hash_exist: vec![false; 256],
            symbol_value_hash: vec![0u16; 256],
            code_bits_hash: vec![0u8; 256],
            code_classes: 0,
            decl: Ghost(Seq::empty()),
        }
    }

    /// Builds the canonical table of the builder's declarations. The table is reset first;
    /// the build fails, leaving the table empty, when nothing is declared or when the
    /// declarations over-subscribe the code space.
    #[verifier::rlimit(60)]
    pub fn build_huffmantree(&mut self, builder: &HuffmanTreeBuilder) -> (r: bool)
        requires
            builder.wf(),
        ensures
            final(self).shape(),
            r == builds(builder.chains()),
            r ==> final(self).wf() && final(self).decl() == builder.chains(),
            !r ==> final(self).blank(),
    {
        if builder.check_bits_head() {
            *self = HuffmanTree::new();
            return false;
        }
        *self = HuffmanTree::new();
        let ghost d = builder.chains();
        self.decl = Ghost(d);
        proof {
            lemma2_to64();
            lemma_total_nonneg(d, 9, 32);
        }
        // Codes of at most eight bits fill the byte lookup, from the top down.
        let mut bits: usize = 0;
        let mut bound: usize = 256;
        let mut step: usize = 256;
        while bits <= MAX_BITS_HASH
            invariant
                builder.wf(),
                d == builder.chains(),
                self.decl@ == d,
                self.shape(),
                self.code_classes == 0,
                bits <= 9,
                bound <= 256,
                forall|l: int| 0 <= l < bits ==> #[trigger] d[l].len() <= free_codes(d, l as nat),
                bits <= 8 ==> step == pow2((8 - bits) as nat) && bound == free_codes(d, bits as nat)
                    * step,
                bits == 9 ==> 2 * bound == free_codes(d, 9),
                self.hash_from(bound as int),
            decreases 9 - bits,
        {
            match self.short_chain(builder, bits, bound, step) {
                None => {
                    *self = HuffmanTree::new();
                    return false;
                },
                Some(nb) => {
                    bound = nb;
                },
            }
            proof {
                lemma2_to64();
                lemma_free_step(d, bits as nat);
                if bits < 8 {
                    lemma_pow2_unfold((8 - bits) as nat);
                } else {
                    let f = free_codes(d, 8) - d[8].len();
                    assert(bound == f) by (nonlinear_arith)
                        requires
                            step == 1,
                            bound == f * step,
                    ;
                }
            }
            if bits < MAX_BITS_HASH {
                step = step / 2;
            }
            bits = bits + 1;
        }
        // Longer codes: one class per length, in increasing length.
        let mut top_value: u64 = bound as u64 * 0x100_0000;
        let mut unit: u64 = 0x80_0000;
        let mut offset: usize = 0;
        let mut classes: usize = 0;
        proof {
            lemma2_to64();
            assert(top(d, 9) == free_codes(d, 9) * 0x80_0000);
            assert forall|h: int| 0 <= h < 256 implies (#[trigger] self.symbol_value_hash_exist@[h]
                <==> h * pow2(24) >= top(d, 9)) by {
                assert(h * 0x100_0000 >= bound * 0x100_0000 <==> h >= bound);
            }
            assert(self.hash_ok());
        }
        let ghost snap = *self;
        while bits < MAX_CODE_BITS_LENGTH
            invariant
                builder.wf(),
                d == builder.chains(),
                self.decl@ == d,
                self.shape(),
                snap.hash_ok(),
                snap.decl == self.decl,
                snap.symbol_value_hash_exist == self.symbol_value_hash_exist,
                snap.symbol_value_hash == self.symbol_value_hash,
                snap.code_bits_hash == self.code_bits_hash,
                9 <= bits <= 32,
                forall|l: int| 0 <= l < bits ==> #[trigger] d[l].len() <= free_codes(d, l as nat),
                unit == pow2((32 - bits) as nat),
                top_value == top(d, bits as nat),
                top_value <= 0x1_0000_0000,
                long_before(d, 32) <= MAX_SYMBOL_VALUE,
                offset == long_before(d, bits as int),
                classes <= bits - 9,
                self.class_list(classes as int, bits as int),
                self.symbols_below(bits as int),
            decreases 32 - bits,
        {
            let had = builder.bits_head_exist[bits];
            match self.long_chain(builder, bits, top_value, unit, offset) {
                None => {
                    *self = HuffmanTree::new();
                    return false;
                },
                Some((t, o)) => {
                    top_value = t;
                    offset = o;
                },
            }
            proof {
                lemma_free_step(d, bits as nat);
                lemma_pow2_unfold((32 - bits) as nat);
            }
            if had {
                proof {
                    lemma_total_nonneg(d, 9, bits as int);
                    lemma_total_nonneg(d, bits as int + 1, 32);
                    assert(total(d, bits as int + 1) == total(d, bits as int) + d[bits as int].len());
                }
                self.push_class(classes, bits, top_value, offset);
                classes = classes + 1;
            } else {
                proof {
                    self.lemma_skip_length(classes as int, bits as int);
                }
            }
            unit = unit / 2;
            bits = bits + 1;
        }
        self.code_classes = classes;
        proof {
            assert(self.symbol_value_hash_exist@ == snap.symbol_value_hash_exist@);
            assert(self.symbol_value_hash@ == snap.symbol_value_hash@);
            assert(self.code_bits_hash@ == snap.code_bits_hash@);
            assert(self.decl@ == snap.decl@);
            assert(self.hash_ok());
        }
        true
    }

    proof fn lemma_skip_length(&self, n: int, e: int)
        requires
            self.class_list(n, e),
            self.decl@[e].len() == 0,
        ensures
            self.class_list(n, e + 1),
    {
        let d = self.decl@;
        assert forall|b: int|
            9 <= b < e + 1 && (#[trigger] d[b]).len() > 0 implies exists|i: int|
                0 <= i < n && self.code_bits@[i] == b by {
            assert(b < e);
        }
    }

    /// Records the class of length `bits`, the longest so far.
    fn push_class(&mut self, classes: usize, bits: usize, t: u64, o: usize)
        requires
            old(self).shape(),
            9 <= bits < 32,
            classes <= bits - 9,
            old(self).class_list(classes as int, bits as int),
            old(self).decl@[bits as int].len() > 0,
            t == top(old(self).decl@, (bits + 1) as nat),
            t < 0x1_0000_0000,
            o == long_before(old(self).decl@, bits as int + 1),
            1 <= o <= MAX_SYMBOL_VALUE,
        ensures
            final(self).shape(),
            final(self).class_list(classes as int + 1, bits as int + 1),
            final(self).decl == old(self).decl,
            final(self).symbol_value == old(self).symbol_value,
            final(self).symbol_value_hash_exist == old(self).symbol_value_hash_exist,
            final(self).symbol_value_hash == old(self).symbol_value_hash,
            final(self).code_bits_hash == old(self).code_bits_hash,
            final(self).code_classes == old(self).code_classes,
    {
        let ghost d = self.decl@;
        self.code_comparison.set(classes, t as u32);
        self.code_bits.set(classes, bits as u8);
        self.symbol_value_offset.set(classes, (o - 1) as u16);
        proof {
            let n = classes as int + 1;
            let e = bits as int + 1;
            let prev = old(self);
            assert forall|i: int| 0 <= i < n implies {
                let l = #[trigger] self.code_bits@[i] as int;
                &&& 9 <= l < e
                &&& d[l].len() > 0
                &&& self.code_comparison@[i] as int == top(d, (l + 1) as nat)
                &&& self.symbol_value_offset@[i] as int == long_before(d, l + 1) - 1
            } by {
                if i < n - 1 {
                    assert(prev.code_bits@[i] == self.code_bits@[i]);
                    let l = prev.code_bits@[i] as int;
                    assert(9 <= l < bits);
                }
            }
            assert forall|i: int, j: int|
                0 <= i < j < n implies (#[trigger] self.code_bits@[i]) < (
                #[trigger] self.code_bits@[j]) by {
                assert(prev.code_bits@[i] == self.code_bits@[i]);
                if j == n - 1 {
                    let l = prev.code_bits@[i] as int;
                    assert(9 <= l < bits);
                } else {
                    assert(prev.code_bits@[j] == self.code_bits@[j]);
                }
            }
            assert forall|b: int|
                9 <= b < e && (#[trigger] d[b]).len() > 0 implies exists|i: int|
                    0 <= i < n && self.code_bits@[i] == b by {
                if b == bits {
                    assert(self.code_bits@[n - 1] == b);
                } else {
                    let i = choose|i: int| 0 <= i < n - 1 && prev.code_bits@[i] == b;
                    assert(self.code_bits@[i] == b);
                }
            }
        }
    }

    /// Fast-path parity: a present byte-lookup entry agrees with the canonical decoding of
    /// every 32-bit value whose top byte is that entry.
    pub proof fn lemma_short_code_parity(&self, h: int, x: u32)
        requires
            self.wf(),
            0 <= h < 256,
            self.hash_present(h),
            x as int / pow2(24) as int == h,
        ensures
            decodes(self.decl(), x) == Some((self.hash_entry(h).0, self.hash_entry(h).1 as nat)),
    {
        let d = self.decl@;
        let (b, k) = choose|b: int, k: int|
            short_entry(d, h, b, k) && self.symbol_value_hash@[h] == d[b][k]
                && self.code_bits_hash@[h] == b;
        lemma_pow2_pos(24);
        lemma_pow2_pos((8 - b) as nat);
        lemma_div_denominator(x as int, pow2(24) as int, pow2((8 - b) as nat) as int);
        lemma_pow2_adds(24, (8 - b) as nat);
        assert(24 + (8 - b) == 32 - b);
        lemma_canonical_round_trip(d, b, k, x);
    }

    /// An empty table has no byte-lookup entry.
    pub proof fn lemma_blank(&self)
        requires
            self.blank(),
        ensures
            forall|h: int| 0 <= h < 256 ==> !#[trigger] self.hash_present(h),
    {
    }

    /// The byte lookup is complete: for every code of at most eight bits, every byte that
    /// starts with it is present and gives that code's symbol and length.
    pub proof fn lemma_short_code_present(&self, b: int, k: int, h: int)
        requires
            self.wf(),
            1 <= b <= MAX_BITS_HASH,
            0 <= k < self.decl()[b].len(),
            0 <= h < 256,
            h / pow2((8 - b) as nat) as int == code_of(self.decl(), b as nat, k),
        ensures
            self.hash_present(h),
            self.hash_entry(h) == (self.decl()[b][k], b as u8),
    {
        let d = self.decl@;
        lemma2_to64();
        let x = (h * 0x100_0000) as u32;
        assert(x as int == h * 0x100_0000);
        assert(x as int / 0x100_0000 == h);
        lemma_pow2_pos((8 - b) as nat);
        lemma_div_denominator(x as int, pow2(24) as int, pow2((8 - b) as nat) as int);
        lemma_pow2_adds(24, (8 - b) as nat);
        assert(24 + (8 - b) == 32 - b);
        assert(matches(d, x, b, k));
        lemma_match_range(d, x, b, k);
        lemma_top_mono(d, (b + 1) as nat, 9);
        assert(self.symbol_value_hash_exist@[h]);
        self.lemma_short_code_parity(h, x);
        lemma_canonical_round_trip(d, b, k, x);
    }

    /// Decodes one symbol: `None` when the next 32 bits start with no code of the table.
    pub fn read_code(&self, reader: &mut BitReader) -> (r: Option<u16>)
        requires
            self.wf(),
            old(reader).wf(),
        ensures
            final(reader).wf(),
            final(reader).stream() == old(reader).stream(),
            final(reader).input_bytes() == old(reader).input_bytes(),
            final(reader).period() == old(reader).period(),
            final(reader).cursor_bytes() >= old(reader).cursor_bytes(),
            match decodes(self.decl(), bits_at(old(reader).stream(), old(reader).position(), 32)) {
                Some((s, b)) => r == Some(s) && final(reader).position() == old(reader).position()
                    + b,
                None => r is None && final(reader).position() == old(reader).position(),
            },
    {
        let ghost d = self.decl@;
        let h = reader.read_bits(8);
        let x = reader.read_bits(32);
        proof {
            let w = crate::bitreader::window(reader.stream(), reader.position());
            assert(w >> 0u32 == w) by (bit_vector);
            lemma_u32_shr_is_div(x, 24);
            lemma2_to64();
        }
        if self.symbol_value_hash_exist[h as usize] {
            let symbol = self.symbol_value_hash[h as usize];
            let bits = self.code_bits_hash[h as usize];
            proof {
                self.lemma_short_code_parity(h as int, x);
            }
            reader.drop_bits(bits);
            return Some(symbol);
        }
        proof {
            self.lemma_below_short_codes(h, x);
        }
        match self.long_code(x) {
            None => None,
            Some((symbol, bits)) => {
                reader.drop_bits(bits);
                Some(symbol)
            },
        }
    }

    proof fn lemma_below_short_codes(&self, h: u32, x: u32)
        requires
            self.wf(),
            h < 256,
            h as int == x as int / 0x100_0000,
            !self.symbol_value_hash_exist@[h as int],
        ensures
            x < top(self.decl@, 9),
    {
        let d = self.decl@;
        lemma2_to64();
        lemma_free_step(d, 8);
        lemma_free_nonneg(d, 9);
        let m = free_codes(d, 8) - d[8].len();
        assert(top(d, 9) == m * 0x100_0000);
        assert((h as int) < m) by (nonlinear_arith)
            requires
                (h as int) * 0x100_0000 < m * 0x100_0000,
        ;
        assert(x < top(d, 9)) by (nonlinear_arith)
            requires
                h as int == x as int / 0x100_0000,
                (h as int) + 1 <= m,
                top(d, 9) == m * 0x100_0000,
        ;
    }

    /// The lengths `e..` up to the length of class `i` (all lengths past the last class when
    /// `i` is the class count) hold no symbols, where `e` follows the class before `i`.
    proof fn lemma_gap_empty(&self, i: int, e: int, b: int)
        requires
            self.wf(),
            0 <= i <= self.code_classes,
            e == (if i == 0 {
                9
            } else {
                self.code_bits@[i - 1] + 1
            }),
            e <= b < 32,
            i < self.code_classes ==> b < self.code_bits@[i],
        ensures
            self.decl@[b].len() == 0,
    {
        let d = self.decl@;
        let n = self.code_classes as int;
        if d[b].len() > 0 {
            let j = choose|j: int| 0 <= j < n && self.code_bits@[j] == b;
            if j < i {
                if j < i - 1 {
                    assert(self.code_bits@[j] < self.code_bits@[i - 1]);
                }
            } else if j > i {
                assert(self.code_bits@[i] < self.code_bits@[j]);
            }
        }
    }

    /// Decodes a code of nine bits or more from the 32-bit value `x`, by scanning the classes
    /// in increasing length for the first whose smallest code is at most `x`.
    fn long_code(&self, x: u32) -> (r: Option<(u16, u8)>)
        requires
            self.wf(),
            x < top(self.decl@, 9),
        ensures
            match decodes(self.decl@, x) {
                Some((s, b)) => r == Some((s, b as u8)) && b < 32,
                None => r is None,
            },
    {
        let ghost d = self.decl@;
        let n = self.code_classes;
        let mut i: usize = 0;
        while i < n && x < self.code_comparison[i]
            invariant
                self.wf(),
                d == self.decl@,
                n == self.code_classes,
                i <= n,
                i > 0 ==> 9 <= self.code_bits@[i - 1] < 32,
                x < top(d, (if i == 0 {
                    9
                } else {
                    self.code_bits@[i - 1] + 1
                }) as nat),
            decreases n - i,
        {
            i = i + 1;
        }
        let ghost e: int = if i == 0 {
            9
        } else {
            self.code_bits@[i - 1] + 1
        };
        if i == n {
            proof {
                assert forall|b: int, k: int| !matches(d, x, b, k) by {
                    if matches(d, x, b, k) {
                        lemma_match_range(d, x, b, k);
                        if b + 1 <= e {
                            lemma_top_mono(d, (b + 1) as nat, e as nat);
                        } else {
                            self.lemma_gap_empty(i as int, e, b);
                        }
                    }
                }
            }
            return None;
        }
        let l = self.code_bits[i];
        let cc = self.code_comparison[i];
        proof {
            assert forall|b: int| e <= b < l implies #[trigger] d[b].len() == 0 by {
                self.lemma_gap_empty(i as int, e, b);
            }
            if i > 0 {
                assert(self.code_bits@[i - 1] < self.code_bits@[i as int]);
            }
            lemma_top_flat(d, e as nat, l as nat);
        }
        let shifted = self.locate(i, x);
        let index = self.symbol_value_offset[i] as usize - shifted as usize;
        let symbol = self.symbol_value[index];
        Some((symbol, l))
    }

    /// Where, counted back from the end of class `i`, the symbol of `x` stands.
    #[verifier::spinoff_prover]
    #[verifier::rlimit(50)]
    fn locate(&self, i: usize, x: u32) -> (r: u32)
        requires
            self.wf(),
            i < self.code_classes,
            self.code_comparison@[i as int] <= x < top(self.decl@, self.code_bits@[i as int] as nat),
        ensures
            ({
                let d = self.decl@;
                let l = self.code_bits@[i as int] as int;
                let k = d[l].len() - 1 - r;
                &&& 0 <= r < d[l].len()
                &&& r <= self.symbol_value_offset@[i as int]
                &&& self.symbol_value_offset@[i as int] - r < MAX_SYMBOL_VALUE
                &&& self.symbol_value@[self.symbol_value_offset@[i as int] - r] == d[l][k]
                &&& decodes(d, x) == Some((d[l][k], l as nat))
            }),
    {
        let ghost d = self.decl@;
        let l = self.code_bits[i];
        let cc = self.code_comparison[i];
        proof {
            lemma_free_step(d, l as nat);
            lemma_pow2_pos((32 - l) as nat);
        }
        let ghost p = pow2((32 - l) as nat) as int;
        let ghost f = free_codes(d, l as nat);
        let ghost len = d[l as int].len() as int;
        let ghost v = x as int / p;
        proof {
            lemma_div_bounds(x as int, p, f - len, f);
            let k = f - 1 - v;
            assert(matches(d, x, l as int, k));
            lemma_canonical_round_trip(d, l as int, k, x);
            let r = x as int % p;
            assert(x as int == v * p + r && 0 <= r < p) by (nonlinear_arith)
                requires
                    p > 0,
                    v == x as int / p,
                    r == x as int % p,
            ;
            assert(x as int - cc as int == (v - (f - len)) * p + r) by (nonlinear_arith)
                requires
                    x as int == v * p + r,
                    cc as int == (f - len) * p,
            ;
            lemma_fundamental_div_mod_converse(x as int - cc as int, p, v - (f - len), r);
            lemma_u32_shr_is_div((x - cc) as u32, (32 - l) as u32);
            lemma_long_index(d, l as int, k, 32);
            assert(total(d, l as int + 1) == total(d, l as int) + len);
        }
        (x - cc) >> (32 - l as u32)
    }

    /// Enters the chain of length `bits` (at most eight) in the byte lookup, below `bound`.
    fn short_chain(&mut self, builder: &HuffmanTreeBuilder, bits: usize, bound: usize, step: usize) -> (r:
        Option<usize>)
        requires
            builder.wf(),
            old(self).decl@ == builder.chains(),
            old(self).shape(),
            old(self).code_classes == 0,
            bits <= 8,
            bound <= 256,
            step == pow2((8 - bits) as nat),
            bound == free_codes(builder.chains(), bits as nat) * step,
            old(self).hash_from(bound as int),
        ensures
            final(self).shape(),
            final(self).decl@ == old(self).decl@,
            final(self).code_classes == 0,
            match r {
                None => builder.chains()[bits as int].len() > free_codes(
                    builder.chains(),
                    bits as nat,
                ),
                Some(nb) => {
                    &&& builder.chains()[bits as int].len() <= free_codes(
                        builder.chains(),
                        bits as nat,
                    )
                    &&& nb == (free_codes(builder.chains(), bits as nat)
                        - builder.chains()[bits as int].len()) * step
                    &&& nb <= 256
                    &&& final(self).hash_from(nb as int)
                },
            },
    {
        let ghost d = builder.chains();
        let mut bound = bound;
        let mut exist = builder.bits_head_exist[bits];
        let mut current = builder.bits_head[bits];
        let ghost mut k: int = 0;
        proof {
            lemma_pow2_pos((8 - bits) as nat);
            let f = free_codes(d, bits as nat);
            assert(f >= 0) by (nonlinear_arith)
                requires
                    f * step >= 0,
                    step > 0,
            ;
        }
        while exist
            invariant
                builder.wf(),
                d == builder.chains(),
                self.decl@ == d,
                old(self).decl@ == d,
                self.shape(),
                self.code_classes == 0,
                bits <= 8,
                bound <= 256,
                step == pow2((8 - bits) as nat),
                step > 0,
                0 <= k <= d[bits as int].len(),
                exist ==> k < d[bits as int].len() && current == d[bits as int][k],
                !exist ==> k == d[bits as int].len(),
                bound == (free_codes(d, bits as nat) - k) * step,
                k <= free_codes(d, bits as nat),
                self.hash_from(bound as int),
            decreases d[bits as int].len() - k,
        {
            let ghost f = free_codes(d, bits as nat);
            if bound < step {
                proof {
                    assert((f - k) * step < step ==> f - k < 1) by (nonlinear_arith)
                        requires
                            step > 0,
                    ;
                }
                return None;
            }
            let lo = bound - step;
            proof {
                assert((f - k) * step - step == (f - k - 1) * step) by (nonlinear_arith);
                assert(f - k >= 1) by (nonlinear_arith)
                    requires
                        step > 0,
                        (f - k) * step >= step,
                ;
            }
            let ghost before = *self;
            self.fill_hash(lo, bound, current, bits as u8);
            proof {
                assert forall|h: int|
                    0 <= h < 256 && #[trigger] self.symbol_value_hash_exist@[h] implies exists|
                        b: int,
                        kk: int,
                    |
                        short_entry(d, h, b, kk) && self.symbol_value_hash@[h] == d[b][kk]
                            && self.code_bits_hash@[h] == b by {
                    if lo <= h < bound {
                        lemma_fundamental_div_mod_converse(h, step as int, f - 1 - k, h - lo);
                        assert(short_entry(d, h, bits as int, k));
                    } else {
                        assert(before.symbol_value_hash_exist@[h]);
                    }
                }
                if k + 1 < d[bits as int].len() {
                    assert(builder.bits_body_exist@[d[bits as int][k] as int]);
                } else {
                    assert(!builder.bits_body_exist@[d[bits as int][d[bits as int].len()
                        - 1] as int]);
                }
            }
            bound = lo;
            exist = builder.bits_body_exist[current as usize];
            current = builder.bits_body[current as usize];
            proof {
                k = k + 1;
            }
        }
        Some(bound)
    }

    /// Lays out the chain of length `bits` (nine or more) in `symbol_value` from `offset`,
    /// taking one code per symbol off `top_value`.
    fn long_chain(
        &mut self,
        builder: &HuffmanTreeBuilder,
        bits: usize,
        top_value: u64,
        unit: u64,
        offset: usize,
    ) -> (r: Option<(u64, usize)>)
        requires
            builder.wf(),
            old(self).decl@ == builder.chains(),
            old(self).shape(),
            9 <= bits < 32,
            unit == pow2((32 - bits) as nat),
            top_value == top(builder.chains(), bits as nat),
            top_value <= 0x1_0000_0000,
            long_before(builder.chains(), 32) <= MAX_SYMBOL_VALUE,
            offset == long_before(builder.chains(), bits as int),
            old(self).symbols_below(bits as int),
        ensures
            final(self).shape(),
            final(self).decl@ == old(self).decl@,
            final(self).code_comparison == old(self).code_comparison,
            final(self).symbol_value_offset == old(self).symbol_value_offset,
            final(self).code_bits == old(self).code_bits,
            final(self).symbol_value_hash_exist == old(self).symbol_value_hash_exist,
            final(self).symbol_value_hash == old(self).symbol_value_hash,
            final(self).code_bits_hash == old(self).code_bits_hash,
            final(self).code_classes == old(self).code_classes,
            match r {
                None => builder.chains()[bits as int].len() > free_codes(
                    builder.chains(),
                    bits as nat,
                ),
                Some((t, o)) => {
                    &&& builder.chains()[bits as int].len() <= free_codes(
                        builder.chains(),
                        bits as nat,
                    )
                    &&& t == (free_codes(builder.chains(), bits as nat)
                        - builder.chains()[bits as int].len()) * unit
                    &&& t <= 0x1_0000_0000
                    &&& (builder.chains()[bits as int].len() > 0 ==> t < 0x1_0000_0000)
                    &&& o == long_before(builder.chains(), bits as int + 1)
                    &&& final(self).symbols_below(bits as int + 1)
                },
            },
    {
        let ghost d = builder.chains();
        let mut top_value = top_value;
        let mut offset = offset;
        let mut exist = builder.bits_head_exist[bits];
        let mut current = builder.bits_head[bits];
        let ghost mut k: int = 0;
        let ghost start = offset as int;
        proof {
            lemma_pow2_pos((32 - bits) as nat);
            lemma_total_nonneg(d, bits as int + 1, 32);
            let f = free_codes(d, bits as nat);
            assert(f >= 0) by (nonlinear_arith)
                requires
                    f * unit >= 0,
                    unit > 0,
            ;
        }
        while exist
            invariant
                builder.wf(),
                d == builder.chains(),
                self.decl@ == d,
                old(self).decl@ == d,
                self.shape(),
                self.code_comparison == old(self).code_comparison,
                self.symbol_value_offset == old(self).symbol_value_offset,
                self.code_bits == old(self).code_bits,
                self.symbol_value_hash_exist == old(self).symbol_value_hash_exist,
                self.symbol_value_hash == old(self).symbol_value_hash,
                self.code_bits_hash == old(self).code_bits_hash,
                self.code_classes == old(self).code_classes,
                9 <= bits < 32,
                unit == pow2((32 - bits) as nat),
                unit > 0,
                top_value <= 0x1_0000_0000,
                k > 0 ==> top_value < 0x1_0000_0000,
                long_before(d, 32) <= MAX_SYMBOL_VALUE,
                total(d, bits as int + 1) <= total(d, 32),
                start == long_before(d, bits as int),
                0 <= k <= d[bits as int].len(),
                exist ==> k < d[bits as int].len() && current == d[bits as int][k],
                !exist ==> k == d[bits as int].len(),
                top_value == (free_codes(d, bits as nat) - k) * unit,
                k <= free_codes(d, bits as nat),
                offset == start + k,
                self.symbols_below(bits as int),
                forall|kk: int|
                    0 <= kk < k ==> self.symbol_value@[start + kk] == #[trigger] d[bits as int][kk],
            decreases d[bits as int].len() - k,
        {
            let ghost f = free_codes(d, bits as nat);
            if top_value < unit {
                proof {
                    assert((f - k) * unit < unit ==> f - k < 1) by (nonlinear_arith)
                        requires
                            unit > 0,
                    ;
                }
                return None;
            }
            proof {
                assert((f - k) * unit - unit == (f - k - 1) * unit) by (nonlinear_arith);
                assert(f - k >= 1) by (nonlinear_arith)
                    requires
                        unit > 0,
                        (f - k) * unit >= unit,
                ;
            }
            let ghost before = *self;
            self.symbol_value.set(offset, current);
            proof {
                assert forall|b: int, kk: int|
                    9 <= b < bits && 0 <= kk < d[b].len() implies self.symbol_value@[long_before(
                    d,
                    b,
                ) + kk] == (#[trigger] d[b][kk]) by {
                    lemma_long_index(d, b, kk, bits as int);
                    assert(before.symbol_value@[long_before(d, b) + kk] == d[b][kk]);
                }
                assert(self.symbols_below(bits as int));
                assert forall|kk: int| 0 <= kk < k + 1 implies self.symbol_value@[start + kk]
                    == #[trigger] d[bits as int][kk] by {
                    lemma_long_index(d, bits as int, kk, 32);
                    if kk < k {
                        assert(before.symbol_value@[start + kk] == d[bits as int][kk]);
                    }
                }
                if k + 1 < d[bits as int].len() {
                    assert(builder.bits_body_exist@[d[bits as int][k] as int]);
                } else {
                    assert(!builder.bits_body_exist@[d[bits as int][d[bits as int].len()
                        - 1] as int]);
                }
            }
            offset = offset + 1;
            top_value = top_value - unit;
            exist = builder.bits_body_exist[current as usize];
            current = builder.bits_body[current as usize];
            proof {
                k = k + 1;
            }
        }
        proof {
            assert forall|b: int, kk: int|
                9 <= b < bits + 1 && 0 <= kk < d[b].len() implies self.symbol_value@[long_before(
                d,
                b,
            ) + kk] == (#[trigger] d[b][kk]) by {
                if b == bits {
                    assert(self.symbol_value@[start + kk] == d[bits as int][kk]);
                }
            }
        }
        Some((top_value, offset))
    }

    fn fill_hash(&mut self, lo: usize, hi: usize, symbol: u16, bits: u8)
        requires
            old(self).shape(),
            lo <= hi <= 256,
        ensures
            final(self).shape(),
            final(self).decl == old(self).decl,
            final(self).code_comparison == old(self).code_comparison,
            final(self).symbol_value_offset == old(self).symbol_value_offset,
            final(self).code_bits == old(self).code_bits,
            final(self).symbol_value == old(self).symbol_value,
            final(self).code_classes == old(self).code_classes,
            forall|h: int|
                0 <= h < 256 ==> #[trigger] final(self).symbol_value_hash_exist@[h] == if lo <= h
                    < hi {
                    true
                } else {
                    old(self).symbol_value_hash_exist@[h]
                },
            forall|h: int|
                0 <= h < 256 ==> #[trigger] final(self).symbol_value_hash@[h] == if lo <= h < hi {
                    symbol
                } else {
                    old(self).symbol_value_hash@[h]
                },
            forall|h: int|
                0 <= h < 256 ==> #[trigger] final(self).code_bits_hash@[h] == if lo <= h < hi {
                    bits
                } else {
                    old(self).code_bits_hash@[h]
                },
    {
        let mut h = lo;
        while h < hi
            invariant
                self.shape(),
                lo <= h <= hi <= 256,
                self.decl == old(self).decl,
                self.code_comparison == old(self).code_comparison,
                self.symbol_value_offset == old(self).symbol_value_offset,
                self.code_bits == old(self).code_bits,
                self.symbol_value == old(self).symbol_value,
                self.code_classes == old(self).code_classes,
                forall|g: int|
                    0 <= g < 256 ==> #[trigger] self.symbol_value_hash_exist@[g] == if lo <= g < h {
                        true
                    } else {
                        old(self).symbol_value_hash_exist@[g]
                    },
                forall|g: int|
                    0 <= g < 256 ==> #[trigger] self.symbol_value_hash@[g] == if lo <= g < h {
                        symbol
                    } else {
                        old(self).symbol_value_hash@[g]
                    },
                forall|g: int|
                    0 <= g < 256 ==> #[trigger] self.code_bits_hash@[g] == if lo <= g < h {
                        bits
                    } else {
                        old(self).code_bits_hash@[g]
                    },
            decreases hi - h,
        {
            self.symbol_value_hash_exist.set(h, true);
            self.symbol_value_hash.set(h, symbol);
            self.code_bits_hash.set(h, bits);
            h = h + 1;
        }
    }
}

} // verus!
