//! The split-order key space: every key is mapped to its 64-bit bit-reversal,
//! with the lowest bit of the image reserved as a tag telling bucket sentinels
//! (tag 0) and data entries (tag 1) apart.

use vstd::prelude::*;

verus! {

use vstd::arithmetic::div_mod::{
    lemma_basic_div, lemma_div_denominator, lemma_div_pos_is_pos,
    lemma_fundamental_div_mod, lemma_mod_breakdown,
    lemma_mod_division_less_than_divisor, lemma_small_mod,
};
use vstd::arithmetic::power2::{
    lemma2_to64, lemma2_to64_rest, lemma_pow2_adds, lemma_pow2_pos,
    lemma_pow2_strictly_increases, lemma_pow2_unfold, pow2,
};

/// Keys the map accepts: the top bit must be clear, because after reversal it
/// becomes the tag bit that separates sentinels from data entries.
pub open spec fn valid_key(k: u64) -> bool {
    k < 0x8000_0000_0000_0000u64
}

/// The low `n` bits of `x`, read back to front: bit 0 of `x` becomes the top
/// bit of an `n`-bit result.
pub open spec fn rev_bits(x: int, n: nat) -> int
    decreases n,
{
    if n == 0 {
        0
    } else {
        rev_bits(x / 2, (n - 1) as nat) + (x % 2) * pow2((n - 1) as nat)
    }
}

/// The full 64-bit reversal underlying the split-order key space.
pub open spec fn so_rev(x: u64) -> int {
    rev_bits(x as int, 64)
}

/// Split-order key anchoring bucket `b`: the reversal of `b`, tag bit clear.
pub open spec fn bucket_key_spec(b: u64) -> int {
    so_rev(b)
}

/// Split-order key of a data entry with key `k`: the reversal of `k`, tag bit
/// set.  For a valid key the reversal is even, so adding one sets the tag.
pub open spec fn data_key_spec(k: u64) -> int {
    so_rev(k) + 1
}

/// A reversal of `n` bits always fits in `n` bits.
pub proof fn lemma_rev_bits_bound(x: int, n: nat)
    requires
        x >= 0,
    ensures
        0 <= rev_bits(x, n) < pow2(n),
    decreases n,
{
    if n == 0 {
        lemma2_to64();
    } else {
        lemma_div_pos_is_pos(x, 2);
        lemma_rev_bits_bound(x / 2, (n - 1) as nat);
        lemma_pow2_unfold(n);
        lemma_pow2_pos((n - 1) as nat);
        lemma_mod_division_less_than_divisor(x, 2);
        assert((x % 2) * pow2((n - 1) as nat) <= pow2((n - 1) as nat)) by (nonlinear_arith)
            requires
                0 <= x % 2 <= 1,
                pow2((n - 1) as nat) >= 0,
        ;
    }
}

/// Zero reverses to zero at every width.
pub proof fn lemma_rev_bits_zero(n: nat)
    ensures
        rev_bits(0, n) == 0,
    decreases n,
{
    if n > 0 {
        lemma_rev_bits_zero((n - 1) as nat);
        lemma_basic_div(0, 2);
        lemma_small_mod(0, 2);
    }
}

/// One reverses to the top bit of the result width.
pub proof fn lemma_rev_bits_one(n: nat)
    requires
        n >= 1,
    ensures
        rev_bits(1, n) == pow2((n - 1) as nat),
{
    lemma_rev_bits_zero((n - 1) as nat);
    lemma_basic_div(1, 2);
    lemma_small_mod(1, 2);
    lemma_pow2_pos((n - 1) as nat);
}

/// Unfolding a reversal at the top: widening by one bit doubles the image and
/// brings in bit `n` of `x` as the new lowest bit.
pub proof fn lemma_rev_bits_unfold_top(x: int, n: nat)
    requires
        x >= 0,
    ensures
        rev_bits(x, (n + 1) as nat) == 2 * rev_bits(x, n) + (x / pow2(n) as int) % 2,
    decreases n,
{
    lemma_pow2_pos(n);
    if n == 0 {
        lemma2_to64();
        lemma_fundamental_div_mod(x, 1);
        lemma_mod_division_less_than_divisor(x, 1);
        assert(rev_bits(x, 1) == rev_bits(x / 2, 0) + (x % 2) * pow2(0));
        assert(rev_bits(x, (n + 1) as nat) == 2 * rev_bits(x, n) + (x / pow2(n) as int) % 2);
    } else {
        let nm = (n - 1) as nat;
        lemma_div_pos_is_pos(x, 2);
        lemma_rev_bits_unfold_top(x / 2, nm);
        lemma_pow2_pos(nm);
        lemma_pow2_unfold(n);
        assert((x / 2) / pow2(nm) as int == x / pow2(n) as int) by {
            lemma_div_denominator(x, 2, pow2(nm) as int);
        }
        assert(rev_bits(x / 2, (nm + 1) as nat) == 2 * rev_bits(x / 2, nm) + (x / pow2(n) as int)
            % 2);
        assert(rev_bits(x, (n + 1) as nat) == rev_bits(x / 2, n) + (x % 2) * pow2(n));
        assert(rev_bits(x, n) == rev_bits(x / 2, nm) + (x % 2) * pow2(nm));
        lemma_mod_division_less_than_divisor(x, 2);
        assert((x % 2) * pow2(n) == 2 * ((x % 2) * pow2(nm))) by (nonlinear_arith)
            requires
                pow2(n) == 2 * pow2(nm),
        ;
    }
}

/// The parity of an `n`-bit reversal is the top bit of the input.
pub proof fn lemma_rev_bits_parity(x: int, n: nat)
    requires
        x >= 0,
        n >= 1,
    ensures
        rev_bits(x, n) % 2 == (x / pow2((n - 1) as nat) as int) % 2,
{
    lemma_rev_bits_unfold_top(x, (n - 1) as nat);
    let a = rev_bits(x, (n - 1) as nat);
    let b = (x / pow2((n - 1) as nat) as int) % 2;
    lemma_pow2_pos((n - 1) as nat);
    lemma_div_pos_is_pos(x, pow2((n - 1) as nat) as int);
    lemma_mod_division_less_than_divisor(x / pow2((n - 1) as nat) as int, 2);
    assert((2 * a + b) % 2 == b) by (nonlinear_arith)
        requires
            0 <= b < 2,
    ;
}

/// Splitting a 64-bit reversal at bit `j`: the low `j` bits of `x` land in the
/// high part of the image, the remaining bits in the low part.
pub proof fn lemma_rev_bits_split(x: int, j: nat)
    requires
        x >= 0,
        j <= 64,
    ensures
        rev_bits(x, 64) == rev_bits(x % pow2(j) as int, 64) + rev_bits(
            x / pow2(j) as int,
            (64 - j) as nat,
        ),
    decreases j,
{
    lemma_pow2_pos(j);
    if j == 0 {
        lemma2_to64();
        lemma_fundamental_div_mod(x, 1);
        lemma_mod_division_less_than_divisor(x, 1);
        lemma_rev_bits_zero(64);
    } else {
        let jm = (j - 1) as nat;
        let pj = pow2(jm) as int;
        let pj1 = pow2(j) as int;
        lemma_pow2_pos(jm);
        lemma_pow2_unfold(j);
        lemma_rev_bits_split(x, jm);
        // x % pow2(j) == pow2(jm) * ((x / pow2(jm)) % 2) + x % pow2(jm)
        lemma_mod_breakdown(x, pj, 2);
        let b = (x / pj) % 2;
        let y = x % pj1;
        assert(y == pj * b + x % pj);
        lemma_mod_division_less_than_divisor(x, pj);
        lemma_div_pos_is_pos(x, pj);
        lemma_mod_division_less_than_divisor(x / pj, 2);
        // y agrees with x below bit jm, and bit jm of y is b
        assert(y % pj == x % pj && y / pj == b) by (nonlinear_arith)
            requires
                y == pj * b + x % pj,
                0 <= x % pj < pj,
                0 <= b < 2,
                pj > 0,
        ;
        lemma_rev_bits_split(y, jm);
        let w = (64 - jm) as nat;
        // b is a single bit: its reversal leaves only the term for the top bit
        lemma_basic_div(b, 2);
        lemma_small_mod(b as nat, 2);
        lemma_rev_bits_zero((w - 1) as nat);
        assert(rev_bits(b, w) == rev_bits(b / 2, (w - 1) as nat) + (b % 2) * pow2((w - 1) as nat));
        assert(b % 2 == b);
        // peel the lowest remaining bit of x / pow2(jm)
        let q = x / pj;
        assert(rev_bits(q, w) == rev_bits(q / 2, (w - 1) as nat) + (q % 2) * pow2((w - 1) as nat));
        lemma_div_denominator(x, pj, 2);
        assert(q / 2 == x / pj1);
        assert((64 - j) as nat == (w - 1) as nat);
        assert(rev_bits(y, 64) == rev_bits(x % pj, 64) + rev_bits(b, w));
        assert(rev_bits(x, 64) == rev_bits(x % pj, 64) + rev_bits(q, w));
    }
}

/// Reversal is injective on `n`-bit values.
pub proof fn lemma_rev_bits_injective(x: int, y: int, n: nat)
    requires
        0 <= x < pow2(n),
        0 <= y < pow2(n),
        rev_bits(x, n) == rev_bits(y, n),
    ensures
        x == y,
    decreases n,
{
    if n == 0 {
        lemma2_to64();
    } else {
        let m = (n - 1) as nat;
        let p = pow2(m) as int;
        lemma_pow2_pos(m);
        lemma_pow2_unfold(n);
        lemma_div_pos_is_pos(x, 2);
        lemma_div_pos_is_pos(y, 2);
        lemma_rev_bits_bound(x / 2, m);
        lemma_rev_bits_bound(y / 2, m);
        let ax = rev_bits(x / 2, m);
        let ay = rev_bits(y / 2, m);
        let bx = x % 2;
        let by_ = y % 2;
        lemma_mod_division_less_than_divisor(x, 2);
        lemma_mod_division_less_than_divisor(y, 2);
        assert(ax + bx * p == ay + by_ * p);
        assert(bx == by_ && ax == ay) by (nonlinear_arith)
            requires
                ax + bx * p == ay + by_ * p,
                0 <= ax < p,
                0 <= ay < p,
                0 <= bx < 2,
                0 <= by_ < 2,
        ;
        assert(x / 2 < p && y / 2 < p) by (nonlinear_arith)
            requires
                0 <= x < 2 * p,
                0 <= y < 2 * p,
                p > 0,
        ;
        lemma_rev_bits_injective(x / 2, y / 2, m);
        lemma_fundamental_div_mod(x, 2);
        lemma_fundamental_div_mod(y, 2);
    }
}

/// The reversal of a valid (top-bit-clear) key is even.
pub proof fn lemma_so_rev_even(x: u64)
    requires
        valid_key(x),
    ensures
        so_rev(x) % 2 == 0,
{
    lemma_rev_bits_parity(x as int, 64);
    lemma2_to64();
    lemma2_to64_rest();
    lemma_basic_div(x as int, pow2(63) as int);
}

/// The reversal of any `u64` fits in a `u64`.
pub proof fn lemma_so_rev_bound(x: u64)
    ensures
        0 <= so_rev(x) < 0x1_0000_0000_0000_0000,
{
    lemma_rev_bits_bound(x as int, 64);
    lemma2_to64();
}

/// Distinct valid keys have distinct data keys.
pub proof fn lemma_data_key_injective(k1: u64, k2: u64)
    requires
        valid_key(k1),
        valid_key(k2),
        data_key_spec(k1) == data_key_spec(k2),
    ensures
        k1 == k2,
{
    lemma2_to64();
    lemma_rev_bits_injective(k1 as int, k2 as int, 64);
}

/// A bucket sentinel key is never a data key: their tag bits differ.
pub proof fn lemma_bucket_key_ne_data_key(b: u64, k: u64)
    requires
        valid_key(b),
        valid_key(k),
    ensures
        bucket_key_spec(b) != data_key_spec(k),
{
    lemma_so_rev_even(b);
    lemma_so_rev_even(k);
}

/// The split-order theorem: the sentinel of the bucket a key hashes to sorts
/// at or before the key's own split-order position, at every power-of-two
/// table size.
pub proof fn lemma_bucket_key_le_rev(k: u64, j: nat)
    requires
        j <= 64,
    ensures
        bucket_key_spec((k as int % pow2(j) as int) as u64) <= so_rev(k),
{
    let p = pow2(j) as int;
    lemma_pow2_pos(j);
    lemma_mod_division_less_than_divisor(k as int, p);
    lemma_rev_bits_split(k as int, j);
    lemma_div_pos_is_pos(k as int, p);
    lemma_rev_bits_bound(k as int / p, (64 - j) as nat);
    assert((k as int % p) as u64 as int == k as int % p) by {
        lemma2_to64();
        if j < 64 {
            lemma_pow2_strictly_increases(j, 64);
        }
    }
}

/// The position of the top set bit: `floor(log2 b)` for `b >= 1`.
pub open spec fn log2floor(b: nat) -> nat
    decreases b,
{
    if b <= 1 {
        0
    } else {
        1 + log2floor(b / 2)
    }
}

/// The covering property of `log2floor`.
pub proof fn lemma_log2floor_bounds(b: nat)
    requires
        b >= 1,
    ensures
        pow2(log2floor(b)) <= b < pow2((log2floor(b) + 1) as nat),
    decreases b,
{
    if b <= 1 {
        lemma2_to64();
    } else {
        let l = log2floor(b / 2);
        lemma_log2floor_bounds(b / 2);
        lemma_pow2_unfold((l + 1) as nat);
        lemma_pow2_unfold((l + 2) as nat);
        lemma_fundamental_div_mod(b as int, 2);
        lemma_mod_division_less_than_divisor(b as int, 2);
    }
}

/// The exponent is pinned by its bracket.
pub proof fn lemma_log2floor_unique(b: nat, m: nat)
    requires
        pow2(m) <= b < pow2((m + 1) as nat),
    ensures
        log2floor(b) == m,
{
    lemma_pow2_pos(m);
    lemma_log2floor_bounds(b);
    let l = log2floor(b);
    if l < m {
        if l + 1 < m {
            lemma_pow2_strictly_increases((l + 1) as nat, m);
        }
    } else if l > m {
        if m + 1 < l {
            lemma_pow2_strictly_increases((m + 1) as nat, l);
        }
    }
}

/// The parent of a bucket index: the index with its top set bit cleared;
/// bucket 0 is its own parent.
pub open spec fn parent_bucket_spec(b: nat) -> nat {
    if b == 0 {
        0
    } else {
        (b - pow2(log2floor(b))) as nat
    }
}

/// The parent of any bucket at least 1 is a strictly smaller index.
pub proof fn lemma_parent_bucket_lt(b: nat)
    requires
        b >= 1,
    ensures
        parent_bucket_spec(b) < b,
{
    lemma_log2floor_bounds(b);
    lemma_pow2_pos(log2floor(b));
}

/// The `i`-th ancestor on a bucket's parent chain; the 0th is the bucket
/// itself, and the chain is eventually constant at bucket 0.
pub open spec fn ancestor_bucket(b: nat, i: nat) -> nat
    decreases i,
{
    if i == 0 {
        b
    } else {
        parent_bucket_spec(ancestor_bucket(b, (i - 1) as nat))
    }
}

/// Clearing the top set bit of a bucket index yields its parent, whose
/// sentinel sorts strictly earlier in split order.
pub proof fn lemma_parent_key_lt(b: u64, m: nat)
    requires
        m <= 63,
        pow2(m) <= b < pow2((m + 1) as nat),
    ensures
        bucket_key_spec((b - pow2(m)) as u64) < bucket_key_spec(b),
{
    let p = pow2(m) as int;
    lemma_pow2_pos(m);
    lemma_pow2_unfold((m + 1) as nat);
    lemma_rev_bits_split(b as int, m);
    let r = b as int - p;
    assert(0 <= r < p);
    assert(b as int % p == r && b as int / p == 1) by (nonlinear_arith)
        requires
            b as int == p * 1 + r,
            0 <= r < p,
            p > 0,
    ;
    lemma_small_mod(r as nat, p as nat);
    lemma_rev_bits_split(r, m);
    lemma_basic_div(r, p);
    lemma_rev_bits_zero((64 - m) as nat);
    lemma_rev_bits_one((64 - m) as nat);
    lemma_pow2_pos((63 - m) as nat);
    assert(rev_bits(b as int, 64) == rev_bits(r, 64) + pow2((63 - m) as nat));
}

/// Below `2^m`, a wider reversal is the `m`-bit reversal scaled to the top:
/// the image keeps zeros in its low `n - m` bits.
pub proof fn lemma_rev_bits_widen(x: int, m: nat, n: nat)
    requires
        0 <= x < pow2(m),
        m <= n,
    ensures
        rev_bits(x, n) == rev_bits(x, m) * pow2((n - m) as nat),
    decreases m,
{
    if m == 0 {
        lemma2_to64();
        lemma_rev_bits_zero(n);
    } else {
        let mm = (m - 1) as nat;
        let nm = (n - m) as nat;
        lemma_pow2_unfold(m);
        lemma_pow2_pos(mm);
        lemma_div_pos_is_pos(x, 2);
        lemma_mod_division_less_than_divisor(x, 2);
        assert(x / 2 < pow2(mm)) by (nonlinear_arith)
            requires
                0 <= x < 2 * pow2(mm),
                pow2(mm) > 0,
        ;
        lemma_rev_bits_widen(x / 2, mm, (n - 1) as nat);
        let a = rev_bits(x / 2, mm);
        let b = x % 2;
        // the two scale factors agree: 2^(m-1) * 2^(n-m) == 2^(n-1)
        lemma_pow2_adds(mm, nm);
        assert(rev_bits(x, n) == a * pow2(nm) + b * pow2((n - 1) as nat));
        assert((a + b * pow2(mm)) * pow2(nm) == a * pow2(nm) + b * pow2((n - 1) as nat))
            by (nonlinear_arith)
            requires
                pow2(mm) * pow2(nm) == pow2((n - 1) as nat),
        ;
    }
}

/// The bucket-segment theorem: at table size `2^j`, the split-order keys of
/// bucket `b` are exactly those in the aligned block of width `2^(64-j)`
/// that starts at the bucket's sentinel key.
pub proof fn lemma_bucket_segment(k: u64, b: u64, j: nat)
    requires
        1 <= j <= 63,
        b < pow2(j),
    ensures
        (k as int % pow2(j) as int == b) <==> (bucket_key_spec(b) <= so_rev(k) < bucket_key_spec(
            b,
        ) + pow2((64 - j) as nat)),
{
    let p = pow2(j) as int;
    let h = pow2((64 - j) as nat) as int;
    lemma_pow2_pos(j);
    lemma_pow2_pos((64 - j) as nat);
    lemma_mod_division_less_than_divisor(k as int, p);
    let kb = k as int % p;
    lemma_rev_bits_split(k as int, j);
    lemma_div_pos_is_pos(k as int, p);
    lemma_rev_bits_bound(k as int / p, (64 - j) as nat);
    let low = rev_bits(k as int / p, (64 - j) as nat);
    lemma_rev_bits_widen(kb, j, 64);
    lemma_rev_bits_widen(b as int, j, 64);
    lemma_rev_bits_bound(kb, j);
    lemma_rev_bits_bound(b as int, j);
    let rkb = rev_bits(kb, j);
    let rb = rev_bits(b as int, j);
    // so_rev(k) sits in the block of its own residue
    assert(rkb * h <= so_rev(k) < rkb * h + h) by (nonlinear_arith)
        requires
            so_rev(k) == rkb * h + low,
            0 <= low < h,
    ;
    if kb == b {
    } else {
        // distinct residues have distinct block starts, so the blocks are
        // disjoint
        if rb * h <= so_rev(k) < rb * h + h {
            assert(rkb == rb) by (nonlinear_arith)
                requires
                    rkb * h <= so_rev(k) < rkb * h + h,
                    rb * h <= so_rev(k) < rb * h + h,
                    h > 0,
            ;
            lemma_rev_bits_injective(kb, b as int, j);
        }
    }
}

/// A reversal reads only the low `n` bits of its input.
pub proof fn lemma_rev_bits_mod(x: int, n: nat)
    requires
        x >= 0,
    ensures
        rev_bits(x % pow2(n) as int, n) == rev_bits(x, n),
    decreases n,
{
    lemma_pow2_pos(n);
    if n == 0 {
        lemma2_to64();
        lemma_mod_division_less_than_divisor(x, 1);
    } else {
        let h = pow2((n - 1) as nat) as int;
        lemma_pow2_pos((n - 1) as nat);
        lemma_pow2_unfold(n);
        // x % 2^n splits as 2 * ((x / 2) % 2^(n-1)) + x % 2
        lemma_mod_breakdown(x, 2, h);
        let y = x % (2 * h);
        lemma_mod_division_less_than_divisor(x, 2);
        lemma_div_pos_is_pos(x, 2);
        lemma_mod_division_less_than_divisor(x / 2, h);
        assert(y / 2 == (x / 2) % h && y % 2 == x % 2) by (nonlinear_arith)
            requires
                y == 2 * ((x / 2) % h) + x % 2,
                0 <= x % 2 < 2,
                0 <= (x / 2) % h,
                h > 0,
        ;
        lemma_rev_bits_mod(x / 2, (n - 1) as nat);
        assert(rev_bits(y, n) == rev_bits(y / 2, (n - 1) as nat) + (y % 2) * pow2((n - 1) as nat));
    }
}

/// Reversing twice gives the input back: reversal is an involution on
/// `n`-bit values.
pub proof fn lemma_rev_bits_involution(x: int, n: nat)
    requires
        0 <= x < pow2(n),
    ensures
        rev_bits(rev_bits(x, n), n) == x,
    decreases n,
{
    if n == 0 {
        lemma2_to64();
    } else {
        let m = (n - 1) as nat;
        let h = pow2(m) as int;
        lemma_pow2_pos(m);
        lemma_pow2_unfold(n);
        lemma_div_pos_is_pos(x, 2);
        lemma_mod_division_less_than_divisor(x, 2);
        let a = rev_bits(x / 2, m);
        let b = x % 2;
        lemma_rev_bits_bound(x / 2, m);
        let r = rev_bits(x, n);
        assert(r == a + b * h);
        assert(r / h == b && r % h == a) by (nonlinear_arith)
            requires
                r == a + b * h,
                0 <= a < h,
                0 <= b < 2,
                h > 0,
        ;
        lemma_rev_bits_bound(x, n);
        // unfold the outer reversal at its top bit
        lemma_rev_bits_unfold_top(r, m);
        lemma_small_mod(b as nat, 2);
        // the low m bits of r are exactly a
        lemma_rev_bits_mod(r, m);
        assert(rev_bits(a, m) == rev_bits(r, m)) by {
            lemma_small_mod(a as nat, h as nat);
        }
        assert(x / 2 < h) by (nonlinear_arith)
            requires
                0 <= x < 2 * h,
                h > 0,
        ;
        lemma_rev_bits_involution(x / 2, m);
        lemma_fundamental_div_mod(x, 2);
    }
}

/// Every odd 64-bit value is the data key of exactly one valid key: the
/// reversal of its even part.
pub proof fn lemma_odd_key_has_source(o: u64)
    requires
        o % 2 == 1,
    ensures
        valid_key((rev_bits((o - 1) as int, 64)) as u64),
        data_key_spec((rev_bits((o - 1) as int, 64)) as u64) == o,
{
    lemma2_to64();
    lemma2_to64_rest();
    let y = (o - 1) as int;
    let k = rev_bits(y, 64);
    lemma_rev_bits_bound(y, 64);
    // the low bit of y is clear, so its reversal stays below 2^63
    lemma_div_pos_is_pos(y, 2);
    lemma_rev_bits_bound(y / 2, 63);
    assert(k == rev_bits(y / 2, 63) + (y % 2) * pow2(63));
    assert(y % 2 == 0);
    assert(k < pow2(63) as int);
    assert(k as u64 as int == k);
    lemma_rev_bits_involution(y, 64);
}

/// Computes the 64-bit reversal of `x`, one bit per step.
pub fn reverse_bits_u64(x: u64) -> (r: u64)
    ensures
        r as int == so_rev(x),
{
    proof {
        lemma2_to64();
        lemma_fundamental_div_mod(x as int, 1);
        lemma_mod_division_less_than_divisor(x as int, 1);
    }
    let mut r: u64 = 0;
    let mut cur: u64 = x;
    let mut i: usize = 0;
    while i < 64
        invariant
            i <= 64,
            r as int == rev_bits(x as int, i as nat),
            cur as int == x as int / pow2(i as nat) as int,
        decreases 64 - i,
    {
        proof {
            lemma_rev_bits_unfold_top(x as int, i as nat);
            lemma_rev_bits_bound(x as int, i as nat);
            lemma2_to64();
            lemma2_to64_rest();
            if (i as nat) < 63 {
                lemma_pow2_strictly_increases(i as nat, 63);
            }
            lemma_mod_division_less_than_divisor(cur as int, 2);
            lemma_pow2_pos(i as nat);
            lemma_div_denominator(x as int, pow2(i as nat) as int, 2);
            lemma_pow2_unfold((i + 1) as nat);
        }
        r = r * 2 + cur % 2;
        cur = cur / 2;
        i = i + 1;
    }
    r
}

} // verus!
