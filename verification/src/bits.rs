//! Bit-level facts shared by the hypercube orders: the reflected binary Gray
//! code and its inverse, population counts, the reversal of the low bits of a
//! word, and the two `usize` bit queries of std that the orders use.
use vstd::arithmetic::div_mod::{
    lemma_fundamental_div_mod, lemma_fundamental_div_mod_converse, lemma_mod_breakdown,
    lemma_mod_mod, lemma_mod_multiples_vanish, lemma_small_mod,
};
use vstd::arithmetic::power2::{
    lemma2_to64, lemma_pow2_adds, lemma_pow2_pos, lemma_pow2_unfold, pow2,
};
use vstd::prelude::*;

verus! {

/// The `i`-th word of the reflected binary Gray code.
pub open spec fn gray(i: usize) -> usize {
    i ^ (i >> 1usize)
}

/// The position of the word `g` in the reflected binary Gray code: the prefix
/// XOR of its bits, from the most significant bit down.
pub open spec fn gray_rank(g: usize) -> usize {
    let a = g ^ (g >> 1usize);
    let b = a ^ (a >> 2usize);
    let c = b ^ (b >> 4usize);
    let d = c ^ (c >> 8usize);
    let e = d ^ (d >> 16usize);
    e ^ ((e >> 16usize) >> 16usize)
}

/// Number of set bits in the binary representation of `n`.
pub open spec fn popcount(n: nat) -> nat
    decreases n,
{
    if n == 0 {
        0
    } else {
        n % 2 + popcount(n / 2)
    }
}

/// `gray_rank` undoes `gray` and `gray` undoes `gray_rank`: the Gray code is a
/// bijection of `usize`.
pub proof fn lemma_gray_rank_inverse(i: usize)
    ensures
        gray_rank(gray(i)) == i,
        gray(gray_rank(i)) == i,
{
    assert(gray_rank(gray(i)) == i) by (bit_vector);
    assert(gray(gray_rank(i)) == i) by (bit_vector);
}

proof fn lemma_gray_rank_low_bit(v: usize)
    ensures
        gray_rank(v) & 1 == (v & 1) ^ (gray_rank(v >> 1usize) & 1),
        v & 1 == v % 2,
        v >> 1usize == v / 2,
        gray_rank(0) == 0,
{
    assert(gray_rank(v) & 1 == (v & 1) ^ (gray_rank(v >> 1usize) & 1)) by (bit_vector);
    assert(v & 1 == v % 2) by (bit_vector);
    assert(v >> 1usize == v / 2) by (bit_vector);
    assert(gray_rank(0) == 0) by (bit_vector);
}

/// The parity of the number of set bits of `v` is the lowest bit of its
/// position in the Gray code.
pub proof fn lemma_popcount_parity(v: usize)
    ensures
        popcount(v as nat) % 2 == (gray_rank(v) & 1) as nat,
    decreases v,
{
    lemma_gray_rank_low_bit(v);
    if v != 0 {
        let h = v >> 1usize;
        lemma_popcount_parity(h);
        assert(((v & 1) ^ (gray_rank(h) & 1)) as nat == ((v & 1) + (gray_rank(h) & 1)) % 2)
            by (bit_vector);
    }
}

/// `usize::MAX` is the word whose bits are all set.
pub proof fn lemma_max_is_all_ones(i: usize)
    ensures
        (i == usize::MAX) == (i == !0usize),
{
    assert(((i + 1) as usize == i + 1) == (i != !0usize)) by (bit_vector);
    if i < usize::MAX {
        assert((i + 1) as usize == i + 1);
    }
}

/// The Gray code steps from an even position by flipping the lowest bit.
pub proof fn lemma_gray_step_even(i: usize)
    requires
        i & 1 == 0,
    ensures
        i < usize::MAX,
        gray(i) ^ 1 == gray((i + 1) as usize),
{
    assert(i & 1 == 0 ==> i != !0usize) by (bit_vector);
    lemma_max_is_all_ones(i);
    assert(i & 1 == 0 ==> gray(i) ^ 1 == gray((i + 1) as usize)) by (bit_vector);
}

/// The Gray code steps from an odd position `i` by flipping the bit just above
/// the lowest set bit of `gray(i)`, whose index `t` is given by its bit facts.
pub proof fn lemma_gray_step_odd(i: usize, t: u32)
    requires
        i & 1 == 1,
        i != usize::MAX,
        t <= usize::BITS,
        t == usize::BITS ==> gray(i) == 0,
        t < usize::BITS ==> (gray(i) >> t) & 1 == 1 && (gray(i) >> t) << t == gray(i),
    ensures
        t + 1 < usize::BITS,
        gray(i) ^ (1usize << ((t + 1) as u32)) == gray((i + 1) as usize),
{
    lemma_max_is_all_ones(i);
    assert(i & 1 == 1 ==> gray(i) != 0) by (bit_vector);
    assert(t + 1 < usize::BITS) by (bit_vector)
        requires
            i & 1 == 1,
            i != !0usize,
            t < usize::BITS,
            (gray(i) >> t) & 1 == 1,
            (gray(i) >> t) << t == gray(i),
    ;
    assert(gray(i) ^ (1usize << ((t + 1) as u32)) == gray((i + 1) as usize)) by (bit_vector)
        requires
            i & 1 == 1,
            i != !0usize,
            t + 1 < usize::BITS,
            (gray(i) >> t) & 1 == 1,
            (gray(i) >> t) << t == gray(i),
    ;
}

/// Below a power of two `s = 2^n`, the Gray code and its inverse stay below
/// `s`; the word after the last one below `s` is `gray(s)`, which is not below
/// `s`.
pub proof fn lemma_gray_below_power(n: usize, s: usize, i: usize)
    requires
        n < usize::BITS,
        s == 1usize << n,
    ensures
        i < s ==> gray(i) < s,
        i < s ==> gray_rank(i) < s,
        s <= gray(s),
        s <= gray(usize::MAX),
{
    assert(n < usize::BITS && s == 1usize << n && i < s ==> gray(i) < s) by (bit_vector);
    assert(n < usize::BITS && s == 1usize << n && i < s ==> gray_rank(i) < s) by (bit_vector);
    assert(n < usize::BITS && s == 1usize << n ==> s <= gray(s)) by (bit_vector);
    assert(n < usize::BITS && s == 1usize << n ==> s <= gray(!0usize)) by (bit_vector);
    lemma_max_is_all_ones(usize::MAX);
}

/// The low `n` bits of `x` read in the opposite order: bit `j` of `x` becomes
/// bit `n - 1 - j` of the result.
pub open spec fn bit_reverse(x: nat, n: nat) -> nat
    decreases n,
{
    if n == 0 {
        0
    } else {
        let top = pow2((n - 1) as nat);
        (x / top) % 2 + 2 * bit_reverse(x % top, (n - 1) as nat)
    }
}

proof fn lemma_halves(y: nat, m: nat)
    ensures
        pow2(m + 1) == 2 * pow2(m),
        pow2(m) > 0,
        (y / 2) / pow2(m) == y / pow2(m + 1),
        (y % pow2(m + 1)) / 2 == (y / 2) % pow2(m),
        (y % pow2(m + 1)) % 2 == y % 2,
{
    let t = pow2(m);
    lemma_pow2_pos(m);
    lemma_pow2_unfold(m + 1);
    vstd::arithmetic::div_mod::lemma_div_denominator(y as int, 2, t as int);
    lemma_mod_breakdown(y as int, 2, t as int);
    lemma_mod_mod(y as int, 2, t as int);
    let r = y % (2 * t);
    lemma_fundamental_div_mod_converse(r as int, 2, ((y / 2) % t) as int, (y % 2) as int);
}

/// The reversal of `n` bits is below `2^n`.
pub proof fn lemma_bit_reverse_bound(x: nat, n: nat)
    ensures
        bit_reverse(x, n) < pow2(n),
    decreases n,
{
    lemma2_to64();
    if n > 0 {
        lemma_pow2_unfold(n);
        lemma_pow2_pos((n - 1) as nat);
        lemma_bit_reverse_bound(x % pow2((n - 1) as nat), (n - 1) as nat);
    }
}

/// Reversal read from the lowest bit: bit 0 of `y` becomes bit `n - 1`.
pub proof fn lemma_bit_reverse_low(y: nat, n: nat)
    requires
        n >= 1,
    ensures
        bit_reverse(y, n) == (y % 2) * pow2((n - 1) as nat) + bit_reverse(y / 2, (n - 1) as nat),
    decreases n,
{
    lemma2_to64();
    if n == 1 {
        assert(bit_reverse(y, 1) == (y / 1) % 2 + 2 * bit_reverse(y % 1, 0));
    } else {
        let h = pow2((n - 2) as nat);
        let t = pow2((n - 1) as nat);
        lemma_halves(y, (n - 2) as nat);
        lemma_bit_reverse_low(y % t, (n - 1) as nat);
        assert(bit_reverse(y / 2, (n - 1) as nat) == ((y / 2) / h) % 2 + 2 * bit_reverse(
            (y / 2) % h,
            (n - 2) as nat,
        ));
        assert(2 * ((y % 2) * h) == (y % 2) * t) by (nonlinear_arith)
            requires
                t == 2 * h,
        ;
    }
}

/// Reversing `n` bits twice gives back any value below `2^n`.
pub proof fn lemma_bit_reverse_involution(y: nat, n: nat)
    requires
        y < pow2(n),
    ensures
        bit_reverse(bit_reverse(y, n), n) == y,
    decreases n,
{
    lemma2_to64();
    if n > 0 {
        let t = pow2((n - 1) as nat);
        lemma_pow2_unfold(n);
        lemma_pow2_pos((n - 1) as nat);
        lemma_fundamental_div_mod(y as int, t as int);
        let b = y / t;
        assert(b < 2) by (nonlinear_arith)
            requires
                y == t * b + y % t,
                y < 2 * t,
                y % t >= 0,
                t > 0,
        ;
        lemma_small_mod(b, 2);
        let w = bit_reverse(y % t, (n - 1) as nat);
        lemma_bit_reverse_bound(y % t, (n - 1) as nat);
        let z = b + 2 * w;
        assert(bit_reverse(y, n) == z);
        lemma_fundamental_div_mod_converse(z as int, 2, w as int, b as int);
        lemma_bit_reverse_low(z, n);
        lemma_bit_reverse_involution(y % t, (n - 1) as nat);
        assert(b * t + y % t == y) by (nonlinear_arith)
            requires
                y == t * b + y % t,
        ;
    }
}

/// Reversal maps zero to zero and the all-ones word of `n` bits to itself.
pub proof fn lemma_bit_reverse_ends(n: nat)
    ensures
        bit_reverse(0, n) == 0,
        bit_reverse((pow2(n) - 1) as nat, n) == pow2(n) - 1,
    decreases n,
{
    lemma2_to64();
    if n > 0 {
        let t = pow2((n - 1) as nat);
        lemma_pow2_unfold(n);
        lemma_pow2_pos((n - 1) as nat);
        lemma_bit_reverse_ends((n - 1) as nat);
        let x = (pow2(n) - 1) as nat;
        lemma_fundamental_div_mod_converse(x as int, t as int, 1, (t - 1) as int);
        lemma_fundamental_div_mod_converse(0, t as int, 0, 0);
    }
}

/// Adding one to the reversed value of `x` flips, from the top of the `n`
/// bits down, the run of ones that starts at bit `n - 1` and the zero bit
/// `k - 1` that ends it.
pub proof fn lemma_bit_reverse_step(x: nat, n: nat, k: nat)
    requires
        x < pow2(n),
        1 <= k <= n,
        x / pow2(k) == pow2((n - k) as nat) - 1,
        (x / pow2((k - 1) as nat)) % 2 == 0,
    ensures
        bit_reverse(x % pow2((k - 1) as nat) + pow2((k - 1) as nat), n) == bit_reverse(x, n) + 1,
    decreases n,
{
    lemma2_to64();
    let t = pow2((n - 1) as nat);
    let p = pow2((k - 1) as nat);
    let y = x % p + p;
    lemma_pow2_unfold(n);
    lemma_pow2_unfold(k);
    lemma_pow2_pos((n - 1) as nat);
    lemma_pow2_pos((k - 1) as nat);
    lemma_fundamental_div_mod(x as int, p as int);
    if k == n {
        lemma_fundamental_div_mod(x as int, t as int);
        assert(x / t < 2) by (nonlinear_arith)
            requires
                x == t * (x / t) + x % t,
                x < 2 * t,
                x % t >= 0,
                t > 0,
        ;
        lemma_small_mod(x / t, 2);
        assert(x / t == 0);
        if x >= t {
            vstd::arithmetic::div_mod::lemma_div_is_ordered(t as int, x as int, t as int);
            vstd::arithmetic::div_mod::lemma_div_by_self(t as int);
        }
        lemma_small_mod(x, t);
        lemma_fundamental_div_mod_converse(y as int, t as int, 1, x as int);
        assert(bit_reverse(x, n) == 2 * bit_reverse(x, (n - 1) as nat));
        assert(bit_reverse(y, n) == 1 + 2 * bit_reverse(x, (n - 1) as nat));
    } else {
        let q = pow2((n - 1 - k) as nat);
        lemma_pow2_pos((n - 1 - k) as nat);
        lemma_pow2_unfold((n - k) as nat);
        lemma_pow2_adds(k, (n - 1 - k) as nat);
        assert(t == 2 * p * q) by (nonlinear_arith)
            requires
                t == pow2(k) * q,
                pow2(k) == 2 * p,
        ;
        let r = x % (2 * p);
        lemma_fundamental_div_mod(x as int, (2 * p) as int);
        // x = 2p (2q - 1) + r = t + x1 with x1 below t
        let x1 = 2 * p * ((q - 1) as nat) + r;
        assert(x == t + x1 && x1 < t) by (nonlinear_arith)
            requires
                x == (2 * p) * (x / (2 * p)) + r,
                x / (2 * p) == 2 * q - 1,
                0 <= r < 2 * p,
                t == 2 * p * q,
                q >= 1,
                x1 == 2 * p * ((q - 1) as nat) + r,
        ;
        lemma_fundamental_div_mod_converse(x as int, t as int, 1, x1 as int);
        assert(bit_reverse(x, n) == 1 + 2 * bit_reverse(x1, (n - 1) as nat));
        // y lies below t
        assert(y < t) by (nonlinear_arith)
            requires
                y == x % p + p,
                x % p < p,
                t == 2 * p * q,
                q >= 1,
                p > 0,
        ;
        lemma_fundamental_div_mod_converse(y as int, t as int, 0, y as int);
        assert(bit_reverse(y, n) == 2 * bit_reverse(y, (n - 1) as nat));
        // the facts about x carry over to x1 = x - t
        lemma_fundamental_div_mod(x1 as int, (2 * p) as int);
        assert(x == (q + x1 / (2 * p)) * (2 * p) + x1 % (2 * p)) by (nonlinear_arith)
            requires
                x1 == (2 * p) * (x1 / (2 * p)) + x1 % (2 * p),
                x == t + x1,
                t == 2 * p * q,
        ;
        lemma_fundamental_div_mod_converse(
            x as int,
            (2 * p) as int,
            (q + x1 / (2 * p)) as int,
            (x1 % (2 * p)) as int,
        );
        lemma_fundamental_div_mod(x1 as int, p as int);
        assert(x == (2 * q + x1 / p) * p + x1 % p) by (nonlinear_arith)
            requires
                x1 == p * (x1 / p) + x1 % p,
                x == t + x1,
                t == 2 * p * q,
        ;
        lemma_fundamental_div_mod_converse(
            x as int,
            p as int,
            (2 * q + x1 / p) as int,
            (x1 % p) as int,
        );
        lemma_mod_multiples_vanish(q as int, (x1 / p) as int, 2);
        assert(x1 / pow2(k) == pow2((n - 1 - k) as nat) - 1);
        assert((x1 / p) % 2 == 0);
        lemma_bit_reverse_step(x1, (n - 1) as nat, k);
    }
}

/// The word whose `j` lowest bits are set.
pub open spec fn low_mask(j: u32) -> usize {
    ((1usize << j) - 1) as usize
}

/// Flipping bit `i` of a word whose bits above `i` are clear.
pub proof fn lemma_flip_bit(r: usize, i: u32)
    requires
        i < usize::BITS,
        r >> i <= 1,
    ensures
        r >> i == 0 ==> (r ^ (1usize << i)) == r + (1usize << i) && (r ^ (1usize << i)) >> i == 1,
        r >> i == 1 ==> (r ^ (1usize << i)) == r - (1usize << i) && (r ^ (1usize << i)) >> i == 0,
{
    assert(i < usize::BITS && r >> i <= 1 && r >> i == 0 ==> (r ^ (1usize << i)) == r + (1usize
        << i) && (r ^ (1usize << i)) >> i == 1) by (bit_vector);
    assert(i < usize::BITS && r >> i <= 1 && r >> i == 1 ==> (r ^ (1usize << i)) == r - (1usize
        << i) && (r ^ (1usize << i)) >> i == 0) by (bit_vector);
}

/// Flipping bit `i` of `x` with its bits `i + 1 .. n` already flipped, when
/// `x` has a set bit at or above `n`: the word never has exactly one set bit
/// at or above `i`.
pub proof fn lemma_flip_below_high_bits(x: usize, n: u32, i: u32)
    requires
        n < usize::BITS,
        i < n,
        x >> n != 0,
    ensures
        (x ^ (low_mask(n) ^ low_mask((i + 1) as u32))) ^ (1usize << i) == x ^ (low_mask(n)
            ^ low_mask(i)),
        (x ^ (low_mask(n) ^ low_mask(i))) >> i != 1,
{
    assert((x ^ (low_mask(n) ^ low_mask((i + 1) as u32))) ^ (1usize << i) == x ^ (low_mask(n)
        ^ low_mask(i))) by (bit_vector)
        requires
            n < usize::BITS,
            i < n,
    ;
    assert((x ^ (low_mask(n) ^ low_mask(i))) >> i != 1) by (bit_vector)
        requires
            n < usize::BITS,
            i < n,
            x >> n != 0,
    ;
}

/// A word with exactly one set bit.
pub open spec fn is_single_bit(x: usize) -> bool {
    x != 0 && x & ((x - 1) as usize) == 0
}

/// Consecutive words of the Gray code differ in exactly one bit.
pub proof fn lemma_gray_neighbors_differ_in_one_bit(i: usize)
    requires
        i < usize::MAX,
    ensures
        is_single_bit(gray(i) ^ gray((i + 1) as usize)),
{
    lemma_max_is_all_ones(i);
    assert(is_single_bit(gray(i) ^ gray((i + 1) as usize))) by (bit_vector)
        requires
            i != !0usize,
    ;
}

/// `usize::count_ones` from std: the number of ones in the binary
/// representation of `x`.
#[verifier::external_body]
pub(crate) fn count_ones(x: usize) -> (r: u32)
    ensures
        r as nat == popcount(x as nat),
{
    x.count_ones()
}

/// `usize::trailing_zeros` from std: the number of trailing zeros in the
/// binary representation of `x`, which is `usize::BITS` for zero. Stated as:
/// bit `r` of `x` is set and the `r` bits below it are clear.
#[verifier::external_body]
pub(crate) fn trailing_zeros(x: usize) -> (r: u32)
    ensures
        r <= usize::BITS,
        r == usize::BITS <==> x == 0,
        r < usize::BITS ==> (x >> r) & 1 == 1 && (x >> r) << r == x,
{
    x.trailing_zeros()
}

} // verus!
