//! Fermat's little theorem for the prime 65521: every value that is not a
//! multiple of it has `x^65520 = 1` modulo 65521.
use vstd::arithmetic::div_mod::{
    lemma_fundamental_div_mod, lemma_fundamental_div_mod_converse, lemma_mod_multiples_vanish,
    lemma_mul_mod_noop, lemma_small_mod,
};
use vstd::arithmetic::power::pow;
use vstd::prelude::*;

verus! {

/// 65521 has no divisor strictly between one and itself.
pub proof fn lemma_modulus_is_prime(d: nat)
    requires
        1 < d < 65521,
    ensures
        65521nat % d != 0,
{
    assert(forall|k: u32| 1 < k && k < 65521 ==> #[trigger] (65521u32 % k) != 0) by (bit_vector);
    let k = d as u32;
    assert(65521u32 % k != 0);
}

/// Euclid's lemma for 65521: when it divides `m * c` and not `c`, it
/// divides `m`.
pub proof fn lemma_euclid(m: int, c: int)
    requires
        c % 65521 != 0,
        (m * c) % 65521 == 0,
    ensures
        m % 65521 == 0,
    decreases c % 65521,
{
    let p: int = 65521;
    let c0 = c % p;
    // reduce c below p
    lemma_fundamental_div_mod(c, p);
    lemma_fundamental_div_mod(m * c, p);
    let k = (m * c) / p;
    assert(m * c0 == p * (k - m * (c / p))) by (nonlinear_arith)
        requires
            c == p * (c / p) + c0,
            m * c == p * k + 0,
    ;
    lemma_fundamental_div_mod_converse(m * c0, p, k - m * (c / p), 0);
    if c0 == 1 {
        assert(m * c0 == m);
    } else {
        lemma_modulus_is_prime(c0 as nat);
        let q = p / c0;
        let r = p % c0;
        lemma_fundamental_div_mod(p, c0);
        // m * r = m * p - q * (m * c0), a multiple of p
        let k0 = k - m * (c / p);
        assert(m * r == p * (m - q * k0)) by (nonlinear_arith)
            requires
                p == c0 * q + r,
                m * c0 == p * k0,
        ;
        lemma_fundamental_div_mod_converse(m * r, p, m - q * k0, 0);
        lemma_small_mod(r as nat, p as nat);
        lemma_euclid(m, r);
    }
}

/// The product of the entries of `s`.
pub open spec fn product(s: Seq<int>) -> int
    decreases s.len(),
{
    if s.len() == 0 {
        1
    } else {
        product(s.drop_last()) * s.last()
    }
}

proof fn lemma_product_concat(a: Seq<int>, b: Seq<int>)
    ensures
        product(a + b) == product(a) * product(b),
    decreases b.len(),
{
    if b.len() == 0 {
        assert(a + b =~= a);
    } else {
        assert((a + b).drop_last() =~= a + b.drop_last());
        assert((a + b).last() == b.last());
        lemma_product_concat(a, b.drop_last());
        vstd::arithmetic::mul::lemma_mul_is_associative(
            product(a),
            product(b.drop_last()),
            b.last(),
        );
    }
}

/// Taking entry `k` out of `s` divides its product by that entry.
proof fn lemma_product_remove(s: Seq<int>, k: int)
    requires
        0 <= k < s.len(),
    ensures
        product(s) == product(s.remove(k)) * s[k],
{
    let a = s.subrange(0, k);
    let b = s.subrange(k + 1, s.len() as int);
    let one = seq![s[k]];
    assert(s =~= (a + one) + b);
    assert(s.remove(k) =~= a + b);
    lemma_product_concat(a + one, b);
    lemma_product_concat(a, one);
    lemma_product_concat(a, b);
    assert(one.drop_last() =~= Seq::<int>::empty());
    assert(product(one.drop_last()) == 1);
    assert(one.last() == s[k]);
    assert(product(one) == s[k]);
    assert(product(a) * s[k] * product(b) == product(a) * product(b) * s[k]) by (nonlinear_arith);
}

/// Two duplicate-free sequences of the same length, the first contained in
/// the second, have the same product.
proof fn lemma_product_permutation(s1: Seq<int>, s2: Seq<int>)
    requires
        s1.len() == s2.len(),
        s1.no_duplicates(),
        s2.no_duplicates(),
        forall|i: int| 0 <= i < s1.len() ==> s2.contains(#[trigger] s1[i]),
    ensures
        product(s1) == product(s2),
    decreases s1.len(),
{
    if s1.len() > 0 {
        let n = s1.len() as int;
        let v = s1.last();
        assert(s2.contains(s1[n - 1]));
        let k = choose|k: int| 0 <= k < s2.len() && s2[k] == v;
        let t1 = s1.drop_last();
        let t2 = s2.remove(k);
        assert forall|i: int, j: int| 0 <= i < t2.len() && 0 <= j < t2.len() && i != j implies t2[i]
            != t2[j] by {
            let ii = if i < k {
                i
            } else {
                i + 1
            };
            let jj = if j < k {
                j
            } else {
                j + 1
            };
            assert(t2[i] == s2[ii] && t2[j] == s2[jj]);
        }
        assert forall|i: int| 0 <= i < t1.len() implies t2.contains(#[trigger] t1[i]) by {
            let u = s1[i];
            assert(s2.contains(s1[i]));
            let j = choose|j: int| 0 <= j < s2.len() && s2[j] == u;
            assert(u != v);
            assert(j != k);
            if j < k {
                assert(t2[j] == u);
            } else {
                assert(t2[j - 1] == u);
            }
        }
        lemma_product_permutation(t1, t2);
        lemma_product_remove(s2, k);
    }
}

/// `x * 1, x * 2, ..., x * n`, each modulo 65521.
pub open spec fn multiples(x: int, n: nat) -> Seq<int> {
    Seq::new(n, |i: int| (x * (i + 1)) % 65521)
}

/// `1, 2, ..., n`.
pub open spec fn first_naturals(n: nat) -> Seq<int> {
    Seq::new(n, |i: int| i + 1)
}

/// A product of two values that 65521 does not divide is not divisible by it.
proof fn lemma_product_not_multiple(a: int, b: int)
    requires
        a % 65521 != 0,
        b % 65521 != 0,
    ensures
        (a * b) % 65521 != 0,
{
    if (a * b) % 65521 == 0 {
        lemma_euclid(a, b);
    }
}

proof fn lemma_multiples_product(x: int, n: nat)
    ensures
        product(multiples(x, n)) % 65521 == (pow(x, n) * product(first_naturals(n))) % 65521,
    decreases n,
{
    let p: int = 65521;
    if n == 0 {
        vstd::arithmetic::power::lemma_pow0(x);
    } else {
        let k = (n - 1) as nat;
        assert(multiples(x, n).drop_last() =~= multiples(x, k));
        assert(first_naturals(n).drop_last() =~= first_naturals(k));
        lemma_multiples_product(x, k);
        let a = product(multiples(x, k));
        let f = product(first_naturals(k));
        let e = (x * n) % p;
        vstd::arithmetic::power::lemma_pow_adds(x, k, 1);
        vstd::arithmetic::power::lemma_pow1(x);
        // a * e == pow(x, k) * f * (x * n)  (mod p)
        lemma_mul_mod_noop(a, e, p);
        lemma_mul_mod_noop(pow(x, k) * f, e, p);
        vstd::arithmetic::div_mod::lemma_mod_twice(x * n, p);
        lemma_mul_mod_noop(pow(x, k) * f, x * n, p);
        assert(pow(x, k) * f * (x * n) == pow(x, n) * (f * n)) by (nonlinear_arith)
            requires
                pow(x, n) == pow(x, k) * x,
        ;
    }
}

proof fn lemma_first_naturals_product(n: nat)
    requires
        n < 65521,
    ensures
        product(first_naturals(n)) % 65521 != 0,
    decreases n,
{
    if n == 0 {
    } else {
        let k = (n - 1) as nat;
        assert(first_naturals(n).drop_last() =~= first_naturals(k));
        lemma_first_naturals_product(k);
        lemma_small_mod(n, 65521);
        lemma_product_not_multiple(product(first_naturals(k)), n as int);
    }
}

/// Fermat's little theorem for 65521: `x^65520 = 1` modulo 65521 for every
/// `x` that 65521 does not divide.
pub proof fn lemma_fermat(x: int)
    requires
        x % 65521 != 0,
    ensures
        pow(x, 65520) % 65521 == 1,
{
    let p: int = 65521;
    let n: nat = 65520;
    let s1 = multiples(x, n);
    let s2 = first_naturals(n);
    assert forall|i: int| 0 <= i < s1.len() implies 1 <= #[trigger] s1[i] < p by {
        lemma_small_mod((i + 1) as nat, 65521);
        lemma_product_not_multiple(x, i + 1);
    }
    assert forall|i: int| 0 <= i < s1.len() implies s2.contains(#[trigger] s1[i]) by {
        assert(s2[s1[i] - 1] == s1[i]);
    }
    assert forall|i: int, j: int| 0 <= i < s1.len() && 0 <= j < s1.len() && i != j implies s1[i]
        != s1[j] by {
        if s1[i] == s1[j] {
            let (lo, hi) = if i < j {
                (i, j)
            } else {
                (j, i)
            };
            // x * (hi - lo) is a multiple of p
            lemma_fundamental_div_mod(x * (hi + 1), p);
            lemma_fundamental_div_mod(x * (lo + 1), p);
            let d = (x * (hi + 1)) / p - (x * (lo + 1)) / p;
            assert((hi - lo) * x == p * d) by (nonlinear_arith)
                requires
                    x * (hi + 1) == p * ((x * (hi + 1)) / p) + (x * (hi + 1)) % p,
                    x * (lo + 1) == p * ((x * (lo + 1)) / p) + (x * (lo + 1)) % p,
                    (x * (hi + 1)) % p == (x * (lo + 1)) % p,
                    d == (x * (hi + 1)) / p - (x * (lo + 1)) / p,
            ;
            lemma_fundamental_div_mod_converse((hi - lo) * x, p, d, 0);
            lemma_euclid(hi - lo, x);
            lemma_small_mod((hi - lo) as nat, 65521);
        }
    }
    assert(s1.no_duplicates());
    assert(s2.no_duplicates());
    lemma_product_permutation(s1, s2);
    lemma_multiples_product(x, n);
    lemma_first_naturals_product(n);
    let f = product(s2);
    let q = pow(x, n);
    // (q - 1) * f is a multiple of p
    lemma_fundamental_div_mod(q * f, p);
    lemma_fundamental_div_mod(f, p);
    let d = (q * f) / p - f / p;
    assert((q - 1) * f == p * d) by (nonlinear_arith)
        requires
            q * f == p * ((q * f) / p) + (q * f) % p,
            f == p * (f / p) + f % p,
            (q * f) % p == f % p,
            d == (q * f) / p - f / p,
    ;
    lemma_fundamental_div_mod_converse((q - 1) * f, p, d, 0);
    lemma_euclid(q - 1, f);
    lemma_fundamental_div_mod(q - 1, p);
    lemma_fundamental_div_mod_converse(q, p, (q - 1) / p, 1);
}

} // verus!
