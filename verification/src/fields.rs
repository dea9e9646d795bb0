//! Arithmetic of the prime field of order 65521 with elements stored in
//! Montgomery form: the element with field value `x` is stored as
//! `x * 2^16 mod 65521`.
use vstd::arithmetic::div_mod::{
    lemma_add_mod_noop, lemma_fundamental_div_mod_converse, lemma_mod_multiples_vanish,
    lemma_mul_mod_noop_left, lemma_small_mod, lemma_sub_mod_noop,
};
use vstd::arithmetic::power::{
    lemma_pow1, lemma_pow_adds, lemma_pow_mod_noop, lemma_pow_multiplies, lemma_square_is_pow2, pow,
};
use vstd::prelude::*;

verus! {

/// The field prime.
pub const MODULUS: u16 = 65521;

/// The field prime, as a `u128`.
pub const MODULUS_U128: u128 = 65521;

/// The two-adicity of `MODULUS - 1 = 2^4 * 4095`.
pub const TWO_ADICITY: u32 = 4;

/// Montgomery form of `2`, the element that the field names its generator.
/// `2` is a quadratic residue modulo 65521, so its multiplicative order is
/// below `MODULUS - 1` (see `lemma_constants`).
pub const GENERATOR: u16 = 30;

/// Montgomery form of zero.
pub const ZERO: u16 = 0;

/// Montgomery form of one, `2^16 mod MODULUS`.
pub const ONE: u16 = 15;

/// Montgomery form of minus one.
pub const NEG_ONE: u16 = 65506;

/// Montgomery form of `GENERATOR^4095`, named the `2^TWO_ADICITY`-th root of
/// unity. Its value is `-1`: it is a root of unity of order two, not a
/// primitive sixteenth root, because `2` is a quadratic residue.
pub const TWO_ADIC_ROOT_OF_UNITY: u16 = 65506;

/// Montgomery form of `17^4095`, a quadratic non-residue raised to the trace.
pub const QUADRATIC_NONRESIDUE_TO_TRACE: u16 = 7306;

/// `(2^16)^2 mod MODULUS`: multiplying by it in Montgomery form converts an
/// integer into Montgomery form.
pub const R2: u16 = 225;

/// The field prime, as a `u32`.
const MODULUS_MUL_TY: u32 = 65521;

/// `-MODULUS^-1 mod 2^16`.
const N_PRIME: u16 = 61167;

/// The low sixteen bits of a `u32`.
const MASK: u32 = 65535;

/// Bits in a limb.
const K_BITS: u32 = 16;

/// An element of the field, in Montgomery form.
#[derive(Clone, Copy, PartialEq, Eq, Structural, Debug)]
pub struct SmallF16 {
    pub value: u16,
}

/// The configuration of the field: its constants and its arithmetic.
pub struct SmallF16ConfigMont;

/// The field prime as a number.
pub open spec fn p() -> nat {
    65521
}

/// The inverse of `2^16` modulo the field prime.
pub open spec fn r_inv() -> nat {
    61153
}

/// The field value that the Montgomery word `x` stands for: `x * 2^-16 mod p`.
pub open spec fn decode(x: nat) -> nat {
    (x * r_inv()) % p()
}

/// The field value of an element.
pub open spec fn field_value(e: SmallF16) -> nat {
    decode(e.value as nat)
}

/// The Montgomery word of the field value of `x`: `x * 2^16 mod p`.
pub open spec fn encode(x: nat) -> nat {
    (x * 15) % p()
}

/// An element whose word is reduced below the modulus.
pub open spec fn is_reduced(e: SmallF16) -> bool {
    e.value < MODULUS
}

/// The Montgomery product of two words: `x * y * 2^-16 mod p`.
pub open spec fn mont_mul(x: nat, y: nat) -> nat {
    (x * y * r_inv()) % p()
}

/// Decoding turns a sum of words into a sum of field values.
pub proof fn lemma_decode_add(x: nat, y: nat)
    ensures
        decode((x + y) % p()) == (decode(x) + decode(y)) % p(),
{
    lemma_mul_mod_noop_left((x + y) as int, r_inv() as int, p() as int);
    assert((x + y) * r_inv() == x * r_inv() + y * r_inv()) by (nonlinear_arith);
    lemma_add_mod_noop((x * r_inv()) as int, (y * r_inv()) as int, p() as int);
}

/// Decoding turns a difference of words into a difference of field values.
pub proof fn lemma_decode_sub(x: nat, y: nat)
    ensures
        decode(((x - y) % (p() as int)) as nat) == (decode(x) - decode(y)) % (p() as int),
{
    vstd::arithmetic::div_mod::lemma_mul_mod_noop_left((x - y), r_inv() as int, p() as int);
    assert((x - y) * r_inv() == x * r_inv() - y * r_inv()) by (nonlinear_arith);
    lemma_sub_mod_noop((x * r_inv()) as int, (y * r_inv()) as int, p() as int);
}

/// Decoding turns a Montgomery product into a product of field values.
pub proof fn lemma_decode_mont_mul(x: nat, y: nat)
    ensures
        decode(mont_mul(x, y)) == (decode(x) * decode(y)) % p(),
{
    let xr = x * r_inv();
    let yr = y * r_inv();
    lemma_mul_mod_noop_left((x * y * r_inv()) as int, r_inv() as int, p() as int);
    assert(x * y * r_inv() * r_inv() == xr * yr) by (nonlinear_arith)
        requires
            xr == x * r_inv(),
            yr == y * r_inv(),
    ;
    vstd::arithmetic::div_mod::lemma_mul_mod_noop(xr as int, yr as int, p() as int);
}

/// Montgomery multiplication by `R2` encodes an integer, encoding then
/// decoding reduces modulo `p`, and Montgomery multiplication by one decodes.
pub proof fn lemma_encode_decode(x: nat)
    ensures
        mont_mul(x, 225) == encode(x),
        decode(encode(x)) == x % p(),
        mont_mul(x, 1) == decode(x),
        encode(x) < p(),
{
    assert(x * 225 * r_inv() == x * 15 + 65521 * (x * 210)) by (nonlinear_arith);
    lemma_mod_multiples_vanish((x * 210) as int, (x * 15) as int, 65521);
    lemma_mul_mod_noop_left((x * 15) as int, r_inv() as int, p() as int);
    assert(x * 15 * r_inv() == x + 65521 * (x * 14)) by (nonlinear_arith);
    lemma_mod_multiples_vanish((x * 14) as int, x as int, 65521);
    assert(x * 1 * r_inv() == x * r_inv());
}

/// Montgomery reduction of `t = a * b`: with `r` the low sixteen bits of `t`
/// and `m = r * N_PRIME mod 2^16`, `r + m * p` is a multiple of `2^16`, and the
/// sum of the two high halves is below `2p` and congruent to `t * 2^-16`.
proof fn lemma_redc(a: nat, b: nat, t: nat, c1: nat, r: nat, m: nat, t2: nat)
    requires
        a < p(),
        b < p(),
        t == a * b,
        c1 == t / 65536,
        r == t % 65536,
        m == (r * 61167) % 65536,
        t2 == r + m * 65521,
    ensures
        t < 65536 * 65536,
        c1 < 65521,
        t2 < 65536 * 65536,
        t2 % 65536 == 0,
        t2 / 65536 <= 65521,
        c1 + t2 / 65536 < 2 * p(),
        (c1 + t2 / 65536) % p() == mont_mul(a, b),
{
    assert(t <= 65520 * 65520) by (nonlinear_arith)
        requires
            t == a * b,
            a < 65521,
            b < 65521,
    ;
    vstd::arithmetic::div_mod::lemma_fundamental_div_mod(t as int, 65536);
    let q1 = (r * 61167) / 65536;
    vstd::arithmetic::div_mod::lemma_fundamental_div_mod((r * 61167) as int, 65536);
    assert(m * 65521 <= 65535 * 65521) by (nonlinear_arith)
        requires
            m < 65536,
    ;
    let c2 = 61153 * r - 65521 * q1;
    assert(t2 == 65536 * c2);
    lemma_fundamental_div_mod_converse(t2 as int, 65536, c2, 0);
    let s = c1 + c2;
    // 65536 * s == t + m * p, and 65536 * 61153 == 1 + 61167 * p
    assert(s == 65521 * (61153 * m - 61167 * s) + 61153 * t);
    lemma_mod_multiples_vanish(61153 * m - 61167 * s, (61153 * t) as int, 65521);
    assert(a * b * r_inv() == 61153 * t) by (nonlinear_arith)
        requires
            t == a * b,
    ;
}

/// `u16::overflowing_add` from std: the sum wrapped to sixteen bits, and
/// whether it wrapped.
#[verifier::external_body]
fn overflowing_add(x: u16, y: u16) -> (r: (u16, bool))
    ensures
        r.1 == (x + y > u16::MAX),
        r.0 == (if x + y > u16::MAX {
            x + y - 65536
        } else {
            x + y
        }),
{
    x.overflowing_add(y)
}

impl SmallF16ConfigMont {
    /// Sets `a` to `a + b`.
    pub fn add_assign(a: &mut SmallF16, b: &SmallF16)
        requires
            is_reduced(*old(a)),
            is_reduced(*b),
        ensures
            final(a).value == (old(a).value + b.value) % (p() as int),
            field_value(*final(a)) == (field_value(*old(a)) + field_value(*b)) % p(),
    {
        proof {
            lemma_decode_add(a.value as nat, b.value as nat);
        }
        let (mut val, overflow) = overflowing_add(a.value, b.value);
        if overflow {
            val = u16::MAX - MODULUS + 1 + val;
        }
        if val >= MODULUS {
            val -= MODULUS;
        }
        proof {
            let s = old(a).value + b.value;
            if s >= p() {
                lemma_fundamental_div_mod_converse(s as int, p() as int, 1, (s - p()) as int);
            } else {
                lemma_small_mod(s as nat, p());
            }
        }
        a.value = val;
    }

    /// Sets `a` to `a - b`.
    pub fn sub_assign(a: &mut SmallF16, b: &SmallF16)
        requires
            is_reduced(*old(a)),
            is_reduced(*b),
        ensures
            final(a).value == (old(a).value - b.value) % (p() as int),
            field_value(*final(a)) == (field_value(*old(a)) - field_value(*b)) % (p() as int),
    {
        proof {
            lemma_decode_sub(a.value as nat, b.value as nat);
            let d = a.value - b.value;
            if d >= 0 {
                lemma_small_mod(d as nat, p());
            } else {
                lemma_fundamental_div_mod_converse(d, p() as int, -1, d + p());
            }
        }
        if a.value >= b.value {
            a.value -= b.value;
        } else {
            a.value = MODULUS - (b.value - a.value);
        }
    }

    /// Sets `a` to `a + a`.
    pub fn double_in_place(a: &mut SmallF16)
        requires
            is_reduced(*old(a)),
        ensures
            final(a).value == (old(a).value + old(a).value) % (p() as int),
            field_value(*final(a)) == (field_value(*old(a)) + field_value(*old(a))) % p(),
    {
        let tmp = *a;
        Self::add_assign(a, &tmp);
    }

    /// Sets `a` to `-a`.
    pub fn neg_in_place(a: &mut SmallF16)
        requires
            is_reduced(*old(a)),
        ensures
            final(a).value == (p() - old(a).value) % (p() as int),
            field_value(*final(a)) == (0 - field_value(*old(a))) % (p() as int),
    {
        proof {
            lemma_decode_sub(0, a.value as nat);
            assert(decode(0) == 0);
            if a.value == 0 {
                vstd::arithmetic::div_mod::lemma_mod_self_0(p() as int);
            } else {
                lemma_small_mod((p() - a.value) as nat, p());
                lemma_fundamental_div_mod_converse(
                    0 - a.value,
                    p() as int,
                    -1,
                    p() - a.value,
                );
            }
        }
        if a.value != 0 {
            a.value = MODULUS - a.value;
        }
    }
}

impl SmallF16ConfigMont {
    /// Sets `a` to `a * b`: the Montgomery product `a * b * 2^-16 mod p`.
    pub fn mul_assign(a: &mut SmallF16, b: &SmallF16)
        requires
            is_reduced(*old(a)),
            is_reduced(*b),
        ensures
            final(a).value == mont_mul(old(a).value as nat, b.value as nat),
            field_value(*final(a)) == (field_value(*old(a)) * field_value(*b)) % p(),
    {
        proof {
            lemma_decode_mont_mul(a.value as nat, b.value as nat);
            assert((a.value as u32) * (b.value as u32) <= 65535 * 65535) by (nonlinear_arith);
        }
        let a_val = a.value as u32;
        let b_val = b.value as u32;
        let tmp = a_val * b_val;
        proof {
            assert(tmp >> K_BITS == tmp / 65536 && tmp & MASK == tmp % 65536) by (bit_vector);
        }
        let carry1 = (tmp >> K_BITS) as u16;
        let r = (tmp & MASK) as u16;
        let m = r.wrapping_mul(N_PRIME);
        proof {
            lemma_redc(
                a_val as nat,
                b_val as nat,
                tmp as nat,
                carry1 as nat,
                r as nat,
                m as nat,
                (r + m * 65521) as nat,
            );
        }
        let tmp = (r as u32) + ((m as u32) * MODULUS_MUL_TY);
        proof {
            assert(tmp >> K_BITS == tmp / 65536) by (bit_vector);
        }
        let carry2 = (tmp >> K_BITS) as u16;
        let mut r = (carry1 as u32) + (carry2 as u32);
        let ghost s = r;
        if r >= MODULUS_MUL_TY {
            r -= MODULUS_MUL_TY;
        }
        proof {
            if s >= p() {
                lemma_fundamental_div_mod_converse(s as int, p() as int, 1, (s - p()) as int);
            } else {
                lemma_small_mod(s as nat, p());
            }
        }
        a.value = r as u16;
    }

    /// Sets `a` to `a * a`.
    pub fn square_in_place(a: &mut SmallF16)
        requires
            is_reduced(*old(a)),
        ensures
            final(a).value == mont_mul(old(a).value as nat, old(a).value as nat),
            field_value(*final(a)) == (field_value(*old(a)) * field_value(*old(a))) % p(),
    {
        let tmp = *a;
        Self::mul_assign(a, &tmp);
    }
}

/// The integer held by two little-endian 64-bit limbs.
pub open spec fn limbs_value(a: [u64; 2]) -> nat {
    a[0] as nat + a[1] as nat * 0x1_0000_0000_0000_0000
}

impl SmallF16ConfigMont {
    /// The element whose field value is `value mod p`.
    pub fn new(value: u16) -> (r: SmallF16)
        ensures
            r.value == encode(value as nat % p()),
            field_value(r) == value as nat % p(),
    {
        let reduced_value = value % MODULUS;
        let mut tmp = SmallF16 { value: reduced_value };
        let r2_elem = SmallF16 { value: R2 };
        Self::mul_assign(&mut tmp, &r2_elem);
        proof {
            lemma_encode_decode(reduced_value as nat);
            vstd::arithmetic::div_mod::lemma_mod_twice(value as int, p() as int);
        }
        tmp
    }

    /// Takes `a` out of Montgomery form: its word becomes its field value.
    pub fn exit(a: &mut SmallF16)
        requires
            is_reduced(*old(a)),
        ensures
            final(a).value == field_value(*old(a)),
    {
        let mut tmp = *a;
        let one = SmallF16 { value: 1 };
        Self::mul_assign(&mut tmp, &one);
        proof {
            lemma_encode_decode(a.value as nat);
        }
        a.value = tmp.value;
    }

    /// The element for the integer held by the limbs `a`, or `None` when that
    /// integer is above the modulus.
    pub fn from_bigint(a: [u64; 2]) -> (r: Option<SmallF16>)
        ensures
            r is None <==> limbs_value(a) > p(),
            r matches Some(e) ==> e.value == encode(limbs_value(a) % p()) && field_value(e)
                == limbs_value(a) % p(),
    {
        let lo = a[0];
        let hi = a[1];
        proof {
            assert((hi as u128) << 64u128 == (hi as u128) * 0x1_0000_0000_0000_0000u128)
                by (bit_vector);
            assert(hi * 0x1_0000_0000_0000_0000 <= 0xffff_ffff_ffff_ffff * 0x1_0000_0000_0000_0000)
                by (nonlinear_arith)
                requires
                    hi <= 0xffff_ffff_ffff_ffffu64,
            ;
        }
        let val = (lo as u128) + ((hi as u128) << 64);
        if val > MODULUS_U128 {
            None
        } else {
            let reduced_val = val % 65521u128;
            let mut tmp = SmallF16 { value: reduced_val as u16 };
            let r2_elem = SmallF16 { value: R2 };
            Self::mul_assign(&mut tmp, &r2_elem);
            proof {
                lemma_encode_decode(reduced_val as nat);
                vstd::arithmetic::div_mod::lemma_mod_twice(val as int, p() as int);
            }
            Some(tmp)
        }
    }

    /// The field value of `a`, as two little-endian 64-bit limbs.
    pub fn into_bigint(a: SmallF16) -> (r: [u64; 2])
        requires
            is_reduced(a),
        ensures
            r[0] == field_value(a),
            r[1] == 0,
            limbs_value(r) == field_value(a),
    {
        let mut tmp = a;
        let one = SmallF16 { value: 1 };
        Self::mul_assign(&mut tmp, &one);
        proof {
            lemma_encode_decode(a.value as nat);
        }
        let val = tmp.value as u128;
        let lo = val as u64;
        proof {
            assert(val < 65536 ==> val >> 64u128 == 0) by (bit_vector);
        }
        let hi = (val >> 64) as u64;
        [lo, hi]
    }
}

/// One round of square-and-multiply keeps `x * b^e mod p` unchanged: when `e`
/// is odd `x` takes a factor `b`, and `b` is squared while `e` is halved.
proof fn lemma_square_and_multiply_step(x: nat, b: nat, e: nat)
    requires
        e > 0,
    ensures
        e % 2 == 1 ==> (((x * b) % p()) * pow(((b * b) % p()) as int, e / 2)) % (p() as int) == (x
            * pow(b as int, e)) % (p() as int),
        e % 2 == 0 ==> (x * pow(((b * b) % p()) as int, e / 2)) % (p() as int) == (x * pow(
            b as int,
            e,
        )) % (p() as int),
{
    let m = p() as int;
    let k = e / 2;
    lemma_square_is_pow2(b as int);
    lemma_pow_multiplies(b as int, 2, k);
    lemma_pow_mod_noop((b * b) as int, k, m);
    // pow((b*b) % p, k) == pow(b, 2k)  (mod p)
    let q = pow(((b * b) % p()) as int, k);
    let q2 = pow(b as int, 2 * k);
    assert(pow(pow(b as int, 2), k) == q2);
    assert(q % m == q2 % m);
    if e % 2 == 1 {
        lemma_pow_adds(b as int, 2 * k, 1);
        lemma_pow1(b as int);
        assert(e == 2 * k + 1);
        assert(pow(b as int, e) == q2 * b);
        vstd::arithmetic::div_mod::lemma_mul_mod_noop(((x * b) % p()) as int, q, m);
        vstd::arithmetic::div_mod::lemma_mul_mod_noop((x * b) as int, q, m);
        vstd::arithmetic::div_mod::lemma_mod_mod((x * b) as int, m, 1);
        vstd::arithmetic::div_mod::lemma_mul_mod_noop((x * b) as int, q2, m);
        assert((x * b) * q2 == x * (q2 * b)) by (nonlinear_arith);
    } else {
        assert(e == 2 * k);
        vstd::arithmetic::div_mod::lemma_mul_mod_noop(x as int, q, m);
        vstd::arithmetic::div_mod::lemma_mul_mod_noop(x as int, q2, m);
    }
}

impl SmallF16ConfigMont {
    /// `a^(p - 2)`, the inverse of `a`, or `None` when `a` is zero.
    pub fn inverse(a: &SmallF16) -> (r: Option<SmallF16>)
        requires
            is_reduced(*a),
        ensures
            r is None <==> a.value == 0,
            r matches Some(e) ==> is_reduced(e) && field_value(e) == pow(
                field_value(*a) as int,
                (p() - 2) as nat,
            ) % (p() as int),
            r matches Some(e) ==> (field_value(*a) * field_value(e)) % p() == 1 && mont_mul(
                a.value as nat,
                e.value as nat,
            ) == ONE,
    {
        if a.value == 0 {
            return None;
        }
        let mut result = SmallF16 { value: ONE };
        let mut base = *a;
        let mut exp = MODULUS - 2;
        proof {
            lemma_encode_decode(1);
            assert(field_value(result) == 1);
            vstd::arithmetic::power::lemma_pow_positive(field_value(*a) as int, 0);
        }
        while exp > 0
            invariant
                is_reduced(result),
                is_reduced(base),
                (field_value(result) * pow(field_value(base) as int, exp as nat)) % (p() as int)
                    == pow(field_value(*a) as int, (p() - 2) as nat) % (p() as int),
            decreases exp,
        {
            let ghost x = field_value(result);
            let ghost b = field_value(base);
            proof {
                lemma_square_and_multiply_step(x, b, exp as nat);
                assert(exp & 1 == 1 <==> exp % 2 == 1) by (bit_vector);
                assert(exp >> 1 == exp / 2) by (bit_vector);
            }
            if exp & 1 == 1 {
                Self::mul_assign(&mut result, &base);
            }
            let mut sq = base;
            Self::square_in_place(&mut sq);
            base = sq;
            exp >>= 1;
        }
        proof {
            vstd::arithmetic::power::lemma_pow0(field_value(base) as int);
            lemma_small_mod(field_value(result), p());
            lemma_inverse_is_inverse(*a, result);
        }
        Some(result)
    }
}

/// The inner product, in Montgomery form, of the first `n` words of `a` and
/// `b`, accumulated modulo `p`.
pub open spec fn mont_dot(a: Seq<SmallF16>, b: Seq<SmallF16>, n: nat) -> nat
    decreases n,
{
    if n == 0 {
        0
    } else {
        (mont_dot(a, b, (n - 1) as nat) + mont_mul(
            a[n - 1].value as nat,
            b[n - 1].value as nat,
        )) % p()
    }
}

/// The inner product of the field values of the first `n` elements of `a`
/// and `b`, modulo `p`.
pub open spec fn field_dot(a: Seq<SmallF16>, b: Seq<SmallF16>, n: nat) -> nat
    decreases n,
{
    if n == 0 {
        0
    } else {
        (field_dot(a, b, (n - 1) as nat) + field_value(a[n - 1]) * field_value(b[n - 1])) % p()
    }
}

/// The Montgomery inner product stands for the inner product of the field
/// values.
pub proof fn lemma_decode_mont_dot(a: Seq<SmallF16>, b: Seq<SmallF16>, n: nat)
    ensures
        decode(mont_dot(a, b, n)) == field_dot(a, b, n),
        mont_dot(a, b, n) < p(),
    decreases n,
{
    if n > 0 {
        let k = (n - 1) as nat;
        lemma_decode_mont_dot(a, b, k);
        let x = mont_dot(a, b, k);
        let y = mont_mul(a[k as int].value as nat, b[k as int].value as nat);
        lemma_decode_add(x, y);
        lemma_decode_mont_mul(a[k as int].value as nat, b[k as int].value as nat);
        vstd::arithmetic::div_mod::lemma_add_mod_noop(
            field_dot(a, b, k) as int,
            (field_value(a[k as int]) * field_value(b[k as int])) as int,
            p() as int,
        );
        vstd::arithmetic::div_mod::lemma_mod_twice(
            (field_value(a[k as int]) * field_value(b[k as int])) as int,
            p() as int,
        );
        lemma_small_mod(field_dot(a, b, k), p());
    } else {
        assert(decode(0) == 0);
    }
}

impl SmallF16ConfigMont {
    /// The inner product `<a, b>`.
    pub fn sum_of_products<const T: usize>(a: &[SmallF16; T], b: &[SmallF16; T]) -> (r: SmallF16)
        requires
            forall|i: int| 0 <= i < T ==> is_reduced(#[trigger] a[i]) && is_reduced(b[i]),
        ensures
            r.value == mont_dot(a@, b@, T as nat),
            field_value(r) == field_dot(a@, b@, T as nat),
    {
        proof {
            lemma_decode_mont_dot(a@, b@, T as nat);
        }
        if T == 1 {
            let mut prod = a[0];
            Self::mul_assign(&mut prod, &b[0]);
            proof {
                assert(mont_dot(a@, b@, 0) == 0);
                lemma_small_mod(prod.value as nat, p());
            }
            prod
        } else if T == 2 {
            let mut prod1 = a[0];
            Self::mul_assign(&mut prod1, &b[0]);
            let mut prod2 = a[1];
            Self::mul_assign(&mut prod2, &b[1]);
            Self::add_assign(&mut prod1, &prod2);
            proof {
                assert(mont_dot(a@, b@, 0) == 0);
                lemma_small_mod(mont_mul(a[0].value as nat, b[0].value as nat), p());
                assert(mont_dot(a@, b@, 1) == mont_mul(a[0].value as nat, b[0].value as nat));
            }
            prod1
        } else {
            let mut acc = SmallF16 { value: ZERO };
            let mut i: usize = 0;
            while i < T
                invariant
                    i <= T,
                    forall|j: int| 0 <= j < T ==> is_reduced(#[trigger] a[j]) && is_reduced(b[j]),
                    acc.value == mont_dot(a@, b@, i as nat),
                    is_reduced(acc),
                decreases T - i,
            {
                proof {
                    lemma_decode_mont_dot(a@, b@, i as nat);
                }
                let mut prod = a[i];
                Self::mul_assign(&mut prod, &b[i]);
                Self::add_assign(&mut acc, &prod);
                i += 1;
            }
            acc
        }
    }
}

/// Encoding undoes decoding on reduced words: decoding is one to one below
/// the modulus.
pub proof fn lemma_decode_encode(x: nat)
    requires
        x < p(),
    ensures
        encode(decode(x)) == x,
        decode(x) < p(),
{
    lemma_mul_mod_noop_left((x * r_inv()) as int, 15, p() as int);
    assert(x * r_inv() * 15 == x + 65521 * (x * 14)) by (nonlinear_arith);
    lemma_mod_multiples_vanish((x * 14) as int, x as int, 65521);
    lemma_small_mod(x, p());
}

/// From `b^e mod p` to `b^(2e + 1) mod p`.
proof fn lemma_pow_doubling_step(b: int, e: nat, v: int)
    requires
        pow(b, e) % 65521 == v,
    ensures
        pow(b, 2 * e + 1) % 65521 == (v * v * b) % 65521,
{
    let x = pow(b, e);
    lemma_pow_adds(b, 2 * e, 1);
    lemma_pow1(b);
    lemma_pow_multiplies(b, e, 2);
    assert(e * 2 == 2 * e);
    lemma_square_is_pow2(x);
    vstd::arithmetic::div_mod::lemma_mul_mod_noop(x, x, 65521);
    vstd::arithmetic::div_mod::lemma_mul_mod_noop(x * x, b, 65521);
    vstd::arithmetic::div_mod::lemma_mul_mod_noop(v * v, b, 65521);
    vstd::arithmetic::div_mod::lemma_mul_mod_noop(v, v, 65521);
    vstd::arithmetic::div_mod::lemma_mod_twice(x * x, 65521);
}

/// From `b^e mod p` to `b^(2e) mod p`.
proof fn lemma_pow_squaring_step(b: int, e: nat, v: int)
    requires
        pow(b, e) % 65521 == v,
    ensures
        pow(b, 2 * e) % 65521 == (v * v) % 65521,
{
    let x = pow(b, e);
    lemma_pow_multiplies(b, e, 2);
    assert(e * 2 == 2 * e);
    lemma_square_is_pow2(x);
    vstd::arithmetic::div_mod::lemma_mul_mod_noop(x, x, 65521);
    vstd::arithmetic::div_mod::lemma_mul_mod_noop(v, v, 65521);
}

/// `2^4095 mod p` is `p - 1`, so `2^((p - 1) / 2) mod p` is one.
proof fn lemma_two_to_4095()
    ensures
        pow(2, 4095) % 65521 == 65520,
        pow(2, 32760) % 65521 == 1,
{
    vstd::arithmetic::power::lemma_pow0(2);
    lemma_pow_doubling_step(2, 0, 1);
    lemma_pow_doubling_step(2, 1, 2);
    lemma_pow_doubling_step(2, 3, 8);
    lemma_pow_doubling_step(2, 7, 128);
    lemma_pow_doubling_step(2, 15, 32768);
    lemma_pow_doubling_step(2, 31, 32873);
    lemma_pow_doubling_step(2, 63, 58073);
    lemma_pow_doubling_step(2, 127, 18355);
    lemma_pow_doubling_step(2, 255, 59607);
    lemma_pow_doubling_step(2, 511, 39885);
    lemma_pow_doubling_step(2, 1023, 57732);
    lemma_pow_doubling_step(2, 2047, 57671);
    lemma_pow_squaring_step(2, 4095, 65520);
    lemma_pow_squaring_step(2, 8190, 1);
    lemma_pow_squaring_step(2, 16380, 1);
}

/// `17^4095 mod p` is 61640, and `17^((p - 1) / 2) mod p` is `p - 1`.
proof fn lemma_seventeen_to_4095()
    ensures
        pow(17, 4095) % 65521 == 61640,
        pow(17, 32760) % 65521 == 65520,
{
    vstd::arithmetic::power::lemma_pow0(17);
    lemma_pow_doubling_step(17, 0, 1);
    lemma_pow_doubling_step(17, 1, 17);
    lemma_pow_doubling_step(17, 3, 4913);
    lemma_pow_doubling_step(17, 7, 46171);
    lemma_pow_doubling_step(17, 15, 13913);
    lemma_pow_doubling_step(17, 31, 55490);
    lemma_pow_doubling_step(17, 63, 65111);
    lemma_pow_doubling_step(17, 127, 40297);
    lemma_pow_doubling_step(17, 255, 46312);
    lemma_pow_doubling_step(17, 511, 38121);
    lemma_pow_doubling_step(17, 1023, 18889);
    lemma_pow_doubling_step(17, 2047, 27924);
    lemma_pow_squaring_step(17, 4095, 61640);
    lemma_pow_squaring_step(17, 8190, 57852);
    lemma_pow_squaring_step(17, 16380, 41224);
}

/// `(p - 1)^16 mod p` is one.
proof fn lemma_minus_one_to_16()
    ensures
        pow(65520, 16) % 65521 == 1,
{
    let m1 = 65520int;
    lemma_square_is_pow2(m1);
    lemma_pow_multiplies(m1, 2, 8);
    lemma_pow_mod_noop(pow(m1, 2), 8, 65521);
    vstd::arithmetic::power::lemma1_pow(8);
}

/// The constants of the field stand for the values that their names give:
/// zero, one, minus one, the element `2` named the generator, the root of
/// unity `2^4095`, the value `17^4095` of the non-residue `17` raised to the
/// trace, and `R2 = (2^16)^2 mod p`.
///
/// Also stated: `2^((p - 1) / 2) = 1`, so `2` is a quadratic residue and not a
/// generator of the multiplicative group, and the root of unity `2^4095` is
/// `-1`, of order two, although its sixteenth power is one; `17^((p - 1) / 2)
/// = -1`, so `17` is a quadratic non-residue.
pub proof fn lemma_constants()
    ensures
        decode(ZERO as nat) == 0,
        decode(ONE as nat) == 1,
        decode(NEG_ONE as nat) == p() - 1,
        decode(GENERATOR as nat) == 2,
        pow(2, (p() - 1) as nat / 2) % (p() as int) == 1,
        decode(TWO_ADIC_ROOT_OF_UNITY as nat) == pow(2, 4095) % (p() as int),
        decode(TWO_ADIC_ROOT_OF_UNITY as nat) == p() - 1,
        pow(decode(TWO_ADIC_ROOT_OF_UNITY as nat) as int, 16) % (p() as int) == 1,
        decode(QUADRATIC_NONRESIDUE_TO_TRACE as nat) == pow(17, 4095) % (p() as int),
        pow(17, (p() - 1) as nat / 2) % (p() as int) == p() - 1,
        MODULUS - 1 == pow(2, TWO_ADICITY as nat) * 4095,
        R2 == (65536 * 65536) % p(),
        MODULUS_U128 == MODULUS,
{
    lemma_two_to_4095();
    lemma_seventeen_to_4095();
    lemma_minus_one_to_16();
    lemma_square_is_pow2(2);
    lemma_square_is_pow2(4);
    lemma_pow_multiplies(2, 2, 2);
}

/// `into_bigint` undoes `from_bigint` on every integer below the modulus,
/// and `from_bigint` undoes `into_bigint` on every reduced element.
pub proof fn lemma_bigint_round_trip(a: [u64; 2], e: SmallF16)
    ensures
        limbs_value(a) < p() ==> a[1] == 0 && a[0] == decode(encode(limbs_value(a) % p())),
        is_reduced(e) ==> field_value(e) < p() && encode(field_value(e) % p()) == e.value,
{
    if limbs_value(a) < p() {
        assert(a[1] == 0) by (nonlinear_arith)
            requires
                a[0] as nat + a[1] as nat * 0x1_0000_0000_0000_0000 < 65521,
        ;
        lemma_encode_decode(limbs_value(a) % p());
        vstd::arithmetic::div_mod::lemma_mod_twice(limbs_value(a) as int, p() as int);
        lemma_small_mod(limbs_value(a), p());
    }
    if is_reduced(e) {
        lemma_decode_encode(e.value as nat);
        lemma_small_mod(field_value(e), p());
    }
}

/// `inverse` finds the multiplicative inverse: for a nonzero reduced `a`,
/// the element whose field value is `a^(p - 2)` multiplies with `a` to one,
/// both as field values and as Montgomery words.
pub proof fn lemma_inverse_is_inverse(a: SmallF16, e: SmallF16)
    requires
        is_reduced(a),
        a.value != 0,
        is_reduced(e),
        field_value(e) == pow(field_value(a) as int, (p() - 2) as nat) % (p() as int),
    ensures
        (field_value(a) * field_value(e)) % p() == 1,
        mont_mul(a.value as nat, e.value as nat) == ONE,
{
    let x = field_value(a) as int;
    let m = p() as int;
    lemma_decode_encode(a.value as nat);
    assert(encode(0) == 0);
    assert(x != 0);
    lemma_small_mod(x as nat, p());
    crate::fermat::lemma_fermat(x);
    lemma_pow_adds(x, 1, 65519);
    lemma_pow1(x);
    vstd::arithmetic::div_mod::lemma_mul_mod_noop_right(x, pow(x, 65519), m);
    lemma_decode_mont_mul(a.value as nat, e.value as nat);
    let w = mont_mul(a.value as nat, e.value as nat);
    lemma_decode_encode(w);
    assert(encode(1) == 15);
}

} // verus!
