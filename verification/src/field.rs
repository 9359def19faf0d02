use vstd::prelude::*;
use vstd::arithmetic::div_mod::{
    lemma_fundamental_div_mod, lemma_mod_self_0, lemma_mod_twice, lemma_mul_mod_noop_general,
    lemma_mul_mod_noop_right, lemma_small_mod, lemma_sub_mod_noop,
};
use vstd::arithmetic::mul::lemma_mul_is_commutative;
use vstd::arithmetic::power::{lemma_pow_mod_noop, lemma_pow_multiplies, pow};

verus! {

/// A number is prime when it is at least two and no smaller number
/// (other than one) divides it.
pub open spec fn is_prime(n: int) -> bool {
    n >= 2 && forall|d: int| 2 <= d < n ==> #[trigger] (n % d) != 0
}

/// The canonical residue of `b^e` modulo `m`.
pub open spec fn fpow(m: int, b: int, e: nat) -> int {
    pow(b, e) % m
}

/// Residue addition: `(a + b) % m` computed without overflow.
fn addmod(a: u32, b: u32, m: u32) -> (r: u32)
    requires
        a < m,
        b < m,
    ensures
        r == (a + b) % (m as int),
        r < m,
{
    let s: u64 = a as u64 + b as u64;
    let m64: u64 = m as u64;
    proof {
        if s >= m64 {
            vstd::arithmetic::div_mod::lemma_mod_sub_multiples_vanish(a + b, m as int);
            lemma_small_mod((a + b - m) as nat, m as nat);
        } else {
            lemma_small_mod((a + b) as nat, m as nat);
        }
    }
    if s >= m64 {
        (s - m64) as u32
    } else {
        s as u32
    }
}

/// Residue subtraction: `(a - b) % m` computed without underflow.
fn submod(a: u32, b: u32, m: u32) -> (r: u32)
    requires
        a < m,
        b < m,
    ensures
        r == (a - b) % (m as int),
        r < m,
{
    proof {
        if a >= b {
            lemma_small_mod((a - b) as nat, m as nat);
        } else {
            vstd::arithmetic::div_mod::lemma_mod_add_multiples_vanish(a - b, m as int);
            lemma_small_mod((a + m - b) as nat, m as nat);
        }
    }
    if a >= b {
        a - b
    } else {
        a + (m - b)
    }
}

/// Residue multiplication: `(a * b) % m` through a 64-bit product.
fn mulmod(a: u32, b: u32, m: u32) -> (r: u32)
    requires
        a < m,
        b < m,
    ensures
        r == (a * b) % (m as int),
        r < m,
{
    proof {
        assert((a as int) * (b as int) < 0x1_0000_0000_0000_0000) by (nonlinear_arith)
            requires
                a < 0x1_0000_0000u64,
                b < 0x1_0000_0000u64,
        ;
    }
    let prod: u64 = (a as u64) * (b as u64);
    let m64: u64 = m as u64;
    (prod % m64) as u32
}

/// `d` divides `n` evenly.
pub open spec fn divides(d: int, n: int) -> bool {
    n % d == 0
}

/// `q` is a prime factor of `n`.
pub open spec fn prime_factor(n: int, q: int) -> bool {
    is_prime(q) && divides(q, n)
}

/// `x` passes the primitive-root test for the field with modulus `p`:
/// for every prime factor `q` of `p - 1`, `x^((p-1)/q)` is not one.
pub open spec fn generator_candidate(p: int, x: int) -> bool {
    forall|q: int| #[trigger] prime_factor(p - 1, q) ==> fpow(p, x, ((p - 1) / q) as nat) != 1
}

/// A multiple of a common divisor can be added to or subtracted from a
/// multiple without changing divisibility.
proof fn lemma_divides_linear(d: int, x: int, y: int, q: int)
    requires
        d >= 1,
        divides(d, x),
        divides(d, y),
    ensures
        divides(d, x - q * y),
        divides(d, x + q * y),
{
    lemma_mul_mod_noop_right(q, y, d);
    assert(q * (y % d) == 0);
    lemma_small_mod(0nat, d as nat);
    assert((q * y) % d == 0);
    lemma_sub_mod_noop(x, q * y, d);
    vstd::arithmetic::div_mod::lemma_add_mod_noop(x, q * y, d);
    lemma_small_mod(0nat, d as nat);
}

/// Divisibility is transitive.
proof fn lemma_divides_transitive(a: int, b: int, c: int)
    requires
        a >= 1,
        b >= 1,
        divides(a, b),
        divides(b, c),
    ensures
        divides(a, c),
{
    lemma_fundamental_div_mod(c, b);
    lemma_fundamental_div_mod(b, a);
    let k = c / b;
    let j = b / a;
    assert(c == (j * k) * a) by (nonlinear_arith)
        requires
            c == b * k,
            b == a * j,
    ;
    vstd::arithmetic::div_mod::lemma_mod_multiples_basic(j * k, a);
}

/// A positive divisor of a positive number is no larger than it.
proof fn lemma_divisor_le(d: int, n: int)
    requires
        d >= 1,
        n >= 1,
        divides(d, n),
    ensures
        d <= n,
{
    if d > n {
        lemma_small_mod(n as nat, d as nat);
    }
}

/// Every nonzero residue modulo a prime has a multiplicative inverse.
pub proof fn lemma_prime_inverse(p: int, a: int)
    requires
        is_prime(p),
        1 <= a < p,
    ensures
        exists|w: int| 0 <= w < p && #[trigger] ((a * w) % p) == 1,
    decreases a,
{
    if a == 1 {
        lemma_small_mod(1nat, p as nat);
        assert((a * 1int) % p == 1);
    } else {
        let r = p % a;
        vstd::arithmetic::div_mod::lemma_mod_bound(p, a);
        if r == 0 {
            // a would be a nontrivial divisor of the prime p
            assert(2 <= a < p && p % a == 0);
            assert(false);
        }
        lemma_prime_inverse(p, r);
        let w1 = choose|w: int| 0 <= w < p && #[trigger] ((r * w) % p) == 1;
        let q = p / a;
        lemma_fundamental_div_mod(p, a);
        assert(p == q * a + r);
        let w = (-(q * w1)) % p;
        vstd::arithmetic::div_mod::lemma_mod_bound(-(q * w1), p);
        // a * w == a * (-(q*w1)) (mod p), and r == p - q*a, so
        // r * w1 == (p - q*a) * w1 == p*w1 - a*(q*w1) (mod p).
        lemma_mul_mod_noop_right(a, -(q * w1), p);
        assert(a * ((-(q * w1)) % p) % p == (a * (-(q * w1))) % p);
        assert(r * w1 == p * w1 + (a * (-(q * w1)))) by (nonlinear_arith)
            requires
                r == p - q * a,
        ;
        vstd::arithmetic::div_mod::lemma_mod_multiples_vanish(w1, a * (-(q * w1)), p);
        assert((r * w1) % p == (a * (-(q * w1))) % p);
        assert((a * w) % p == 1);
    }
}

/// A product of two nonzero residues modulo a prime is nonzero.
pub proof fn lemma_no_zero_divisors(p: int, a: int, b: int)
    requires
        is_prime(p),
        1 <= a < p,
        1 <= b < p,
    ensures
        (a * b) % p != 0,
{
    if (a * b) % p == 0 {
        lemma_prime_inverse(p, a);
        lemma_prime_inverse(p, b);
        let wa = choose|w: int| 0 <= w < p && #[trigger] ((a * w) % p) == 1;
        let wb = choose|w: int| 0 <= w < p && #[trigger] ((b * w) % p) == 1;
        // ((a*b) * (wa*wb)) % p is 0 by the assumption, but also 1.
        assert((a * b) * (wa * wb) == (a * wa) * (b * wb)) by (nonlinear_arith);
        lemma_mul_mod_noop_general(a * wa, b * wb, p);
        lemma_small_mod(1nat, p as nat);
        assert((a * wa) % p == 1);
        assert((b * wb) % p == 1);
        assert((((a * wa) % p) * ((b * wb) % p)) % p == ((a * wa) * (b * wb)) % p);
        assert(1int * 1int == 1) by (nonlinear_arith);
        assert(((a * wa) * (b * wb)) % p == 1);
        assert(((a * b) * (wa * wb)) % p == 1);
        lemma_mul_mod_noop_general(a * b, wa * wb, p);
        assert((((a * b) % p) * ((wa * wb) % p)) % p == 1);
        assert((0int * ((wa * wb) % p)) % p == 1);
        assert(0int * ((wa * wb) % p) == 0) by (nonlinear_arith);
        lemma_small_mod(0nat, p as nat);
        assert(false);
    }
}

/// Euclid's lemma: a prime dividing a product divides one of the factors.
pub proof fn lemma_euclid(q: int, x: int, y: int)
    requires
        is_prime(q),
        0 <= x,
        0 <= y,
        divides(q, x * y),
    ensures
        divides(q, x) || divides(q, y),
{
    lemma_mul_mod_noop_general(x, y, q);
    vstd::arithmetic::div_mod::lemma_mod_bound(x, q);
    vstd::arithmetic::div_mod::lemma_mod_bound(y, q);
    if x % q != 0 && y % q != 0 {
        lemma_no_zero_divisors(q, x % q, y % q);
        assert(false);
    }
}

/// One square-and-multiply step preserves the running product.
proof fn lemma_fpow_step(m: int, r: int, b: int, e: nat)
    requires
        m >= 2,
        0 <= r < m,
        0 <= b < m,
        e > 0,
    ensures
        e % 2 == 1 ==> (r * pow(b, e)) % m == (((r * b) % m) * pow((b * b) % m, (e / 2) as nat))
            % m,
        e % 2 == 0 ==> (r * pow(b, e)) % m == (r * pow((b * b) % m, (e / 2) as nat)) % m,
{
    let k = (e / 2) as nat;
    let z = pow(b * b, k);
    vstd::arithmetic::power::lemma_pow1(b);
    vstd::arithmetic::power::lemma_pow_adds(b, 1nat, 1nat);
    assert(pow(b, 2) == b * b);
    lemma_pow_multiplies(b, 2, k);
    assert(pow(b * b, k) == pow(b, (2 * k) as nat));
    lemma_pow_mod_noop(b * b, k, m);
    if e % 2 == 1 {
        assert(e == 2 * k + 1);
        vstd::arithmetic::power::lemma_pow_adds(b, (2 * k) as nat, 1nat);
        assert(pow(b, e) == z * b);
        assert(r * (z * b) == (r * b) * z) by (nonlinear_arith);
        vstd::arithmetic::div_mod::lemma_mul_mod_noop_left(r * b, z, m);
        lemma_mul_mod_noop_right((r * b) % m, z, m);
        assert((((r * b) % m) * (z % m)) % m == ((r * b) * z) % m);
        lemma_mul_mod_noop_right((r * b) % m, pow((b * b) % m, k), m);
        assert((((r * b) % m) * (pow((b * b) % m, k) % m)) % m == (((r * b) % m) * pow(
            (b * b) % m,
            k,
        )) % m);
        assert((r * pow(b, e)) % m == (((r * b) % m) * pow((b * b) % m, k)) % m);
    } else {
        assert(e == 2 * k);
        assert(pow(b, e) == z);
        lemma_mul_mod_noop_right(r, z, m);
        lemma_mul_mod_noop_right(r, pow((b * b) % m, k), m);
        assert((r * pow(b, e)) % m == (r * pow((b * b) % m, k)) % m);
    }
}

/// Unfolding one multiplication out of a modular power.
pub proof fn lemma_fpow_unfold(m: int, b: int, k: nat)
    requires
        m >= 2,
        0 <= b < m,
    ensures
        fpow(m, b, k + 1) == (fpow(m, b, k) * b) % m,
{
    vstd::arithmetic::power::lemma_pow1(b);
    vstd::arithmetic::power::lemma_pow_adds(b, k, 1nat);
    assert(pow(b, k + 1) == pow(b, k) * b);
    vstd::arithmetic::div_mod::lemma_mul_mod_noop_left(pow(b, k), b, m);
}

/// Decides primality by trial division up to the square root.
#[verifier::loop_isolation(false)]
pub fn is_prime_u32(n: u32) -> (r: bool)
    ensures
        r == is_prime(n as int),
{
    if n < 2 {
        return false;
    }
    let mut d: u32 = 2;
    while d <= n / d
        invariant
            2 <= d,
            d <= n,
            forall|e: int| 2 <= e < d ==> #[trigger] ((n as int) % e) != 0,
        decreases n - d,
    {
        proof {
            lemma_fundamental_div_mod(n as int, d as int);
            assert((d as int) * (d as int) <= n as int) by (nonlinear_arith)
                requires
                    2 <= d as int,
                    d as int <= (n as int) / (d as int),
                    n as int == (d as int) * ((n as int) / (d as int)) + (n as int) % (d as int),
                    (n as int) % (d as int) >= 0,
            ;
        }
        if n % d == 0 {
            proof {
                assert((d as int) < (n as int)) by (nonlinear_arith)
                    requires
                        2 <= d as int,
                        (d as int) * (d as int) <= n as int,
                ;
            }
            return false;
        }
        proof {
            assert((d as int) + 1 <= (n as int)) by (nonlinear_arith)
                requires
                    2 <= d as int,
                    (d as int) * (d as int) <= n as int,
            ;
        }
        d = d + 1;
    }
    proof {
        lemma_fundamental_div_mod(n as int, d as int);
        vstd::arithmetic::div_mod::lemma_mod_bound(n as int, d as int);
        assert((d as int) * (d as int) > n as int) by (nonlinear_arith)
            requires
                2 <= d as int,
                d as int > (n as int) / (d as int),
                n as int == (d as int) * ((n as int) / (d as int)) + (n as int) % (d as int),
                0 <= (n as int) % (d as int) < (d as int),
        ;
    }
    proof {
        let ni = n as int;
        let di = d as int;
        assert forall|e: int| 2 <= e < ni implies #[trigger] (ni % e) != 0 by {
            if ni % e == 0 && e >= di {
                lemma_fundamental_div_mod(ni, e);
                let k = ni / e;
                vstd::arithmetic::div_mod::lemma_div_pos_is_pos(ni, e);
                assert(k >= 1) by (nonlinear_arith)
                    requires
                        ni == e * k,
                        ni >= 2,
                        e < ni,
                        k >= 0,
                ;
                assert(k < di) by (nonlinear_arith)
                    requires
                        ni == e * k,
                        di * di > ni,
                        e >= di,
                        k >= 1,
                        di >= 2,
                ;
                assert(k >= 2) by (nonlinear_arith)
                    requires
                        ni == e * k,
                        e < ni,
                        k >= 1,
                ;
                assert(ni == k * e) by (nonlinear_arith)
                    requires
                        ni == e * k,
                ;
                vstd::arithmetic::div_mod::lemma_mod_multiples_basic(e, k);
                assert(ni % k == 0);
                assert(false);
            }
        }
    }
    true
}

/// Removes one factor `it` from `rem`, keeping the divisibility bookkeeping.
fn remove_factor(rem: u32, it: u32, Ghost(ni): Ghost<int>) -> (r2: u32)
    requires
        1 <= rem,
        2 <= it,
        is_prime(it as int),
        (rem as int) % (it as int) == 0,
        divides(rem as int, ni),
        forall|d: int| 2 <= d < it ==> !divides(d, rem as int),
        forall|q: int| prime_factor(ni, q) && q > it ==> divides(q, rem as int),
    ensures
        1 <= r2 < rem,
        divides(r2 as int, ni),
        forall|d: int| 2 <= d < it ==> !divides(d, r2 as int),
        forall|q: int| prime_factor(ni, q) && q > it ==> divides(q, r2 as int),
{
    let rem2 = rem / it;
    proof {
        let ri = rem as int;
        let it0 = it as int;
        let r2 = rem2 as int;
        lemma_fundamental_div_mod(ri, it0);
        assert(ri == it0 * r2);
        assert(r2 >= 1) by (nonlinear_arith)
            requires
                ri == it0 * r2,
                ri >= 1,
                it0 >= 2,
                r2 >= 0,
        ;
        assert(r2 < ri) by (nonlinear_arith)
            requires
                ri == it0 * r2,
                it0 >= 2,
                r2 >= 1,
        ;
        // rem2 divides rem, hence n
        assert(ri == r2 * it0) by (nonlinear_arith)
            requires
                ri == it0 * r2,
        ;
        vstd::arithmetic::div_mod::lemma_mod_multiples_basic(it0, r2);
        assert(divides(r2, ri));
        lemma_divides_transitive(r2, ri, ni);
        // smaller numbers still do not divide rem2
        assert forall|d: int| 2 <= d < it implies !divides(d, r2) by {
            if divides(d, r2) {
                lemma_divides_transitive(d, r2, ri);
                assert(false);
            }
        }
        // larger prime factors of n still divide rem2
        assert forall|q: int| prime_factor(ni, q) && q > it implies divides(q, r2) by {
            if !divides(q, r2) {
                assert(divides(q, it0 * r2));
                lemma_euclid(q, it0, r2);
                assert(divides(q, it0));
                lemma_small_mod(it0 as nat, q as nat);
                assert(false);
            }
        }
    }
    rem2
}

/// Collects the distinct prime factors of `n` by trial division.
#[verifier::loop_isolation(false)]
fn distinct_prime_factors(n: u32) -> (fs: Vec<u32>)
    requires
        n >= 1,
    ensures
        forall|i: int|
            0 <= i < fs@.len() ==> prime_factor(n as int, (#[trigger] fs@[i]) as int),
        forall|q: int| prime_factor(n as int, q) ==> fs@.contains(q as u32),
{
    let ghost ni = n as int;
    let mut fs: Vec<u32> = Vec::new();
    let mut rem: u32 = n;
    let mut it: u64 = 2;
    proof {
        lemma_mod_self_0(ni);
    }
    while rem != 1
        invariant
            1 <= rem <= n,
            2 <= it,
            divides(rem as int, ni),
            forall|d: int| 2 <= d < it ==> !divides(d, rem as int),
            forall|i: int|
                0 <= i < fs@.len() ==> prime_factor(ni, (#[trigger] fs@[i]) as int),
            forall|q: int| prime_factor(ni, q) && q < it ==> fs@.contains(q as u32),
            forall|q: int| prime_factor(ni, q) && q >= it ==> divides(q, rem as int),
        decreases rem, n + 2 - it,
    {
        proof {
            // rem > 1 has no divisor below `it`, so it <= rem
            if it > rem as u64 {
                lemma_mod_self_0(rem as int);
                assert(divides(rem as int, rem as int));
                assert(false);
            }
        }
        let it32: u32 = it as u32;
        if rem % it32 == 0 {
            proof {
                // `it` is prime: a smaller factor of `it` would divide rem
                assert forall|u: int| 2 <= u < it implies #[trigger] ((it as int) % u) != 0 by {
                    if (it as int) % u == 0 {
                        lemma_divides_transitive(u, it as int, rem as int);
                        assert(false);
                    }
                }
                assert(is_prime(it as int));
                lemma_divides_transitive(it as int, rem as int, ni);
                assert(prime_factor(ni, it as int));
            }
            let ghost fs0 = fs@;
            fs.push(it32);
            proof {
                assert(fs@ == fs0.push(it32));
                assert forall|q: int| prime_factor(ni, q) && q < it implies fs@.contains(
                    q as u32,
                ) by {
                    assert(fs0.contains(q as u32));
                    let i = choose|i: int| 0 <= i < fs0.len() && fs0[i] == q as u32;
                    assert(fs@[i] == q as u32);
                }
            }
            rem = remove_factor(rem, it32, Ghost(ni));
            let ghost rem_mid = rem;
            while rem % it32 == 0
                invariant
                    1 <= rem <= rem_mid,
                    divides(rem as int, ni),
                    forall|d: int| 2 <= d < it ==> !divides(d, rem as int),
                    forall|q: int|
                        prime_factor(ni, q) && q > it ==> divides(q, rem as int),
                decreases rem,
            {
                rem = remove_factor(rem, it32, Ghost(ni));
            }
            proof {
                assert(fs@[fs@.len() - 1] == it32);
                assert(fs@.contains(it32));
            }
        } else {
            proof {
                // a prime `it` dividing n would divide rem by the invariant
                if prime_factor(ni, it as int) {
                    assert(divides(it as int, rem as int));
                    assert(false);
                }
            }
        }
        proof {
            assert forall|q: int| prime_factor(ni, q) && q < it + 1 implies fs@.contains(
                q as u32,
            ) by {
                if q == it {
                    assert(q <= n as int);
                    assert(q as u32 == it32);
                    assert(fs@.contains(it32));
                }
            }
        }
        it = it + 1;
    }
    proof {
        assert forall|q: int| prime_factor(ni, q) implies fs@.contains(q as u32) by {
            if q >= it {
                assert(divides(q, 1));
                lemma_small_mod(1nat, q as nat);
                assert(false);
            }
        }
    }
    fs
}

/// An element of the prime field with modulus `P`: a canonical residue in `[0, P)`.
#[derive(Clone, Copy, PartialEq, Eq, Debug)]
pub struct Gf<const P: u32> {
    pub val: u32,
}

impl<const P: u32> Gf<P> {
    /// A field element is well formed when its residue is canonical.
    pub open spec fn valid(self) -> bool {
        P >= 2 && self.val < P
    }

    /// Builds the element with residue `v % P`.
    pub fn new(v: u32) -> (r: Self)
        requires
            P >= 2,
        ensures
            r.valid(),
            r.val == (v as int) % (P as int),
    {
        Gf { val: v % P }
    }

    /// Builds an element from a possibly negative integer, as its residue mod `P`.
    pub fn from_i32(v: i32) -> (r: Self)
        requires
            P >= 2,
        ensures
            r.valid(),
            r.val == (v as int) % (P as int),
    {
        if v < 0 {
            let t: u64 = (-(v as i64)) as u64;
            let a: u32 = (t % (P as u64)) as u32;
            proof {
                let p = P as int;
                let b = (v as int) % p;
                assert(t == -(v as int));
                vstd::arithmetic::div_mod::lemma_mod_bound(v as int, p);
                vstd::arithmetic::div_mod::lemma_mod_bound(t as int, p);
                vstd::arithmetic::div_mod::lemma_add_mod_noop(t as int, v as int, p);
                assert((t as int) + (v as int) == 0);
                lemma_small_mod(0nat, P as nat);
                assert(((a + b) % p) == 0);
                // 0 <= a + b < 2p and (a + b) % p == 0, so a + b is 0 or p.
                if a + b < p {
                    lemma_small_mod((a + b) as nat, P as nat);
                    assert(a + b == 0);
                } else {
                    vstd::arithmetic::div_mod::lemma_mod_sub_multiples_vanish(a + b, p);
                    lemma_small_mod((a + b - p) as nat, P as nat);
                    assert(a + b == p);
                }
            }
            if a == 0 {
                Gf { val: 0 }
            } else {
                Gf { val: P - a }
            }
        } else {
            Gf { val: (v as u32) % P }
        }
    }

    /// The canonical residue of the element.
    pub fn residue(self) -> (r: u32)
        ensures
            r == self.val,
    {
        self.val
    }

    /// The additive identity.
    pub fn zero() -> (r: Self)
        requires
            P >= 2,
        ensures
            r.valid(),
            r.val == 0,
    {
        Gf { val: 0 }
    }

    /// The multiplicative identity.
    pub fn one() -> (r: Self)
        requires
            P >= 2,
        ensures
            r.valid(),
            r.val == 1,
    {
        Gf { val: 1 }
    }

    /// Field addition.
    pub fn add(self, rhs: Self) -> (r: Self)
        requires
            self.valid(),
            rhs.valid(),
        ensures
            r.valid(),
            r.val == (self.val + rhs.val) % (P as int),
    {
        Gf { val: addmod(self.val, rhs.val, P) }
    }

    /// Field subtraction.
    pub fn sub(self, rhs: Self) -> (r: Self)
        requires
            self.valid(),
            rhs.valid(),
        ensures
            r.valid(),
            r.val == (self.val - rhs.val) % (P as int),
    {
        Gf { val: submod(self.val, rhs.val, P) }
    }

    /// Additive inverse.
    pub fn neg(self) -> (r: Self)
        requires
            self.valid(),
        ensures
            r.valid(),
            r.val == (0 - self.val) % (P as int),
    {
        Gf { val: submod(0, self.val, P) }
    }

    /// Field multiplication.
    pub fn mul(self, rhs: Self) -> (r: Self)
        requires
            self.valid(),
            rhs.valid(),
        ensures
            r.valid(),
            r.val == (self.val * rhs.val) % (P as int),
    {
        Gf { val: mulmod(self.val, rhs.val, P) }
    }

    /// Exponentiation by square and multiply.
    #[verifier::loop_isolation(false)]
    pub fn pow(self, e: u32) -> (r: Self)
        requires
            self.valid(),
        ensures
            r.valid(),
            r.val == fpow(P as int, self.val as int, e as nat),
    {
        let m = P;
        let ghost p = P as int;
        let ghost v = self.val as int;
        let mut result: u32 = 1;
        let mut base: u32 = self.val;
        let mut exp: u32 = e;
        proof {
            assert(fpow(p, v, e as nat) == (1 * pow(v, e as nat)) % p);
        }
        while exp > 0
            invariant
                P >= 2,
                base < P,
                result < P,
                fpow(p, v, e as nat) == (result * pow(base as int, exp as nat)) % p,
            decreases exp,
        {
            let ghost r0 = result as int;
            let ghost b0 = base as int;
            let ghost e0 = exp as nat;
            proof {
                lemma_fpow_step(p, r0, b0, e0);
            }
            if exp % 2 == 1 {
                result = mulmod(result, base, m);
            }
            base = mulmod(base, base, m);
            exp = exp / 2;
        }
        proof {
            vstd::arithmetic::power::lemma_pow0(base as int);
            lemma_small_mod(result as nat, P as nat);
        }
        Gf { val: result }
    }

    /// Multiplicative inverse, by the extended Euclidean algorithm.
    #[verifier::loop_isolation(false)]
    pub fn inv(self) -> (r: Self)
        requires
            is_prime(P as int),
            self.valid(),
            self.val != 0,
        ensures
            r.valid(),
            (r.val * self.val) % (P as int) == 1,
            (self.val * r.val) % (P as int) == 1,
    {
        let m = P;
        let a = self.val;
        let ghost p = P as int;
        let ghost av = a as int;
        let mut r0: u32 = m;
        let mut r1: u32 = a;
        let mut s0: u32 = 0;
        let mut s1: u32 = 1;
        proof {
            lemma_mod_self_0(p);
            lemma_small_mod(a as nat, P as nat);
            lemma_small_mod(1nat, P as nat);
            assert(av * 0 == 0) by (nonlinear_arith);
            assert(av * 1 == av) by (nonlinear_arith);
            lemma_small_mod(0nat, P as nat);
        }
        while r1 != 0
            invariant
                P >= 2,
                is_prime(p),
                1 <= av < P,
                av == a,
                r1 < r0,
                r0 <= P,
                s0 < P,
                s1 < P,
                (av * s0) % p == (r0 as int) % p,
                (av * s1) % p == (r1 as int) % p,
                forall|d: int|
                    1 <= d ==> ((divides(d, r0 as int) && divides(d, r1 as int)) <==> (divides(
                        d,
                        p,
                    ) && divides(d, av))),
            decreases r1,
        {
            let q: u32 = r0 / r1;
            let r2: u32 = r0 % r1;
            let qm: u32 = q % m;
            let t: u32 = mulmod(qm, s1, m);
            let s2: u32 = submod(s0, t, m);
            proof {
                let qi = q as int;
                lemma_fundamental_div_mod(r0 as int, r1 as int);
                assert(r2 as int == r0 - qi * r1);
                // the new coefficient still tracks the new remainder
                lemma_mul_mod_noop_right(av, s0 - t, p);
                assert(av * (s0 - t) == av * s0 - av * t) by (nonlinear_arith);
                lemma_sub_mod_noop(av * s0, av * t, p);
                lemma_mul_mod_noop_right(av, (qm * s1) % p, p);
                assert(av * (qm * s1) == qm * (av * s1)) by (nonlinear_arith);
                lemma_mul_mod_noop_right(qm as int, av * s1, p);
                lemma_mul_mod_noop_right(qm as int, (r1 as int) % p, p);
                lemma_mul_mod_noop_right(qm as int, r1 as int, p);
                vstd::arithmetic::div_mod::lemma_mul_mod_noop_left(qi, r1 as int, p);
                // (av * s2) % p == r2 % p
                lemma_mod_twice(av * (s0 - t), p);
                assert((av * s2) % p == (av * (s0 - t)) % p) by {
                    assert(s2 as int == (s0 - t) % p);
                    lemma_mul_mod_noop_right(av, s0 - t, p);
                    lemma_mod_twice(av * ((s0 - t) % p), p);
                }
                assert((av * t) % p == (qi * r1) % p) by {
                    assert(t as int == (qm * s1) % p);
                    lemma_mod_twice(qm * s1, p);
                    lemma_mul_mod_noop_right(av, qm * s1, p);
                    assert((av * t) % p == (av * (qm * s1)) % p) by {
                        lemma_mul_mod_noop_right(av, (qm * s1) % p, p);
                    }
                    assert((av * (qm * s1)) % p == (qm * (av * s1)) % p);
                    lemma_mul_mod_noop_right(qm as int, av * s1, p);
                    assert((qm * ((av * s1) % p)) % p == (qm * ((r1 as int) % p)) % p);
                    lemma_mul_mod_noop_right(qm as int, r1 as int, p);
                    vstd::arithmetic::div_mod::lemma_mul_mod_noop_left(qi, r1 as int, p);
                    assert(qm as int == qi % p);
                    lemma_mod_twice(qm * s1, p);
                    lemma_mul_mod_noop_right(av, (qm * s1) % p, p);
                };
                lemma_sub_mod_noop(av * s0, qi * r1, p);
                lemma_sub_mod_noop(r0 as int, qi * r1, p);
                assert((av * s2) % p == (r2 as int) % p);
                // common divisors carry over to the new pair
                assert forall|d: int| 1 <= d implies ((divides(d, r1 as int) && divides(
                    d,
                    r2 as int,
                )) <==> (divides(d, p) && divides(d, av))) by {
                    if divides(d, r1 as int) && divides(d, r2 as int) {
                        lemma_divides_linear(d, r2 as int, r1 as int, qi);
                        assert(divides(d, r2 + qi * (r1 as int)));
                        assert(r2 + qi * r1 == r0);
                        assert(divides(d, r0 as int));
                    }
                    if divides(d, p) && divides(d, av) {
                        assert(divides(d, r0 as int) && divides(d, r1 as int));
                        lemma_divides_linear(d, r0 as int, r1 as int, qi);
                        assert(divides(d, r2 as int));
                    }
                }
            }
            r0 = r1;
            r1 = r2;
            s0 = s1;
            s1 = s2;
        }
        proof {
            let g = r0 as int;
            assert(g >= 1);
            lemma_mod_self_0(g);
            lemma_small_mod(0nat, g as nat);
            assert(divides(g, g) && divides(g, 0));
            assert(divides(g, p) && divides(g, av));
            if g >= 2 {
                lemma_divisor_le(g, av);
                assert(g < p);
                assert(p % g != 0);
                assert(false);
            }
            assert(g == 1);
            lemma_small_mod(1nat, P as nat);
            assert((av * s0) % p == 1);
            lemma_mul_is_commutative(av, s0 as int);
        }
        Gf { val: s0 }
    }

    /// The multiplicative order: the least positive `k` with `self^k == 1`,
    /// if one exists below the modulus.
    #[verifier::loop_isolation(false)]
    pub fn order(self) -> (r: Option<u32>)
        requires
            self.valid(),
        ensures
            match r {
                Some(k) => 1 <= k < P && fpow(P as int, self.val as int, k as nat) == 1
                    && forall|j: int|
                    1 <= j < k ==> #[trigger] fpow(P as int, self.val as int, j as nat) != 1,
                None => forall|j: int|
                    1 <= j < P ==> #[trigger] fpow(P as int, self.val as int, j as nat) != 1,
            },
    {
        let ghost p = P as int;
        let ghost v = self.val as int;
        let mut cur: u32 = self.val;
        let mut k: u32 = 1;
        proof {
            vstd::arithmetic::power::lemma_pow1(v);
            lemma_small_mod(self.val as nat, P as nat);
            assert(fpow(p, v, 1nat) == v);
        }
        while k < P
            invariant
                1 <= k <= P,
                cur < P,
                cur == fpow(p, v, k as nat),
                forall|j: int| 1 <= j < k ==> #[trigger] fpow(p, v, j as nat) != 1,
            decreases P - k,
        {
            if cur == 1 {
                return Some(k);
            }
            proof {
                lemma_fpow_unfold(p, v, k as nat);
            }
            cur = mulmod(cur, self.val, P);
            k = k + 1;
        }
        None
    }

    /// The smallest multiplicative generator of the field: the least
    /// `x >= 2` whose power `x^((P-1)/q)` differs from one for every
    /// prime factor `q` of `P - 1`.
    #[verifier::loop_isolation(false)]
    pub fn generator() -> (r: Option<Self>)
        requires
            P >= 2,
        ensures
            match r {
                Some(g) => g.valid() && 2 <= g.val && generator_candidate(P as int, g.val as int)
                    && forall|y: int|
                    2 <= y < g.val ==> !(#[trigger] generator_candidate(P as int, y)),
                None => forall|y: int|
                    2 <= y < P ==> !(#[trigger] generator_candidate(P as int, y)),
            },
    {
        let ghost p = P as int;
        let fs = distinct_prime_factors(P - 1);
        let mut exps: Vec<u32> = Vec::new();
        let mut i: usize = 0;
        while i < fs.len()
            invariant
                exps@.len() == i,
                i <= fs@.len(),
                forall|j: int|
                    0 <= j < i ==> (#[trigger] exps@[j]) as int == (p - 1) / (fs@[j] as int),
            decreases fs@.len() - i,
        {
            let f = fs[i];
            assert(prime_factor(p - 1, f as int));
            exps.push((P - 1) / f);
            i = i + 1;
        }
        let mut x: u32 = 2;
        while x < P
            invariant
                2 <= x <= P,
                forall|y: int| 2 <= y < x ==> !(#[trigger] generator_candidate(p, y)),
            decreases P - x,
        {
            let cand = Gf::<P> { val: x };
            let mut ok = true;
            let mut j: usize = 0;
            while j < exps.len()
                invariant
                    j <= exps@.len(),
                    x < P,
                    ok ==> forall|k: int|
                        0 <= k < j ==> fpow(p, x as int, (#[trigger] exps@[k]) as nat) != 1,
                    !ok ==> exists|k: int|
                        0 <= k < fs@.len() && fpow(p, x as int, (#[trigger] exps@[k]) as nat)
                            == 1,
                decreases exps@.len() - j,
            {
                let e = cand.pow(exps[j]);
                if e.val == 1 {
                    ok = false;
                }
                j = j + 1;
            }
            if ok {
                proof {
                    assert forall|q: int| #[trigger] prime_factor(p - 1, q) implies fpow(
                        p,
                        x as int,
                        ((p - 1) / q) as nat,
                    ) != 1 by {
                        lemma_divisor_le(q, p - 1);
                        assert(2 <= q <= p - 1);
                        assert(fs@.contains(q as u32));
                        let k = choose|k: int| 0 <= k < fs@.len() && fs@[k] == q as u32;
                        assert(fs@[k] as int == q);
                        assert(exps@[k] as int == (p - 1) / q);
                        assert(fpow(p, x as int, exps@[k] as nat) != 1);
                    }
                    assert(generator_candidate(p, x as int));
                }
                return Some(cand);
            }
            proof {
                let k = choose|k: int|
                    0 <= k < fs@.len() && fpow(p, x as int, (#[trigger] exps@[k]) as nat) == 1;
                assert(prime_factor(p - 1, fs@[k] as int));
                assert(fpow(p, x as int, ((p - 1) / (fs@[k] as int)) as nat) == 1);
                assert(!generator_candidate(p, x as int));
            }
            x = x + 1;
        }
        None
    }

    /// The consecutive powers `self^0, self^1, ..., self^(n-1)`.
    #[verifier::loop_isolation(false)]
    pub fn powers(self, n: usize) -> (r: Vec<Self>)
        requires
            self.valid(),
        ensures
            r@.len() == n,
            forall|i: int|
                0 <= i < n ==> (#[trigger] r@[i]).valid() && r@[i].val == fpow(
                    P as int,
                    self.val as int,
                    i as nat,
                ),
    {
        let ghost p = P as int;
        let ghost v = self.val as int;
        let mut r: Vec<Self> = Vec::new();
        let mut cur: u32 = 1;
        proof {
            vstd::arithmetic::power::lemma_pow0(v);
            lemma_small_mod(1nat, P as nat);
        }
        while r.len() < n
            invariant
                r@.len() <= n,
                cur < P,
                cur == fpow(p, v, r@.len() as nat),
                forall|i: int|
                    0 <= i < r@.len() ==> (#[trigger] r@[i]).valid() && r@[i].val == fpow(
                        p,
                        v,
                        i as nat,
                    ),
            decreases n - r.len(),
        {
            proof {
                lemma_fpow_unfold(p, v, r@.len() as nat);
            }
            r.push(Gf { val: cur });
            cur = mulmod(cur, self.val, P);
        }
        r
    }

    /// Field division: multiplication by the inverse of `rhs`.
    pub fn div(self, rhs: Self) -> (r: Self)
        requires
            is_prime(P as int),
            self.valid(),
            rhs.valid(),
            rhs.val != 0,
        ensures
            r.valid(),
            (r.val * rhs.val) % (P as int) == self.val,
    {
        let ghost p = P as int;
        let w = rhs.inv();
        let r = self.mul(w);
        proof {
            let av = self.val as int;
            let bv = rhs.val as int;
            let wv = w.val as int;
            vstd::arithmetic::div_mod::lemma_mul_mod_noop_left(av * wv, bv, p);
            assert((av * wv) * bv == av * (wv * bv)) by (nonlinear_arith);
            lemma_mul_mod_noop_right(av, wv * bv, p);
            assert((av * ((wv * bv) % p)) % p == (av * (wv * bv)) % p);
            assert((wv * bv) % p == 1);
            assert(av * 1 == av) by (nonlinear_arith);
            lemma_small_mod(self.val as nat, P as nat);
        }
        r
    }
}

} // verus!
