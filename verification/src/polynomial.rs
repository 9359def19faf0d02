use vstd::prelude::*;
use vstd::arithmetic::div_mod::{
    lemma_add_mod_noop, lemma_add_mod_noop_right, lemma_mod_bound, lemma_mod_twice,
    lemma_mul_mod_noop_left, lemma_mul_mod_noop_right, lemma_small_mod, lemma_sub_mod_noop,
};
use crate::field::{fpow, is_prime, lemma_fpow_unfold, lemma_no_zero_divisors, Gf};

verus! {

/// Coefficient `i` of a coefficient sequence, or zero past the end.
pub open spec fn coeff(c: Seq<int>, i: int) -> int {
    if 0 <= i < c.len() {
        c[i]
    } else {
        0
    }
}

/// The larger of two sequence lengths.
pub open spec fn max_len(a: Seq<int>, b: Seq<int>) -> nat {
    if a.len() >= b.len() {
        a.len()
    } else {
        b.len()
    }
}

/// Evaluation of a coefficient sequence at `x`, modulo `m`, with
/// coefficient `i` weighting `x^i`; the zero polynomial evaluates to 0.
pub open spec fn poly_eval(m: int, c: Seq<int>, x: int) -> int
    decreases c.len(),
{
    if c.len() == 0 {
        0
    } else {
        (c[0] + x * poly_eval(m, c.subrange(1, c.len() as int), x)) % m
    }
}

/// Pointwise sum of two coefficient sequences, modulo `m`.
pub open spec fn padd(m: int, a: Seq<int>, b: Seq<int>) -> Seq<int> {
    Seq::new(max_len(a, b), |i: int| (coeff(a, i) + coeff(b, i)) % m)
}

/// Pointwise difference of two coefficient sequences, modulo `m`.
pub open spec fn psub(m: int, a: Seq<int>, b: Seq<int>) -> Seq<int> {
    Seq::new(max_len(a, b), |i: int| (coeff(a, i) - coeff(b, i)) % m)
}

/// Every coefficient multiplied by the scalar `k`, modulo `m`.
pub open spec fn pscale(m: int, k: int, c: Seq<int>) -> Seq<int> {
    Seq::new(c.len(), |i: int| (k * c[i]) % m)
}

/// Multiplication by `x`: a zero constant term in front (the zero
/// polynomial stays as it is).
pub open spec fn pshift(c: Seq<int>) -> Seq<int> {
    if c.len() == 0 {
        c
    } else {
        seq![0int] + c
    }
}

/// The canonical form: trailing zero coefficients removed.
pub open spec fn ptrim(c: Seq<int>) -> Seq<int>
    decreases c.len(),
{
    if c.len() == 0 || c.last() != 0 {
        c
    } else {
        ptrim(c.drop_last())
    }
}

/// One FRI fold: coefficients are paired as `c[2i] + beta * c[2i+1]`.
pub open spec fn pfold(m: int, c: Seq<int>, beta: int) -> Seq<int> {
    Seq::new((c.len() + 1) / 2, |i: int| (coeff(c, 2 * i) + beta * coeff(c, 2 * i + 1)) % m)
}

/// An evaluation stays in the residue range.
pub proof fn lemma_eval_bound(m: int, c: Seq<int>, x: int)
    requires
        m >= 1,
    ensures
        0 <= poly_eval(m, c, x) < m || (c.len() == 0 && poly_eval(m, c, x) == 0),
{
    if c.len() > 0 {
        lemma_mod_bound(c[0] + x * poly_eval(m, c.subrange(1, c.len() as int), x), m);
    }
}

/// Dropping a trailing zero coefficient does not change evaluation.
proof fn lemma_eval_drop_last_zero(m: int, c: Seq<int>, x: int)
    requires
        m >= 1,
        c.len() >= 1,
        c.last() == 0,
    ensures
        poly_eval(m, c.drop_last(), x) == poly_eval(m, c, x),
    decreases c.len(),
{
    if c.len() == 1 {
        assert(c.drop_last() =~= Seq::<int>::empty());
        assert(c.subrange(1, 1) =~= Seq::<int>::empty());
        assert(poly_eval(m, Seq::<int>::empty(), x) == 0);
        assert(x * 0 == 0) by (nonlinear_arith);
        assert(poly_eval(m, c, x) == (c[0] + x * 0) % m);
        assert(c[0] + x * 0 == 0);
        lemma_small_mod(0nat, m as nat);
    } else {
        let t = c.subrange(1, c.len() as int);
        lemma_eval_drop_last_zero(m, t, x);
        assert(c.drop_last().subrange(1, c.drop_last().len() as int) =~= t.drop_last());
        assert(c.drop_last()[0] == c[0]);
    }
}

/// Trimming trailing zeros does not change evaluation.
pub proof fn lemma_eval_ptrim(m: int, c: Seq<int>, x: int)
    requires
        m >= 1,
    ensures
        poly_eval(m, ptrim(c), x) == poly_eval(m, c, x),
    decreases c.len(),
{
    if c.len() == 0 || c.last() != 0 {
    } else {
        lemma_eval_drop_last_zero(m, c, x);
        lemma_eval_ptrim(m, c.drop_last(), x);
    }
}

/// Evaluation distributes over the pointwise sum.
pub proof fn lemma_eval_padd(m: int, a: Seq<int>, b: Seq<int>, x: int)
    requires
        m >= 1,
    ensures
        poly_eval(m, padd(m, a, b), x) == (poly_eval(m, a, x) + poly_eval(m, b, x)) % m,
    decreases max_len(a, b),
{
    let s = padd(m, a, b);
    let ea = poly_eval(m, a, x);
    let eb = poly_eval(m, b, x);
    if s.len() == 0 {
        lemma_small_mod(0nat, m as nat);
    } else {
        let a1 = if a.len() > 0 { a.subrange(1, a.len() as int) } else { a };
        let b1 = if b.len() > 0 { b.subrange(1, b.len() as int) } else { b };
        assert(s.subrange(1, s.len() as int) =~= padd(m, a1, b1));
        lemma_eval_padd(m, a1, b1, x);
        let ea1 = poly_eval(m, a1, x);
        let eb1 = poly_eval(m, b1, x);
        let a0 = coeff(a, 0);
        let b0 = coeff(b, 0);
        // left side: ((a0 + b0) % m + x * ((ea1 + eb1) % m)) % m
        assert(poly_eval(m, s, x) == ((a0 + b0) % m + x * ((ea1 + eb1) % m)) % m);
        lemma_mod_twice(a0 + b0, m);
        lemma_mul_mod_noop_right(x, ea1 + eb1, m);
        lemma_mod_twice(x * (ea1 + eb1), m);
        lemma_add_mod_noop((a0 + b0) % m, x * ((ea1 + eb1) % m), m);
        assert((x * ((ea1 + eb1) % m)) % m == (x * (ea1 + eb1)) % m);
        lemma_add_mod_noop(a0 + b0, x * (ea1 + eb1), m);
        assert(poly_eval(m, s, x) == (a0 + b0 + x * (ea1 + eb1)) % m) by {
            assert(((a0 + b0) % m + x * ((ea1 + eb1) % m)) % m == (((a0 + b0) % m) % m + ((x * ((
            ea1 + eb1) % m)) % m)) % m) by {
                lemma_add_mod_noop((a0 + b0) % m, x * ((ea1 + eb1) % m), m);
            }
        }
        assert(x * (ea1 + eb1) == x * ea1 + x * eb1) by (nonlinear_arith);
        // right side
        if a.len() == 0 {
            assert(ea == 0 && ea1 == 0 && a0 == 0);
            assert(eb == (b0 + x * eb1) % m);
            lemma_mod_twice(b0 + x * eb1, m);
            lemma_add_mod_noop(0, eb, m);
            lemma_small_mod(0nat, m as nat);
            assert((ea + eb) % m == eb % m);
            assert((ea + eb) % m == (b0 + x * eb1) % m);
        } else if b.len() == 0 {
            assert(eb == 0 && eb1 == 0 && b0 == 0);
            lemma_mod_twice(a0 + x * ea1, m);
            assert((ea + eb) % m == ea % m);
            assert((ea + eb) % m == (a0 + x * ea1) % m);
        } else {
            assert(ea == (a0 + x * ea1) % m && eb == (b0 + x * eb1) % m);
            lemma_add_mod_noop(a0 + x * ea1, b0 + x * eb1, m);
            assert((ea + eb) % m == (a0 + x * ea1 + (b0 + x * eb1)) % m);
        }
    }
}

/// Evaluation commutes with negating the second argument: the
/// pointwise difference evaluates to the difference of evaluations.
pub proof fn lemma_eval_psub(m: int, a: Seq<int>, b: Seq<int>, x: int)
    requires
        m >= 1,
    ensures
        poly_eval(m, psub(m, a, b), x) == (poly_eval(m, a, x) - poly_eval(m, b, x)) % m,
    decreases max_len(a, b),
{
    let s = psub(m, a, b);
    let ea = poly_eval(m, a, x);
    let eb = poly_eval(m, b, x);
    if s.len() == 0 {
        lemma_small_mod(0nat, m as nat);
    } else {
        let a1 = if a.len() > 0 { a.subrange(1, a.len() as int) } else { a };
        let b1 = if b.len() > 0 { b.subrange(1, b.len() as int) } else { b };
        assert(s.subrange(1, s.len() as int) =~= psub(m, a1, b1));
        lemma_eval_psub(m, a1, b1, x);
        let ea1 = poly_eval(m, a1, x);
        let eb1 = poly_eval(m, b1, x);
        let a0 = coeff(a, 0);
        let b0 = coeff(b, 0);
        assert(poly_eval(m, s, x) == ((a0 - b0) % m + x * ((ea1 - eb1) % m)) % m);
        lemma_mod_twice(a0 - b0, m);
        lemma_mul_mod_noop_right(x, ea1 - eb1, m);
        lemma_mod_twice(x * (ea1 - eb1), m);
        assert((x * ((ea1 - eb1) % m)) % m == (x * (ea1 - eb1)) % m);
        lemma_add_mod_noop((a0 - b0) % m, x * ((ea1 - eb1) % m), m);
        lemma_add_mod_noop(a0 - b0, x * (ea1 - eb1), m);
        assert(poly_eval(m, s, x) == (a0 - b0 + x * (ea1 - eb1)) % m) by {
            assert(((a0 - b0) % m + x * ((ea1 - eb1) % m)) % m == (((a0 - b0) % m) % m + ((x * ((
            ea1 - eb1) % m)) % m)) % m) by {
                lemma_add_mod_noop((a0 - b0) % m, x * ((ea1 - eb1) % m), m);
            }
        }
        assert(x * (ea1 - eb1) == x * ea1 - x * eb1) by (nonlinear_arith);
        if a.len() == 0 {
            assert(ea == 0 && ea1 == 0 && a0 == 0);
            assert(eb == (b0 + x * eb1) % m);
            lemma_sub_mod_noop(0, b0 + x * eb1, m);
            lemma_small_mod(0nat, m as nat);
            assert((ea - eb) % m == (0 - (b0 + x * eb1)) % m);
            assert(x * 0 == 0) by (nonlinear_arith);
            assert(a0 - b0 + x * (ea1 - eb1) == 0 - (b0 + x * eb1));
            assert(poly_eval(m, s, x) == (ea - eb) % m);
        } else if b.len() == 0 {
            assert(eb == 0 && eb1 == 0 && b0 == 0);
            lemma_mod_twice(a0 + x * ea1, m);
            assert((ea - eb) % m == (a0 + x * ea1) % m);
            assert(x * 0 == 0) by (nonlinear_arith);
            assert(a0 - b0 + x * (ea1 - eb1) == a0 + x * ea1);
            assert(poly_eval(m, s, x) == (ea - eb) % m);
        } else {
            assert(ea == (a0 + x * ea1) % m && eb == (b0 + x * eb1) % m);
            lemma_sub_mod_noop(a0 + x * ea1, b0 + x * eb1, m);
            assert((ea - eb) % m == (a0 + x * ea1 - (b0 + x * eb1)) % m);
            assert(poly_eval(m, s, x) == (ea - eb) % m);
        }
    }
}

/// Evaluation of a scaled sequence is the scaled evaluation.
pub proof fn lemma_eval_pscale(m: int, k: int, c: Seq<int>, x: int)
    requires
        m >= 1,
    ensures
        poly_eval(m, pscale(m, k, c), x) == (k * poly_eval(m, c, x)) % m,
    decreases c.len(),
{
    let s = pscale(m, k, c);
    if c.len() == 0 {
        assert(k * 0 == 0) by (nonlinear_arith);
        lemma_small_mod(0nat, m as nat);
    } else {
        let c1 = c.subrange(1, c.len() as int);
        assert(s.subrange(1, s.len() as int) =~= pscale(m, k, c1));
        lemma_eval_pscale(m, k, c1, x);
        let e1 = poly_eval(m, c1, x);
        assert(poly_eval(m, s, x) == ((k * c[0]) % m + x * ((k * e1) % m)) % m);
        lemma_mod_twice(k * c[0], m);
        lemma_mul_mod_noop_right(x, k * e1, m);
        lemma_mod_twice(x * (k * e1), m);
        lemma_add_mod_noop((k * c[0]) % m, x * ((k * e1) % m), m);
        lemma_add_mod_noop(k * c[0], x * (k * e1), m);
        assert(poly_eval(m, s, x) == (k * c[0] + x * (k * e1)) % m);
        assert(k * c[0] + x * (k * e1) == k * (c[0] + x * e1)) by (nonlinear_arith);
        lemma_mul_mod_noop_right(k, c[0] + x * e1, m);
        assert((k * ((c[0] + x * e1) % m)) % m == (k * (c[0] + x * e1)) % m);
    }
}

/// Evaluation of the shifted sequence is `x` times the evaluation.
pub proof fn lemma_eval_pshift(m: int, c: Seq<int>, x: int)
    requires
        m >= 1,
    ensures
        poly_eval(m, pshift(c), x) == (x * poly_eval(m, c, x)) % m,
{
    if c.len() == 0 {
        assert(x * 0 == 0) by (nonlinear_arith);
        lemma_small_mod(0nat, m as nat);
    } else {
        let s = pshift(c);
        assert(s.subrange(1, s.len() as int) =~= c);
        assert(poly_eval(m, s, x) == (0 + x * poly_eval(m, c, x)) % m);
    }
}

/// The canonical form is a prefix whose last entry, if any, is nonzero.
pub proof fn lemma_ptrim_shape(c: Seq<int>)
    ensures
        ptrim(c).len() <= c.len(),
        ptrim(c) == c.subrange(0, ptrim(c).len() as int),
        ptrim(c).len() > 0 ==> ptrim(c).last() != 0,
    decreases c.len(),
{
    if c.len() == 0 || c.last() != 0 {
        assert(ptrim(c) == c);
        assert(c.subrange(0, c.len() as int) =~= c);
    } else {
        lemma_ptrim_shape(c.drop_last());
        assert(c.drop_last().subrange(0, ptrim(c).len() as int) =~= c.subrange(
            0,
            ptrim(c).len() as int,
        ));
    }
}

/// The coefficients of the monomial `t * x^e`.
pub open spec fn pmono(tv: int, e: int) -> Seq<int> {
    Seq::new((e + 1) as nat, |i: int| if i == e { tv } else { 0 })
}

/// A dense univariate polynomial over the prime field with modulus `P`,
/// stored as its coefficient vector: entry `i` is the weight of `x^i`.
/// The representation is canonical: the last stored coefficient is
/// nonzero, and the zero polynomial stores nothing.
#[derive(Clone, Debug, PartialEq, Eq)]
pub struct Polynomial<const P: u32> {
    pub c: Vec<Gf<P>>,
}

impl<const P: u32> View for Polynomial<P> {
    type V = Seq<int>;

    open spec fn view(&self) -> Seq<int> {
        self.c@.map_values(|g: Gf<P>| g.val as int)
    }
}

/// Removes trailing zero coefficients.
#[verifier::loop_isolation(false)]
fn trim_vec<const P: u32>(v: Vec<Gf<P>>) -> (r: Vec<Gf<P>>)
    ensures
        r@.map_values(|g: Gf<P>| g.val as int) == ptrim(v@.map_values(|g: Gf<P>| g.val as int)),
        forall|i: int| 0 <= i < r@.len() ==> r@[i] == v@[i],
        r@.len() <= v@.len(),
{
    let ghost v0 = v@;
    let mut w = v;
    let ghost orig = v0.map_values(|g: Gf<P>| g.val as int);
    while w.len() > 0 && w[w.len() - 1].val == 0
        invariant
            ptrim(w@.map_values(|g: Gf<P>| g.val as int)) == ptrim(orig),
            w@.len() <= v0.len(),
            forall|i: int| 0 <= i < w@.len() ==> w@[i] == v0[i],
        decreases w.len(),
    {
        let ghost pre = w@.map_values(|g: Gf<P>| g.val as int);
        w.pop();
        proof {
            assert(w@.map_values(|g: Gf<P>| g.val as int) =~= pre.drop_last());
            assert(ptrim(pre) == ptrim(pre.drop_last()));
        }
    }
    proof {
        let cur = w@.map_values(|g: Gf<P>| g.val as int);
        if w@.len() > 0 {
            assert(cur.last() == w@.last().val as int);
            assert(cur.last() != 0);
        }
        assert(ptrim(cur) == cur);
    }
    w
}

impl<const P: u32> Polynomial<P> {
    /// Every stored coefficient is a canonical residue, and the top
    /// coefficient, if any, is nonzero.
    pub open spec fn wf(self) -> bool {
        P >= 2 && (forall|i: int| 0 <= i < self.c@.len() ==> (#[trigger] self.c@[i]).valid()) && (
        self.c@.len() > 0 ==> self.c@.last().val != 0)
    }

    /// Builds a polynomial from coefficients in ascending order of
    /// degree, normalizing away trailing zeros.
    pub fn from_coeffs(c: Vec<Gf<P>>) -> (r: Self)
        requires
            P >= 2,
            forall|i: int| 0 <= i < c@.len() ==> (#[trigger] c@[i]).valid(),
        ensures
            r.wf(),
            r@ == ptrim(c@.map_values(|g: Gf<P>| g.val as int)),
    {
        let r = Polynomial { c: trim_vec(c) };
        proof {
            lemma_ptrim_shape(c@.map_values(|g: Gf<P>| g.val as int));
            if r.c@.len() > 0 {
                assert(r@.last() == r.c@.last().val as int);
                assert(r@.last() != 0);
            }
        }
        r
    }

    /// The zero polynomial.
    pub fn zero() -> (r: Self)
        requires
            P >= 2,
        ensures
            r.wf(),
            r@ =~= Seq::<int>::empty(),
    {
        Polynomial { c: Vec::new() }
    }

    /// The constant polynomial one.
    pub fn one() -> (r: Self)
        requires
            P >= 2,
        ensures
            r.wf(),
            r@ =~= seq![1int],
    {
        let mut c: Vec<Gf<P>> = Vec::new();
        c.push(Gf::one());
        Polynomial { c }
    }

    /// The number of stored coefficients (one more than the degree).
    pub fn num_coeffs(&self) -> (r: usize)
        ensures
            r == self@.len(),
    {
        self.c.len()
    }

    /// Coefficient `i`, where `i` may point past the stored end.
    pub fn coeff_at(&self, i: usize) -> (r: Gf<P>)
        requires
            self.wf(),
        ensures
            r.valid(),
            r.val == coeff(self@, i as int),
    {
        if i < self.c.len() {
            self.c[i]
        } else {
            Gf::zero()
        }
    }

    /// The degree: the index of the highest nonzero coefficient, or
    /// nothing for the zero polynomial.
    pub fn degree(&self) -> (r: Option<usize>)
        requires
            self.wf(),
        ensures
            match r {
                Some(d) => self@.len() == d + 1 && self@[d as int] != 0,
                None => self@.len() == 0,
            },
    {
        if self.c.len() == 0 {
            None
        } else {
            proof {
                assert(self@.last() == self.c@.last().val as int);
            }
            Some(self.c.len() - 1)
        }
    }

    /// Evaluates the polynomial at `t` by Horner's rule.
    #[verifier::loop_isolation(false)]
    pub fn solve(&self, t: Gf<P>) -> (r: Gf<P>)
        requires
            self.wf(),
            t.valid(),
        ensures
            r.valid(),
            r.val == poly_eval(P as int, self@, t.val as int),
    {
        let ghost m = P as int;
        let ghost xv = t.val as int;
        let mut acc = Gf::<P>::zero();
        let mut i = self.c.len();
        proof {
            assert(self@.subrange(i as int, self@.len() as int) =~= Seq::<int>::empty());
        }
        while i > 0
            invariant
                i <= self.c@.len(),
                acc.valid(),
                self.wf(),
                t.valid(),
                acc.val == poly_eval(m, self@.subrange(i as int, self@.len() as int), xv),
            decreases i,
        {
            i = i - 1;
            let ghost pre = self@.subrange(i as int + 1, self@.len() as int);
            let c = self.c[i];
            let step = c.add(t.mul(acc));
            proof {
                let cur = self@.subrange(i as int, self@.len() as int);
                assert(cur.subrange(1, cur.len() as int) =~= pre);
                assert(cur[0] == c.val as int);
                lemma_add_mod_noop_right(c.val as int, xv * acc.val, m);
                assert(step.val == (c.val + (xv * acc.val) % m) % m);
                assert(step.val == (c.val + xv * acc.val) % m);
            }
            acc = step;
        }
        proof {
            assert(self@.subrange(0, self@.len() as int) =~= self@);
        }
        acc
    }

    /// The sum of two polynomials.
    #[verifier::loop_isolation(false)]
    pub fn add(&self, rhs: &Self) -> (r: Self)
        requires
            self.wf(),
            rhs.wf(),
        ensures
            r.wf(),
            r@ == ptrim(padd(P as int, self@, rhs@)),
    {
        let ghost m = P as int;
        let n = if self.c.len() >= rhs.c.len() {
            self.c.len()
        } else {
            rhs.c.len()
        };
        let mut v: Vec<Gf<P>> = Vec::new();
        while v.len() < n
            invariant
                self.wf(),
                rhs.wf(),
                v@.len() <= n,
                n == max_len(self@, rhs@),
                forall|i: int| 0 <= i < v@.len() ==> (#[trigger] v@[i]).valid(),
                forall|i: int|
                    0 <= i < v@.len() ==> (#[trigger] v@[i]).val == (coeff(self@, i) + coeff(
                        rhs@,
                        i,
                    )) % m,
            decreases n - v.len(),
        {
            let i = v.len();
            let a = self.coeff_at(i);
            let b = rhs.coeff_at(i);
            v.push(a.add(b));
        }
        proof {
            assert(v@.map_values(|g: Gf<P>| g.val as int) =~= padd(m, self@, rhs@));
        }
        Self::from_coeffs(v)
    }

    /// The difference of two polynomials.
    #[verifier::loop_isolation(false)]
    pub fn sub(&self, rhs: &Self) -> (r: Self)
        requires
            self.wf(),
            rhs.wf(),
        ensures
            r.wf(),
            r@ == ptrim(psub(P as int, self@, rhs@)),
    {
        let ghost m = P as int;
        let n = if self.c.len() >= rhs.c.len() {
            self.c.len()
        } else {
            rhs.c.len()
        };
        let mut v: Vec<Gf<P>> = Vec::new();
        while v.len() < n
            invariant
                self.wf(),
                rhs.wf(),
                v@.len() <= n,
                n == max_len(self@, rhs@),
                forall|i: int| 0 <= i < v@.len() ==> (#[trigger] v@[i]).valid(),
                forall|i: int|
                    0 <= i < v@.len() ==> (#[trigger] v@[i]).val == (coeff(self@, i) - coeff(
                        rhs@,
                        i,
                    )) % m,
            decreases n - v.len(),
        {
            let i = v.len();
            let a = self.coeff_at(i);
            let b = rhs.coeff_at(i);
            v.push(a.sub(b));
        }
        proof {
            assert(v@.map_values(|g: Gf<P>| g.val as int) =~= psub(m, self@, rhs@));
        }
        Self::from_coeffs(v)
    }

    /// The additive inverse: every coefficient negated.
    #[verifier::loop_isolation(false)]
    pub fn neg(&self) -> (r: Self)
        requires
            self.wf(),
        ensures
            r.wf(),
            r@ == ptrim(psub(P as int, Seq::<int>::empty(), self@)),
            r@.len() == self@.len(),
            forall|i: int|
                0 <= i < self@.len() ==> r@[i] == (0 - self@[i]) % (P as int),
    {
        let ghost m = P as int;
        let mut v: Vec<Gf<P>> = Vec::new();
        while v.len() < self.c.len()
            invariant
                self.wf(),
                v@.len() <= self.c@.len(),
                forall|i: int| 0 <= i < v@.len() ==> (#[trigger] v@[i]).valid(),
                forall|i: int|
                    0 <= i < v@.len() ==> (#[trigger] v@[i]).val == (0 - coeff(self@, i)) % m,
            decreases self.c.len() - v.len(),
        {
            let i = v.len();
            v.push(self.c[i].neg());
        }
        proof {
            assert(v@.map_values(|g: Gf<P>| g.val as int) =~= psub(m, Seq::<int>::empty(), self@));
            if v@.len() > 0 {
                let d = psub(m, Seq::<int>::empty(), self@);
                assert(self.c@.last().valid() && self.c@.last().val != 0);
                assert(self@.last() == self.c@.last().val as int);
                assert(d.last() == (0 - self@.last()) % m);
                vstd::arithmetic::div_mod::lemma_mod_add_multiples_vanish(0 - self@.last(), m);
                lemma_small_mod((m - self@.last()) as nat, m as nat);
                assert(d.last() != 0);
                assert(ptrim(d) == d);
            }
        }
        Self::from_coeffs(v)
    }

    /// The polynomial with every coefficient multiplied by `k`.
    #[verifier::loop_isolation(false)]
    pub fn scale(&self, k: Gf<P>) -> (r: Self)
        requires
            self.wf(),
            k.valid(),
        ensures
            r.wf(),
            r@ == ptrim(pscale(P as int, k.val as int, self@)),
    {
        let ghost m = P as int;
        let mut v: Vec<Gf<P>> = Vec::new();
        while v.len() < self.c.len()
            invariant
                self.wf(),
                k.valid(),
                v@.len() <= self.c@.len(),
                forall|i: int| 0 <= i < v@.len() ==> (#[trigger] v@[i]).valid(),
                forall|i: int|
                    0 <= i < v@.len() ==> (#[trigger] v@[i]).val == (k.val * coeff(self@, i)) % m,
            decreases self.c.len() - v.len(),
        {
            let i = v.len();
            v.push(k.mul(self.c[i]));
        }
        proof {
            assert(v@.map_values(|g: Gf<P>| g.val as int) =~= pscale(m, k.val as int, self@));
        }
        Self::from_coeffs(v)
    }

    /// Multiplication by `x`: shifts every coefficient up one degree.
    #[verifier::loop_isolation(false)]
    pub fn shift1(&self) -> (r: Self)
        requires
            self.wf(),
        ensures
            r.wf(),
            r@ == pshift(self@),
    {
        if self.c.len() == 0 {
            return Polynomial { c: Vec::new() };
        }
        let mut v: Vec<Gf<P>> = Vec::new();
        v.push(Gf::zero());
        let mut i: usize = 0;
        while i < self.c.len()
            invariant
                self.wf(),
                i <= self.c@.len(),
                v@.len() == i + 1,
                v@[0].val == 0,
                forall|j: int| 0 <= j < v@.len() ==> (#[trigger] v@[j]).valid(),
                forall|j: int| 1 <= j < v@.len() ==> (#[trigger] v@[j]) == self.c@[j - 1],
            decreases self.c.len() - i,
        {
            v.push(self.c[i]);
            i = i + 1;
        }
        let r = Polynomial { c: v };
        proof {
            assert(r@ =~= pshift(self@));
            assert(r.c@.last().val != 0);
        }
        r
    }
}

/// The monomial `t * x^e`.
#[verifier::loop_isolation(false)]
pub fn x<const P: u32>(t: Gf<P>, e: usize) -> (r: Polynomial<P>)
    requires
        P >= 2,
        t.valid(),
        e < usize::MAX,
    ensures
        r.wf(),
        r@ == ptrim(pmono(t.val as int, e as int)),
{
    let mut v: Vec<Gf<P>> = Vec::new();
    while v.len() < e
        invariant
            v@.len() <= e,
            forall|i: int| 0 <= i < v@.len() ==> (#[trigger] v@[i]).val == 0 && v@[i].valid(),
        decreases e - v.len(),
{
    v.push(Gf::zero());
}
    v.push(t);
    proof {
        assert(v@.map_values(|g: Gf<P>| g.val as int) =~= pmono(t.val as int, e as int));
    }
    Polynomial::from_coeffs(v)
}

/// Evaluation of the monomial coefficient sequence.
pub proof fn lemma_eval_pmono(m: int, t: int, e: int, x: int)
    requires
        m >= 1,
        e >= 0,
    ensures
        poly_eval(m, pmono(t, e), x) == (t * vstd::arithmetic::power::pow(x, e as nat)) % m,
    decreases e,
{
    if e == 0 {
        vstd::arithmetic::power::lemma_pow0(x);
        let c = pmono(t, 0);
        assert(c.subrange(1, 1) =~= Seq::<int>::empty());
        assert(poly_eval(m, Seq::<int>::empty(), x) == 0);
        assert(x * 0 == 0) by (nonlinear_arith);
        assert(poly_eval(m, c, x) == t % m);
        lemma_mod_twice(t, m);
        assert(t * 1 == t) by (nonlinear_arith);
    } else {
        lemma_eval_pmono(m, t, e - 1, x);
        assert(pmono(t, e) =~= pshift(pmono(t, e - 1)));
        lemma_eval_pshift(m, pmono(t, e - 1), x);
        let prev = (t * vstd::arithmetic::power::pow(x, (e - 1) as nat)) % m;
        lemma_mul_mod_noop_right(x, t * vstd::arithmetic::power::pow(x, (e - 1) as nat), m);
        assert((x * prev) % m == (x * (t * vstd::arithmetic::power::pow(x, (e - 1) as nat))) % m);
        vstd::arithmetic::power::lemma_pow1(x);
        vstd::arithmetic::power::lemma_pow_adds(x, (e - 1) as nat, 1nat);
        assert(vstd::arithmetic::power::pow(x, e as nat) == vstd::arithmetic::power::pow(
            x,
            (e - 1) as nat,
        ) * x);
        assert(x * (t * vstd::arithmetic::power::pow(x, (e - 1) as nat)) == t
            * (vstd::arithmetic::power::pow(x, (e - 1) as nat) * x)) by (nonlinear_arith);
    }
}

/// One Horner step for polynomial multiplication: adding `a0 * b` to
/// `x` times a partial product extends the product by one coefficient.
proof fn lemma_horner_step(m: int, a0: int, arest: int, b: int, xv: int, cur: int)
    requires
        m >= 1,
        cur == (arest * b) % m,
    ensures
        ((xv * cur) % m + (a0 * b) % m) % m == (((a0 + xv * arest) % m) * b) % m,
{
    lemma_mul_mod_noop_right(xv, arest * b, m);
    assert((xv * cur) % m == (xv * (arest * b)) % m) by {
        lemma_mod_twice(arest * b, m);
        lemma_mul_mod_noop_right(xv, (arest * b) % m, m);
    }
    assert(xv * (arest * b) == (xv * arest) * b) by (nonlinear_arith);
    lemma_mod_twice((xv * arest) * b, m);
    lemma_mod_twice(a0 * b, m);
    lemma_add_mod_noop((xv * arest) * b, a0 * b, m);
    assert(((xv * cur) % m + (a0 * b) % m) % m == ((xv * arest) * b + a0 * b) % m);
    assert((xv * arest) * b + a0 * b == (a0 + xv * arest) * b) by (nonlinear_arith);
    lemma_mul_mod_noop_left(a0 + xv * arest, b, m);
}

impl<const P: u32> Polynomial<P> {
    /// The product with the linear factor `x - a`.
    pub fn mul_linear(&self, a: Gf<P>) -> (r: Self)
        requires
            self.wf(),
            a.valid(),
        ensures
            r.wf(),
            self@.len() == 0 ==> r@.len() == 0,
            self@.len() > 0 ==> r@.len() == self@.len() + 1 && r@.last() == self@.last(),
            forall|xv: int|
                #![trigger poly_eval(P as int, r@, xv)]
                poly_eval(P as int, r@, xv) == (poly_eval(P as int, self@, xv) * (xv - a.val))
                    % (P as int),
    {
        let ghost m = P as int;
        let sh = self.shift1();
        let sc = self.scale(a);
        let r = sh.sub(&sc);
        proof {
            let av = a.val as int;
            lemma_ptrim_shape(pscale(m, av, self@));
            if self@.len() > 0 {
                let n = self@.len() as int;
                let d = psub(m, sh@, sc@);
                assert(sh@.len() == n + 1);
                assert(sc@.len() <= n);
                assert(d.len() == n + 1);
                assert(coeff(sh@, n) == self@[n - 1]);
                assert(coeff(sc@, n) == 0);
                assert(d.last() == (self@[n - 1] - 0) % m);
                assert(self.c@[n - 1].valid());
                assert(self@[n - 1] == self.c@[n - 1].val as int);
                lemma_small_mod(self.c@[n - 1].val as nat, P as nat);
                assert(d.last() == self@.last());
                assert(d.last() != 0);
                assert(ptrim(d) == d);
            }
            assert forall|xv: int|
                #![trigger poly_eval(P as int, r@, xv)]
                poly_eval(m, r@, xv) == (poly_eval(m, self@, xv) * (xv - av)) % m by {
                let e = poly_eval(m, self@, xv);
                lemma_eval_ptrim(m, psub(m, sh@, sc@), xv);
                lemma_eval_psub(m, sh@, sc@, xv);
                lemma_eval_pshift(m, self@, xv);
                lemma_eval_ptrim(m, pscale(m, av, self@), xv);
                lemma_eval_pscale(m, av, self@, xv);
                assert(poly_eval(m, r@, xv) == ((xv * e) % m - (av * e) % m) % m);
                lemma_sub_mod_noop(xv * e, av * e, m);
                assert(poly_eval(m, r@, xv) == (xv * e - av * e) % m);
                assert(xv * e - av * e == e * (xv - av)) by (nonlinear_arith);
            }
        }
        r
    }

    /// The product of two polynomials.
    #[verifier::loop_isolation(false)]
    pub fn mul(&self, rhs: &Self) -> (r: Self)
        requires
            is_prime(P as int),
            self.wf(),
            rhs.wf(),
        ensures
            r.wf(),
            (self@.len() == 0 || rhs@.len() == 0) ==> r@.len() == 0,
            (self@.len() > 0 && rhs@.len() > 0) ==> r@.len() == self@.len() + rhs@.len() - 1,
            forall|xv: int|
                #![trigger poly_eval(P as int, r@, xv)]
                poly_eval(P as int, r@, xv) == (poly_eval(P as int, self@, xv) * poly_eval(
                    P as int,
                    rhs@,
                    xv,
                )) % (P as int),
    {
        let ghost m = P as int;
        if self.c.len() == 0 || rhs.c.len() == 0 {
            let r = Self::zero();
            proof {
                assert forall|xv: int|
                    #![trigger poly_eval(P as int, r@, xv)]
                    poly_eval(m, r@, xv) == (poly_eval(m, self@, xv) * poly_eval(m, rhs@, xv))
                        % m by {
                    let ea = poly_eval(m, self@, xv);
                    let eb = poly_eval(m, rhs@, xv);
                    assert(ea == 0 || eb == 0);
                    assert(ea * eb == 0) by (nonlinear_arith)
                        requires
                            ea == 0 || eb == 0,
                    ;
                    lemma_small_mod(0nat, P as nat);
                }
            }
            return r;
        }
        let n = self.c.len();
        let ghost bv = rhs@;
        let mut cur = rhs.scale(self.c[n - 1]);
        proof {
            let a_last = self.c@[n - 1 as int].val as int;
            assert(self@.last() == a_last);
            assert(a_last != 0);
            let sc = pscale(m, a_last, bv);
            assert(sc.last() == (a_last * bv.last()) % m);
            assert(rhs.c@.last().valid());
            assert(bv.last() == rhs.c@.last().val as int);
            lemma_no_zero_divisors(m, a_last, bv.last());
            assert(sc.last() != 0);
            assert(ptrim(sc) == sc);
            assert(cur@.len() == bv.len());
            assert(cur@.last() != 0);
            let tail = self@.subrange(n - 1 as int, n as int);
            assert(tail.subrange(1, 1) =~= Seq::<int>::empty());
            assert forall|xv: int|
                #![trigger poly_eval(m, cur@, xv)]
                poly_eval(m, cur@, xv) == (poly_eval(m, tail, xv) * poly_eval(m, bv, xv))
                    % m by {
                lemma_eval_ptrim(m, sc, xv);
                lemma_eval_pscale(m, a_last, bv, xv);
                assert(poly_eval(m, Seq::<int>::empty(), xv) == 0);
                assert(xv * 0 == 0) by (nonlinear_arith);
                assert(poly_eval(m, tail, xv) == a_last % m);
                lemma_small_mod(self.c@[n - 1 as int].val as nat, P as nat);
                assert(poly_eval(m, tail, xv) == a_last);
            }
        }
        let mut i: usize = n - 1;
        while i > 0
            invariant
                0 < n == self.c@.len(),
                i < n,
                rhs.c@.len() > 0,
                cur.wf(),
                cur@.len() == (n - i) + rhs@.len() - 1,
                forall|xv: int|
                    #![trigger poly_eval(P as int, cur@, xv)]
                    poly_eval(P as int, cur@, xv) == (poly_eval(
                        P as int,
                        self@.subrange(i as int, n as int),
                        xv,
                    ) * poly_eval(P as int, rhs@, xv)) % (P as int),
            decreases i,
        {
            i = i - 1;
            let sh = cur.shift1();
            let sc = rhs.scale(self.c[i]);
            let next = sh.add(&sc);
            proof {
                let ai = self.c@[i as int].val as int;
                lemma_ptrim_shape(pscale(m, ai, bv));
                let d = padd(m, sh@, sc@);
                assert(sh@.len() == cur@.len() + 1);
                assert(sc@.len() <= bv.len());
                assert(bv.len() < sh@.len());
                assert(d.len() == sh@.len());
                assert(coeff(sh@, d.len() - 1) == cur@.last());
                assert(coeff(sc@, d.len() - 1) == 0);
                assert(cur.c@.last().valid());
                assert(cur@.last() == cur.c@.last().val as int);
                lemma_small_mod(cur.c@.last().val as nat, P as nat);
                assert(d.last() == cur@.last());
                assert(d.last() != 0);
                assert(ptrim(d) == d);
                assert(next@.len() == (n - i) + rhs@.len() - 1);
                let atail = self@.subrange(i as int, n as int);
                let aprev = self@.subrange(i + 1 as int, n as int);
                assert(atail.subrange(1, atail.len() as int) =~= aprev);
                assert(atail[0] == self@[i as int]);
                assert forall|xv: int|
                    #![trigger poly_eval(P as int, next@, xv)]
                    poly_eval(m, next@, xv) == (poly_eval(m, atail, xv) * poly_eval(m, bv, xv))
                        % m by {
                    let eb = poly_eval(m, bv, xv);
                    let ec = poly_eval(m, cur@, xv);
                    let ea1 = poly_eval(m, aprev, xv);
                    lemma_eval_ptrim(m, d, xv);
                    lemma_eval_padd(m, sh@, sc@, xv);
                    lemma_eval_pshift(m, cur@, xv);
                    lemma_eval_ptrim(m, pscale(m, ai, bv), xv);
                    lemma_eval_pscale(m, ai, bv, xv);
                    assert(poly_eval(m, next@, xv) == ((xv * ec) % m + (ai * eb) % m) % m);
                    lemma_horner_step(m, ai, ea1, eb, xv, ec);
                    assert(poly_eval(m, atail, xv) == (ai + xv * ea1) % m);
                }
            }
            cur = next;
        }
        proof {
            assert(self@.subrange(0, n as int) =~= self@);
        }
        cur
    }
}

/// `e` successive multiplications by `x`.
pub open spec fn pshiftn(e: int, c: Seq<int>) -> Seq<int>
    decreases e,
{
    if e <= 0 {
        c
    } else {
        pshift(pshiftn(e - 1, c))
    }
}

/// The shape of a shifted sequence: `e` zeros followed by the original.
#[verifier::rlimit(50)]
pub proof fn lemma_pshiftn_shape(e: int, c: Seq<int>)
    requires
        e >= 0,
    ensures
        c.len() == 0 ==> pshiftn(e, c) == c,
        c.len() > 0 ==> pshiftn(e, c).len() == e + c.len() && (forall|i: int|
            0 <= i < e ==> pshiftn(e, c)[i] == 0) && (forall|i: int|
            e <= i < e + c.len() ==> pshiftn(e, c)[i] == c[i - e]),
    decreases e,
{
    if e > 0 {
        lemma_pshiftn_shape(e - 1, c);
        if c.len() > 0 {
            assert forall|i: int| e <= i < e + c.len() implies pshiftn(e, c)[i] == c[i - e] by {
                assert(pshiftn(e, c)[i] == pshiftn(e - 1, c)[i - 1]);
            }
        }
    }
}

/// Evaluation of a shifted sequence gains a factor of `x^e`.
pub proof fn lemma_eval_pshiftn(m: int, e: int, c: Seq<int>, x: int)
    requires
        m >= 1,
        e >= 0,
    ensures
        poly_eval(m, pshiftn(e, c), x) == (vstd::arithmetic::power::pow(x, e as nat) * poly_eval(
            m,
            c,
            x,
        )) % m,
    decreases e,
{
    let ev = poly_eval(m, c, x);
    if e == 0 {
        vstd::arithmetic::power::lemma_pow0(x);
        assert(1 * ev == ev) by (nonlinear_arith);
        if c.len() == 0 {
            lemma_small_mod(0nat, m as nat);
        } else {
            lemma_mod_twice(c[0] + x * poly_eval(m, c.subrange(1, c.len() as int), x), m);
        }
    } else {
        lemma_eval_pshiftn(m, e - 1, c, x);
        lemma_eval_pshift(m, pshiftn(e - 1, c), x);
        let pe1 = vstd::arithmetic::power::pow(x, (e - 1) as nat);
        assert(poly_eval(m, pshiftn(e, c), x) == (x * ((pe1 * ev) % m)) % m);
        lemma_mul_mod_noop_right(x, pe1 * ev, m);
        vstd::arithmetic::power::lemma_pow1(x);
        vstd::arithmetic::power::lemma_pow_adds(x, (e - 1) as nat, 1nat);
        assert(x * (pe1 * ev) == (pe1 * x) * ev) by (nonlinear_arith);
        assert(vstd::arithmetic::power::pow(x, e as nat) == pe1 * x);
    }
}

impl<const P: u32> Polynomial<P> {
    /// The product with the monomial `k * x^e`.
    #[verifier::loop_isolation(false)]
    pub fn mul_monomial(&self, k: Gf<P>, e: usize) -> (r: Self)
        requires
            self.wf(),
            k.valid(),
        ensures
            r.wf(),
            r@ == ptrim(pshiftn(e as int, pscale(P as int, k.val as int, self@))),
    {
        let ghost m = P as int;
        let ghost sc = pscale(m, k.val as int, self@);
        if self.c.len() == 0 {
            proof {
                lemma_pshiftn_shape(e as int, sc);
            }
            return Self::zero();
        }
        let mut v: Vec<Gf<P>> = Vec::new();
        while v.len() < e
            invariant
                v@.len() <= e,
                forall|i: int| 0 <= i < v@.len() ==> (#[trigger] v@[i]).valid() && v@[i].val == 0,
            decreases e - v.len(),
        {
            v.push(Gf::zero());
        }
        let mut i: usize = 0;
        while i < self.c.len()
            invariant
                i <= self.c@.len(),
                v@.len() == e + i,
                forall|j: int| 0 <= j < v@.len() ==> (#[trigger] v@[j]).valid(),
                forall|j: int| 0 <= j < e ==> (#[trigger] v@[j]).val == 0,
                forall|j: int|
                    e <= j < v@.len() ==> (#[trigger] v@[j]).val == (k.val * coeff(
                        self@,
                        j - e,
                    )) % m,
            decreases self.c.len() - i,
        {
            v.push(k.mul(self.c[i]));
            i = i + 1;
        }
        proof {
            lemma_pshiftn_shape(e as int, sc);
            let mv = v@.map_values(|g: Gf<P>| g.val as int);
            let sh = pshiftn(e as int, sc);
            assert(sc.len() == self@.len());
            assert(mv.len() == sh.len());
            assert forall|j: int| 0 <= j < mv.len() implies mv[j] == sh[j] by {
                assert(mv[j] == v@[j].val as int);
                if j >= e {
                    assert(sh[j] == sc[j - e]);
                    assert(sc[j - e] == (k.val * self@[j - e]) % m);
                    assert(coeff(self@, j - e) == self@[j - e]);
                }
            }
            assert(mv =~= sh);
        }
        Self::from_coeffs(v)
    }
}

/// Distinct canonical residues have a nonzero difference modulo `m`.
pub proof fn lemma_residue_diff_nonzero(m: int, a: int, b: int)
    requires
        m >= 1,
        0 <= a < m,
        0 <= b < m,
        a != b,
    ensures
        1 <= (a - b) % m < m,
{
    if a > b {
        lemma_small_mod((a - b) as nat, m as nat);
    } else {
        vstd::arithmetic::div_mod::lemma_mod_add_multiples_vanish(a - b, m);
        lemma_small_mod((a + m - b) as nat, m as nat);
    }
}

impl<const P: u32> Polynomial<P> {
    /// Long division with remainder: `lhs == quotient * rhs + remainder`
    /// with the remainder of smaller degree than the divisor.
    #[verifier::loop_isolation(false)]
    pub fn rdiv(lhs: Self, rhs: &Self) -> (r: (Self, Self))
        requires
            is_prime(P as int),
            lhs.wf(),
            rhs.wf(),
            rhs@.len() >= 1,
        ensures
            r.0.wf(),
            r.1.wf(),
            r.1@.len() < rhs@.len(),
            r.0@.len() == if lhs@.len() >= rhs@.len() {
                lhs@.len() - rhs@.len() + 1
            } else {
                0
            },
            forall|xv: int|
                #![trigger poly_eval(P as int, r.0@, xv)]
                poly_eval(P as int, lhs@, xv) == (poly_eval(P as int, r.0@, xv) * poly_eval(
                    P as int,
                    rhs@,
                    xv,
                ) + poly_eval(P as int, r.1@, xv)) % (P as int),
        decreases lhs@.len(),
    {
        let ghost m = P as int;
        if lhs.c.len() < rhs.c.len() {
            let q = Self::zero();
            proof {
                assert forall|xv: int|
                    #![trigger poly_eval(P as int, q@, xv)]
                    poly_eval(m, lhs@, xv) == (poly_eval(m, q@, xv) * poly_eval(m, rhs@, xv)
                        + poly_eval(m, lhs@, xv)) % m by {
                    let el = poly_eval(m, lhs@, xv);
                    let eb = poly_eval(m, rhs@, xv);
                    assert(0 * eb == 0) by (nonlinear_arith);
                    lemma_eval_bound(m, lhs@, xv);
                    if lhs@.len() == 0 {
                        lemma_small_mod(0nat, P as nat);
                    } else {
                        lemma_small_mod(el as nat, P as nat);
                    }
                }
            }
            return (q, lhs);
        }
        let n = lhs.c.len();
        let dn = rhs.c.len();
        let e = n - dn;
        let k = lhs.c[n - 1].div(rhs.c[dn - 1]);
        proof {
            assert(rhs.c@.last().valid() && rhs.c@.last().val != 0);
            assert(lhs.c@.last().valid() && lhs.c@.last().val != 0);
            if k.val == 0 {
                assert((k.val * rhs.c@[dn - 1 as int].val) % m == lhs.c@[n - 1 as int].val);
                assert(0 * rhs.c@[dn - 1 as int].val == 0) by (nonlinear_arith);
                lemma_small_mod(0nat, P as nat);
                assert(false);
            }
        }
        // step = k * x^e * rhs
        let step = rhs.mul_monomial(k, e);
        proof {
            let sc = pscale(m, k.val as int, rhs@);
            assert(sc.last() == (k.val * rhs@.last()) % m);
            assert(rhs@.last() == rhs.c@.last().val as int);
            assert(sc.last() == lhs.c@.last().val as int);
            assert(sc.last() != 0);
            lemma_pshiftn_shape(e as int, sc);
            let sh = pshiftn(e as int, sc);
            assert(sh.len() == dn + e);
            assert(sh.last() == sc.last());
            assert(ptrim(sh) == sh);
            assert(step@.len() == n);
            assert(step@.last() == lhs@.last());
            assert forall|xv: int|
                #![trigger poly_eval(P as int, step@, xv)]
                poly_eval(m, step@, xv) == (vstd::arithmetic::power::pow(xv, e as nat) * ((k.val
                    * poly_eval(m, rhs@, xv)) % m)) % m by {
                lemma_eval_pshiftn(m, e as int, sc, xv);
                lemma_eval_pscale(m, k.val as int, rhs@, xv);
                let base = (k.val * poly_eval(m, rhs@, xv)) % m;
                let pe = vstd::arithmetic::power::pow(xv, e as nat);
                lemma_mul_mod_noop_right(pe, k.val * poly_eval(m, rhs@, xv), m);
                lemma_mod_twice(k.val * poly_eval(m, rhs@, xv), m);
                lemma_mul_mod_noop_right(pe, base, m);
            }
        }
        let diff = lhs.sub(&step);
        proof {
            let d = psub(m, lhs@, step@);
            assert(lhs@.len() == step@.len());
            assert(d.len() == n);
            assert(d.last() == (lhs@.last() - step@.last()) % m);
            lemma_small_mod(0nat, P as nat);
            assert(d.last() == 0);
            lemma_ptrim_shape(d);
            assert(diff@.len() < n) by {
                if diff@.len() == n {
                    assert(ptrim(d) == d.subrange(0, n as int));
                    assert(d.subrange(0, n as int) =~= d);
                    assert(ptrim(d).last() != 0 || ptrim(d).len() == 0);
                }
            }
        }
        let (q2, rem) = Self::rdiv(diff, rhs);
        let mono = x(k, e);
        let q = q2.add(&mono);
        proof {
            // the monomial has exact length e + 1, so the quotient has
            // the expected length
            let mo = pmono(k.val as int, e as int);
            assert(mo.last() == k.val as int);
            assert(ptrim(mo) == mo);
            assert(mono@.len() == e + 1);
            // q2 is shorter than the monomial: diff.len < n means
            // q2.len <= n - dn = e < e + 1
            let ad = padd(m, q2@, mono@);
            assert(q2@.len() <= e);
            assert(ad.len() == e + 1);
            assert(coeff(q2@, e as int) == 0);
            assert(ad.last() == (0 + k.val) % m);
            lemma_small_mod(k.val as nat, P as nat);
            assert(ad.last() != 0);
            assert(ptrim(ad) == ad);
            assert(q@.len() == e + 1);
            // the division identity
            assert forall|xv: int|
                #![trigger poly_eval(P as int, q@, xv)]
                poly_eval(m, lhs@, xv) == (poly_eval(m, q@, xv) * poly_eval(m, rhs@, xv)
                    + poly_eval(m, rem@, xv)) % m by {
                let el = poly_eval(m, lhs@, xv);
                let eb = poly_eval(m, rhs@, xv);
                let ed = poly_eval(m, diff@, xv);
                let eq2 = poly_eval(m, q2@, xv);
                let er = poly_eval(m, rem@, xv);
                let eq = poly_eval(m, q@, xv);
                let es = poly_eval(m, step@, xv);
                let pe = vstd::arithmetic::power::pow(xv, e as nat);
                let emono = (k.val * pe) % m;
                // eval of q
                lemma_eval_padd(m, q2@, mono@, xv);
                lemma_eval_pmono(m, k.val as int, e as int, xv);
                assert(poly_eval(m, mono@, xv) == emono);
                assert(eq == (eq2 + emono) % m);
                // eval of diff
                lemma_eval_ptrim(m, psub(m, lhs@, step@), xv);
                lemma_eval_psub(m, lhs@, step@, xv);
                assert(ed == (el - es) % m);
                // step evaluates to k * x^e * rhs
                assert(es == (pe * ((k.val * eb) % m)) % m);
                lemma_mul_mod_noop_right(pe, k.val * eb, m);
                assert(es == (pe * (k.val * eb)) % m);
                // emono * eb is congruent to es
                lemma_mul_mod_noop_left(k.val * pe, eb, m);
                assert((emono * eb) % m == ((k.val * pe) * eb) % m);
                assert((k.val * pe) * eb == pe * (k.val * eb)) by (nonlinear_arith);
                lemma_mod_twice(pe * (k.val * eb), m);
                assert(es % m == es);
                assert((emono * eb) % m == es);
                // put the pieces together
                lemma_mul_mod_noop_left(eq2 + emono, eb, m);
                assert(((eq2 + emono) * eb) % m == (eq * eb) % m) by {
                    lemma_mod_twice(eq2 + emono, m);
                    lemma_mul_mod_noop_left((eq2 + emono) % m, eb, m);
                }
                assert((eq2 + emono) * eb == eq2 * eb + emono * eb) by (nonlinear_arith);
                // (eq * eb + er) % m == (eq2*eb + emono*eb + er) % m
                lemma_mod_twice(eq * eb, m);
                lemma_mod_twice(er, m) /* er is reduced or zero */;
                lemma_eval_bound(m, rem@, xv);
                if rem@.len() == 0 {
                    lemma_small_mod(0nat, P as nat);
                } else {
                    lemma_small_mod(er as nat, P as nat);
                }
                lemma_add_mod_noop(eq * eb, er, m);
                assert((eq * eb + er) % m == ((eq * eb) % m + er % m) % m);
                lemma_add_mod_noop(eq2 * eb + emono * eb, er, m);
                assert((eq * eb) % m == (eq2 * eb + emono * eb) % m);
                assert((eq * eb + er) % m == (eq2 * eb + emono * eb + er) % m);
                // fold emono*eb into es, and eq2*eb + er into ed
                lemma_add_mod_noop(eq2 * eb + er, emono * eb, m);
                assert((eq2 * eb + emono * eb + er) % m == ((eq2 * eb + er) % m + (emono * eb)
                    % m) % m) by {
                    assert(eq2 * eb + emono * eb + er == (eq2 * eb + er) + emono * eb);
                }
                assert((ed) == ((eq2 * eb + er)) % m);
                lemma_add_mod_noop(ed, es, m);
                lemma_mod_twice(ed, m) /* ed reduced */;
                lemma_eval_bound(m, diff@, xv);
                if diff@.len() == 0 {
                    lemma_small_mod(0nat, P as nat);
                } else {
                    lemma_small_mod(ed as nat, P as nat);
                }
                assert(((eq2 * eb + er) % m + (emono * eb) % m) % m == (ed + es) % m);
                // finally (ed + es) % m == el
                assert(ed == (el - es) % m);
                lemma_add_mod_noop(el - es, es, m);
                lemma_add_mod_noop(ed, es, m);
                lemma_mod_twice(el - es, m);
                lemma_mod_twice(es, m);
                assert((ed + es) % m == ((el - es) + es) % m) by {
                    assert((ed % m + es % m) % m == (ed + es) % m);
                    assert(ed % m == ed && es % m == es);
                }
                lemma_eval_bound(m, lhs@, xv);
                lemma_small_mod(el as nat, P as nat);
                assert((ed + es) % m == el);
            }
        }
        (q, rem)
    }
}

impl<const P: u32> Polynomial<P> {
    /// Substitutes `t * x` for `x`: coefficient `i` is scaled by `t^i`.
    #[verifier::loop_isolation(false)]
    pub fn apply_const(&self, t: Gf<P>) -> (r: Self)
        requires
            self.wf(),
            t.valid(),
        ensures
            r.wf(),
            r@ == ptrim(
                Seq::new(
                    self@.len(),
                    |i: int| (coeff(self@, i) * fpow(P as int, t.val as int, i as nat)) % (
                    P as int),
                ),
            ),
    {
        let ghost m = P as int;
        let mut v: Vec<Gf<P>> = Vec::new();
        let mut cur = Gf::<P>::one();
        proof {
            vstd::arithmetic::power::lemma_pow0(t.val as int);
            lemma_small_mod(1nat, P as nat);
        }
        while v.len() < self.c.len()
            invariant
                v@.len() <= self.c@.len(),
                cur.valid(),
                cur.val == fpow(m, t.val as int, v@.len() as nat),
                forall|i: int| 0 <= i < v@.len() ==> (#[trigger] v@[i]).valid(),
                forall|i: int|
                    0 <= i < v@.len() ==> (#[trigger] v@[i]).val == (coeff(self@, i) * fpow(
                        m,
                        t.val as int,
                        i as nat,
                    )) % m,
            decreases self.c.len() - v.len(),
        {
            let i = v.len();
            proof {
                lemma_fpow_unfold(m, t.val as int, i as nat);
            }
            v.push(self.c[i].mul(cur));
            cur = cur.mul(t);
        }
        proof {
            assert(v@.map_values(|g: Gf<P>| g.val as int) =~= Seq::new(
                self@.len(),
                |i: int| (coeff(self@, i) * fpow(m, t.val as int, i as nat)) % m,
            ));
        }
        Self::from_coeffs(v)
    }
}

/// The FRI folding operator: splits `p` into even and odd parts and
/// combines them as `even + beta * odd`, halving the degree.
#[verifier::loop_isolation(false)]
pub fn fri<const P: u32>(p: &Polynomial<P>, beta: Gf<P>) -> (r: Polynomial<P>)
    requires
        p.wf(),
        beta.valid(),
    ensures
        r.wf(),
        r@ == ptrim(pfold(P as int, p@, beta.val as int)),
        r@.len() <= (p@.len() + 1) / 2,
{
    let ghost m = P as int;
    let n = p.c.len() / 2 + p.c.len() % 2;
    proof {
        assert(n == (p.c@.len() + 1) / 2);
    }
    let mut v: Vec<Gf<P>> = Vec::new();
    while v.len() < n
        invariant
            v@.len() <= n,
            n == (p.c@.len() + 1) / 2,
            forall|i: int| 0 <= i < v@.len() ==> (#[trigger] v@[i]).valid(),
            forall|i: int|
                0 <= i < v@.len() ==> (#[trigger] v@[i]).val == (coeff(p@, 2 * i) + (
                beta.val as int) * coeff(p@, 2 * i + 1)) % m,
        decreases n - v.len(),
{
    let i = v.len();
    let even = p.coeff_at(2 * i);
    let odd = p.coeff_at(2 * i + 1);
    let val = even.add(beta.mul(odd));
    proof {
        lemma_add_mod_noop_right(even.val as int, (beta.val as int) * (odd.val as int), m);
    }
    v.push(val);
}
    proof {
        assert(v@.map_values(|g: Gf<P>| g.val as int) =~= pfold(m, p@, beta.val as int));
        lemma_ptrim_shape(pfold(m, p@, beta.val as int));
    }
    Polynomial::from_coeffs(v)
}

/// Interpolation: the unique polynomial of degree below the number of
/// points that passes through every given `(x, y)` pair, built by
/// Newton's method of successive corrections.
#[verifier::loop_isolation(false)]
pub fn lagrange<const P: u32>(points: &Vec<(Gf<P>, Gf<P>)>) -> (r: Polynomial<P>)
    requires
        is_prime(P as int),
        points@.len() >= 1,
        forall|i: int|
            0 <= i < points@.len() ==> (#[trigger] points@[i]).0.valid() && points@[i].1.valid(),
        forall|i: int, j: int|
            0 <= i < j < points@.len() ==> (#[trigger] points@[i]).0.val != (
            #[trigger] points@[j]).0.val,
    ensures
        r.wf(),
        r@.len() <= points@.len(),
        forall|i: int|
            0 <= i < points@.len() ==> poly_eval(P as int, r@, (#[trigger] points@[i]).0.val as int)
                == points@[i].1.val,
{
    let ghost m = P as int;
    let n = points.len();
    let mut acc = Polynomial::<P>::zero();
    let mut nprod = Polynomial::<P>::one();
    let mut k: usize = 0;
    proof {
        assert forall|j: int| 0 <= j < n implies poly_eval(
            m,
            nprod@,
            (#[trigger] points@[j]).0.val as int,
        ) == 1 by {
            let xv = points@[j].0.val as int;
            assert(nprod@.subrange(1, 1) =~= Seq::<int>::empty());
            assert(poly_eval(m, Seq::<int>::empty(), xv) == 0);
            assert(xv * 0 == 0) by (nonlinear_arith);
            lemma_small_mod(1nat, P as nat);
        }
    }
    while k < n
        invariant
            k <= n,
            n == points@.len(),
            acc.wf(),
            nprod.wf(),
            acc@.len() <= k,
            nprod@.len() == k + 1,
            forall|j: int|
                0 <= j < k ==> poly_eval(m, acc@, (#[trigger] points@[j]).0.val as int)
                    == points@[j].1.val,
            forall|j: int|
                0 <= j < k ==> poly_eval(m, nprod@, (#[trigger] points@[j]).0.val as int) == 0,
            forall|j: int|
                k <= j < n ==> 1 <= poly_eval(m, nprod@, (#[trigger] points@[j]).0.val as int)
                    < m,
        decreases n - k,
{
    let (xk, yk) = points[k];
    let d = nprod.solve(xk);
    let ak = acc.solve(xk);
    let numer = yk.sub(ak);
    let c = numer.div(d);
    let corr = nprod.scale(c);
    let next_acc = acc.add(&corr);
    proof {
        lemma_ptrim_shape(pscale(m, c.val as int, nprod@));
        lemma_ptrim_shape(padd(m, acc@, corr@));
        assert(next_acc@.len() <= k + 1);
        assert forall|j: int| 0 <= j < k + 1 implies poly_eval(
            m,
            next_acc@,
            (#[trigger] points@[j]).0.val as int,
        ) == points@[j].1.val by {
            let xv = points@[j].0.val as int;
            let ea = poly_eval(m, acc@, xv);
            let en = poly_eval(m, nprod@, xv);
            lemma_eval_ptrim(m, padd(m, acc@, corr@), xv);
            lemma_eval_padd(m, acc@, corr@, xv);
            lemma_eval_ptrim(m, pscale(m, c.val as int, nprod@), xv);
            lemma_eval_pscale(m, c.val as int, nprod@, xv);
            assert(poly_eval(m, next_acc@, xv) == (ea + ((c.val * en) % m)) % m);
            lemma_add_mod_noop_right(ea, c.val * en, m);
            assert(poly_eval(m, next_acc@, xv) == (ea + c.val * en) % m);
            if j < k {
                assert(en == 0);
                assert(c.val * 0 == 0) by (nonlinear_arith);
                assert(ea == points@[j].1.val);
                lemma_small_mod(points@[j].1.val as nat, P as nat);
            } else {
                // j == k: the correction is exactly y_k - acc(x_k)
                assert(en == d.val);
                assert(ea == ak.val);
                assert((c.val * d.val) % m == numer.val);
                lemma_add_mod_noop_right(ea, c.val * d.val, m);
                assert((ea + c.val * d.val) % m == (ea + (yk.val - ak.val) % m) % m) by {
                    assert(numer.val == (yk.val - ak.val) % m);
                    assert((ea + ((c.val * d.val) % m)) % m == (ea + ((yk.val - ak.val) % m))
                        % m);
                    lemma_add_mod_noop_right(ea, c.val * d.val, m);
                }
                lemma_add_mod_noop_right(ea, yk.val - ak.val, m);
                assert((ea + (yk.val - ak.val) % m) % m == (ea + (yk.val - ak.val)) % m);
                assert(ea + (yk.val - ak.val) == yk.val + (ea - ak.val));
                assert(ea == ak.val);
                lemma_small_mod(yk.val as nat, P as nat);
            }
        }
    }
    let next_nprod = nprod.mul_linear(xk);
    proof {
        assert(next_nprod@.len() == k + 2);
        assert forall|j: int| 0 <= j < k + 1 implies poly_eval(
            m,
            next_nprod@,
            (#[trigger] points@[j]).0.val as int,
        ) == 0 by {
            let xv = points@[j].0.val as int;
            let en = poly_eval(m, nprod@, xv);
            assert(poly_eval(m, next_nprod@, xv) == (en * (xv - xk.val)) % m);
            if j < k {
                assert(en == 0);
                assert(0 * (xv - xk.val) == 0) by (nonlinear_arith);
                lemma_small_mod(0nat, P as nat);
            } else {
                assert(xv == xk.val as int);
                assert(en * (xv - xk.val) == 0) by (nonlinear_arith)
                    requires
                        xv == xk.val as int,
                ;
                lemma_small_mod(0nat, P as nat);
            }
        }
        assert forall|j: int| k + 1 <= j < n implies 1 <= poly_eval(
            m,
            next_nprod@,
            (#[trigger] points@[j]).0.val as int,
        ) < m by {
            let xv = points@[j].0.val as int;
            let en = poly_eval(m, nprod@, xv);
            assert(poly_eval(m, next_nprod@, xv) == (en * (xv - xk.val)) % m);
            assert(points@[j].0.val != points@[k as int].0.val);
            lemma_residue_diff_nonzero(m, xv, xk.val as int);
            let dv = (xv - xk.val) % m;
            lemma_mul_mod_noop_right(en, xv - xk.val, m);
            assert((en * dv) % m == (en * (xv - xk.val)) % m);
            lemma_no_zero_divisors(m, en, dv);
            vstd::arithmetic::div_mod::lemma_mod_bound(en * (xv - xk.val), m);
        }
    }
    acc = next_acc;
    nprod = next_nprod;
    k = k + 1;
}
    acc
}

/// The quotient of `c` by the linear factor `x - r`, built by
/// synthetic division: peel the constant term, divide the rest, and
/// put the evaluated carry in front.
pub open spec fn squot(m: int, c: Seq<int>, r: int) -> Seq<int>
    decreases c.len(),
{
    if c.len() <= 1 {
        Seq::empty()
    } else {
        let tail = c.subrange(1, c.len() as int);
        seq![poly_eval(m, tail, r)] + squot(m, tail, r)
    }
}

/// The shape of a synthetic quotient: one shorter, reduced entries,
/// and the same top coefficient.
proof fn lemma_squot_shape(m: int, c: Seq<int>, r: int)
    requires
        m >= 1,
        c.len() >= 2,
        forall|i: int| 0 <= i < c.len() ==> 0 <= #[trigger] c[i] < m,
    ensures
        squot(m, c, r).len() == c.len() - 1,
        forall|i: int| 0 <= i < c.len() - 1 ==> 0 <= #[trigger] squot(m, c, r)[i] < m,
        squot(m, c, r).last() == c.last(),
    decreases c.len(),
{
    let tail = c.subrange(1, c.len() as int);
    lemma_eval_bound(m, tail, r);
    if c.len() == 2 {
        assert(tail.subrange(1, 1) =~= Seq::<int>::empty());
        assert(poly_eval(m, Seq::<int>::empty(), r) == 0);
        assert(r * 0 == 0) by (nonlinear_arith);
        assert(poly_eval(m, tail, r) == tail[0] % m);
        lemma_small_mod(tail[0] as nat, m as nat);
        assert(squot(m, c, r) =~= seq![c[1]]);
    } else {
        lemma_squot_shape(m, tail, r);
        assert(squot(m, c, r).last() == squot(m, tail, r).last());
    }
}

/// The factor theorem, constructively: dividing out `x - r` leaves
/// the value at `r` as the remainder.
proof fn lemma_factor(m: int, c: Seq<int>, r: int, xv: int)
    requires
        m >= 1,
    ensures
        poly_eval(m, c, xv) == (poly_eval(m, squot(m, c, r), xv) * (xv - r) + poly_eval(m, c, r))
            % m,
    decreases c.len(),
{
    if c.len() == 0 {
        assert(0 * (xv - r) == 0) by (nonlinear_arith);
        lemma_small_mod(0nat, m as nat);
    } else if c.len() == 1 {
        assert(c.subrange(1, 1) =~= Seq::<int>::empty());
        assert(poly_eval(m, Seq::<int>::empty(), xv) == 0);
        assert(poly_eval(m, Seq::<int>::empty(), r) == 0);
        assert(xv * 0 == 0 && r * 0 == 0 && 0 * (xv - r) == 0) by (nonlinear_arith);
        assert(poly_eval(m, c, xv) == c[0] % m);
        assert(poly_eval(m, c, r) == c[0] % m);
        lemma_mod_twice(c[0], m);
    } else {
        let tail = c.subrange(1, c.len() as int);
        let inner = squot(m, tail, r);
        let ep = poly_eval(m, tail, r);
        let q = squot(m, c, r);
        let iv = poly_eval(m, inner, xv);
        let tv = poly_eval(m, tail, xv);
        lemma_factor(m, tail, r, xv);
        assert(tv == (iv * (xv - r) + ep) % m);
        // evaluate q = [ep] + inner
        assert(q =~= seq![ep] + inner);
        assert(q.subrange(1, q.len() as int) =~= inner);
        assert(q[0] == ep);
        assert(poly_eval(m, q, xv) == (ep + xv * iv) % m);
        // the two evaluations of c
        assert(poly_eval(m, c, xv) == (c[0] + xv * tv) % m);
        assert(poly_eval(m, c, r) == (c[0] + r * ep) % m);
        // chain the congruences
        let target = (poly_eval(m, q, xv) * (xv - r) + poly_eval(m, c, r)) % m;
        lemma_mul_mod_noop_left(ep + xv * iv, xv - r, m);
        lemma_mod_twice((ep + xv * iv) * (xv - r), m);
        lemma_mod_twice(c[0] + r * ep, m);
        lemma_add_mod_noop((ep + xv * iv) * (xv - r), c[0] + r * ep, m);
        lemma_add_mod_noop(poly_eval(m, q, xv) * (xv - r), c[0] + r * ep, m);
        lemma_add_mod_noop(poly_eval(m, q, xv) * (xv - r), poly_eval(m, c, r), m);
        lemma_add_mod_noop((ep + xv * iv) * (xv - r), poly_eval(m, c, r), m);
        lemma_mod_twice(poly_eval(m, q, xv) * (xv - r), m);
        assert((poly_eval(m, q, xv) * (xv - r)) % m == ((ep + xv * iv) * (xv - r)) % m) by {
            assert(poly_eval(m, q, xv) == (ep + xv * iv) % m);
            lemma_mul_mod_noop_left(ep + xv * iv, xv - r, m);
        }
        assert(target == ((ep + xv * iv) * (xv - r) + (c[0] + r * ep)) % m);
        assert((ep + xv * iv) * (xv - r) + (c[0] + r * ep) == c[0] + xv * (iv * (xv - r) + ep))
            by (nonlinear_arith);
        assert(target == (c[0] + xv * (iv * (xv - r) + ep)) % m);
        lemma_mul_mod_noop_right(xv, iv * (xv - r) + ep, m);
        lemma_mod_twice(xv * ((iv * (xv - r) + ep) % m), m);
        lemma_mod_twice(xv * (iv * (xv - r) + ep), m);
        lemma_add_mod_noop_right(c[0], xv * ((iv * (xv - r) + ep) % m), m);
        lemma_add_mod_noop_right(c[0], xv * (iv * (xv - r) + ep), m);
        assert((c[0] + xv * tv) % m == (c[0] + xv * (iv * (xv - r) + ep)) % m);
    }
}

/// A nonzero polynomial has fewer distinct roots than coefficients.
proof fn lemma_root_count(m: int, c: Seq<int>, xs: Seq<int>)
    requires
        is_prime(m),
        c.len() >= 1,
        forall|i: int| 0 <= i < c.len() ==> 0 <= #[trigger] c[i] < m,
        c.last() != 0,
        forall|i: int| 0 <= i < xs.len() ==> 0 <= #[trigger] xs[i] < m,
        forall|i: int, j: int| 0 <= i < j < xs.len() ==> xs[i] != xs[j],
        forall|i: int| 0 <= i < xs.len() ==> poly_eval(m, c, #[trigger] xs[i]) == 0,
    ensures
        xs.len() < c.len(),
    decreases c.len(),
{
    if xs.len() == 0 {
    } else if c.len() == 1 {
        assert(c.subrange(1, 1) =~= Seq::<int>::empty());
        assert(poly_eval(m, Seq::<int>::empty(), xs[0]) == 0);
        assert(xs[0] * 0 == 0) by (nonlinear_arith);
        assert(poly_eval(m, c, xs[0]) == c[0] % m);
        lemma_small_mod(c[0] as nat, m as nat);
        assert(false);
    } else {
        let r = xs[0];
        let q = squot(m, c, r);
        lemma_squot_shape(m, c, r);
        let rest = xs.subrange(1, xs.len() as int);
        assert forall|i: int| 0 <= i < rest.len() implies poly_eval(m, q, #[trigger] rest[i])
            == 0 by {
            let xv = rest[i];
            lemma_factor(m, c, r, xv);
            assert(poly_eval(m, c, xv) == 0);
            assert(poly_eval(m, c, r) == 0);
            let qv = poly_eval(m, q, xv);
            lemma_mod_twice(qv * (xv - r), m);
            lemma_add_mod_noop_right(qv * (xv - r), 0, m);
            assert((qv * (xv - r) + 0) % m == (qv * (xv - r)) % m);
            assert((qv * (xv - r)) % m == 0);
            // the difference of two distinct residues is invertible
            assert(xs[i + 1] == xv);
            assert(xv != r);
            lemma_residue_diff_nonzero(m, xv, r);
            let dv = (xv - r) % m;
            lemma_mul_mod_noop_right(qv, xv - r, m);
            assert((qv * dv) % m == 0);
            lemma_eval_bound(m, q, xv);
            if qv != 0 {
                crate::field::lemma_no_zero_divisors(m, qv, dv);
                assert(false);
            }
        }
        lemma_root_count(m, q, rest);
    }
}

/// A sequence whose canonical form is empty is all zeros.
proof fn lemma_ptrim_empty_is_zero(c: Seq<int>)
    requires
        ptrim(c).len() == 0,
    ensures
        forall|i: int| 0 <= i < c.len() ==> c[i] == 0,
    decreases c.len(),
{
    if c.len() > 0 {
        assert(c.last() == 0);
        lemma_ptrim_empty_is_zero(c.drop_last());
        assert forall|i: int| 0 <= i < c.len() implies c[i] == 0 by {
            if i < c.len() - 1 {
                assert(c.drop_last()[i] == c[i]);
            }
        }
    }
}

/// Interpolation is unique: two canonical polynomials that agree on
/// at least as many distinct points as either has coefficients are
/// the same polynomial. In particular the interpolant of a point set
/// does not depend on the order in which the points are listed.
pub proof fn lemma_interpolant_unique(m: int, c1: Seq<int>, c2: Seq<int>, xs: Seq<int>)
    requires
        is_prime(m),
        forall|i: int| 0 <= i < c1.len() ==> 0 <= #[trigger] c1[i] < m,
        forall|i: int| 0 <= i < c2.len() ==> 0 <= #[trigger] c2[i] < m,
        c1.len() > 0 ==> c1.last() != 0,
        c2.len() > 0 ==> c2.last() != 0,
        c1.len() <= xs.len(),
        c2.len() <= xs.len(),
        forall|i: int| 0 <= i < xs.len() ==> 0 <= #[trigger] xs[i] < m,
        forall|i: int, j: int| 0 <= i < j < xs.len() ==> xs[i] != xs[j],
        forall|i: int|
            0 <= i < xs.len() ==> poly_eval(m, c1, #[trigger] xs[i]) == poly_eval(m, c2, xs[i]),
    ensures
        c1 == c2,
{
    let d = psub(m, c1, c2);
    let dt = ptrim(d);
    lemma_ptrim_shape(d);
    assert forall|i: int| 0 <= i < xs.len() implies poly_eval(m, dt, #[trigger] xs[i]) == 0 by {
        lemma_eval_ptrim(m, d, xs[i]);
        lemma_eval_psub(m, c1, c2, xs[i]);
        let e = poly_eval(m, c1, xs[i]);
        assert(poly_eval(m, dt, xs[i]) == (e - e) % m);
        lemma_small_mod(0nat, m as nat);
    }
    if dt.len() > 0 {
        assert forall|i: int| 0 <= i < dt.len() implies 0 <= #[trigger] dt[i] < m by {
            assert(dt[i] == d[i]);
            vstd::arithmetic::div_mod::lemma_mod_bound(coeff(c1, i) - coeff(c2, i), m);
        }
        assert(dt.len() <= max_len(c1, c2));
        assert(dt.len() <= xs.len());
        lemma_root_count(m, dt, xs);
        assert(false);
    }
    lemma_ptrim_empty_is_zero(d);
    assert forall|i: int| 0 <= i < max_len(c1, c2) implies coeff(c1, i) == coeff(c2, i) by {
        assert(d[i] == 0);
        assert((coeff(c1, i) - coeff(c2, i)) % m == 0);
        if coeff(c1, i) != coeff(c2, i) {
            lemma_residue_diff_nonzero(m, coeff(c1, i), coeff(c2, i));
            assert(false);
        }
    }
    if c1.len() > c2.len() {
        assert(coeff(c1, c1.len() - 1) == c1.last());
        assert(coeff(c2, c1.len() - 1) == 0);
        assert(false);
    }
    if c2.len() > c1.len() {
        assert(coeff(c2, c2.len() - 1) == c2.last());
        assert(coeff(c1, c2.len() - 1) == 0);
        assert(false);
    }
    assert forall|i: int| 0 <= i < c1.len() implies c1[i] == c2[i] by {
        assert(coeff(c1, i) == coeff(c2, i));
    }
    assert(c1 =~= c2);
}

/// Two well-formed polynomials that agree on at least as many
/// distinct points as either one has coefficients are the same
/// polynomial; with `lagrange`'s contract this makes the interpolant
/// independent of the order in which the points are given.
pub proof fn lemma_lagrange_unique<const P: u32>(
    p1: Polynomial<P>,
    p2: Polynomial<P>,
    xs: Seq<int>,
)
    requires
        is_prime(P as int),
        p1.wf(),
        p2.wf(),
        p1@.len() <= xs.len(),
        p2@.len() <= xs.len(),
        forall|i: int| 0 <= i < xs.len() ==> 0 <= #[trigger] xs[i] < P,
        forall|i: int, j: int| 0 <= i < j < xs.len() ==> xs[i] != xs[j],
        forall|i: int|
            0 <= i < xs.len() ==> poly_eval(P as int, p1@, #[trigger] xs[i]) == poly_eval(
                P as int,
                p2@,
                xs[i],
            ),
    ensures
        p1@ == p2@,
{
    assert forall|i: int| 0 <= i < p1@.len() implies 0 <= #[trigger] p1@[i] < P by {
        assert(p1@[i] == p1.c@[i].val as int);
    }
    assert forall|i: int| 0 <= i < p2@.len() implies 0 <= #[trigger] p2@[i] < P by {
        assert(p2@[i] == p2.c@[i].val as int);
    }
    if p1@.len() > 0 {
        assert(p1@.last() == p1.c@.last().val as int);
    }
    if p2@.len() > 0 {
        assert(p2@.last() == p2.c@.last().val as int);
    }
    lemma_interpolant_unique(P as int, p1@, p2@, xs);
}

} // verus!
