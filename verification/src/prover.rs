use vstd::prelude::*;
use crate::channel::{enc_digest, enc_path, encode_digest, encode_path, encode_u32, u32_le, Channel};
use crate::field::{fpow, generator_candidate, is_prime, is_prime_u32, Gf};
use crate::proofs::{
    absorb, challenges_consistent, enc_layers, enc_openings, enc_rounds, enc_transcript,
    least_generator, lemma_enc_layers_push, lemma_enc_openings_push, lemma_enc_rounds_push,
    lemma_rounds_chain_push, rounds_chain_ok, rounds_chain_state, Transcript,
};
use crate::merkle::{lemma_path_entry_lengths, Merkle};
use crate::polynomial::{fri, lagrange, poly_eval, x, Polynomial};
use crate::proofs::Proof;

verus! {

/// The trace of the squared-Fibonacci recurrence: 1, then the secret,
/// then each element the sum of the squares of the previous two, all
/// modulo `m`.
pub open spec fn trace_val(m: int, s: int, i: int) -> int
    decreases i,
{
    if i <= 0 {
        1
    } else if i == 1 {
        s % m
    } else {
        (trace_val(m, s, i - 2) * trace_val(m, s, i - 2) + trace_val(m, s, i - 1) * trace_val(
            m,
            s,
            i - 1,
        )) % m
    }
}

/// The fixed secret's trace reaches the public boundary value.
pub open spec fn trace_reaches_boundary(m: int) -> bool {
    trace_val(m, 3141592, 1022) == 2338775057
}

/// The multiplicative group has an element passing the
/// primitive-root test.
#[verifier::opaque]
pub open spec fn field_has_generator(m: int) -> bool {
    exists|x: int| 2 <= x < m && #[trigger] generator_candidate(m, x)
}

/// The first 1023 powers of the trace-domain generator (the least
/// primitive root raised to 3145728) are pairwise distinct.
#[verifier::opaque]
pub open spec fn trace_domain_distinct(m: int) -> bool {
    forall|gv: int|
        #[trigger] least_generator(m, gv) ==> forall|i: int, j: int|
            #![trigger fpow(m, fpow(m, gv, 3145728), i as nat), fpow(m, fpow(m, gv, 3145728), j as nat)]
            0 <= i < j < 1023 ==> fpow(m, fpow(m, gv, 3145728), i as nat) != fpow(
                m,
                fpow(m, gv, 3145728),
                j as nat,
            )
}

/// A condition the prover checks at runtime did not hold; each names
/// the stage that failed. On a correctly parameterized run none occurs.
#[derive(Clone, Copy, Debug, PartialEq, Eq)]
pub enum ProverError {
    ModulusNotPrime,
    TraceMismatch,
    NoGenerator,
    DomainDegenerate,
    RemainderNonzero,
    DegreeMismatch,
}

/// Builds the first `n` elements of the trace for the secret `s`.
#[verifier::loop_isolation(false)]
pub fn build_trace<const P: u32>(s: Gf<P>, n: usize) -> (r: Vec<Gf<P>>)
    requires
        s.valid(),
        n >= 2,
    ensures
        r@.len() == n,
        forall|i: int|
            0 <= i < n ==> (#[trigger] r@[i]).valid() && r@[i].val == trace_val(
                P as int,
                s.val as int,
                i,
            ),
{
    let ghost m = P as int;
    let mut r: Vec<Gf<P>> = Vec::new();
    r.push(Gf::one());
    r.push(s);
    proof {
        vstd::arithmetic::div_mod::lemma_small_mod(s.val as nat, P as nat);
    }
    while r.len() < n
        invariant
            2 <= r@.len() <= n,
            forall|i: int|
                0 <= i < r@.len() ==> (#[trigger] r@[i]).valid() && r@[i].val == trace_val(
                    m,
                    s.val as int,
                    i,
                ),
        decreases n - r.len(),
    {
        let i = r.len();
        let a = r[i - 2];
        let b = r[i - 1];
        let t0 = a.mul(a);
        let t1 = b.mul(b);
        let next = t0.add(t1);
        proof {
            let av = a.val as int;
            let bv = b.val as int;
            vstd::arithmetic::div_mod::lemma_add_mod_noop(av * av, bv * bv, m);
            vstd::arithmetic::div_mod::lemma_mod_twice(av * av, m);
            vstd::arithmetic::div_mod::lemma_mod_twice(bv * bv, m);
            assert(next.val == (av * av + bv * bv) % m);
        }
        r.push(next);
    }
    r
}

/// Whether all the first components of the points are distinct.
#[verifier::loop_isolation(false)]
fn all_distinct<const P: u32>(points: &Vec<(Gf<P>, Gf<P>)>) -> (r: bool)
    ensures
        r == (forall|i: int, j: int|
            0 <= i < j < points@.len() ==> (#[trigger] points@[i]).0.val != (
            #[trigger] points@[j]).0.val),
{
    let n = points.len();
    let mut i: usize = 0;
    while i < n
        invariant
            i <= n,
            forall|a: int, b: int|
                0 <= a < b < points@.len() && a < i ==> (#[trigger] points@[a]).0.val != (
                #[trigger] points@[b]).0.val,
        decreases n - i,
    {
        let mut j: usize = i + 1;
        while j < n
            invariant
                i < j <= n || (i + 1 > n && j == i + 1),
                i < n,
                forall|b: int|
                    i < b < j ==> (#[trigger] points@[b]).0.val != points@[i as int].0.val,
            decreases n - j,
        {
            if points[i].0.residue() == points[j].0.residue() {
                return false;
            }
            j = j + 1;
        }
        i = i + 1;
    }
    true
}

/// The canonical residues of a vector of field elements.
#[verifier::loop_isolation(false)]
fn residues<const P: u32>(v: &Vec<Gf<P>>) -> (r: Vec<u32>)
    ensures
        r@.len() == v@.len(),
        forall|i: int| 0 <= i < v@.len() ==> (#[trigger] r@[i]) == v@[i].val,
{
    let mut r: Vec<u32> = Vec::new();
    while r.len() < v.len()
        invariant
            r@.len() <= v@.len(),
            forall|i: int| 0 <= i < r@.len() ==> (#[trigger] r@[i]) == v@[i].val,
        decreases v.len() - r.len(),
    {
        r.push(v[r.len()].residue());
    }
    r
}

/// Evaluates a polynomial over every element of a domain.
#[verifier::loop_isolation(false)]
fn eval_on_domain<const P: u32>(p: &Polynomial<P>, domain: &Vec<Gf<P>>) -> (r: Vec<Gf<P>>)
    requires
        p.wf(),
        forall|i: int| 0 <= i < domain@.len() ==> (#[trigger] domain@[i]).valid(),
    ensures
        r@.len() == domain@.len(),
        forall|i: int|
            0 <= i < domain@.len() ==> (#[trigger] r@[i]).valid() && r@[i].val == poly_eval(
                P as int,
                p@,
                domain@[i].val as int,
            ),
{
    let mut r: Vec<Gf<P>> = Vec::new();
    while r.len() < domain.len()
        invariant
            r@.len() <= domain@.len(),
            forall|i: int|
                0 <= i < r@.len() ==> (#[trigger] r@[i]).valid() && r@[i].val == poly_eval(
                    P as int,
                    p@,
                    domain@[i].val as int,
                ),
        decreases domain.len() - r.len(),
    {
        r.push(p.solve(domain[r.len()]));
    }
    r
}

/// Commits a digest to the transcript in its wire form.
fn commit_root(channel: &mut Channel, root: &Vec<u8>)
    requires
        old(channel).wf(),
        root@.len() == 32,
    ensures
        final(channel).wf(),
        final(channel).data@ == old(channel).data@ + enc_digest(root@),
        final(channel).state@ == absorb(old(channel).state@, enc_digest(root@)),
{
    let enc = encode_digest(root);
    channel.commit(&enc);
}

/// The authentication path for a leaf, every digest 32 bytes long.
fn tree_path(tree: &Merkle, index: usize) -> (r: Vec<Vec<u8>>)
    requires
        tree.wf(),
        index < tree.leaf_count(),
    ensures
        r@.map_values(|v: Vec<u8>| v@) == crate::merkle::path_of(
            tree.nodes_view(),
            tree.leaf_count() - 1 + index,
        ),
        forall|i: int| 0 <= i < r@.len() ==> (#[trigger] r@[i])@.len() == 32,
{
    let path = tree.trace(index);
    proof {
        lemma_path_entry_lengths(tree.nodes_view(), tree.leaf_count() - 1 + index);
        assert forall|i: int| 0 <= i < path@.len() implies (#[trigger] path@[i])@.len()
            == 32 by {
            assert(path@[i]@ == path@.map_values(|v2: Vec<u8>| v2@)[i]);
        }
    }
    path
}

/// Commits a decommitted value and its authentication path as one
/// message.
fn commit_pair(channel: &mut Channel, v: u32, path: &Vec<Vec<u8>>)
    requires
        old(channel).wf(),
        forall|i: int| 0 <= i < path@.len() ==> (#[trigger] path@[i])@.len() == 32,
    ensures
        final(channel).wf(),
        final(channel).data@ == old(channel).data@ + (u32_le(v) + enc_path(
            path@.map_values(|v2: Vec<u8>| v2@),
        )),
        final(channel).state@ == absorb(
            old(channel).state@,
            u32_le(v) + enc_path(path@.map_values(|v2: Vec<u8>| v2@)),
        ),
{
    let mut msg = encode_u32(v);
    let mut enc = encode_path(path);
    msg.append(&mut enc);
    proof {
        assert(msg@ =~= u32_le(v) + enc_path(path@.map_values(|v2: Vec<u8>| v2@)));
    }
    channel.commit(&msg);
}

/// Commits one FRI layer's two openings and their paths as a single
/// message.
fn commit_fri_layer(
    channel: &mut Channel,
    v0: u32,
    path0: &Vec<Vec<u8>>,
    v1: u32,
    path1: &Vec<Vec<u8>>,
)
    requires
        old(channel).wf(),
        forall|i: int| 0 <= i < path0@.len() ==> (#[trigger] path0@[i])@.len() == 32,
        forall|i: int| 0 <= i < path1@.len() ==> (#[trigger] path1@[i])@.len() == 32,
    ensures
        final(channel).wf(),
        final(channel).data@ == old(channel).data@ + (u32_le(v0) + enc_path(
            path0@.map_values(|v2: Vec<u8>| v2@),
        ) + u32_le(v1) + enc_path(path1@.map_values(|v2: Vec<u8>| v2@))),
        final(channel).state@ == absorb(
            old(channel).state@,
            u32_le(v0) + enc_path(path0@.map_values(|v2: Vec<u8>| v2@)) + u32_le(v1) + enc_path(
                path1@.map_values(|v2: Vec<u8>| v2@),
            ),
        ),
{
    let mut msg = encode_u32(v0);
    let mut e0 = encode_path(path0);
    let mut e1 = encode_u32(v1);
    let mut e2 = encode_path(path1);
    msg.append(&mut e0);
    msg.append(&mut e1);
    msg.append(&mut e2);
    proof {
        assert(msg@ =~= u32_le(v0) + enc_path(path0@.map_values(|v2: Vec<u8>| v2@)) + u32_le(v1)
            + enc_path(path1@.map_values(|v2: Vec<u8>| v2@)));
    }
    channel.commit(&msg);
}

/// The three constraint quotients: the two boundary constraints and
/// the transition constraint, each divided by its vanishing factor,
/// rejecting any nonzero remainder.
#[verifier::loop_isolation(false)]
#[verifier::rlimit(100)]
fn constraint_quotients(
    f_poly: &Polynomial<3221225473>,
    g: &Vec<Gf<3221225473>>,
) -> (r: Result<
    (Polynomial<3221225473>, Polynomial<3221225473>, Polynomial<3221225473>),
    ProverError,
>)
    requires
        is_prime(3221225473int),
        f_poly.wf(),
        g@.len() == 1024,
        forall|i: int| 0 <= i < 1024 ==> (#[trigger] g@[i]).valid(),
    ensures
        r matches Ok(c) ==> c.0.wf() && c.1.wf() && c.2.wf(),
        r matches Err(e) ==> e == ProverError::RemainderNonzero,
{
    let ghost m = 3221225473 as int;
    let one: Gf<3221225473> = Gf::one();
    // boundary constraint at the first trace element
    let numer0 = f_poly.sub(&x(one, 0));
    let dv0 = vec![g[0].neg(), one];
    let denom0 = Polynomial::from_coeffs(dv0);
    proof {
        let mp = dv0@.map_values(|e: Gf<3221225473>| e.val as int);
        assert(mp.len() == 2 && mp.last() == 1);
        assert(crate::polynomial::ptrim(mp) == mp);
        assert(denom0@.len() == 2);
    }
    let (c0, c0r) = Polynomial::rdiv(numer0, &denom0);
    if c0r.num_coeffs() != 0 {
        return Err(ProverError::RemainderNonzero);
    }

    // boundary constraint at the last trace element
    let last_val: Gf<3221225473> = Gf::new(2338775057);
    let numer1 = f_poly.sub(&x(last_val, 0));
    let dv1 = vec![g[1022].neg(), one];
    let denom1 = Polynomial::from_coeffs(dv1);
    proof {
        let mp = dv1@.map_values(|e: Gf<3221225473>| e.val as int);
        assert(mp.len() == 2 && mp.last() == 1);
        assert(crate::polynomial::ptrim(mp) == mp);
        assert(denom1@.len() == 2);
    }
    let (c1, c1r) = Polynomial::rdiv(numer1, &denom1);
    if c1r.num_coeffs() != 0 {
        return Err(ProverError::RemainderNonzero);
    }

    // transition constraint: f(g^2 x) - f(g x)^2 - f(x)^2 vanishes on
    // all but the last three trace points
    let t0 = f_poly.apply_const(g[2]);
    let t1 = f_poly.apply_const(g[1]);
    let t1sq = t1.mul(&t1);
    let t2 = f_poly.mul(f_poly);
    let numer2 = t0.sub(&t1sq).sub(&t2);
    let xn = x(one, 1024);
    let vanish = xn.sub(&x(one, 0));
    let excluded = Polynomial::one().mul_linear(g[1021]).mul_linear(g[1022]).mul_linear(g[1023]);
    proof {
        assert(excluded@.len() == 4);
        let mono = crate::polynomial::pmono(1, 1024);
        assert(mono.last() == 1);
        assert(crate::polynomial::ptrim(mono) == mono);
        assert(xn@.len() == 1025 && xn@.last() == 1);
        let lo = crate::polynomial::pmono(1, 0);
        assert(lo.last() == 1);
        assert(crate::polynomial::ptrim(lo) == lo);
        let d = crate::polynomial::psub(m, xn@, lo);
        assert(d.len() == 1025);
        assert(d.last() == (1 - 0) % m);
        vstd::arithmetic::div_mod::lemma_small_mod(1nat, 3221225473nat);
        assert(d.last() == 1);
        assert(crate::polynomial::ptrim(d) == d);
        assert(vanish@.len() == 1025);
    }
    let (denom2, zr) = Polynomial::rdiv(vanish, &excluded);
    if zr.num_coeffs() != 0 {
        return Err(ProverError::RemainderNonzero);
    }
    proof {
        assert(denom2@.len() == 1022);
    }
    let (c2, c2r) = Polynomial::rdiv(numer2, &denom2);
    if c2r.num_coeffs() != 0 {
        return Err(ProverError::RemainderNonzero);
    }

    Ok((c0, c1, c2))
}

/// What the commit phase hands to the FRI and query phases: the
/// trace's low-degree extension with its tree and committed root, the
/// three squeezed coefficients, and the committed composition
/// polynomial with its evaluations and tree.
struct CommitPhase {
    f_domain: Vec<Gf<3221225473>>,
    f_eval: Vec<Gf<3221225473>>,
    f_merkle: Merkle,
    f_root: Vec<u8>,
    a0r: u32,
    a1r: u32,
    a2r: u32,
    cp_poly: Polynomial<3221225473>,
    cp_eval: Vec<Gf<3221225473>>,
    cp_merkle: Merkle,
    cp_root: Vec<u8>,
}

/// The commit phase: trace synthesis, interpolation, the trace-LDE
/// commitment, the three constraint quotients, and the composition
/// commitment, with every sanity error tied to its exact condition.
#[verifier::loop_isolation(false)]
#[verifier::rlimit(100)]
fn commit_phase(channel: &mut Channel) -> (r: Result<CommitPhase, ProverError>)
    requires
        old(channel).wf(),
        old(channel).state@ == Seq::new(32, |i: int| 0u8),
        old(channel).data@ == Seq::<u8>::empty(),
    ensures
        final(channel).wf(),
        r matches Ok(c) ==> {
            &&& c.f_domain@.len() == 8192
            &&& forall|i: int| 0 <= i < 8192 ==> (#[trigger] c.f_domain@[i]).valid()
            &&& c.f_root@.len() == 32
            &&& c.cp_root@.len() == 32
            &&& c.f_eval@.len() == 8192
            &&& c.cp_eval@.len() == 8192
            &&& c.f_merkle.wf() && c.f_merkle.leaf_count() == 8192
            &&& c.cp_merkle.wf() && c.cp_merkle.leaf_count() == 8192
            &&& c.cp_poly.wf()
            &&& final(channel).data@ == enc_digest(c.f_root@) + u32_le(c.a0r) + u32_le(c.a1r)
                + u32_le(c.a2r) + enc_digest(c.cp_root@)
            &&& final(channel).state@ == absorb(
                absorb(
                    absorb(
                        absorb(
                            absorb(Seq::new(32, |i: int| 0u8), enc_digest(c.f_root@)),
                            u32_le(c.a0r),
                        ),
                        u32_le(c.a1r),
                    ),
                    u32_le(c.a2r),
                ),
                enc_digest(c.cp_root@),
            )
            &&& c.a0r == crate::channel::be_val(
                absorb(Seq::new(32, |i: int| 0u8), enc_digest(c.f_root@)),
            )
            &&& c.a1r == crate::channel::be_val(
                absorb(
                    absorb(Seq::new(32, |i: int| 0u8), enc_digest(c.f_root@)),
                    u32_le(c.a0r),
                ),
            )
            &&& c.a2r == crate::channel::be_val(
                absorb(
                    absorb(
                        absorb(Seq::new(32, |i: int| 0u8), enc_digest(c.f_root@)),
                        u32_le(c.a0r),
                    ),
                    u32_le(c.a1r),
                ),
            )
        },
        r matches Ok(_) ==> is_prime(3221225473int) && trace_reaches_boundary(3221225473int)
            && field_has_generator(3221225473int) && trace_domain_distinct(3221225473int),
        r matches Err(ProverError::ModulusNotPrime) <==> !is_prime(3221225473int),
        r matches Err(ProverError::TraceMismatch) <==> is_prime(3221225473int)
            && !trace_reaches_boundary(3221225473int),
        r matches Err(ProverError::NoGenerator) <==> is_prime(3221225473int)
            && trace_reaches_boundary(3221225473int) && !field_has_generator(3221225473int),
        r matches Err(ProverError::DomainDegenerate) <==> is_prime(3221225473int)
            && trace_reaches_boundary(3221225473int) && field_has_generator(3221225473int)
            && !trace_domain_distinct(3221225473int),
        (r matches Err(ProverError::RemainderNonzero) || r matches Err(
            ProverError::DegreeMismatch,
        )) ==> is_prime(3221225473int) && trace_reaches_boundary(3221225473int)
            && field_has_generator(3221225473int) && trace_domain_distinct(3221225473int),
{
    let ghost m = 3221225473 as int;
    if !is_prime_u32(3221225473) {
        return Err(ProverError::ModulusNotPrime);
    }

    // trace synthesis for the fixed secret
    let secret: Gf<3221225473> = Gf::new(3141592);
    let a = build_trace(secret, 1023);
    proof {
        assert(secret.val == 3141592);
        assert(a@[1022].val == trace_val(m, 3141592, 1022));
    }
    if a[1022].residue() != 2338775057 {
        return Err(ProverError::TraceMismatch);
    }

    // domains: the trace domain of size 1024 and the evaluation coset
    // of size 8192
    let primitive_root = match Gf::<3221225473>::generator() {
        Some(g) => g,
        None => {
            proof {
                reveal(field_has_generator);
                if field_has_generator(m) {
                    let w = choose|x: int|
                        2 <= x < m && #[trigger] generator_candidate(m, x);
                    assert(!generator_candidate(m, w));
                }
            }
            return Err(ProverError::NoGenerator);
        },
    };
    proof {
        reveal(field_has_generator);
        assert(least_generator(m, primitive_root.val as int));
        assert(field_has_generator(m));
    }
    let generator_g = primitive_root.pow(3145728);
    let generator_h = primitive_root.pow(393216);
    let g = generator_g.powers(1024);
    let h = generator_h.powers(8192);
    let mut f_domain: Vec<Gf<3221225473>> = Vec::new();
    #[verifier::loop_isolation(true)]
    while f_domain.len() < 8192
        invariant
            f_domain@.len() <= 8192,
            h@.len() == 8192,
            primitive_root.valid(),
            forall|i: int| 0 <= i < h@.len() ==> (#[trigger] h@[i]).valid(),
            forall|i: int| 0 <= i < f_domain@.len() ==> (#[trigger] f_domain@[i]).valid(),
        decreases 8192 - f_domain.len(),
    {
        f_domain.push(primitive_root.mul(h[f_domain.len()]));
    }

    // the trace polynomial interpolates a over the trace domain
    let mut points: Vec<(Gf<3221225473>, Gf<3221225473>)> = Vec::new();
    #[verifier::loop_isolation(true)]
    while points.len() < 1023
        invariant
            points@.len() <= 1023,
            g@.len() == 1024,
            a@.len() == 1023,
            forall|i: int|
                0 <= i < points@.len() ==> (#[trigger] points@[i]).0 == g@[i]
                    && points@[i].1 == a@[i],
        decreases 1023 - points.len(),
    {
        let i = points.len();
        points.push((g[i], a[i]));
    }
    proof {
        let prv = primitive_root.val as int;
        let ggv = fpow(m, prv, 3145728);
        assert(generator_g.val as int == ggv);
        assert(forall|i: int|
            0 <= i < 1023 ==> (#[trigger] points@[i]).0.val == fpow(m, ggv, i as nat));
    }
    let distinct = all_distinct(&points);
    proof {
        reveal(trace_domain_distinct);
        let prv = primitive_root.val as int;
        let ggv = fpow(m, prv, 3145728);
        if distinct {
            assert forall|gv: int| #[trigger] least_generator(m, gv) implies forall|i: int, j: int|
                #![trigger fpow(m, fpow(m, gv, 3145728), i as nat), fpow(m, fpow(m, gv, 3145728), j as nat)]
                0 <= i < j < 1023 ==> fpow(m, fpow(m, gv, 3145728), i as nat) != fpow(
                m,
                fpow(m, gv, 3145728),
                j as nat,
            ) by {
                assert(gv == prv) by {
                    if gv < prv {
                        assert(generator_candidate(m, gv));
                        assert(!generator_candidate(m, gv));
                    } else if prv < gv {
                        assert(generator_candidate(m, prv));
                        assert(!generator_candidate(m, prv));
                    }
                }
                assert forall|i: int, j: int|
                    #![trigger fpow(m, fpow(m, gv, 3145728), i as nat), fpow(m, fpow(m, gv, 3145728), j as nat)]
                    0 <= i < j < 1023 implies fpow(
                    m,
                    fpow(m, gv, 3145728),
                    i as nat,
                ) != fpow(m, fpow(m, gv, 3145728), j as nat) by {
                    assert(points@[i].0.val == fpow(m, ggv, i as nat));
                    assert(points@[j].0.val == fpow(m, ggv, j as nat));
                    assert(points@[i].0.val != points@[j].0.val);
                }
            }
            assert(trace_domain_distinct(m));
        } else {
            let (i, j) = choose|i: int, j: int|
                0 <= i < j < points@.len() && (#[trigger] points@[i]).0.val == (
                #[trigger] points@[j]).0.val;
            assert(fpow(m, ggv, i as nat) == fpow(m, ggv, j as nat));
            assert(least_generator(m, prv));
            assert(!trace_domain_distinct(m));
        }
    }
    if !distinct {
        return Err(ProverError::DomainDegenerate);
    }
    let f_poly = lagrange(&points);

    // low-degree extension and its commitment
    let f_eval = eval_on_domain(&f_poly, &f_domain);
    let f_res = residues(&f_eval);
    let f_merkle = Merkle::new(8192, &f_res);
    let f_root = f_merkle.root();
    commit_root(channel, &f_root);
    let ghost s0v = Seq::new(32, |i2: int| 0u8);
    let ghost s1v = absorb(s0v, enc_digest(f_root@));
    proof {
        assert(Seq::<u8>::empty() + enc_digest(f_root@) =~= enc_digest(f_root@));
        assert(channel.data@ == enc_digest(f_root@));
        assert(channel.state@ == s1v);
    }

    let quot = match constraint_quotients(&f_poly, &g) {
        Ok(q) => q,
        Err(e) => {
            return Err(e);
        },
    };
    let (c0, c1, c2) = quot;

    // the composition polynomial, from three squeezed coefficients
    let a0r = channel.get_u32();
    let a1r = channel.get_u32();
    let a2r = channel.get_u32();
    let ghost s2v = absorb(s1v, u32_le(a0r));
    let ghost s3v = absorb(s2v, u32_le(a1r));
    let ghost s4v = absorb(s3v, u32_le(a2r));
    proof {
        assert(channel.data@ == enc_digest(f_root@) + u32_le(a0r) + u32_le(a1r) + u32_le(a2r));
        assert(channel.state@ == s4v);
    }
    let alpha0: Gf<3221225473> = Gf::new(a0r);
    let alpha1: Gf<3221225473> = Gf::new(a1r);
    let alpha2: Gf<3221225473> = Gf::new(a2r);
    let cp_poly = c0.scale(alpha0).add(&c1.scale(alpha1)).add(&c2.scale(alpha2));
    if cp_poly.num_coeffs() != 1024 {
        return Err(ProverError::DegreeMismatch);
    }
    let cp_eval = eval_on_domain(&cp_poly, &f_domain);
    let cp_res = residues(&cp_eval);
    let cp_merkle = Merkle::new(8192, &cp_res);
    let cp_root = cp_merkle.root();
    commit_root(channel, &cp_root);
    let ghost s5v = absorb(s4v, enc_digest(cp_root@));
    let ghost d5v = enc_digest(f_root@) + u32_le(a0r) + u32_le(a1r) + u32_le(a2r) + enc_digest(
        cp_root@,
    );
    proof {
        assert(channel.data@ == d5v);
        assert(channel.state@ == s5v);
    }

    Ok(
        CommitPhase {
            f_domain,
            f_eval,
            f_merkle,
            f_root,
            a0r,
            a1r,
            a2r,
            cp_poly,
            cp_eval,
            cp_merkle,
            cp_root,
        },
    )
}


/// Decommits the four trace-side openings: the trace values at the
/// query point and its two shifts, then the composition value, each
/// with its authentication path, in commit order.
#[verifier::loop_isolation(false)]
#[verifier::rlimit(100)]
fn decommit_openings(
    channel: &mut Channel,
    f_eval: &Vec<Gf<3221225473>>,
    f_merkle: &Merkle,
    cp_eval: &Vec<Gf<3221225473>>,
    cp_merkle: &Merkle,
    xq: usize,
) -> (r: Vec<(u32, Vec<Vec<u8>>)>)
    requires
        old(channel).wf(),
        f_eval@.len() == 8192,
        cp_eval@.len() == 8192,
        f_merkle.wf(),
        f_merkle.leaf_count() == 8192,
        cp_merkle.wf(),
        cp_merkle.leaf_count() == 8192,
        xq < 8176,
    ensures
        final(channel).wf(),
        r@.len() == 4,
        forall|j: int, l: int|
            0 <= j < 4 && 0 <= l < (#[trigger] r@[j]).1@.len() ==> (
            #[trigger] r@[j].1@[l])@.len() == 32,
        final(channel).data@ == old(channel).data@ + enc_openings(r@),
{
    let ghost dqv = channel.data@;
    let mut openings: Vec<(u32, Vec<Vec<u8>>)> = Vec::new();
    let v_fx = f_eval[xq].residue();
    let path_fx = tree_path(&f_merkle, xq);
    commit_pair(channel, v_fx, &path_fx);
    openings.push((v_fx, path_fx));
    proof {
        let e = openings@.last();
        lemma_enc_openings_push(Seq::<(u32, Vec<Vec<u8>>)>::empty(), e);
        assert(enc_openings(Seq::<(u32, Vec<Vec<u8>>)>::empty()) == Seq::<u8>::empty());
        assert(Seq::<u8>::empty() + (u32_le(e.0) + enc_path(e.1@.map_values(|v2: Vec<u8>| v2@)))
            =~= u32_le(e.0) + enc_path(e.1@.map_values(|v2: Vec<u8>| v2@)));
        assert(channel.data@ == dqv + enc_openings(openings@));
    }
    let v_fgx = f_eval[xq + 8].residue();
    let path_fgx = tree_path(&f_merkle, xq + 8);
    commit_pair(channel, v_fgx, &path_fgx);
    proof {
        lemma_enc_openings_push(openings@, (v_fgx, path_fgx));
        let mp = path_fgx@.map_values(|v2: Vec<u8>| v2@);
        assert(dqv + enc_openings(openings@) + (u32_le(v_fgx) + enc_path(mp)) =~= dqv + (
        enc_openings(openings@) + (u32_le(v_fgx) + enc_path(mp))));
    }
    openings.push((v_fgx, path_fgx));
    proof {
        assert(channel.data@ == dqv + enc_openings(openings@));
    }
    let v_fggx = f_eval[xq + 16].residue();
    let path_fggx = tree_path(&f_merkle, xq + 16);
    commit_pair(channel, v_fggx, &path_fggx);
    proof {
        lemma_enc_openings_push(openings@, (v_fggx, path_fggx));
        let mp = path_fggx@.map_values(|v2: Vec<u8>| v2@);
        assert(dqv + enc_openings(openings@) + (u32_le(v_fggx) + enc_path(mp)) =~= dqv + (
        enc_openings(openings@) + (u32_le(v_fggx) + enc_path(mp))));
    }
    openings.push((v_fggx, path_fggx));
    proof {
        assert(channel.data@ == dqv + enc_openings(openings@));
    }
    let v_cp = cp_eval[xq].residue();
    let path_cp = tree_path(cp_merkle, xq);
    commit_pair(channel, v_cp, &path_cp);
    proof {
        lemma_enc_openings_push(openings@, (v_cp, path_cp));
        let mp = path_cp@.map_values(|v2: Vec<u8>| v2@);
        assert(dqv + enc_openings(openings@) + (u32_le(v_cp) + enc_path(mp)) =~= dqv + (
        enc_openings(openings@) + (u32_le(v_cp) + enc_path(mp))));
    }
    openings.push((v_cp, path_cp));
    proof {
        assert(channel.data@ == dqv + enc_openings(openings@));
    }
    openings
}

/// Runs the whole proving pipeline for the fixed secret: trace
/// synthesis, interpolation, the low-degree extension, the three
/// constraint quotients, the composition polynomial, ten FRI folds,
/// and the query-phase decommitment, all streamed into the channel.
#[verifier::loop_isolation(false)]
#[verifier::rlimit(100)]
pub fn generate_proof(channel: Channel) -> (r: Result<Proof, ProverError>)
    requires
        channel.wf(),
        channel.state@ == Seq::new(32, |i: int| 0u8),
        channel.data@ == Seq::<u8>::empty(),
    ensures
        r matches Ok(p) ==> p.state@.len() == 32 && p.data@.len() > 0,
        // the proof bytes are a complete transcript whose challenges
        // all come from the replayed hash chain
        r matches Ok(p) ==> exists|t: Transcript|
            (#[trigger] t.wf()) && p.data@ == enc_transcript(t) && challenges_consistent(t),
        // a proof is only produced when the modulus really is prime,
        // the field has a generator, and the fixed secret's trace
        // reaches the public boundary value
        r matches Ok(_) ==> is_prime(3221225473int) && trace_reaches_boundary(3221225473int)
            && field_has_generator(3221225473int) && trace_domain_distinct(3221225473int),
        // each sanity error occurs exactly when its condition fails,
        // every earlier condition having held
        r matches Err(ProverError::ModulusNotPrime) <==> !is_prime(3221225473int),
        r matches Err(ProverError::TraceMismatch) <==> is_prime(3221225473int)
            && !trace_reaches_boundary(3221225473int),
        r matches Err(ProverError::NoGenerator) <==> is_prime(3221225473int)
            && trace_reaches_boundary(3221225473int) && !field_has_generator(3221225473int),
        r matches Err(ProverError::DomainDegenerate) <==> is_prime(3221225473int)
            && trace_reaches_boundary(3221225473int) && field_has_generator(3221225473int)
            && !trace_domain_distinct(3221225473int),
        (r matches Err(ProverError::RemainderNonzero) || r matches Err(
            ProverError::DegreeMismatch,
        )) ==> is_prime(3221225473int) && trace_reaches_boundary(3221225473int)
            && field_has_generator(3221225473int) && trace_domain_distinct(3221225473int),
{
    let mut channel = channel;
    let c = match commit_phase(&mut channel) {
        Ok(c) => c,
        Err(e) => {
            return Err(e);
        },
    };
    let CommitPhase {
        f_domain,
        f_eval,
        f_merkle,
        f_root,
        a0r,
        a1r,
        a2r,
        cp_poly,
        cp_eval,
        cp_merkle,
        cp_root,
    } = c;
    let ghost s0v = Seq::new(32, |i2: int| 0u8);
    let ghost s1v = absorb(s0v, enc_digest(f_root@));
    let ghost s2v = absorb(s1v, u32_le(a0r));
    let ghost s3v = absorb(s2v, u32_le(a1r));
    let ghost s4v = absorb(s3v, u32_le(a2r));
    let ghost s5v = absorb(s4v, enc_digest(cp_root@));
    let ghost d5v = enc_digest(f_root@) + u32_le(a0r) + u32_le(a1r) + u32_le(a2r) + enc_digest(
        cp_root@,
    );
    proof {
        assert(channel.data@ == d5v);
        assert(channel.state@ == s5v);
    }
    // ten FRI folds: halve the degree and the domain each round
    let mut cur_poly = cp_poly;
    let mut cur_domain = f_domain;
    let mut evals: Vec<Vec<Gf<3221225473>>> = Vec::new();
    let mut merkles: Vec<Merkle> = Vec::new();
    let mut betas_raw: Vec<u32> = Vec::new();
    let mut fri_roots: Vec<Vec<u8>> = Vec::new();
    evals.push(cp_eval);
    merkles.push(cp_merkle);
    proof {
        assert(8192usize >> 0usize == 8192usize) by (bit_vector);
        assert(enc_rounds(betas_raw@, fri_roots@.map_values(|v: Vec<u8>| v@))
            == Seq::<u8>::empty());
        assert(d5v + Seq::<u8>::empty() =~= d5v);
        assert(channel.data@ == d5v + enc_rounds(
            betas_raw@,
            fri_roots@.map_values(|v: Vec<u8>| v@),
        ));
        assert(rounds_chain_ok(s5v, betas_raw@, fri_roots@.map_values(|v: Vec<u8>| v@)));
    }
    let mut i: usize = 0;
    #[verifier::loop_isolation(true)]
    while i < 10
        invariant
            i <= 10,
            channel.wf(),
            cur_poly.wf(),
            cur_domain@.len() == 8192usize >> i,
            forall|j: int| 0 <= j < cur_domain@.len() ==> (#[trigger] cur_domain@[j]).valid(),
            evals@.len() == i + 1,
            merkles@.len() == i + 1,
            betas_raw@.len() == i,
            fri_roots@.len() == i,
            forall|j: int| 0 <= j < i ==> (#[trigger] fri_roots@[j])@.len() == 32,
            forall|j: int|
                0 <= j < evals@.len() ==> (#[trigger] evals@[j])@.len() == 8192usize >> j,
            forall|j: int|
                0 <= j < merkles@.len() ==> (#[trigger] merkles@[j]).wf()
                    && merkles@[j].leaf_count() == 8192usize >> j,
            channel.data@ == d5v + enc_rounds(
                betas_raw@,
                fri_roots@.map_values(|v: Vec<u8>| v@),
            ),
            rounds_chain_ok(s5v, betas_raw@, fri_roots@.map_values(|v: Vec<u8>| v@)),
            channel.state@ == rounds_chain_state(
                s5v,
                betas_raw@,
                fri_roots@.map_values(|v: Vec<u8>| v@),
            ),
        decreases 10 - i,
    {
        proof {
            assert(8192usize >> i >= 16 && 8192usize >> i <= 8192 && (8192usize >> i) / 2
                == 8192usize >> ((i + 1) as usize) && (8192usize >> ((i + 1) as usize)) >= 8)
                by (bit_vector)
                requires
                    i < 10usize,
            ;
        }
        let ghost betas0 = betas_raw@;
        let ghost roots0 = fri_roots@.map_values(|v: Vec<u8>| v@);
        let braw = channel.get_u32();
        let beta: Gf<3221225473> = Gf::new(braw);
        let folded = fri(&cur_poly, beta);
        let half = cur_domain.len() / 2;
        let mut next_domain: Vec<Gf<3221225473>> = Vec::new();
        while next_domain.len() < half
            invariant
                half <= cur_domain@.len(),
                next_domain@.len() <= half,
                forall|j: int|
                    0 <= j < next_domain@.len() ==> (#[trigger] next_domain@[j]).valid(),
            decreases half - next_domain.len(),
        {
            let e = cur_domain[next_domain.len()];
            next_domain.push(e.mul(e));
        }
        let layer_eval = eval_on_domain(&folded, &next_domain);
        let layer_res = residues(&layer_eval);
        let layer_merkle = Merkle::new(half, &layer_res);
        let layer_root = layer_merkle.root();
        commit_root(&mut channel, &layer_root);
        evals.push(layer_eval);
        merkles.push(layer_merkle);
        betas_raw.push(braw);
        fri_roots.push(layer_root);
        proof {
            lemma_enc_rounds_push(betas0, roots0, braw, layer_root@);
            lemma_rounds_chain_push(s5v, betas0, roots0, braw, layer_root@);
            assert(fri_roots@.map_values(|v: Vec<u8>| v@) =~= roots0.push(layer_root@));
            assert(braw == crate::channel::be_val(rounds_chain_state(s5v, betas0, roots0)));
            assert(d5v + enc_rounds(betas0, roots0) + u32_le(braw) + enc_digest(layer_root@)
                =~= d5v + (enc_rounds(betas0, roots0) + (u32_le(braw) + enc_digest(
                layer_root@,
            ))));
        }
        cur_poly = folded;
        cur_domain = next_domain;
        i = i + 1;
    }

    // the final folded polynomial is a constant: its free term
    let ghost s6v = rounds_chain_state(s5v, betas_raw@, fri_roots@.map_values(|v: Vec<u8>| v@));
    let free_term = cur_poly.coeff_at(0);
    let ft = free_term.residue();
    let enc_free = encode_u32(ft);
    channel.commit(&enc_free);
    let ghost s7v = absorb(s6v, u32_le(ft));
    proof {
        assert(channel.state@ == s7v);
    }

    // the query phase: one test point, decommitted through every layer
    let raw = channel.get_u32();
    let xq = (raw % 8176) as usize;
    let ghost dqv = d5v + enc_rounds(betas_raw@, fri_roots@.map_values(|v: Vec<u8>| v@))
        + u32_le(ft) + u32_le(raw);
    proof {
        assert(8192usize >> 0usize == 8192usize) by (bit_vector);
        assert(raw == crate::channel::be_val(s7v));
        assert(channel.data@ == dqv);
    }
    let openings = decommit_openings(&mut channel, &f_eval, &f_merkle, &evals[0], &merkles[0], xq);
    proof {
        assert(channel.data@ == dqv + enc_openings(openings@));
    }
    let ghost dov = dqv + enc_openings(openings@);
    let mut layers: Vec<(u32, Vec<Vec<u8>>, u32, Vec<Vec<u8>>)> = Vec::new();
    proof {
        assert(enc_layers(Seq::<(u32, Vec<Vec<u8>>, u32, Vec<Vec<u8>>)>::empty())
            == Seq::<u8>::empty());
        assert(dov + Seq::<u8>::empty() =~= dov);
        assert(channel.data@ == dov + enc_layers(layers@));
    }
    let mut layer: usize = 0;
    #[verifier::loop_isolation(true)]
    while layer < 10
        invariant
            layer <= 10,
            channel.wf(),
            xq < 8176,
            evals@.len() == 11,
            merkles@.len() == 11,
            layers@.len() == layer,
            forall|j: int|
                0 <= j < evals@.len() ==> (#[trigger] evals@[j])@.len() == 8192usize >> j,
            forall|j: int|
                0 <= j < merkles@.len() ==> (#[trigger] merkles@[j]).wf()
                    && merkles@[j].leaf_count() == 8192usize >> j,
            forall|j: int, l: int|
                0 <= j < layer && 0 <= l < (#[trigger] layers@[j]).1@.len() ==> (
                #[trigger] layers@[j].1@[l])@.len() == 32,
            forall|j: int, l: int|
                0 <= j < layer && 0 <= l < (#[trigger] layers@[j]).3@.len() ==> (
                #[trigger] layers@[j].3@[l])@.len() == 32,
            channel.data@ == dov + enc_layers(layers@),
        decreases 10 - layer,
    {
        proof {
            assert(8192usize >> layer >= 16 && 8192usize >> layer <= 8192) by (bit_vector)
                requires
                    layer < 10usize,
            ;
        }
        let ghost layers0 = layers@;
        let len = evals[layer].len();
        let xi = xq % len;
        let nx = (xi + len / 2) % len;
        let v0 = evals[layer][xi].residue();
        let v1 = evals[layer][nx].residue();
        let path0 = tree_path(&merkles[layer], xi);
        let path1 = tree_path(&merkles[layer], nx);
        commit_fri_layer(&mut channel, v0, &path0, v1, &path1);
        proof {
            lemma_enc_layers_push(layers0, (v0, path0, v1, path1));
            let piece = u32_le(v0) + enc_path(path0@.map_values(|v2: Vec<u8>| v2@)) + u32_le(v1)
                + enc_path(path1@.map_values(|v2: Vec<u8>| v2@));
            assert(dov + enc_layers(layers0) + piece =~= dov + (enc_layers(layers0) + piece));
        }
        layers.push((v0, path0, v1, path1));
        proof {
            assert(channel.data@ == dov + enc_layers(layers@));
        }
        layer = layer + 1;
    }
    let p = channel.finalize();
    proof {
        let t = Transcript {
            f_root: f_root,
            alpha0: a0r,
            alpha1: a1r,
            alpha2: a2r,
            cp_root: cp_root,
            betas: betas_raw,
            fri_roots: fri_roots,
            free_term: ft,
            raw_query: raw,
            openings: openings,
            layers: layers,
        };
        assert(t.wf());
        assert(p.data@ == enc_transcript(t));
        assert(challenges_consistent(t));
        assert(p.data@.len() > 0) by {
            assert(p.data@.len() >= enc_digest(f_root@).len());
        }
    }
    Ok(p)
}

} // verus!
