use stark101::channel::{encode_digest, Channel};
use stark101::merkle::Merkle;
use stark101::polynomial::{fri, lagrange, x, Polynomial};
use stark101::proofs::{PathTag, Proof, VerifyError};
use stark101::prover::{build_trace, generate_proof};
use stark101::F;

fn trace() -> Vec<F> {
    build_trace(F::new(3141592), 1023)
}

struct Pipeline {
    f_domain: Vec<F>,
    f_eval: Vec<F>,
    channel: Channel,
    f_poly: Polynomial<3221225473>,
    g: Vec<F>,
}

// The commit phase up to the trace-LDE commitment, built from the
// library's public pieces.
fn commit_trace() -> Pipeline {
    let a = trace();
    let primitive_root = F::generator().unwrap();
    let generator_g = primitive_root.pow(3145728);
    let generator_h = primitive_root.pow(393216);
    let g = generator_g.powers(1024);
    let h = generator_h.powers(8192);
    let points: Vec<(F, F)> = (0..1023).map(|i| (g[i], a[i])).collect();
    let f_poly = lagrange(&points);
    let f_domain: Vec<F> = h.iter().map(|&e| primitive_root.mul(e)).collect();
    let f_eval: Vec<F> = f_domain.iter().map(|&e| f_poly.solve(e)).collect();
    let f_res: Vec<u32> = f_eval.iter().map(|e| e.residue()).collect();
    let f_merkle = Merkle::new(8192, &f_res);
    let mut channel = Channel::new();
    let root = f_merkle.root();
    channel.commit(&encode_digest(&root));
    Pipeline { f_domain, f_eval, channel, f_poly, g }
}

// The composition polynomial for the given coefficients.
fn composition(p: &Pipeline, alpha0: F, alpha1: F, alpha2: F) -> Polynomial<3221225473> {
    let one = F::new(1);
    let g = &p.g;
    let f_poly = &p.f_poly;

    let numer0 = f_poly.sub(&x(one, 0));
    let denom0 = Polynomial::from_coeffs(vec![g[0].neg(), one]);
    let (c0, c0r) = Polynomial::rdiv(numer0, &denom0);
    assert_eq!(c0r.num_coeffs(), 0);

    let numer1 = f_poly.sub(&x(F::new(2338775057), 0));
    let denom1 = Polynomial::from_coeffs(vec![g[1022].neg(), one]);
    let (c1, c1r) = Polynomial::rdiv(numer1, &denom1);
    assert_eq!(c1r.num_coeffs(), 0);

    let t0 = f_poly.apply_const(g[2]);
    let t1 = f_poly.apply_const(g[1]);
    let t1sq = t1.mul(&t1);
    let t2 = f_poly.mul(f_poly);
    let numer2 = t0.sub(&t1sq).sub(&t2);
    let vanish = x(one, 1024).sub(&x(one, 0));
    let excluded = Polynomial::one()
        .mul_linear(g[1021])
        .mul_linear(g[1022])
        .mul_linear(g[1023]);
    let (denom2, zr) = Polynomial::rdiv(vanish, &excluded);
    assert_eq!(zr.num_coeffs(), 0);
    let (c2, c2r) = Polynomial::rdiv(numer2, &denom2);
    assert_eq!(c2r.num_coeffs(), 0);

    assert_eq!(c0.degree(), Some(1021));
    assert_eq!(c1.degree(), Some(1021));
    assert_eq!(c2.degree(), Some(1023));

    c0.scale(alpha0).add(&c1.scale(alpha1)).add(&c2.scale(alpha2))
}

#[test]
fn trace_last_element() {
    let a = trace();
    assert_eq!(a.len(), 1023);
    assert_eq!(a[0].residue(), 1);
    assert_eq!(a[1].residue(), 3141592);
    assert_eq!(a[1022].residue(), 2338775057);
}

#[test]
fn trace_lde_spot_checks() {
    let p = commit_trace();
    assert_eq!(p.f_eval[0].residue(), 576067152);
    assert_eq!(p.f_eval[1].residue(), 3100214617);
    assert_eq!(p.f_eval[8191].residue(), 1076821037);
}

#[test]
fn composition_spot_checks() {
    let p = commit_trace();
    // the canonical composition coefficients
    let cp = composition(&p, F::new(0), F::new(787618507), F::new(2154038926));
    assert_eq!(cp.degree(), Some(1023));
    let spots = [
        (0usize, 551740506u32),
        (1, 716458408),
        (2, 2091260387),
        (8189, 412406999),
        (8190, 782538909),
        (8191, 811632985),
    ];
    for &(i, expect) in &spots {
        assert_eq!(cp.solve(p.f_domain[i]).residue(), expect);
    }
}

#[test]
fn fri_degree_schedule_and_sizes() {
    let mut p = commit_trace();
    let alpha0 = F::new(p.channel.get_u32());
    let alpha1 = F::new(p.channel.get_u32());
    let alpha2 = F::new(p.channel.get_u32());
    let cp = composition(&p, alpha0, alpha1, alpha2);
    let cp_eval: Vec<F> = p.f_domain.iter().map(|&e| cp.solve(e)).collect();
    let cp_res: Vec<u32> = cp_eval.iter().map(|e| e.residue()).collect();
    let cp_merkle = Merkle::new(8192, &cp_res);
    let root = cp_merkle.root();
    p.channel.commit(&encode_digest(&root));

    let expected_degrees = [511usize, 255, 127, 63, 31, 15, 7, 3, 1, 0];
    let expected_sizes = [4096usize, 2048, 1024, 512, 256, 128, 64, 32, 16, 8];

    let mut poly = cp;
    let mut domain = p.f_domain.clone();
    for i in 0..10 {
        let beta = F::new(p.channel.get_u32());
        poly = fri(&poly, beta);
        domain.truncate(domain.len() / 2);
        for e in domain.iter_mut() {
            *e = e.mul(*e);
        }
        let eval: Vec<F> = domain.iter().map(|&e| poly.solve(e)).collect();
        assert_eq!(poly.degree(), Some(expected_degrees[i]));
        assert_eq!(eval.len(), expected_sizes[i]);
        let res: Vec<u32> = eval.iter().map(|e| e.residue()).collect();
        let m = Merkle::new(eval.len(), &res);
        let r = m.root();
        p.channel.commit(&encode_digest(&r));
    }
}

#[test]
fn end_to_end() {
    let proof = generate_proof(Channel::new()).unwrap();
    assert!(proof.verify().is_ok());
    assert!(proof.size() > 32);
}

#[test]
fn mutated_proof_rejected() {
    let proof = generate_proof(Channel::new()).unwrap();
    let n = proof.data.len();
    let mut i = 0usize;
    while i < n {
        let mut data = proof.data.clone();
        data[i] ^= 0x01;
        let mutated = Proof::new(proof.state.clone(), data);
        assert!(mutated.verify().is_err(), "byte {} mutated but accepted", i);
        i += 1;
    }
    // a truncated proof is rejected too
    let mut short = proof.data.clone();
    short.pop();
    assert_eq!(Proof::new(proof.state.clone(), short).verify(), Err(VerifyError::Malformed));
}

#[test]
fn rejection_reasons() {
    let proof = generate_proof(Channel::new()).unwrap();
    let n = proof.data.len();

    // a flipped challenge byte no longer matches the replayed chain
    let mut data = proof.data.clone();
    data[36] ^= 0x01;
    assert_eq!(
        Proof::new(proof.state.clone(), data).verify(),
        Err(VerifyError::Malformed)
    );

    // a flipped opened trace value breaks the composition identity
    let mut data = proof.data.clone();
    data[492] ^= 0x01;
    assert!(matches!(
        Proof::new(proof.state.clone(), data).verify(),
        Err(VerifyError::CompositionMismatch(_))
    ));

    // a flipped digest in the last authentication path breaks only
    // that path
    let mut data = proof.data.clone();
    data[n - 1] ^= 0x01;
    assert_eq!(
        Proof::new(proof.state.clone(), data).verify(),
        Err(VerifyError::AuthPathMismatch(PathTag::FriNx(9)))
    );
}

#[test]
fn determinism() {
    let p1 = generate_proof(Channel::new()).unwrap();
    let p2 = generate_proof(Channel::new()).unwrap();
    assert_eq!(p1.data, p2.data);
    assert_eq!(p1.state, p2.state);
}
