use stark101::field::{is_prime_u32, Gf};
use stark101::F;

#[test]
fn generator_test() {
    let g = Gf::<4391>::generator().unwrap();
    assert_eq!(g.order(), Some(4390));

    // Touch all elems once, except for elems[0]
    let mut elems = [false; 4391];
    for i in 0..4390 {
        let e = g.pow(i).residue() as usize;
        assert_eq!(elems[e], false);
        elems[e] = true;
    }
    assert_eq!(elems[0], false);
}

#[test]
fn generator_of_protocol_field() {
    let g = F::generator().unwrap();
    assert_eq!(g.residue(), 5);
}

#[test]
fn generator_is_smallest_primitive_root() {
    // For a handful of small primes the returned generator is the
    // known least primitive root.
    assert_eq!(Gf::<7>::generator().unwrap().residue(), 3);
    assert_eq!(Gf::<11>::generator().unwrap().residue(), 2);
    assert_eq!(Gf::<13>::generator().unwrap().residue(), 2);
    assert_eq!(Gf::<17>::generator().unwrap().residue(), 3);
    assert_eq!(Gf::<23>::generator().unwrap().residue(), 5);
    assert_eq!(Gf::<101>::generator().unwrap().residue(), 2);
}

#[test]
fn subgroup_orders() {
    let g = F::generator().unwrap();
    assert_eq!(g.pow(3145728).order(), Some(1024));
    assert_eq!(g.pow(393216).order(), Some(8192));
}

#[test]
fn field_arithmetic_basics() {
    let p: u64 = 3221225473;
    let a = F::new(3221225472);
    let b = F::new(5);
    assert_eq!(a.add(b).residue(), ((3221225472u64 + 5) % p) as u32);
    assert_eq!(a.mul(b).residue(), ((3221225472u64 * 5) % p) as u32);
    assert_eq!(b.sub(a).residue(), 6);
    assert_eq!(F::from_i32(-1).residue(), 3221225472);
    let inv = b.inv();
    assert_eq!(b.mul(inv).residue(), 1);
    assert_eq!(b.pow(0).residue(), 1);
    assert_eq!(F::zero().pow(0).residue(), 1);
}

#[test]
fn primality_check() {
    assert!(is_prime_u32(3221225473));
    assert!(is_prime_u32(4391));
    assert!(is_prime_u32(2));
    assert!(!is_prime_u32(1));
    assert!(!is_prime_u32(4390));
    assert!(!is_prime_u32(3221225475));
}
