use slowrsa::prime::{
    accept_candidate, full_width_odd, has_small_factor, rand_prime, small_primes, split_twos, witness_passes,
};
use slowrsa::uint::Uint;

fn passes_all(n: u64, witnesses: &[u64]) -> bool {
    let num = Uint::from(n);
    let dec = Uint::from(n - 1);
    let (d, k) = split_twos(&dec, 64);
    let ws: Vec<Uint> = witnesses.iter().map(|w| Uint::from(*w)).collect();
    accept_candidate(&num, &d, k, &ws)
}

#[test]
fn accepts_primes() {
    for p in [97u64, 1013, 1019, 1021, 65537, 2305843009213693951] {
        assert!(passes_all(p, &[2, 3, 5, 7, 11, 13]), "{}", p);
    }
}

#[test]
fn rejects_composites() {
    assert!(has_small_factor(&Uint::from(91)));
    assert!(has_small_factor(&Uint::from(1001)));
    for n in [91u64, 1001, 1040399, 561, 1105] {
        assert!(!passes_all(n, &[2, 3, 5, 7, 11, 13]), "{}", n);
    }
}

#[test]
fn strong_liar_is_caught_by_another_witness() {
    let num = Uint::from(91);
    let (d, k) = split_twos(&Uint::from(90), 64);
    assert!(witness_passes(&num, &Uint::from(10), &d, k));
    assert!(!witness_passes(&num, &Uint::from(2), &d, k));
}

#[test]
fn split_twos_factors() {
    let (d, k) = split_twos(&Uint::from(96), 64);
    assert_eq!(d, Uint::from(3));
    assert_eq!(k, 5);
}

#[test]
fn small_prime_table_bounds() {
    let t = small_primes();
    assert_eq!(t.len(), 169);
    assert_eq!(t[0], 3);
    assert_eq!(t[168], 1013);
    assert!(!has_small_factor(&Uint::from(1019 * 1021)));
    assert!(!has_small_factor(&Uint::from(97)));
    assert!(!has_small_factor(&Uint::from(1013)));
    assert!(has_small_factor(&Uint::from(3 * 1013)));
}

#[test]
fn candidate_is_odd_and_full_width() {
    let v = full_width_odd(Uint::from(6), 10);
    assert_eq!(v, Uint::from(512 + 7));
    let v = full_width_odd(Uint::zero(), 3);
    assert_eq!(v, Uint::from(5));
    let v = full_width_odd(Uint::from(3), 4);
    assert_eq!(v, Uint::from(11));
}

#[test]
fn random_prime_has_requested_width() {
    let p = rand_prime(64, 6, 100000).unwrap();
    assert!(p.get_bit(63));
    assert!(p.get_bit(0));
    assert_eq!(p.top_bit(), 64);
    assert!(!has_small_factor(&p));
}
