use slowrsa::key::{keygen_with_bits, keys_from_primes, modinv, PrivKey, PubKey, PUBLIC_EXPONENT};
use slowrsa::uint::Uint;

fn parse(s: &str) -> Uint {
    Uint::from_str(s).unwrap()
}

#[test]
fn modinv_finds_inverse() {
    let r = modinv(&Uint::from(3), &Uint::from(11));
    assert_eq!(r, Uint::from(4));
    let r = modinv(&Uint::from(65537), &Uint::from(3120));
    assert_eq!(r, Uint::from(2753));
}

#[test]
fn modinv_of_non_coprime_gives_gcd() {
    // 6 and 9 share the factor 3: r * 6 is 3 modulo 9
    let r = modinv(&Uint::from(6), &Uint::from(9));
    assert_eq!(r.mul(&Uint::from(6)).rem(&Uint::from(9)), Uint::from(3));
}

#[test]
fn textbook_keys_round_trip() {
    // p = 61, q = 53: n = 3233, phi = 3120, d = 2753
    let (sk, pk) = keys_from_primes(&Uint::from(61), &Uint::from(53)).unwrap();
    assert_eq!(sk.n(), &Uint::from(3233));
    assert_eq!(pk.n(), &Uint::from(3233));
    assert_eq!(pk.e(), &Uint::from(PUBLIC_EXPONENT));
    assert_eq!(sk.d(), &Uint::from(2753));
    let c = pk.encrypt("41").unwrap();
    assert_eq!(parse(&c), Uint::from(65).mod_pow(&Uint::from(65537), &Uint::from(3233)));
    let m = sk.decrypt(&c).unwrap();
    assert_eq!(parse(&m), Uint::from(0x41));
}

#[test]
fn keys_refused_when_exponent_shares_factor() {
    // p = 3, q = 2: phi = 2, and 65537 is odd, so this one works
    assert!(keys_from_primes(&Uint::from(3), &Uint::from(2)).is_some());
    // p = 65539 (prime), q = 3: phi = 65538 * 2, gcd(65537, 131076) = 1
    assert!(keys_from_primes(&Uint::from(65539), &Uint::from(3)).is_some());
    // p = 131075: p - 1 = 131074 = 2 * 65537
    assert!(keys_from_primes(&Uint::from(131075), &Uint::from(3)).is_none());
}

#[test]
fn generated_keys_round_trip() {
    let (sk, pk) = keygen_with_bits(64, 6).unwrap();
    let c = pk.encrypt("2A").unwrap();
    let m = sk.decrypt(&c).unwrap();
    assert_eq!(parse(&m), parse("2A"));
    assert_eq!(m.trim_start_matches('0'), "2A");
}

#[test]
fn generated_keys_are_consistent() {
    let (sk, pk) = keygen_with_bits(64, 6).unwrap();
    let n = sk.n();
    assert_eq!(n, pk.n());
    assert!(n.top_bit() >= 127);
    let m = parse("123456789ABCDEF");
    let c = m.mod_pow(pk.e(), n);
    assert!(!c.equals(&m));
    assert_eq!(c.mod_pow(sk.d(), n), m);
}

#[test]
fn key_text_is_checked() {
    assert!(PrivKey::from_str("C1", "ADD").is_ok());
    assert!(PrivKey::from_str("", "1").is_err());
    assert!(PrivKey::from_str("C1", "Q").is_err());
    let zero_mod = PrivKey::from_str("0", "1").unwrap();
    assert!(zero_mod.decrypt("5").is_err());
    let zero_pub = PubKey::from_str("0", "1").unwrap();
    assert!(zero_pub.encrypt("5").is_err());
    assert!(PubKey::from_str("C1", "10001").is_ok());
    assert!(PubKey::from_str("C1", "").is_err());
    let pk = PubKey::from_str("C1", "3").unwrap();
    assert!(pk.encrypt("zz").is_err());
    assert_eq!(pk.encrypt("2").unwrap(), "0000000000000008");
    let sk = PrivKey::from_str("C1", "3").unwrap();
    assert!(sk.decrypt("").is_err());
    assert_eq!(sk.decrypt("3").unwrap(), "000000000000001B");
}
