use slowrsa::uint::Uint;
use std::cmp::Ordering;

fn hex(v: &Uint) -> String {
    v.to_hex()
}

fn parse(s: &str) -> Uint {
    Uint::from_str(s).unwrap()
}

#[test]
fn test_add() {
    let a = Uint::from(100000000000000000u64);
    let b = Uint::from(200000000000000000u64);

    let sum = a.add(&b);
    println!("ADD: {:?}", sum);
    assert_eq!(sum, Uint::from(300000000000000000u64));
    assert_eq!(hex(&sum), "0429D069189E0000");
}

#[test]
fn test_mul() {
    let a = Uint::from(100000000000000000u64);
    let b = Uint::from(200000000000000000u64);

    let prod = a.mul(&b);
    println!("MUL: {}", prod.to_hex());
    assert_eq!(prod.to_hex(), "0003DA137D5B0F806F1B1CC800000000");
}

#[test]
fn test_sub() {
    let a = Uint::from(100000000000000000u64);
    let b = Uint::from(200000000000000000u64);
    let a2 = Uint::from(100000000000000000u64);
    let b2 = Uint::from(300000000000000000u64);

    let c = a.mul(&b);
    let c2 = a2.mul(&b2);
    println!("SUB1: {:?}", c);
    println!("SUB2: {:?}", c2);

    let diff = c2.sub(&c);
    println!("SUB: {:?}", diff);
    assert_eq!(diff.to_hex(), "0001ED09BEAD87C0378D8E6400000000");
}

#[test]
fn test_shl() {
    let a = Uint::from(100000000000000000u64);
    let b = Uint::from(200000000000000000u64);

    let sa = a.shl(100);
    let sb = b.shl(99);
    println!("{:?}", sa);
    println!("{:?}", sb);
    assert_eq!(sa.to_hex(), "0000000016345785D8A00000000000000000000000000000");
    assert_eq!(sa, sb);
}

#[test]
fn test_cmp() {
    let a = Uint::from(100000000000000000u64);
    let b = Uint::from(200000000000000000u64);
    let c = Uint::from(300000000000000000u64);

    let less = a.mul(&b).lt(&a.mul(&c));
    println!("{:?}", less);
    assert!(less);
}

#[test]
fn test_divrem() {
    let a = Uint::from(100);
    let b = Uint::from(17);

    let (q, r) = a.divrem(&b);
    println!("DIVREM: {:?}", (&q, &r));
    assert_eq!(q, Uint::from(5));
    assert_eq!(r, Uint::from(15));
}

#[test]
fn test_pow() {
    let a = Uint::from(109324580);
    let b = Uint::from(16);
    let c = Uint::from(4023108);

    let r = a.mod_pow(&b, &c);
    println!("MODPOW: {:?}", r);
    assert_eq!(r, Uint::from(1671520));
}

#[test]
fn zero_is_canonical() {
    assert_eq!(Uint::from(0), Uint::zero());
    assert_eq!(Uint::from(5).sub(&Uint::from(5)), Uint::zero());
    assert!(Uint::from(7).sub(&Uint::from(3)).add(&Uint::from(0)) == Uint::from(4));
    assert!(Uint::zero().is_zero());
    assert_eq!(Uint::zero().to_hex(), "0");
}

#[test]
fn sub_clamps_to_zero() {
    let a = Uint::from(3);
    let b = parse("10000000000000000");
    assert_eq!(a.sub(&b), Uint::zero());
    assert_eq!(Uint::from(2).sub(&Uint::from(9)), Uint::zero());
}

#[test]
fn add_then_sub_gives_back() {
    let a = parse("123456789ABCDEF0123456789ABCDEF0FFFF");
    let b = parse("FFFFFFFFFFFFFFFFFFFFFFFFFFFFFFFFFFFFFFFFFF");
    assert_eq!(a.add(&b).sub(&b), a);
    assert_eq!(b.add(&a).sub(&a), b);
}

#[test]
fn add_carries_across_limbs() {
    let a = parse("FFFFFFFFFFFFFFFFFFFFFFFFFFFFFFFF");
    let one = Uint::from(1);
    assert_eq!(a.add(&one).to_hex(), "000000000000000100000000000000000000000000000000");
    assert_eq!(a.add(&one).sub(&one), a);
}

#[test]
fn mul_then_divrem_gives_back() {
    let a = parse("DEADBEEFCAFEBABE0123456789");
    let b = parse("FEDCBA98765432100011");
    let (q, r) = a.mul(&b).divrem(&b);
    assert_eq!(q, a);
    assert!(r.is_zero());
}

#[test]
fn mul_by_sparse_multiplier() {
    let a = Uint::from(3);
    let b = parse("500000000000000000000000000000000");
    assert_eq!(a.mul(&b).to_hex(), "000000000000000F00000000000000000000000000000000");
}

#[test]
fn division_identity() {
    let a = parse("1234567890ABCDEF1234567890ABCDEF1234");
    let b = parse("FEDCBA987");
    let (q, r) = a.divrem(&b);
    assert_eq!(q.mul(&b).add(&r), a);
    assert!(r.lt(&b));
    assert_eq!(a.div(&b), q);
    assert_eq!(a.rem(&b), r);
}

#[test]
fn divide_by_larger_keeps_dividend() {
    let a = Uint::from(12);
    let b = Uint::from(40);
    let (q, r) = a.divrem(&b);
    assert!(q.is_zero());
    assert_eq!(r, a);
}

#[test]
fn cmp_orders_by_value() {
    let small = Uint::from(u64::MAX);
    let big = parse("10000000000000000");
    assert_eq!(small.cmp(&big), Ordering::Less);
    assert_eq!(big.cmp(&small), Ordering::Greater);
    let x = parse("20000000000000001");
    let y = parse("10000000000000002");
    assert_eq!(x.cmp(&y), Ordering::Greater);
    assert_eq!(y.cmp(&x), Ordering::Less);
    assert_eq!(x.cmp(&x.duplicate()), Ordering::Equal);
    assert!(x.equals(&x.duplicate()));
    assert!(!x.equals(&y));
}

#[test]
fn bits_read_and_write() {
    let mut v = Uint::zero();
    v.set_bit(70, true);
    assert!(v.get_bit(70));
    assert!(!v.get_bit(69));
    assert!(!v.get_bit(500));
    assert_eq!(v.to_hex(), "00000000000000400000000000000000");
    v.set_bit(0, true);
    assert_eq!(v.top_bit(), 71);
    v.set_bit(70, false);
    assert_eq!(v, Uint::from(1));
    assert_eq!(v.top_bit(), 1);
    assert_eq!(Uint::zero().top_bit(), 0);
    assert_eq!(Uint::from(255).top_bit(), 8);
}

#[test]
fn shifts_move_bits() {
    let v = parse("ABCDEF0123456789ABCDEF");
    assert_eq!(v.shl(37).shr(37), v);
    assert_eq!(v.shr(4), parse("ABCDEF0123456789ABCDE"));
    assert_eq!(v.shl(4), parse("ABCDEF0123456789ABCDEF0"));
    assert_eq!(v.shr(200), Uint::zero());
}

#[test]
fn shift_add_places_limbs() {
    let a = Uint::from(1);
    let b = Uint::from(2);
    assert_eq!(a.shift_add(&b, 2).to_hex(), "000000000000000200000000000000000000000000000001");
}

#[test]
fn mul_limb_scales() {
    let v = parse("FFFFFFFFFFFFFFFF");
    assert_eq!(v.mul_limb(u64::MAX).to_hex(), "FFFFFFFFFFFFFFFE0000000000000001");
}

#[test]
fn mod_sub_wraps() {
    let m = Uint::from(11);
    assert_eq!(Uint::from(3).mod_sub(&Uint::from(5), &m), Uint::from(9));
    assert_eq!(Uint::from(5).mod_sub(&Uint::from(3), &m), Uint::from(2));
    assert_eq!(Uint::from(3).mod_sub(&Uint::from(27), &m), Uint::from(9));
}

#[test]
fn mod_pow_brute_force() {
    for m in 1u64..14 {
        for base in 0u64..15 {
            let mut expect: u64 = 1 % m;
            for exp in 0u64..12 {
                let got = Uint::from(base).mod_pow(&Uint::from(exp), &Uint::from(m));
                assert_eq!(got, Uint::from(expect), "{}^{} mod {}", base, exp, m);
                expect = expect * base % m;
            }
        }
    }
}

#[test]
fn mod_pow_zero_exponent_is_one() {
    assert_eq!(Uint::from(0).mod_pow(&Uint::zero(), &Uint::from(7)), Uint::from(1));
    assert_eq!(Uint::from(123).mod_pow(&Uint::zero(), &Uint::from(1000)), Uint::from(1));
}

#[test]
fn hex_round_trip() {
    for text in ["1", "2A", "FFFFFFFFFFFFFFFF", "10000000000000000", "DEADBEEF0000000000000000CAFE"] {
        let v = parse(text);
        assert_eq!(parse(&v.to_hex()), v);
    }
    let z = Uint::zero();
    assert_eq!(parse(&z.to_hex()), z);
}

#[test]
fn hex_width_follows_limbs() {
    assert_eq!(Uint::from(255).to_hex(), "00000000000000FF");
    assert_eq!(Uint::from(255).mul_limb(0), Uint::zero());
    let two_limbs = parse("10000000000000000");
    assert_eq!(two_limbs.to_hex().len(), 32);
    assert!(!two_limbs.get_bit(128));
}

#[test]
fn hex_reads_either_case() {
    assert_eq!(parse("abcdef"), parse("ABCDEF"));
    assert_eq!(parse("00002a"), Uint::from(42));
    assert_eq!(Uint::from(42).to_hex(), "000000000000002A");
}

#[test]
fn hex_rejects_bad_text() {
    assert!(Uint::from_str("").is_err());
    assert!(Uint::from_str("12G4").is_err());
    assert!(Uint::from_str("0x12").is_err());
    assert!(Uint::from_str(" 12").is_err());
}

#[test]
fn rand_stays_below_its_width() {
    let v = Uint::rand(2);
    assert!(v.lt(&parse("100000000000000000000000000000000")));
    assert!(Uint::rand(0).is_zero());
}
