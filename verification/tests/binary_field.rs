use cryptoutils::binary_field::{BinaryElem16, BinaryElem32, BinaryField};

#[test]
fn test_field_multiplication_known_values() {
    // x * x = x^2 and 3 * 3 = 5 (carry-less)
    assert_eq!(BinaryElem16::new(2).mul(BinaryElem16::new(2)), BinaryElem16::new(4));
    assert_eq!(BinaryElem16::new(3).mul(BinaryElem16::new(3)), BinaryElem16::new(5));
    // x^15 * x = x^16 = x^5 + x^3 + x^2 + 1
    assert_eq!(
        BinaryElem16::new(0x8000).mul(BinaryElem16::new(2)),
        BinaryElem16::new(0x002D)
    );
    // x^31 * x = x^32 = x^15 + x^9 + x^7 + x^4 + x^3 + 1
    assert_eq!(
        BinaryElem32::new(0x8000_0000).mul(BinaryElem32::new(2)),
        BinaryElem32::new(0x8299)
    );
}

#[test]
fn test_field_commutative_and_distributive() {
    let xs16: Vec<u16> = vec![0, 1, 2, 3, 0x1234, 0x8001, 0xffff, 0x7a5c];
    for &a in &xs16 {
        for &b in &xs16 {
            let (ea, eb) = (BinaryElem16::new(a), BinaryElem16::new(b));
            assert_eq!(ea.mul(eb), eb.mul(ea));
            for &c in &xs16 {
                let ec = BinaryElem16::new(c);
                assert_eq!(ea.mul(eb.add(ec)), ea.mul(eb).add(ea.mul(ec)));
            }
        }
    }
    let xs32: Vec<u32> = vec![0, 1, 2, 0xdead_beef, 0x8000_0001, 0xffff_ffff, 0x1234_5678];
    for &a in &xs32 {
        for &b in &xs32 {
            let (ea, eb) = (BinaryElem32::new(a), BinaryElem32::new(b));
            assert_eq!(ea.mul(eb), eb.mul(ea));
            for &c in &xs32 {
                let ec = BinaryElem32::new(c);
                assert_eq!(ea.mul(eb.add(ec)), ea.mul(eb).add(ea.mul(ec)));
            }
        }
    }
}

#[test]
fn test_field_inverse() {
    assert!(BinaryElem16::zero().inverse().is_err());
    assert!(BinaryElem32::zero().inverse().is_err());
    for v in [1u16, 2, 3, 0x1234, 0xffff] {
        let e = BinaryElem16::new(v);
        assert_eq!(e.mul(e.inverse().unwrap()), BinaryElem16::one());
    }
    for v in [1u32, 2, 0xdead_beef] {
        let e = BinaryElem32::new(v);
        assert_eq!(e.mul(e.inverse().unwrap()), BinaryElem32::one());
    }
}

#[test]
fn test_field_conversions() {
    assert_eq!(BinaryElem16::from_u128(0x1_2345).value, 0x2345);
    assert_eq!(BinaryElem32::from_u128(0x1_0000_0007).value, 7);
    assert_eq!(BinaryElem16::from_usize(77).value, 77);
    assert_eq!(BinaryElem16::new(0xabcd).to_bytes(), vec![0xcd, 0xab]);
    assert_eq!(BinaryElem32::new(0x0102_0304).to_bytes(), vec![4, 3, 2, 1]);
    assert_eq!(BinaryElem16::bits(), 16);
    assert_eq!(BinaryElem32::bits(), 32);
    assert!(BinaryElem16::new(5).equals(&BinaryElem16::new(5)));
    assert_eq!(BinaryElem16::new(5).add(BinaryElem16::new(5)), BinaryElem16::zero());
}

#[test]
fn test_pow() {
    let x = BinaryElem16::new(2);
    assert_eq!(x.pow(16), BinaryElem16::new(0x002D));
    assert_eq!(x.pow(0), BinaryElem16::one());
    let y = BinaryElem32::new(0x1234_5678);
    assert_eq!(y.pow(2), y.mul(y));
}

#[test]
fn test_field_associative() {
    let xs16: Vec<u16> = vec![0, 1, 2, 3, 6, 0x1234, 0x8001, 0xffff, 0x7a5c];
    for &a in &xs16 {
        for &b in &xs16 {
            for &c in &xs16 {
                let (ea, eb, ec) = (BinaryElem16::new(a), BinaryElem16::new(b), BinaryElem16::new(c));
                assert_eq!(ea.mul(eb).mul(ec), ea.mul(eb.mul(ec)));
            }
        }
    }
    let xs32: Vec<u32> = vec![0, 1, 2, 6, 0xdead_beef, 0x8000_0001, 0xffff_ffff, 0x1234_5678];
    for &a in &xs32 {
        for &b in &xs32 {
            for &c in &xs32 {
                let (ea, eb, ec) = (BinaryElem32::new(a), BinaryElem32::new(b), BinaryElem32::new(c));
                assert_eq!(ea.mul(eb).mul(ec), ea.mul(eb.mul(ec)));
            }
        }
    }
}

#[test]
fn test_inverse_of_interpolation_denominator() {
    let three16 = BinaryElem16::new(3);
    let d16 = three16.mul(three16).add(three16);
    assert_eq!(d16, BinaryElem16::new(6));
    assert_eq!(d16.inverse().unwrap(), BinaryElem16::new(0x7ff2));
    let three32 = BinaryElem32::new(3);
    let d32 = three32.mul(three32).add(three32);
    assert_eq!(d32, BinaryElem32::new(6));
    assert_eq!(d32.inverse().unwrap(), BinaryElem32::new(0x7fff_c0c4));
}

#[test]
fn test_div_by_one_and_inverse() {
    let a = BinaryElem16::new(0x1234);
    assert_eq!(a.div(BinaryElem16::one()), a);
    let b = BinaryElem16::new(0x0F0F);
    assert_eq!(a.div(b).mul(b), a);
    assert!(BinaryElem16::zero().inverse().is_err());
    let c = BinaryElem32::new(0xDEAD_BEEF);
    let d = BinaryElem32::new(0x0102_0304);
    assert_eq!(c.div(BinaryElem32::one()), c);
    assert_eq!(c.div(d).mul(d), c);
    assert!(BinaryElem32::zero().inverse().is_err());
}
