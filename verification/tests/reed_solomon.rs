use cryptoutils::binary_field::{BinaryElem16, BinaryElem32};
use cryptoutils::reed_solomon::ReedSolomonEncoding;
use cryptoutils::binary_fft::{eval_sk_at_vks, evaluate_basis};
use cryptoutils::binary_field::BinaryField;

#[test]
fn test_reed_solomon_systematic() {
    let rs = ReedSolomonEncoding::<BinaryElem16>::new(1024, 4096);
    let message: Vec<BinaryElem16> = (1..=1024).map(|i| BinaryElem16::new(i as u16)).collect();
    let encoded = rs.encode(&message);
    assert_eq!(message, encoded[0..message.len()]);
}

#[test]
fn test_reed_solomon_non_systematic() {

    let rs = ReedSolomonEncoding::<BinaryElem16>::new(1024, 4096);

    let a_cfs: Vec<BinaryElem16> = (1..=1024).map(|i| BinaryElem16::new(i as u16)).collect();
    let b_cfs: Vec<BinaryElem16> = (1025..=2048).map(|i| BinaryElem16::new(i as u16)).collect();

    let l = BinaryElem16::new(42);

    let c_cfs: Vec<BinaryElem16> = a_cfs
        .iter()
        .zip(b_cfs.iter())
        .map(|(&a, &b)| a.add(l.mul(b)))
        .collect();

    let mut a_padded = vec![BinaryElem16::zero(); 4096];
    let mut b_padded = vec![BinaryElem16::zero(); 4096];
    a_padded[0..1024].copy_from_slice(&a_cfs);
    b_padded[0..1024].copy_from_slice(&b_cfs);

    rs.encode_non_systematic(&mut a_padded);
    rs.encode_non_systematic(&mut b_padded);

    let x = 100usize;
    let xf = BinaryElem16::new(x as u16);

    let sks_vks = eval_sk_at_vks::<BinaryElem16>(1024);
    let basis = evaluate_basis(1024, &sks_vks, xf);
    let c_at_x: BinaryElem16 = c_cfs
        .iter()
        .zip(basis.iter())
        .map(|(&c, &b)| c.mul(b))
        .fold(BinaryElem16::zero(), |acc, val| acc.add(val));

    let a_row_opening = a_padded[x];
    let b_row_opening = b_padded[x];
    let result = a_row_opening.add(l.mul(b_row_opening));

    assert_eq!(result, c_at_x);
}

#[test]
fn test_reed_solomon_lengths() {
    let rs = ReedSolomonEncoding::<BinaryElem16>::new(16, 64);
    assert_eq!(rs.message_length(), 16);
    assert_eq!(rs.block_length(), 64);
    assert_eq!(rs.log_message_length(), 4);
    assert_eq!(rs.log_block_length(), 6);
}

#[test]
fn test_non_systematic_encoding_is_linear() {
    let rs = ReedSolomonEncoding::<BinaryElem16>::new(16, 64);
    let l = BinaryElem16::new(0x5a5a);
    let mut a: Vec<BinaryElem16> = (0..64u16).map(|i| BinaryElem16::new(if i < 16 { 3 * i + 1 } else { 0 })).collect();
    let mut b: Vec<BinaryElem16> = (0..64u16).map(|i| BinaryElem16::new(if i < 16 { 1000 + i * i } else { 0 })).collect();
    let mut c: Vec<BinaryElem16> = a.iter().zip(b.iter()).map(|(&x, &y)| x.add(l.mul(y))).collect();
    rs.encode_non_systematic(&mut a);
    rs.encode_non_systematic(&mut b);
    rs.encode_non_systematic(&mut c);
    for i in 0..64 {
        assert_eq!(c[i], a[i].add(l.mul(b[i])));
    }
}

#[test]
fn test_code_evaluates_every_position_16() {
    let rs = ReedSolomonEncoding::<BinaryElem16>::new(8, 32);
    let msg: Vec<BinaryElem16> = (0..8).map(|i| BinaryElem16::new((i * 7919 + 13) as u16)).collect();
    let mut padded = vec![BinaryElem16::zero(); 32];
    padded[0..8].copy_from_slice(&msg);
    rs.encode_non_systematic(&mut padded);
    let sks_vks = eval_sk_at_vks::<BinaryElem16>(8);
    for q in 0..32usize {
        let basis = evaluate_basis(8, &sks_vks, BinaryElem16::new(q as u16));
        let expected = msg
            .iter()
            .zip(basis.iter())
            .fold(BinaryElem16::zero(), |acc, (&c, &b)| acc.add(c.mul(b)));
        assert_eq!(padded[q], expected);
    }
}

#[test]
fn test_code_evaluates_every_position_32() {
    let rs = ReedSolomonEncoding::<BinaryElem32>::new(16, 64);
    let msg: Vec<BinaryElem32> = (0..16).map(|i| BinaryElem32::new((i * 2654435761u64 % 4294967291) as u32)).collect();
    let mut padded = vec![BinaryElem32::zero(); 64];
    padded[0..16].copy_from_slice(&msg);
    rs.encode_non_systematic(&mut padded);
    let sks_vks = eval_sk_at_vks::<BinaryElem32>(16);
    for q in 0..64usize {
        let basis = evaluate_basis(16, &sks_vks, BinaryElem32::new(q as u32));
        let expected = msg
            .iter()
            .zip(basis.iter())
            .fold(BinaryElem32::zero(), |acc, (&c, &b)| acc.add(c.mul(b)));
        assert_eq!(padded[q], expected);
    }
}
