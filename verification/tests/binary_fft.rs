use cryptoutils::binary_fft::{compute_twiddles, fft, ifft};
use cryptoutils::binary_field::{BinaryElem16, BinaryField};

#[test]
fn test_compute_twiddles_matches_julia() {
    let twiddles = compute_twiddles::<BinaryElem16>(10, None);

    // The first twiddles of the transform on 2^10 points.
    let expected_start = [0x0000, 0x0000, 0x6ba9, 0x0000, 0x6a23];

    assert_eq!(twiddles.len(), 1023);
    for (i, &expected) in expected_start.iter().enumerate() {
        assert_eq!(twiddles[i].value, expected, "Mismatch at index {}", i);
    }
}

#[test]
fn test_fft_ifft_roundtrip() {
    let log_n = 4;
    let twiddles = compute_twiddles::<BinaryElem16>(log_n, None);
    let mut v: Vec<BinaryElem16> = (1..=16u16).map(BinaryElem16::new).collect();
    let input = v.clone();

    fft(&mut v, &twiddles, None);
    ifft(&mut v, &twiddles);

    assert_eq!(v, input, "FFT->IFFT should be identity transform");
}

#[test]
fn test_ifft_fft_roundtrip() {
    let twiddles = compute_twiddles::<BinaryElem16>(5, None);
    let mut v: Vec<BinaryElem16> = (0..32u16).map(|i| BinaryElem16::new(i * 977 + 5)).collect();
    let input = v.clone();
    ifft(&mut v, &twiddles);
    fft(&mut v, &twiddles, None);
    assert_eq!(v, input);
}

#[test]
fn test_fft_is_linear() {
    let twiddles = compute_twiddles::<BinaryElem16>(4, None);
    let l = BinaryElem16::new(0x1d3);
    let mut a: Vec<BinaryElem16> = (0..16u16).map(|i| BinaryElem16::new(i * 31 + 1)).collect();
    let mut b: Vec<BinaryElem16> = (0..16u16).map(|i| BinaryElem16::new(i * i + 7)).collect();
    let mut c: Vec<BinaryElem16> = a.iter().zip(b.iter()).map(|(&x, &y)| x.add(l.mul(y))).collect();
    fft(&mut a, &twiddles, None);
    fft(&mut b, &twiddles, None);
    fft(&mut c, &twiddles, None);
    for i in 0..16 {
        assert_eq!(c[i], a[i].add(l.mul(b[i])));
    }
}
