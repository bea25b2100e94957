use cryptoutils::binary_field::{BinaryElem16, BinaryField};
use cryptoutils::emulated_fs::FS;
use std::collections::HashSet;
use sha2::{Digest, Sha256};

#[test]
fn test_fs_creation() {
    let fs1 = FS::new(12345);
    let fs2 = FS::new(12345);

    assert_eq!(fs1.counter(), fs2.counter());
    assert_eq!(fs1.counter(), 0);
}

#[test]
fn test_deterministic_behavior() {
    let mut fs1 = FS::new(42);
    let mut fs2 = FS::new(42);

    let val1 = fs1.squeeze();
    let val2 = fs2.squeeze();
    assert_eq!(val1, val2);

    let val3 = fs1.squeeze();
    let val4 = fs2.squeeze();
    assert_eq!(val3, val4);

    assert_ne!(val1, val3);
}

#[test]
fn test_absorb_affects_output() {
    let mut fs1 = FS::new(1234);
    let mut fs2 = FS::new(1234);

    fs1.absorb(b"hello");
    fs2.absorb(b"world");

    let val1 = fs1.squeeze();
    let val2 = fs2.squeeze();
    assert_ne!(val1, val2);
}

#[test]
fn test_absorb_order_matters() {
    let mut fs1 = FS::new(1234);
    let mut fs2 = FS::new(1234);

    fs1.absorb(b"hello");
    fs1.absorb(b"world");

    fs2.absorb(b"world");
    fs2.absorb(b"hello");

    let val1 = fs1.squeeze();
    let val2 = fs2.squeeze();
    assert_ne!(val1, val2);
}

#[test]
fn test_state_preservation() {
    let mut fs = FS::new(5678);

    fs.absorb(b"initial data");
    let _val1 = fs.squeeze();

    fs.absorb(b"additional data");
    let val2 = fs.squeeze();

    let mut fs_fresh = FS::new(5678);
    fs_fresh.absorb(b"initial data");
    fs_fresh.squeeze();
    fs_fresh.absorb(b"additional data");
    let val2_fresh = fs_fresh.squeeze();

    assert_eq!(val2, val2_fresh);
}

#[test]
fn test_get_field() {
    let mut fs = FS::new(9999);

    let field1: BinaryElem16 = fs.get_field();
    let field2: BinaryElem16 = fs.get_field();

    assert_ne!(field1.value, field2.value);

    let mut fs2 = FS::new(9999);
    let field1_repeat: BinaryElem16 = fs2.get_field();
    let field2_repeat: BinaryElem16 = fs2.get_field();

    assert_eq!(field1.value, field1_repeat.value);
    assert_eq!(field2.value, field2_repeat.value);
}

#[test]
fn test_get_query() {
    let mut fs = FS::new(1111);

    for n in [1, 5, 10, 100] {
        for _ in 0..20 {
            let query = fs.get_query(n);
            assert!(query < n, "Query {} should be less than {}", query, n);
        }
    }
}

#[test]
fn test_get_query_deterministic() {
    let mut fs1 = FS::new(2222);
    let mut fs2 = FS::new(2222);

    for n in [3, 7, 15] {
        let q1 = fs1.get_query(n);
        let q2 = fs2.get_query(n);
        assert_eq!(q1, q2);
    }
}

#[test]
fn test_get_distinct_queries() {
    let mut fs = FS::new(3333);

    let n = 10;
    let s = 5;
    let queries = fs.get_distinct_queries(n, s);

    assert_eq!(queries.len(), s);

    for &q in &queries {
        assert!(q < n, "Query {} should be less than {}", q, n);
    }

    let unique_count = queries.iter().collect::<HashSet<_>>().len();
    assert_eq!(unique_count, s);
}

#[test]
fn test_get_distinct_queries_edge_cases() {
    let mut fs = FS::new(4444);

    let n = 5;
    let s = 5;
    let queries = fs.get_distinct_queries(n, s);

    assert_eq!(queries.len(), s);
    let unique_count = queries.iter().collect::<HashSet<_>>().len();
    assert_eq!(unique_count, s);

    let mut sorted_queries = queries.clone();
    sorted_queries.sort();
    assert_eq!(sorted_queries, vec![0, 1, 2, 3, 4]);
}

#[test]
fn test_get_distinct_queries_deterministic() {
    let mut fs1 = FS::new(5555);
    let mut fs2 = FS::new(5555);

    let queries1 = fs1.get_distinct_queries(20, 8);
    let queries2 = fs2.get_distinct_queries(20, 8);

    assert_eq!(queries1, queries2);
}

#[test]
fn test_counter_increments() {
    let mut fs = FS::new(6666);

    assert_eq!(fs.counter(), 0);

    fs.squeeze();
    assert_eq!(fs.counter(), 1);

    fs.squeeze();
    assert_eq!(fs.counter(), 2);

    let _: BinaryElem16 = fs.get_field();
    assert_eq!(fs.counter(), 3);

    fs.get_query(10);
    assert_eq!(fs.counter(), 4);
}

#[test]
fn test_different_seeds_different_output() {
    let mut fs1 = FS::new(111);
    let mut fs2 = FS::new(222);

    let val1 = fs1.squeeze();
    let val2 = fs2.squeeze();

    assert_ne!(val1, val2);

    let field1: BinaryElem16 = fs1.get_field();
    let field2: BinaryElem16 = fs2.get_field();

    assert_ne!(field1.value, field2.value);
}

#[test]
fn test_integration_fiat_shamir_pattern() {
    let mut fs = FS::new(12345);

    fs.absorb(b"commitment_1");
    fs.absorb(b"commitment_2");

    let challenge1: BinaryElem16 = fs.get_field();

    fs.absorb(&challenge1.to_bytes());
    fs.absorb(b"response_data");

    let challenge2: BinaryElem16 = fs.get_field();

    let queries = fs.get_distinct_queries(100, 10);

    let mut fs2 = FS::new(12345);
    fs2.absorb(b"commitment_1");
    fs2.absorb(b"commitment_2");
    let challenge1_repeat: BinaryElem16 = fs2.get_field();
    fs2.absorb(&challenge1_repeat.to_bytes());
    fs2.absorb(b"response_data");
    let challenge2_repeat: BinaryElem16 = fs2.get_field();
    let queries_repeat = fs2.get_distinct_queries(100, 10);

    assert_eq!(challenge1.value, challenge1_repeat.value);
    assert_eq!(challenge2.value, challenge2_repeat.value);
    assert_eq!(queries, queries_repeat);
}

#[test]
fn test_squeeze_is_sha256_of_transcript() {
    let mut fs = FS::new(7);
    fs.absorb(b"abc");
    let v = fs.squeeze();
    let mut data = 7u32.to_le_bytes().to_vec();
    data.extend_from_slice(b"abc");
    data.extend_from_slice(&0u32.to_le_bytes());
    let digest = Sha256::digest(&data);
    let mut head = [0u8; 16];
    head.copy_from_slice(&digest[..16]);
    assert_eq!(v, u128::from_le_bytes(head));
    // the counter bytes stay in the transcript
    let v2 = fs.squeeze();
    data.extend_from_slice(&1u32.to_le_bytes());
    let digest2 = Sha256::digest(&data);
    head.copy_from_slice(&digest2[..16]);
    assert_eq!(v2, u128::from_le_bytes(head));
}

#[test]
fn test_get_field_truncates_squeeze() {
    let mut fs1 = FS::new(31337);
    let mut fs2 = FS::new(31337);
    let v = fs1.squeeze();
    let f: BinaryElem16 = fs2.get_field();
    assert_eq!(f.value, v as u16);
    let q = fs2.get_query(1000);
    assert_eq!(q, (fs1.squeeze() as usize) % 1000);
}
