use fdupe::hash::FileHash;
use fdupe::order::{Key, Rank};

fn hash(len: u64, a: u8, b: u8) -> FileHash {
    FileHash { file_len: len, digest_256: [a; 32], digest_512: [b; 64] }
}

#[test]
fn hash_order_length_first() {
    assert_eq!(hash(1, 9, 9).compare(&hash(2, 0, 0)), Rank::Before);
    assert_eq!(hash(3, 0, 0).compare(&hash(2, 9, 9)), Rank::After);
}

#[test]
fn hash_order_then_short_digest_then_long_digest() {
    assert_eq!(hash(5, 1, 9).compare(&hash(5, 2, 0)), Rank::Before);
    assert_eq!(hash(5, 1, 1).compare(&hash(5, 1, 2)), Rank::Before);
    assert_eq!(hash(5, 1, 2).compare(&hash(5, 1, 1)), Rank::After);
    assert_eq!(hash(5, 1, 1).compare(&hash(5, 1, 1)), Rank::Same);
}

#[test]
fn hash_order_looks_at_every_digest_byte() {
    let mut other = hash(5, 1, 1);
    other.digest_512[63] = 2;
    assert_eq!(hash(5, 1, 1).compare(&other), Rank::Before);
    let mut third = hash(5, 1, 1);
    third.digest_256[31] = 0;
    assert_eq!(hash(5, 1, 1).compare(&third), Rank::After);
}

#[test]
fn equal_hashes_have_equal_parts() {
    let a = hash(7, 3, 4);
    let b = hash(7, 3, 4);
    assert_eq!(a, b);
    assert_eq!(a.file_len, b.file_len);
    assert_eq!(a.digest_256, b.digest_256);
    assert_eq!(a.digest_512, b.digest_512);
    assert_ne!(a, hash(7, 3, 5));
}

#[test]
fn hash_order_is_total_on_samples() {
    let samples = vec![hash(0, 0, 0), hash(0, 0, 1), hash(0, 1, 0), hash(1, 0, 0), hash(1, 1, 1)];
    for x in &samples {
        for y in &samples {
            let forth = x.compare(y);
            let back = y.compare(x);
            match forth {
                Rank::Before => assert_eq!(back, Rank::After),
                Rank::After => assert_eq!(back, Rank::Before),
                Rank::Same => {
                    assert_eq!(back, Rank::Same);
                    assert_eq!(x, y);
                }
            }
            let derived = match x.cmp(y) {
                std::cmp::Ordering::Less => Rank::Before,
                std::cmp::Ordering::Equal => Rank::Same,
                std::cmp::Ordering::Greater => Rank::After,
            };
            assert_eq!(forth, derived);
            for z in &samples {
                if forth == Rank::Before && y.compare(z) == Rank::Before {
                    assert_eq!(x.compare(z), Rank::Before);
                }
            }
        }
    }
}

#[test]
fn duplicate_hash_is_equal() {
    assert_eq!(hash(1, 2, 3).duplicate(), hash(1, 2, 3));
}
