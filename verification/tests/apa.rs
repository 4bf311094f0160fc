use std::cmp::Ordering;
use lumindd::apa::{add_ref, scalar_mul, shl_ref, sub_ref};
use lumindd::ApInt;

#[test]
fn test_basic() {
    assert_eq!(ApInt::zero().to_string(), "0");
    assert_eq!(ApInt::one().to_string(), "1");
    assert_eq!(ApInt::from_u64(123456789).to_string(), "123456789");
}

#[test]
fn test_two_power() {
    assert_eq!(ApInt::two_power(0).to_string(), "1");
    assert_eq!(ApInt::two_power(10).to_string(), "1024");
    assert_eq!(ApInt::two_power(32).to_string(), "4294967296");
    assert_eq!(ApInt::two_power(64).to_string(), "18446744073709551616");
}

#[test]
fn test_add_sub() {
    let a = ApInt::from_u64(u64::MAX);
    let b = ApInt::one();
    let c = &a + &b;
    assert_eq!(c.to_string(), "18446744073709551616"); // 2^64
    let d = &c - &b;
    assert_eq!(d, a);
}

#[test]
fn test_shift() {
    let one = ApInt::one();
    let shifted = &one << 100;
    assert_eq!(shifted, ApInt::two_power(100));
}

#[test]
fn test_scalar_mul() {
    let a = ApInt::from_u64(1_000_000_000);
    let b = &a * 1_000_000_000u32;
    assert_eq!(b.to_string(), "1000000000000000000");
}

#[test]
fn test_ord() {
    assert!(ApInt::zero() < ApInt::one());
    assert!(ApInt::two_power(100) > ApInt::two_power(99));
}

#[test]
fn apa_from_u64_digits() {
    assert_eq!(ApInt::from_u64(0).digits, Vec::<u32>::new());
    assert_eq!(ApInt::from_u64(5).digits, vec![5]);
    assert_eq!(ApInt::from_u64(0x1_0000_0003).digits, vec![3, 1]);
}

#[test]
fn apa_two_power_digits() {
    assert_eq!(ApInt::two_power(33).digits, vec![0, 2]);
    assert_eq!(ApInt::two_power(31).digits, vec![0x8000_0000]);
}

#[test]
fn apa_is_zero_and_bit_length() {
    assert!(ApInt::zero().is_zero());
    assert!(!ApInt::one().is_zero());
    assert_eq!(ApInt::zero().bit_length(), 0);
    assert_eq!(ApInt::one().bit_length(), 1);
    assert_eq!(ApInt::from_u64(255).bit_length(), 8);
    assert_eq!(ApInt::two_power(64).bit_length(), 65);
}

#[test]
fn apa_trim_removes_high_zeros() {
    let mut a = ApInt { digits: vec![7, 0, 0] };
    a.trim();
    assert_eq!(a.digits, vec![7]);
    let mut z = ApInt { digits: vec![0, 0] };
    z.trim();
    assert!(z.is_zero());
}

#[test]
fn apa_add_carries_and_trims() {
    let a = ApInt { digits: vec![0xFFFF_FFFF, 0xFFFF_FFFF] };
    let b = ApInt { digits: vec![1, 0, 0] };
    let c = add_ref(&a, &b);
    assert_eq!(c.digits, vec![0, 0, 1]);
    assert_eq!(c.to_string(), "18446744073709551616");
    let owned = ApInt::from_u64(2) + ApInt::from_u64(3);
    assert_eq!(owned.to_string(), "5");
}

#[test]
fn apa_sub_borrows() {
    let a = ApInt { digits: vec![0, 1] };
    let b = ApInt::one();
    let c = sub_ref(&a, &b);
    assert_eq!(c.digits, vec![0xFFFF_FFFF]);
    let z = sub_ref(&a, &a);
    assert!(z.is_zero());
    let owned = ApInt::from_u64(10) - ApInt::from_u64(4);
    assert_eq!(owned.to_string(), "6");
}

#[test]
fn apa_scalar_mul_zero_and_carry() {
    assert!(scalar_mul(&ApInt::from_u64(12345), 0).is_zero());
    assert!(scalar_mul(&ApInt::zero(), 7).is_zero());
    let big = scalar_mul(&ApInt::from_u64(0xFFFF_FFFF), 0xFFFF_FFFF);
    assert_eq!(big.to_string(), "18446744065119617025");
    let owned = ApInt::from_u64(6) * 7u32;
    assert_eq!(owned.to_string(), "42");
}

#[test]
fn apa_shift_cases() {
    let three = ApInt::from_u64(3);
    assert_eq!(shl_ref(&three, 0), three);
    assert_eq!(shl_ref(&three, 31).to_string(), "6442450944");
    assert_eq!(shl_ref(&three, 64).digits, vec![0, 0, 3]);
    assert!(shl_ref(&ApInt::zero(), 10).is_zero());
    let owned = ApInt::one() << 3u32;
    assert_eq!(owned.to_string(), "8");
}

#[test]
fn apa_order_cases() {
    let a = ApInt::from_u64(5);
    let b = ApInt::from_u64(7);
    assert_eq!(a.cmp(&b), Ordering::Less);
    assert_eq!(b.cmp(&a), Ordering::Greater);
    assert_eq!(a.cmp(&ApInt::from_u64(5)), Ordering::Equal);
    assert!(ApInt::from_u64(u64::MAX) < ApInt::two_power(64));
    assert_eq!(a.partial_cmp(&b), Some(Ordering::Less));
}

#[test]
fn apa_decimal_groups_padded() {
    // 10^18 + 7 needs a zero-padded inner group.
    let v = ApInt::from_u64(1_000_000_000_000_000_007);
    assert_eq!(v.to_string(), "1000000000000000007");
    let w = ApInt::two_power(128);
    assert_eq!(w.to_string(), "340282366920938463463374607431768211456");
}
