use collatz::{crop_biguint, Natural};

fn power_of_two(e: usize) -> Natural {
    let mut digits = vec![0u32; e / 32 + 1];
    digits[e / 32] = 1u32 << (e % 32);
    Natural::from_digits(digits)
}

#[test]
fn test_crop() {
    let my_big_number = Natural::from_u64(329847);
    let result = crop_biguint(&my_big_number, 100);
    assert_eq!("329\u{202f}847", result);
    let my_big_number = power_of_two(123);
    let result = crop_biguint(&my_big_number, 10);
    assert_eq!("..2242756608", result);
    let my_big_number = power_of_two(172);
    let result = crop_biguint(&my_big_number, 10);
    assert_eq!("..9696029696", result);
}

#[test]
fn crop_small_numbers_grouped() {
    assert_eq!(crop_biguint(&Natural::from_u64(0), 10), "0");
    assert_eq!(crop_biguint(&Natural::from_u64(999), 10), "999");
    assert_eq!(crop_biguint(&Natural::from_u64(1_234_567), 100), "1\u{202f}234\u{202f}567");
}

#[test]
fn crop_grouped_too_long_falls_back_to_digits() {
    // "1 234 567" with narrow spaces takes 13 bytes
    assert_eq!(crop_biguint(&Natural::from_u64(1_234_567), 13), "..1234567");
    assert_eq!(crop_biguint(&Natural::from_u64(1_234_567), 3), "..567");
}

#[test]
fn crop_size_beyond_length_keeps_all_digits() {
    let r = crop_biguint(&power_of_two(172), 100);
    assert_eq!(r, "..5986310706507378352962293074805895248510699696029696");
}

#[test]
fn crop_too_big() {
    let r = crop_biguint(&power_of_two(250_001), 10);
    assert_eq!(r, "Too big... representation would take some time we don't have...");
    let r = crop_biguint(&power_of_two(250_000), 4);
    assert!(r.starts_with(".."));
    assert_eq!(r.len(), 6);
}
