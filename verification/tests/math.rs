use ps_algorithm::math::{power, Mult};

#[test]
fn test_modular_power() {
    assert_eq!(844428231, power::<Mult>(&2, 63));
}

#[test]
fn power_small_exponents() {
    assert_eq!(1, power::<Mult>(&7, 0));
    assert_eq!(7, power::<Mult>(&7, 1));
    assert_eq!(49, power::<Mult>(&7, 2));
    assert_eq!(1024, power::<Mult>(&2, 10));
    assert_eq!(129140163, power::<Mult>(&3, 17));
}

#[test]
fn power_agrees_with_repeated_multiplication() {
    let mut product: u64 = 1;
    for n in 0..200usize {
        assert_eq!(product, power::<Mult>(&123_456_789, n));
        product = product * 123_456_789 % 1_000_000_009;
    }
}

#[test]
fn power_of_the_largest_residue() {
    assert_eq!(1, power::<Mult>(&1_000_000_008, 2));
    assert_eq!(1_000_000_008, power::<Mult>(&1_000_000_008, 3));
    assert_eq!(0, power::<Mult>(&0, 5));
    assert_eq!(1, power::<Mult>(&0, 0));
}
