use aoc25::exts::numbers::UnsignedExt;

#[test]
fn test_choose() {
    assert_eq!(8.choose_k(4), 70);
    assert_eq!(5.choose_k(1), 5);
    assert_eq!(1.choose_k(1), 1);
    assert_eq!(100.choose_k(15), 253338471349988640);
}

#[test]
fn test_gcd() {
    assert_eq!(6.gcd(9), 3);
    assert_eq!(1071.gcd(462), 21);
}

#[test]
fn test_lcm() {
    assert_eq!(6.lcm(9), 18);
    assert_eq!(4.lcm(20), 20);
    assert_eq!(21.lcm(6), 42);
}
