use some_dice::interpret::factor::{gcd, gcd_lcm, lcm};

#[test]
fn test_gcd() {
    assert_eq!(gcd(0, 0), 0);
    assert_eq!(gcd(0, 3), 3);
    assert_eq!(gcd(3, 0), 3);
    assert_eq!(gcd(3, 3), 3);
    assert_eq!(gcd(10, 2), 2);
    assert_eq!(gcd(10, 3), 1);
    assert_eq!(gcd(56, 42), 14);
}

#[test]
fn test_lcm() {
    assert_eq!(lcm(0, 0), 0);
    assert_eq!(lcm(0, 3), 0);
    assert_eq!(lcm(3, 0), 0);
    assert_eq!(lcm(3, 3), 3);
    assert_eq!(lcm(11, 22), 22);
    assert_eq!(lcm(8, 9), 72);
    assert_eq!(lcm(11, 5), 55);
    assert_eq!(lcm(15, 17), 255);
}

#[test]
fn test_gcd_lcm_together() {
    assert_eq!(gcd_lcm(8, 12), (4, 24));
    assert_eq!(gcd_lcm(0, 0), (0, 0));
}
