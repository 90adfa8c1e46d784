use std::cmp::Ordering;

use assassin::money::Money;

#[test]
fn test_constructors() {
    let m1 = Money::new(1, 23);
    let m2 = Money::from_cents(1_23);

    assert!(m1 == m2);
}

#[test]
fn test_dollars() {
    assert!(Money::new(12, 23).dollars() == 12);
}

#[test]
fn test_cents() {
    assert!(Money::new(12, 23).cents() == 23);
}

#[test]
fn test_add() {
    let m1 = Money::new(0, 99);
    let m2 = Money::new(1, 15);

    let m3 = m1 + m2;

    assert!(m3.dollars() == 2);
    assert!(m3.cents() == 14);
}

#[test]
fn test_sub() {
    let m1 = Money::new(1, 15);
    let m2 = Money::new(0, 20);

    let m3 = m1 - m2;

    assert!(m3.dollars() == 0);
    assert!(m3.cents() == 95);
}

#[test]
fn test_mul() {
    let mut m = Money::new(1, 10);
    m = m * 5;

    assert!(m.dollars() == 5);
    assert!(m.cents() == 50);
}

#[test]
fn test_div() {
    let mut m = Money::new(1, 99);
    m = m / 5;

    assert!(m.dollars() == 0);
    assert!(m.cents() == 40);
}

#[test]
fn test_add_assign() {
    let mut m = Money::new(1, 10);
    m.add_assign(Money::new(0, 10));

    assert!(m.dollars() == 1);
    assert!(m.cents() == 20);
}

#[test]
fn test_sub_assign() {
    let mut m = Money::new(1, 10);
    m.sub_assign(Money::new(0, 5));

    assert!(m.dollars() == 1);
    assert!(m.cents() == 5);
}

#[test]
fn test_mul_assign() {
    let mut m = Money::new(1, 10);
    m.mul_assign(5);

    assert!(m.dollars() == 5);
    assert!(m.cents() == 50);
}

#[test]
fn test_div_assign() {
    let mut m = Money::new(1, 99);
    m.div_assign(5);

    assert!(m.dollars() == 0);
    assert!(m.cents() == 40);
}

#[test]
fn test_sum() {
    let m1 = Money::new(0, 10);
    let m2 = Money::new(0, 5);

    let ms = vec![m1, m2];
    let sum: Money = Money::sum(&ms);

    assert!(sum == m1 + m2);
}

#[test]
fn test_equality() {
    let m1 = Money::new(1, 15);
    let m2 = Money::new(1, 15);
    let m3 = Money::new(1, 16);

    assert!(m1 == m2);
    assert!(m1 != m3);
}

#[test]
fn test_ordering() {
    let large = Money::new(10, 50);
    let same = Money::new(10, 50);
    let small = Money::new(0, 25);

    assert_eq!(small.partial_cmp(&large), Some(Ordering::Less));
    assert_eq!(large.partial_cmp(&small), Some(Ordering::Greater));
    assert_eq!(large.partial_cmp(&same), Some(Ordering::Equal));

    assert!(large > small);
    assert!(large >= small);
    assert!(small < large);
    assert!(small <= large);
    assert!(large >= same);
    assert!(large <= same);
}

fn check_display(cents: i64, s: &str) {
    let res = Money::from_cents(cents).to_string();

    println!("Expected: {}", s);
    println!("Got: {}", res);

    assert!(res == s);
}

#[test]
fn test_display() {
    check_display(0, "$0.00");
    check_display(1, "$0.01");
    check_display(11, "$0.11");
    check_display(111, "$1.11");
    check_display(1111, "$11.11");
    check_display(11111, "$111.11");
    check_display(111111, "$1,111.11");
    check_display(1111111, "$11,111.11");
    check_display(11111111, "$111,111.11");
    check_display(111111111, "$1,111,111.11");
    check_display(1111111111, "$11,111,111.11");

    check_display(-0, "$0.00");
    check_display(-1, "-$0.01");
    check_display(-11, "-$0.11");
    check_display(-111, "-$1.11");
    check_display(-1111, "-$11.11");
    check_display(-11111, "-$111.11");
    check_display(-111111, "-$1,111.11");
    check_display(-1111111, "-$11,111.11");
    check_display(-11111111, "-$111,111.11");
    check_display(-111111111, "-$1,111,111.11");
    check_display(-1111111111, "-$11,111,111.11");
}

#[test]
fn money_new_with_negative_dollars_is_negative() {
    assert_eq!(Money::new(-3, 25).raw_value(), -325);
    assert_eq!(Money::new(-3, 25).dollars(), -3);
    assert_eq!(Money::new(-3, 25).cents(), -25);
}

#[test]
fn money_division_rounds_half_away_from_zero() {
    assert_eq!((Money::from_cents(5) / 2).raw_value(), 3);
    assert_eq!((Money::from_cents(-5) / 2).raw_value(), -3);
    assert_eq!((Money::from_cents(7) / -2).raw_value(), -4);
    assert_eq!((Money::from_cents(4) / 3).raw_value(), 1);
}

#[test]
fn money_checked_add_reports_overflow() {
    let big = Money::from_cents(9_223_372_036_854_775_807);
    assert!(big.checked_add(Money::from_cents(1)).is_none());
    assert!(big.checked_sub(Money::from_cents(1)).is_some());
}

#[test]
fn add_commas_groups_thousands() {
    assert_eq!(assassin::util::add_commas(0), "0");
    assert_eq!(assassin::util::add_commas(999), "999");
    assert_eq!(assassin::util::add_commas(1000), "1,000");
    assert_eq!(assassin::util::add_commas(1234567), "1,234,567");
    assert_eq!(assassin::util::add_commas(100200300), "100,200,300");
}
