use std::str::FromStr;

use dealrs::betting::{deposit, transfer_capped, withdraw_capped, Chips};

#[test]
fn chips_text() {
    assert_eq!(Chips::new(100).to_string(), "$100");
    assert_eq!(Chips::new(0).to_plain_string(), "0");
    assert_eq!(Chips::from_str("$25").unwrap(), Chips::new(25));
    assert_eq!(Chips::from_str("7").unwrap(), Chips::new(7));
    assert!(Chips::from_str("$").is_err());
    assert!(Chips::from_str("abc").is_err());
    assert!(Chips::from_str("18446744073709551616").is_err());
    assert_eq!(Chips::from_str("18446744073709551615").unwrap(), Chips::new(u64::MAX));
}

#[test]
fn chips_conversions_and_arithmetic() {
    let c: Chips = 5u64.into();
    let v: u64 = c.into();
    assert_eq!(v, 5);
    assert_eq!(Chips::new(2) + Chips::new(3), Chips::new(5));
    assert_eq!(Chips::new(7) - Chips::new(3), Chips::new(4));
    assert_eq!(Chips::new(7) * 3, Chips::new(21));
}

#[test]
fn capped_withdrawals() {
    let mut bank = Chips::new(10);
    assert_eq!(withdraw_capped(&mut bank, Chips::new(4)), (Chips::new(4), false));
    assert_eq!(bank, Chips::new(6));
    // going all-in takes what is left
    assert_eq!(withdraw_capped(&mut bank, Chips::new(50)), (Chips::new(6), true));
    assert_eq!(bank, Chips::new(0));

    let mut pot = Chips::new(3);
    deposit(&mut pot, Chips::new(2));
    assert_eq!(pot, Chips::new(5));

    // a transfer moves chips without making or losing any
    let mut from = Chips::new(8);
    let (moved, allin) = transfer_capped(&mut pot, &mut from, Chips::new(10));
    assert_eq!((moved, allin), (Chips::new(8), true));
    assert_eq!(pot.value() + from.value(), 13);
}
