//! Balance-engine tests: shares, balances, conservation and settlements.

use borrow_checker::balance::{calculate_settlements, get_user_share, normalize_split_ratios,
    BalanceEntry, Balances};
use borrow_checker::datetime::{Timestamp, UtcOffset};
use borrow_checker::domain::{Amount, Split, Transaction};
use borrow_checker::ids::Uid;
use borrow_checker::rat::Rat;

fn uid_n(n: u128) -> Uid {
    Uid { value: n }
}

fn when() -> Timestamp {
    Timestamp {
        year: 2025,
        month: 11,
        day: 17,
        hour: 14,
        minute: 43,
        second: 2,
        frac: vec![],
        offset: UtcOffset::Z,
    }
}

fn txn(payer: Uid, minor: i64, splits: Vec<Split>) -> Transaction {
    Transaction {
        id: uid_n(999),
        description: String::from("shared cost"),
        paid_by_entity: payer,
        currency_iso_4217: String::from("CHF"),
        amount: Amount { minor },
        transaction_datetime_rfc_3339: when(),
        split_ratios: splits,
    }
}

fn third() -> Rat {
    Rat { num: 1, den: 3 }
}

#[test]
fn test_share_exact_third() {
    // An amount of 600.00 split one third each: exactly 200.00.
    let x = uid_n(1);
    let t = txn(
        uid_n(2),
        60000,
        vec![
            Split { entity_id: uid_n(1), ratio: third() },
            Split { entity_id: uid_n(2), ratio: third() },
            Split { entity_id: uid_n(3), ratio: third() },
        ],
    );
    assert_eq!(get_user_share(&t, x), 20000);
    // An entity absent from the split owes nothing.
    assert_eq!(get_user_share(&t, uid_n(7)), 0);
}

#[test]
fn test_share_rounds_to_nearest_minor_unit() {
    // 100.00 split in thirds: 33.33 each, the third of 10000 rounded.
    let t = txn(
        uid_n(2),
        10000,
        vec![Split { entity_id: uid_n(1), ratio: third() }],
    );
    assert_eq!(get_user_share(&t, uid_n(1)), 3333);
}

#[test]
fn test_balance_example_three_ways() {
    // Ledger with X, Y, Z; one transaction of 600.00 paid by Y, split one
    // third each. Viewing as X: X owes Y 200.00. Viewing as Y: X and Z
    // each owe Y 200.00.
    let x = uid_n(1);
    let y = uid_n(2);
    let z = uid_n(3);
    let t = txn(
        y,
        60000,
        vec![
            Split { entity_id: x, ratio: third() },
            Split { entity_id: y, ratio: third() },
            Split { entity_id: z, ratio: third() },
        ],
    );
    let txns = vec![t];
    let chf = String::from("CHF");
    let from_x = borrow_checker::balance::balances_toward(&txns, x, &chf);
    assert_eq!(from_x, vec![BalanceEntry { entity: y, amount: -20000 }]);
    let from_y = borrow_checker::balance::balances_toward(&txns, y, &chf);
    assert_eq!(
        from_y,
        vec![
            BalanceEntry { entity: x, amount: 20000 },
            BalanceEntry { entity: z, amount: 20000 },
        ]
    );
    let from_z = borrow_checker::balance::balances_toward(&txns, z, &chf);
    assert_eq!(from_z, vec![BalanceEntry { entity: y, amount: -20000 }]);
    // Conservation on this ledger: each pair's balances cancel exactly.
    assert_eq!(from_x[0].amount + from_y[0].amount, 0);
    assert_eq!(from_z[0].amount + from_y[1].amount, 0);
}

#[test]
fn test_settlements_zero_out_balances() {
    // A owes 150.00, B owes 50.00, C is owed 200.00.
    let a = uid_n(1);
    let b = uid_n(2);
    let c = uid_n(3);
    let balances = Balances {
        currency: String::from("CHF"),
        entries: vec![
            BalanceEntry { entity: a, amount: -15000 },
            BalanceEntry { entity: b, amount: -5000 },
            BalanceEntry { entity: c, amount: 20000 },
        ],
    };
    let stl = calculate_settlements(&balances);
    // Apply every payment and check every balance lands on exactly zero.
    let mut after = vec![(a, -15000i128), (b, -5000i128), (c, 20000i128)];
    for s in &stl {
        assert!(s.amount > 0);
        assert_eq!(s.currency, "CHF");
        assert_ne!(s.from_entity, s.to_entity);
        for e in after.iter_mut() {
            if e.0 == s.from_entity {
                e.1 += s.amount;
            } else if e.0 == s.to_entity {
                e.1 -= s.amount;
            }
        }
    }
    for e in &after {
        assert_eq!(e.1, 0);
    }
}

#[test]
fn test_settlements_of_settled_map_are_empty() {
    let balances = Balances {
        currency: String::from("EUR"),
        entries: vec![BalanceEntry { entity: uid_n(1), amount: 0 }],
    };
    assert_eq!(calculate_settlements(&balances).len(), 0);
}

#[test]
fn test_normalize_rescales_to_one() {
    // Two equal whole shares rescale to one half each.
    let a = Split { entity_id: uid_n(1), ratio: Rat { num: 1, den: 1 } };
    let b = Split { entity_id: uid_n(2), ratio: Rat { num: 1, den: 1 } };
    let out = normalize_split_ratios(vec![a, b]).unwrap();
    assert_eq!(out[0].ratio, Rat { num: 1, den: 2 });
    assert_eq!(out[1].ratio, Rat { num: 1, den: 2 });
    assert_eq!(out[0].entity_id, uid_n(1));
    // Proportions are preserved: 3 against 1 becomes 3/4 against 1/4.
    let c = Split { entity_id: uid_n(1), ratio: Rat { num: 3, den: 1 } };
    let d = Split { entity_id: uid_n(2), ratio: Rat { num: 1, den: 1 } };
    let out2 = normalize_split_ratios(vec![c, d]).unwrap();
    assert_eq!(out2[0].ratio, Rat { num: 3, den: 4 });
    assert_eq!(out2[1].ratio, Rat { num: 1, den: 4 });
}

#[test]
fn test_normalize_rejects_zero_total() {
    let a = Split { entity_id: uid_n(1), ratio: Rat { num: 0, den: 1 } };
    assert!(normalize_split_ratios(vec![a]).is_none());
}

#[test]
fn test_amount_and_ratio_value_helpers() {
    let a = Amount::from_units(600, 0);
    assert_eq!(a.minor, 60000);
    // Value equality of fractions ignores the written form.
    let half = Rat { num: 1, den: 2 };
    let two_quarters = Rat { num: 2, den: 4 };
    assert!(half.eq_frac(&two_quarters));
    assert!(!half.eq_frac(&third()));
}

#[test]
fn test_exact_ratio_sum() {
    // Three thirds sum to exactly one; the checked sum reduces to 1/1.
    let rs = vec![third(), third(), third()];
    let s = borrow_checker::rat::sum_rats(&rs).unwrap();
    assert_eq!(s, Rat { num: 1, den: 1 });
    // A half and a third do not.
    let rs2 = vec![Rat { num: 1, den: 2 }, Rat { num: 1, den: 3 }];
    let s2 = borrow_checker::rat::sum_rats(&rs2).unwrap();
    assert_eq!(s2, Rat { num: 5, den: 6 });
}
