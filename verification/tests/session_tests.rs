//! Session, validation and repository tests: discovery, the selection
//! state machine, validation rules and the header view.

use borrow_checker::balance::Balances;
use borrow_checker::components::Header;
use borrow_checker::datetime::{Timestamp, UtcOffset};
use borrow_checker::domain::{Amount, Entity, Group, Ledger, LedgerWithTransactions, Split,
    Transaction};
use borrow_checker::errors::{PersistenceError, ValidationErrorType};
use borrow_checker::ids::Uid;
use borrow_checker::rat::Rat;
use borrow_checker::repo::{LedgerDir, MemRepository, NamedFile, StoreSnapshot};
use borrow_checker::session::AppState;
use borrow_checker::validate::{validate_currency, validate_group, validate_ledger,
    validate_transaction};

fn uid_n(n: u128) -> Uid {
    Uid { value: n }
}

fn third() -> Rat {
    Rat { num: 1, den: 3 }
}

fn when() -> Timestamp {
    Timestamp {
        year: 2025,
        month: 11,
        day: 17,
        hour: 14,
        minute: 43,
        second: 2,
        frac: vec![],
        offset: UtcOffset::Z,
    }
}

fn sample_group() -> Group {
    Group {
        entities: vec![
            Entity { id: uid_n(1), display_name: String::from("Araex") },
            Entity { id: uid_n(2), display_name: String::from("W\u{fc}stenschiff") },
            Entity { id: uid_n(3), display_name: String::from("flakmonkey") },
        ],
    }
}

fn sample_ledger() -> Ledger {
    Ledger {
        id: uid_n(10),
        display_name: String::from("39C3"),
        participants: vec![uid_n(1), uid_n(2), uid_n(3)],
    }
}

fn sample_transaction() -> Transaction {
    Transaction {
        id: uid_n(20),
        description: String::from("\u{1F6EB}"),
        paid_by_entity: uid_n(2),
        currency_iso_4217: String::from("CHF"),
        amount: Amount { minor: 60000 },
        transaction_datetime_rfc_3339: when(),
        split_ratios: vec![
            Split { entity_id: uid_n(1), ratio: third() },
            Split { entity_id: uid_n(2), ratio: third() },
            Split { entity_id: uid_n(3), ratio: third() },
        ],
    }
}

fn sample_state() -> AppState {
    AppState {
        group: sample_group(),
        ledgers: vec![LedgerWithTransactions {
            ledger: sample_ledger(),
            transactions: vec![sample_transaction()],
        }],
        current_ledger_id: Some(uid_n(10)),
        user_id: uid_n(1),
    }
}

fn marker_text(l: &Ledger) -> String {
    borrow_checker::codec::serialize_ledger(l)
}

#[test]
fn test_ledger_discovery_example() {
    // A folder with a marker is a ledger; a folder without one and a
    // hidden folder (marker or not) are skipped.
    let ledger_a = sample_ledger();
    let snapshot = StoreSnapshot {
        group_file: None,
        ledger_dirs: vec![
            LedgerDir {
                name: String::from("A"),
                files: vec![NamedFile {
                    name: String::from(".ledger.toml"),
                    text: marker_text(&ledger_a),
                }],
            },
            LedgerDir { name: String::from("B"), files: vec![] },
            LedgerDir {
                name: String::from(".hidden"),
                files: vec![NamedFile {
                    name: String::from(".ledger.toml"),
                    text: marker_text(&sample_ledger()),
                }],
            },
        ],
    };
    let repo = MemRepository::new(snapshot);
    let ledgers = repo.list_ledgers().unwrap();
    assert_eq!(ledgers.len(), 1);
    assert_eq!(ledgers[0], ledger_a);
}

#[test]
fn test_corrupt_marker_fails_the_scan() {
    let snapshot = StoreSnapshot {
        group_file: None,
        ledger_dirs: vec![LedgerDir {
            name: String::from("A"),
            files: vec![NamedFile {
                name: String::from(".ledger.toml"),
                text: String::from("not a ledger record"),
            }],
        }],
    };
    let repo = MemRepository::new(snapshot);
    // The error names the folder whose marker failed.
    match repo.list_ledgers() {
        Err(PersistenceError::ParseLedger { ledger_name, .. }) => {
            assert_eq!(ledger_name, "A");
        }
        other => panic!("expected a ledger parse error, got {:?}", other),
    }
}

#[test]
fn test_failed_refresh_keeps_the_prior_index() {
    // A working index survives a failed rescan: the repository is left
    // untouched when a marker no longer parses.
    let ledger = sample_ledger();
    let good = StoreSnapshot {
        group_file: None,
        ledger_dirs: vec![LedgerDir {
            name: String::from("39C3"),
            files: vec![NamedFile { name: String::from(".ledger.toml"), text: marker_text(&ledger) }],
        }],
    };
    let mut repo = MemRepository::new(good);
    repo.refresh().unwrap();
    assert_eq!(repo.index.len(), 1);
    repo.snapshot.ledger_dirs[0].files[0].text = String::from("now corrupt");
    assert!(matches!(repo.refresh(), Err(PersistenceError::ParseLedger { .. })));
    assert_eq!(repo.index.len(), 1);
}

#[test]
fn test_missing_group_record_is_not_found() {
    let repo = MemRepository::new(StoreSnapshot { group_file: None, ledger_dirs: vec![] });
    assert!(matches!(repo.load_group(), Err(PersistenceError::NotFound(_))));
    let repo2 = MemRepository::new(StoreSnapshot {
        group_file: Some(String::from("not a group record")),
        ledger_dirs: vec![],
    });
    assert!(matches!(repo2.load_group(), Err(PersistenceError::Toml(_))));
}

#[test]
fn test_refresh_and_list_transactions() {
    let ledger = sample_ledger();
    let t = sample_transaction();
    let snapshot = StoreSnapshot {
        group_file: Some(borrow_checker::codec::serialize_group(&sample_group())),
        ledger_dirs: vec![LedgerDir {
            name: String::from("39C3"),
            files: vec![
                NamedFile { name: String::from(".ledger.toml"), text: marker_text(&ledger) },
                NamedFile {
                    name: String::from("expense.toml"),
                    text: borrow_checker::codec::serialize_transaction(&t),
                },
                NamedFile {
                    name: String::from("broken.toml"),
                    text: String::from("junk, skipped silently"),
                },
            ],
        }],
    };
    let mut repo = MemRepository::new(snapshot);
    let rr = repo.refresh().unwrap();
    assert!(rr.has_changes);
    let group = repo.load_group().unwrap();
    assert_eq!(group, sample_group());
    // The good record comes back; the broken one is skipped, not fatal.
    let txns = repo.list_transactions(uid_n(10)).unwrap();
    assert_eq!(txns, vec![t]);
    // An unknown ledger id is reported, not invented.
    assert!(matches!(repo.list_transactions(uid_n(77)), Err(PersistenceError::NotFound(_))));
    // Writes are unsupported on the snapshot-backed repository.
    assert!(matches!(
        repo.save_group(&sample_group()),
        Err(PersistenceError::UnsupportedOperation(_))
    ));
}

#[test]
fn test_switch_ledger_guard() {
    // Switching to an unknown ledger id keeps the prior selection and
    // reports the failure.
    let mut state = sample_state();
    let r = state.switch_ledger(uid_n(42));
    assert!(matches!(r, Err(PersistenceError::NotFound(_))));
    assert_eq!(state.current_ledger_id, Some(uid_n(10)));
    // Switching to a loaded ledger commits the selection.
    let mut state2 = sample_state();
    state2.current_ledger_id = None;
    assert!(state2.switch_ledger(uid_n(10)).is_ok());
    assert_eq!(state2.current_ledger_id, Some(uid_n(10)));
}

#[test]
fn test_calculate_balances_per_user() {
    let state = sample_state();
    // Viewing as X (who did not pay): X owes Y exactly 200.00.
    let bs: Vec<Balances> = state.calculate_balances(uid_n(10), uid_n(1)).unwrap();
    assert_eq!(bs.len(), 1);
    assert_eq!(bs[0].currency, "CHF");
    assert_eq!(bs[0].entries.len(), 1);
    assert_eq!(bs[0].entries[0].entity, uid_n(2));
    assert_eq!(bs[0].entries[0].amount, -20000);
    // Viewing as Y (the payer): X and Z each owe 200.00.
    let bs2 = state.calculate_balances(uid_n(10), uid_n(2)).unwrap();
    assert_eq!(bs2[0].entries.len(), 2);
    assert_eq!(bs2[0].entries[0].amount, 20000);
    assert_eq!(bs2[0].entries[1].amount, 20000);
    // An unknown ledger is an error.
    assert!(state.calculate_balances(uid_n(42), uid_n(1)).is_err());
}

#[test]
fn test_header_view() {
    let state = sample_state();
    let h: Header = state.header_view();
    assert_eq!(h.current_ledger, Some(String::from("39C3")));
    assert_eq!(h.current_user_name, Some(String::from("Araex")));
    assert_eq!(
        h.group_members,
        vec![String::from("W\u{fc}stenschiff"), String::from("flakmonkey")]
    );
}

#[test]
fn test_transaction_rows_and_lookup() {
    let state = sample_state();
    let rows = state.transaction_rows().unwrap();
    assert_eq!(rows.len(), 1);
    assert_eq!(rows[0].payer_name, "W\u{fc}stenschiff");
    assert_eq!(rows[0].user_share, 20000);
    assert!(!rows[0].user_paid);
    let t = state.find_transaction(uid_n(20)).unwrap();
    assert_eq!(t, sample_transaction());
    assert!(matches!(state.find_transaction(uid_n(21)), Err(PersistenceError::NotFound(_))));
}

#[test]
fn test_validation_accepts_the_sample() {
    let g = sample_group();
    let l = sample_ledger();
    let t = sample_transaction();
    assert!(validate_group(&g).is_valid);
    assert!(validate_ledger(&l, &g).is_valid);
    assert!(validate_transaction(&t, &l, &g).is_valid);
}

#[test]
fn test_validation_split_sum_must_be_exactly_one() {
    let g = sample_group();
    let l = sample_ledger();
    let mut t = sample_transaction();
    // A half and a third leave a sixth unassigned: invalid.
    t.split_ratios = vec![
        Split { entity_id: uid_n(1), ratio: Rat { num: 1, den: 2 } },
        Split { entity_id: uid_n(2), ratio: Rat { num: 1, den: 3 } },
    ];
    let r = validate_transaction(&t, &l, &g);
    assert!(!r.is_valid);
    assert!(r.errors.iter().any(|e| e.error_type == ValidationErrorType::SumMismatch));
}

#[test]
fn test_validation_error_kinds() {
    let g = sample_group();
    let l = sample_ledger();
    // An empty group is missing its entities.
    let r = validate_group(&Group { entities: vec![] });
    assert!(r.errors.iter().any(|e| e.error_type == ValidationErrorType::MissingField));
    // A duplicated entity id is flagged.
    let dup = Group {
        entities: vec![
            Entity { id: uid_n(1), display_name: String::from("a") },
            Entity { id: uid_n(1), display_name: String::from("b") },
        ],
    };
    assert!(validate_group(&dup).errors.iter().any(|e| e.error_type
        == ValidationErrorType::DuplicateValue));
    // A participant outside the group is a dangling reference.
    let bad = Ledger {
        id: uid_n(10),
        display_name: String::from("x"),
        participants: vec![uid_n(9)],
    };
    assert!(validate_ledger(&bad, &g).errors.iter().any(|e| e.error_type
        == ValidationErrorType::InvalidReference));
    // A lowercase currency code has the wrong format.
    assert!(validate_currency("chf").is_err());
    assert!(validate_currency("CHF").is_ok());
    // A non-positive amount is an invalid value.
    let mut t = sample_transaction();
    t.amount = Amount { minor: 0 };
    assert!(validate_transaction(&t, &l, &g).errors.iter().any(|e| e.error_type
        == ValidationErrorType::InvalidValue));
}
