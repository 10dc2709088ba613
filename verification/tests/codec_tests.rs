//! Record-format tests: parsing hand-written records and round trips.

use borrow_checker::codec::{parse_group, parse_ledger, parse_transaction, serialize_group,
    serialize_ledger, serialize_transaction};
use borrow_checker::datetime::{Timestamp, UtcOffset};
use borrow_checker::domain::{Amount, Group, Ledger, Split, Transaction};
use borrow_checker::errors::PersistenceError;
use borrow_checker::ids::Uid;
use borrow_checker::rat::Rat;

fn uid(s: &str) -> Uid {
    Uid::parse(s).expect("a canonical identifier")
}

fn ticket_record() -> String {
    let mut s = String::new();
    s.push_str("id = \"019b5b3b-25e7-7e53-a0b6-0af3afde297c\"\n");
    s.push_str("description = \"\u{1F3AB}\u{1F356}\u{1F3F0}\"\n");
    s.push_str("paid_by_entity = \"c8744a29-7ed0-447a-af5a-51e4ad291d1d\"\n");
    s.push_str("currency_iso_4217 = \"CHF\"\n");
    s.push_str("amount = 75.00\n");
    s.push_str("transaction_datetime_rfc_3339 = 2025-11-20T09:30:00Z\n");
    s.push_str("[[split_ratios]]\n");
    s.push_str("entity_id = \"c8744a29-7ed0-447a-af5a-51e4ad291d1d\"\n");
    s.push_str("ratio = \"1/2\"\n");
    s.push_str("[[split_ratios]]\n");
    s.push_str("entity_id = \"3abaaf40-a35a-488d-8ef2-0184c8c5f3c3\"\n");
    s.push_str("ratio = \"1/2\"\n");
    s
}

fn flight_record() -> String {
    let mut s = String::new();
    s.push_str("id = \"019b5b4f-8077-7c4b-89d4-9380c444ee9d\"\n");
    s.push_str("description = \"\u{1F6EB}\"\n");
    s.push_str("paid_by_entity = \"3abaaf40-a35a-488d-8ef2-0184c8c5f3c3\"\n");
    s.push_str("currency_iso_4217 = \"CHF\"\n");
    s.push_str("amount = 598.80\n");
    s.push_str("transaction_datetime_rfc_3339 = 2025-11-17T14:43:02Z\n");
    s.push_str("[[split_ratios]]\n");
    s.push_str("entity_id = \"c8744a29-7ed0-447a-af5a-51e4ad291d1d\"\n");
    s.push_str("ratio = \"1/3\"\n");
    s.push_str("[[split_ratios]]\n");
    s.push_str("entity_id = \"3abaaf40-a35a-488d-8ef2-0184c8c5f3c3\"\n");
    s.push_str("ratio = \"1/3\"\n");
    s.push_str("[[split_ratios]]\n");
    s.push_str("entity_id = \"92c0a0fc-aa86-4922-ab1f-7b9326720177\"\n");
    s.push_str("ratio = \"1/3\"\n");
    s
}

fn group_record() -> String {
    let mut s = String::new();
    s.push_str("[[entities]]\n");
    s.push_str("id = \"c8744a29-7ed0-447a-af5a-51e4ad291d1d\"\n");
    s.push_str("display_name = \"Araex\"\n");
    s.push_str("[[entities]]\n");
    s.push_str("id = \"3abaaf40-a35a-488d-8ef2-0184c8c5f3c3\"\n");
    s.push_str("display_name = \"W\u{fc}stenschiff\"\n");
    s.push_str("[[entities]]\n");
    s.push_str("id = \"92c0a0fc-aa86-4922-ab1f-7b9326720177\"\n");
    s.push_str("display_name = \"flakmonkey\"\n");
    s
}

fn ledger_record() -> String {
    let mut s = String::new();
    s.push_str("id = \"10cc6659-531e-4c8f-881f-1bf6b24abbc0\"\n");
    s.push_str("display_name = \"39C3\"\n");
    s.push_str(
        "participants = [\"c8744a29-7ed0-447a-af5a-51e4ad291d1d\", \
         \"3abaaf40-a35a-488d-8ef2-0184c8c5f3c3\", \
         \"92c0a0fc-aa86-4922-ab1f-7b9326720177\"]\n",
    );
    s
}

#[test]
fn test_transaction_description_flight() {
    let flight = parse_transaction(&flight_record()).unwrap();
    assert_eq!(flight.description, "\u{1F6EB}");
}

#[test]
fn test_transaction_description_ticket() {
    let ticket = parse_transaction(&ticket_record()).unwrap();
    assert_eq!(ticket.description, "\u{1F3AB}\u{1F356}\u{1F3F0}");
}

#[test]
fn test_parse_group() {
    let sut: Group = parse_group(&group_record()).unwrap();
    assert_eq!(sut.entities.len(), 3);
    assert_eq!(sut.entities[0].display_name, "Araex");
    assert_eq!(sut.entities[1].display_name, "W\u{fc}stenschiff");
    assert_eq!(sut.entities[2].display_name, "flakmonkey");
}

#[test]
fn test_parse_ledger() {
    let sut: Ledger = parse_ledger(&ledger_record()).unwrap();
    assert_eq!(sut.display_name, "39C3");
    assert_eq!(sut.participants.len(), 3);
}

#[test]
fn test_parse_entity() {
    let group: Group = parse_group(&group_record()).unwrap();
    assert_eq!(group.entities[0].id.to_canonical(), "c8744a29-7ed0-447a-af5a-51e4ad291d1d");
    assert_eq!(group.entities[1].id.to_canonical(), "3abaaf40-a35a-488d-8ef2-0184c8c5f3c3");
    assert_eq!(group.entities[2].id.to_canonical(), "92c0a0fc-aa86-4922-ab1f-7b9326720177");
}

#[test]
fn test_transaction_fields() {
    let flight = parse_transaction(&flight_record()).unwrap();
    assert_eq!(flight.amount, Amount { minor: 59880 });
    assert_eq!(flight.currency_iso_4217, "CHF");
    assert_eq!(flight.paid_by_entity, uid("3abaaf40-a35a-488d-8ef2-0184c8c5f3c3"));
    assert_eq!(flight.split_ratios.len(), 3);
    assert_eq!(flight.split_ratios[0].ratio, Rat { num: 1, den: 3 });
    assert_eq!(flight.transaction_datetime_rfc_3339.year, 2025);
    assert_eq!(flight.transaction_datetime_rfc_3339.month, 11);
    assert_eq!(flight.transaction_datetime_rfc_3339.day, 17);
    assert_eq!(flight.transaction_datetime_rfc_3339.offset, UtcOffset::Z);
}

#[test]
fn test_group_round_trip() {
    let group: Group = parse_group(&group_record()).unwrap();
    let text = serialize_group(&group);
    let again = parse_group(&text).unwrap();
    assert_eq!(group, again);
}

#[test]
fn test_ledger_round_trip() {
    let ledger: Ledger = parse_ledger(&ledger_record()).unwrap();
    let text = serialize_ledger(&ledger);
    let again = parse_ledger(&text).unwrap();
    assert_eq!(ledger, again);
}

#[test]
fn test_transaction_round_trip() {
    let flight = parse_transaction(&flight_record()).unwrap();
    let text = serialize_transaction(&flight);
    let again = parse_transaction(&text).unwrap();
    assert_eq!(flight, again);
}

#[test]
fn test_round_trip_keeps_escapes_and_fractions() {
    let t = Transaction {
        id: uid("0195a9fc-0000-7000-8000-000000000001"),
        description: String::from("he said \"hi\" \\ bye"),
        paid_by_entity: uid("c8744a29-7ed0-447a-af5a-51e4ad291d1d"),
        currency_iso_4217: String::from("EUR"),
        amount: Amount { minor: 12345 },
        transaction_datetime_rfc_3339: Timestamp {
            year: 2024,
            month: 2,
            day: 29,
            hour: 23,
            minute: 59,
            second: 58,
            frac: vec![1, 2, 3],
            offset: UtcOffset::Minus { hours: 5, minutes: 30 },
        },
        split_ratios: vec![Split {
            entity_id: uid("c8744a29-7ed0-447a-af5a-51e4ad291d1d"),
            ratio: Rat { num: 7, den: 7 },
        }],
    };
    let text = serialize_transaction(&t);
    let again = parse_transaction(&text).unwrap();
    assert_eq!(t, again);
}

#[test]
fn test_round_trip_keeps_line_breaks() {
    // Line breaks in strings are escaped, so even a multi-line description
    // survives the line-oriented format unchanged.
    let g = Group {
        entities: vec![borrow_checker::domain::Entity {
            id: uid("c8744a29-7ed0-447a-af5a-51e4ad291d1d"),
            display_name: String::from("first line\nsecond line\r\nthird"),
        }],
    };
    let text = serialize_group(&g);
    let again = parse_group(&text).unwrap();
    assert_eq!(g, again);
}

#[test]
fn test_parse_error_is_reported() {
    let r = parse_group("this is not a record");
    assert!(matches!(r, Err(PersistenceError::Toml(_))));
    let r2 = parse_transaction("id = oops");
    assert!(matches!(r2, Err(PersistenceError::Toml(_))));
}

#[test]
fn test_uid_text_forms() {
    let u = uid("ABCDEF01-2345-6789-abcd-ef0123456789");
    assert_eq!(u.to_canonical(), "abcdef01-2345-6789-abcd-ef0123456789");
    assert!(Uid::parse("not-an-id").is_none());
    assert!(Uid::parse("abcdef01-2345-6789-abcd-ef012345678").is_none());
}

#[test]
fn test_timestamp_text_forms() {
    let t = Timestamp {
        year: 2025,
        month: 11,
        day: 17,
        hour: 14,
        minute: 43,
        second: 2,
        frac: vec![],
        offset: UtcOffset::Z,
    };
    assert_eq!(t.to_text(), "2025-11-17T14:43:02Z");
    let p = Timestamp::parse("2025-11-17T14:43:02.250+01:30").unwrap();
    assert_eq!(p.frac, vec![2, 5, 0]);
    assert_eq!(p.offset, UtcOffset::Plus { hours: 1, minutes: 30 });
    assert_eq!(p.to_text(), "2025-11-17T14:43:02.250+01:30");
    assert!(Timestamp::parse("2025-02-30T00:00:00Z").is_none());
    assert!(Timestamp::parse("2024-02-29T00:00:00Z").is_some());
}
