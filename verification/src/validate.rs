//! Validation: pure business-rule checks over groups, ledgers and
//! transactions.
//!
//! Validation is separate from parsing: the persistence layer decides
//! whether text is a record at all, these rules decide whether a record's
//! content can be trusted by the balance engine and the write paths. Each
//! check returns a result that says exactly which rules failed; nothing here
//! panics or reads the outside world.

use vstd::prelude::*;
use vstd::string::StrSliceExecFns;
use crate::balance::{engine_ready, ratios_of, ratios_vec};
use crate::domain::{Group, Ledger, Split, Transaction, AMOUNT_LIMIT};
use crate::errors::{ValidationError, ValidationErrorType, ValidationResult};
use crate::ids::Uid;
use crate::rat::{checked_sum, frac_eq, lemma_checked_sum_value, lemma_frac_eq_trans, sum_d, sum_n,
    sum_rats, Rat};

verus! {

/// A group is valid: at least one entity, unique identifiers, and no empty
/// display name.
pub open spec fn spec_valid_group(g: Group) -> bool {
    &&& g.entities@.len() > 0
    &&& forall|i: int, j: int|
        0 <= i < j < g.entities@.len() ==> (#[trigger] g.entities@[i]).id != (
        #[trigger] g.entities@[j]).id
    &&& forall|i: int|
        0 <= i < g.entities@.len() ==> (#[trigger] g.entities@[i]).display_name@.len() > 0
}

/// A ledger is valid against a group: a name, at least one participant, and
/// every participant resolves to an entity of the group.
pub open spec fn spec_valid_ledger(l: Ledger, g: Group) -> bool {
    &&& l.display_name@.len() > 0
    &&& l.participants@.len() > 0
    &&& forall|i: int| 0 <= i < l.participants@.len() ==> g@.has_entity(#[trigger] l.participants@[i])
}

/// A three-letter uppercase currency code.
pub open spec fn spec_currency_ok(c: Seq<char>) -> bool {
    c.len() == 3 && forall|i: int| 0 <= i < 3 ==> 'A' <= #[trigger] c[i] && c[i] <= 'Z'
}

/// The split ratios are each positive, at most one, and sum to exactly one
/// (the sum is exact rational arithmetic, not an approximation).
pub open spec fn spec_splits_sum_to_one(ss: Seq<Split>) -> bool {
    &&& forall|i: int|
        0 <= i < ss.len() ==> {
            let r = (#[trigger] ss[i]).ratio;
            r.den > 0 && 0 < r.num <= r.den
        }
    &&& checked_sum(ratios_of(ss)) matches Some(s) && frac_eq(s.num as int, s.den as int, 1, 1)
}

/// A transaction is valid against its ledger and group: a description, a
/// resolvable payer who takes part in the ledger, splits whose entities
/// resolve and take part, one split per entity, positive exact ratios that
/// sum to exactly one, a currency code, a positive bounded amount, and a
/// real calendar timestamp.
pub open spec fn spec_valid_transaction(t: Transaction, l: Ledger, g: Group) -> bool {
    &&& t.description@.len() > 0
    &&& g@.has_entity(t.paid_by_entity)
    &&& l.participants@.contains(t.paid_by_entity)
    &&& t.split_ratios@.len() > 0
    &&& forall|i: int|
        0 <= i < t.split_ratios@.len() ==> {
            let e = (#[trigger] t.split_ratios@[i]).entity_id;
            g@.has_entity(e) && l.participants@.contains(e)
        }
    &&& forall|i: int, j: int|
        0 <= i < j < t.split_ratios@.len() ==> (#[trigger] t.split_ratios@[i]).entity_id != (
        #[trigger] t.split_ratios@[j]).entity_id
    &&& spec_splits_sum_to_one(t.split_ratios@)
    &&& spec_currency_ok(t.currency_iso_4217@)
    &&& 0 < t.amount.minor <= AMOUNT_LIMIT
    &&& t.transaction_datetime_rfc_3339@.wf()
}

/// Split-sum invariant: for a valid transaction the split ratios sum to
/// exactly one, as an exact rational identity over the unreduced sum.
pub proof fn lemma_split_sum_invariant(t: Transaction, l: Ledger, g: Group)
    requires
        spec_valid_transaction(t, l, g),
    ensures
        sum_d(ratios_of(t.split_ratios@)) > 0,
        frac_eq(sum_n(ratios_of(t.split_ratios@)), sum_d(ratios_of(t.split_ratios@)), 1, 1),
{
    let rs = ratios_of(t.split_ratios@);
    assert forall|i: int| 0 <= i < rs.len() implies (#[trigger] rs[i]).wf() by {
        assert(rs[i] == t.split_ratios@[i].ratio);
    }
    lemma_checked_sum_value(rs);
    let s = checked_sum(rs)->Some_0;
    lemma_frac_eq_trans(sum_n(rs), sum_d(rs), s.num as int, s.den as int, 1, 1);
}

/// A valid transaction is ready for the balance engine.
pub proof fn lemma_valid_implies_engine_ready(t: Transaction, l: Ledger, g: Group)
    requires
        spec_valid_transaction(t, l, g),
    ensures
        engine_ready(t),
{
}

/// Whether an identifier resolves to an entity of the group.
fn contains_entity(g: &Group, id: Uid) -> (b: bool)
    ensures
        b == g@.has_entity(id),
{
    let r: Option<String> = g.display_name_of(id);
    matches!(r, Some(_))
}

/// Whether all entity identifiers of a group are distinct.
fn group_ids_unique(g: &Group) -> (b: bool)
    ensures
        b == (forall|i: int, j: int|
            0 <= i < j < g.entities@.len() ==> (#[trigger] g.entities@[i]).id != (
            #[trigger] g.entities@[j]).id),
{
    let n: usize = g.entities.len();
    let mut i: usize = 0;
    while i < n
        invariant
            0 <= i <= n,
            n == g.entities@.len(),
            forall|a: int, b: int|
                0 <= a < b < g.entities@.len() && a < i ==> (#[trigger] g.entities@[a]).id != (
                #[trigger] g.entities@[b]).id,
        decreases n - i,
    {
        let mut j: usize = i + 1;
        while j < n
            invariant
                0 <= i < j <= n,
                n == g.entities@.len(),
                forall|b: int| i < b < j ==> (#[trigger] g.entities@[b]).id != g.entities@[i as int].id,
            decreases n - j,
        {
            if g.entities[j].id == g.entities[i].id {
                return false;
            }
            j = j + 1;
        }
        i = i + 1;
    }
    true
}

/// Whether each entity appears in at most one split.
fn splits_unique(ss: &Vec<Split>) -> (b: bool)
    ensures
        b == (forall|x: int, y: int|
            0 <= x < y < ss@.len() ==> (#[trigger] ss@[x]).entity_id != (
            #[trigger] ss@[y]).entity_id),
{
    let n: usize = ss.len();
    let mut i: usize = 0;
    while i < n
        invariant
            0 <= i <= n,
            n == ss@.len(),
            forall|x: int, y: int|
                0 <= x < y < ss@.len() && x < i ==> (#[trigger] ss@[x]).entity_id != (
                #[trigger] ss@[y]).entity_id,
        decreases n - i,
    {
        let mut j: usize = i + 1;
        while j < n
            invariant
                0 <= i < j <= n,
                n == ss@.len(),
                forall|y: int| i < y < j ==> (#[trigger] ss@[y]).entity_id != ss@[i as int].entity_id,
            decreases n - j,
        {
            if ss[j].entity_id == ss[i].entity_id {
                return false;
            }
            j = j + 1;
        }
        i = i + 1;
    }
    true
}

/// Push a validation error built from string literals.
fn push_error(errors: &mut Vec<ValidationError>, field: &str, message: &str, kind: ValidationErrorType)
    ensures
        final(errors)@.len() == old(errors)@.len() + 1,
{
    errors.push(
        ValidationError {
            field: field.to_owned(),
            message: message.to_owned(),
            error_type: kind,
        },
    );
}

/// Validate a group: at least one entity, unique identifiers, non-empty
/// display names. Valid exactly when every rule holds.
pub fn validate_group(group: &Group) -> (r: ValidationResult)
    ensures
        r.wf(),
        r.is_valid == spec_valid_group(*group),
{
    let mut errors: Vec<ValidationError> = Vec::new();
    if group.entities.len() == 0 {
        push_error(&mut errors, "entities", "a group needs at least one entity",
            ValidationErrorType::MissingField);
    }
    if !group_ids_unique(group) {
        push_error(&mut errors, "entities", "entity ids must be unique",
            ValidationErrorType::DuplicateValue);
    }
    let mut names_ok: bool = true;
    let n: usize = group.entities.len();
    let mut i: usize = 0;
    while i < n
        invariant
            0 <= i <= n,
            n == group.entities@.len(),
            names_ok == (forall|k: int|
                0 <= k < i ==> (#[trigger] group.entities@[k]).display_name@.len() > 0),
        decreases n - i,
    {
        if group.entities[i].display_name.as_str().is_empty() {
            names_ok = false;
        }
        i = i + 1;
    }
    if !names_ok {
        push_error(&mut errors, "entities", "display names must not be empty",
            ValidationErrorType::MissingField);
    }
    let valid: bool = errors.len() == 0;
    ValidationResult { is_valid: valid, errors }
}

/// Validate a ledger against the owning group. Valid exactly when every
/// rule holds.
pub fn validate_ledger(ledger: &Ledger, group: &Group) -> (r: ValidationResult)
    ensures
        r.wf(),
        r.is_valid == spec_valid_ledger(*ledger, *group),
{
    let mut errors: Vec<ValidationError> = Vec::new();
    if ledger.display_name.as_str().is_empty() {
        push_error(&mut errors, "display_name", "a ledger needs a display name",
            ValidationErrorType::MissingField);
    }
    if ledger.participants.len() == 0 {
        push_error(&mut errors, "participants", "a ledger needs at least one participant",
            ValidationErrorType::MissingField);
    }
    let mut refs_ok: bool = true;
    let n: usize = ledger.participants.len();
    let mut i: usize = 0;
    while i < n
        invariant
            0 <= i <= n,
            n == ledger.participants@.len(),
            refs_ok == (forall|k: int| 0 <= k < i ==> group@.has_entity(#[trigger] ledger.participants@[k])),
        decreases n - i,
    {
        if !contains_entity(group, ledger.participants[i]) {
            refs_ok = false;
        }
        i = i + 1;
    }
    if !refs_ok {
        push_error(&mut errors, "participants", "every participant must be an entity of the group",
            ValidationErrorType::InvalidReference);
    }
    let valid: bool = errors.len() == 0;
    ValidationResult { is_valid: valid, errors }
}

/// Ensure an identifier resolves in the group.
pub fn validate_entity_reference(entity_id: Uid, group: &Group) -> (r: Result<(), ValidationError>)
    ensures
        r is Ok <==> group@.has_entity(entity_id),
{
    if contains_entity(group, entity_id) {
        Ok(())
    } else {
        Err(
            ValidationError {
                field: "entity_id".to_owned(),
                message: "the identifier resolves to no entity of the group".to_owned(),
                error_type: ValidationErrorType::InvalidReference,
            },
        )
    }
}

/// Ensure a currency code is three uppercase letters.
pub fn validate_currency(code: &str) -> (r: Result<(), ValidationError>)
    ensures
        r is Ok <==> spec_currency_ok(code@),
{
    let n: usize = code.unicode_len();
    let mut ok: bool = n == 3;
    if ok {
        let mut i: usize = 0;
        while i < 3
            invariant
                0 <= i <= 3,
                code@.len() == 3,
                ok == (forall|k: int| 0 <= k < i ==> 'A' <= #[trigger] code@[k] && code@[k] <= 'Z'),
            decreases 3 - i,
        {
            let c: char = code.get_char(i);
            if !('A' <= c && c <= 'Z') {
                ok = false;
            }
            i = i + 1;
        }
    }
    if ok {
        Ok(())
    } else {
        Err(
            ValidationError {
                field: "currency_iso_4217".to_owned(),
                message: "a currency code is three uppercase letters".to_owned(),
                error_type: ValidationErrorType::InvalidFormat,
            },
        )
    }
}

/// Ensure the split ratios are positive, at most one each, and sum to
/// exactly one.
pub fn validate_split_ratios_sum(ratios: &Vec<Split>) -> (r: Result<(), ValidationError>)
    ensures
        r is Ok <==> spec_splits_sum_to_one(ratios@),
{
    let n: usize = ratios.len();
    let mut pos_ok: bool = true;
    let mut i: usize = 0;
    while i < n
        invariant
            0 <= i <= n,
            n == ratios@.len(),
            pos_ok == (forall|k: int|
                0 <= k < i ==> {
                    let r = (#[trigger] ratios@[k]).ratio;
                    r.den > 0 && 0 < r.num <= r.den
                }),
        decreases n - i,
    {
        let rr: Rat = ratios[i].ratio;
        if !(rr.den > 0 && 0 < rr.num && rr.num <= rr.den) {
            pos_ok = false;
        }
        i = i + 1;
    }
    let sum_ok: bool = if pos_ok {
        let rv: Vec<Rat> = ratios_vec(ratios);
        proof {
            assert forall|j: int| 0 <= j < rv@.len() implies (#[trigger] rv@[j]).wf() by {
                assert(rv@[j] == ratios@[j].ratio);
            }
        }
        match sum_rats(&rv) {
            Some(s) => s.num == s.den,
            None => false,
        }
    } else {
        false
    };
    if pos_ok && sum_ok {
        Ok(())
    } else {
        Err(
            ValidationError {
                field: "split_ratios".to_owned(),
                message: "split ratios must be positive and sum to exactly one".to_owned(),
                error_type: ValidationErrorType::SumMismatch,
            },
        )
    }
}

/// Validate a transaction against its ledger and group. Valid exactly when
/// every rule holds; a valid transaction is ready for the balance engine.
pub fn validate_transaction(transaction: &Transaction, ledger: &Ledger, group: &Group) -> (r:
    ValidationResult)
    ensures
        r.wf(),
        r.is_valid == spec_valid_transaction(*transaction, *ledger, *group),
        r.is_valid ==> engine_ready(*transaction),
{
    let mut errors: Vec<ValidationError> = Vec::new();
    if transaction.description.as_str().is_empty() {
        push_error(&mut errors, "description", "a transaction needs a description",
            ValidationErrorType::MissingField);
    }
    if !contains_entity(group, transaction.paid_by_entity) {
        push_error(&mut errors, "paid_by_entity", "the payer must be an entity of the group",
            ValidationErrorType::InvalidReference);
    }
    if !ledger.has_participant(transaction.paid_by_entity) {
        push_error(&mut errors, "paid_by_entity", "the payer must take part in the ledger",
            ValidationErrorType::InvalidReference);
    }
    if transaction.split_ratios.len() == 0 {
        push_error(&mut errors, "split_ratios", "a transaction needs at least one split",
            ValidationErrorType::MissingField);
    }
    let n: usize = transaction.split_ratios.len();
    let mut refs_ok: bool = true;
    let mut i: usize = 0;
    while i < n
        invariant
            0 <= i <= n,
            n == transaction.split_ratios@.len(),
            refs_ok == (forall|k: int|
                0 <= k < i ==> {
                    let e = (#[trigger] transaction.split_ratios@[k]).entity_id;
                    group@.has_entity(e) && ledger.participants@.contains(e)
                }),
        decreases n - i,
    {
        let e: Uid = transaction.split_ratios[i].entity_id;
        if !(contains_entity(group, e) && ledger.has_participant(e)) {
            refs_ok = false;
        }
        i = i + 1;
    }
    if !refs_ok {
        push_error(&mut errors, "split_ratios",
            "every split entity must be an entity of the group and take part in the ledger",
            ValidationErrorType::InvalidReference);
    }
    let dedup_ok: bool = splits_unique(&transaction.split_ratios);
    if !dedup_ok {
        push_error(&mut errors, "split_ratios", "each entity appears in at most one split",
            ValidationErrorType::DuplicateValue);
    }
    match validate_split_ratios_sum(&transaction.split_ratios) {
        Ok(_) => {
        },
        Err(e) => {
            errors.push(e);
        },
    }
    match validate_currency(transaction.currency_iso_4217.as_str()) {
        Ok(_) => {
        },
        Err(e) => {
            errors.push(e);
        },
    }
    if !(0 < transaction.amount.minor && transaction.amount.minor <= AMOUNT_LIMIT) {
        push_error(&mut errors, "amount", "the amount must be positive and within range",
            ValidationErrorType::InvalidValue);
    }
    if !transaction.transaction_datetime_rfc_3339.is_wf() {
        push_error(&mut errors, "transaction_datetime_rfc_3339",
            "the timestamp must denote a real calendar date and time",
            ValidationErrorType::InvalidValue);
    }
    let valid: bool = errors.len() == 0;
    ValidationResult { is_valid: valid, errors }
}

} // verus!
