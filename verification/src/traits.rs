//! The capability interfaces: persistence, validation and business logic.
//!
//! Each interface is implemented by a verified type of this crate: the
//! snapshot-backed repository, the rule validator, and the session state.
//! The strong contracts live on those implementations; the interfaces fix
//! the shapes the presentation shell programs against, and carry the
//! contracts that can be stated independently of any one backend.

use vstd::prelude::*;
use crate::balance::{engine_ready, share_spec, Balances};
use crate::domain::{Group, Ledger, Split, Transaction};
use crate::errors::{BusinessLogicError, PersistenceError, RefreshResult, Settlement,
    ValidationError, ValidationResult};
use crate::ids::Uid;
use crate::repo::MemRepository;
use crate::session::AppState;
use crate::validate::{spec_currency_ok, spec_splits_sum_to_one, spec_valid_group,
    spec_valid_ledger, spec_valid_transaction};

verus! {

/// Storage-agnostic persistence: load and store groups, ledgers and
/// transactions. Read-only backends report writes as unsupported.
pub trait PersistenceRepository: Sized {
    /// Load the group record with every entity.
    fn load_group(&self) -> Result<Group, PersistenceError>;

    /// Persist the group record.
    fn save_group(&self, group: &Group) -> Result<(), PersistenceError>;

    /// Scan the store and return every ledger.
    fn list_ledgers(&self) -> Result<Vec<Ledger>, PersistenceError>;

    /// Create a ledger, returning its identifier.
    fn create_ledger(&self, ledger: Ledger) -> Result<Uid, PersistenceError>;

    /// Update a ledger's metadata.
    fn update_ledger(&self, ledger: Ledger) -> Result<(), PersistenceError>;

    /// Remove a ledger.
    fn delete_ledger(&self, id: Uid) -> Result<(), PersistenceError>;

    /// All transactions of one ledger.
    fn list_transactions(&self, ledger_id: Uid) -> Result<Vec<Transaction>, PersistenceError>;

    /// Add a transaction to a ledger, returning its identifier.
    fn create_transaction(&self, ledger_id: Uid, transaction: Transaction) -> Result<
        Uid,
        PersistenceError,
    >;

    /// Modify an existing transaction.
    fn update_transaction(&self, ledger_id: Uid, transaction: Transaction) -> Result<
        (),
        PersistenceError,
    >;

    /// Remove a transaction from a ledger.
    fn delete_transaction(&self, ledger_id: Uid, transaction_id: Uid) -> Result<
        (),
        PersistenceError,
    >;

    /// Re-read the backing store and rebuild internal indexes.
    fn refresh(&mut self) -> Result<RefreshResult, PersistenceError>;
}

impl PersistenceRepository for MemRepository {
    fn load_group(&self) -> Result<Group, PersistenceError> {
        MemRepository::load_group(self)
    }

    fn save_group(&self, group: &Group) -> (r: Result<(), PersistenceError>)
        ensures
            r is Err,
            r matches Err(e) ==> e is UnsupportedOperation,
    {
        MemRepository::save_group(self, group)
    }

    fn list_ledgers(&self) -> Result<Vec<Ledger>, PersistenceError> {
        MemRepository::list_ledgers(self)
    }

    fn create_ledger(&self, _ledger: Ledger) -> (r: Result<Uid, PersistenceError>)
        ensures
            r is Err,
            r matches Err(e) ==> e is UnsupportedOperation,
    {
        Err(PersistenceError::UnsupportedOperation("create_ledger is not supported".to_owned()))
    }

    fn update_ledger(&self, _ledger: Ledger) -> (r: Result<(), PersistenceError>)
        ensures
            r is Err,
            r matches Err(e) ==> e is UnsupportedOperation,
    {
        Err(PersistenceError::UnsupportedOperation("update_ledger is not supported".to_owned()))
    }

    fn delete_ledger(&self, _id: Uid) -> (r: Result<(), PersistenceError>)
        ensures
            r is Err,
            r matches Err(e) ==> e is UnsupportedOperation,
    {
        Err(PersistenceError::UnsupportedOperation("delete_ledger is not supported".to_owned()))
    }

    fn list_transactions(&self, ledger_id: Uid) -> Result<Vec<Transaction>, PersistenceError> {
        if self.check_index_in_bounds() {
            MemRepository::list_transactions(self, ledger_id)
        } else {
            Err(PersistenceError::Other("the ledger index is stale".to_owned()))
        }
    }

    fn create_transaction(&self, _ledger_id: Uid, _transaction: Transaction) -> (r: Result<
        Uid,
        PersistenceError,
    >)
        ensures
            r is Err,
            r matches Err(e) ==> e is UnsupportedOperation,
    {
        Err(
            PersistenceError::UnsupportedOperation(
                "create_transaction is not supported".to_owned(),
            ),
        )
    }

    fn update_transaction(&self, _ledger_id: Uid, _transaction: Transaction) -> (r: Result<
        (),
        PersistenceError,
    >)
        ensures
            r is Err,
            r matches Err(e) ==> e is UnsupportedOperation,
    {
        Err(
            PersistenceError::UnsupportedOperation(
                "update_transaction is not supported".to_owned(),
            ),
        )
    }

    fn delete_transaction(&self, _ledger_id: Uid, _transaction_id: Uid) -> (r: Result<
        (),
        PersistenceError,
    >)
        ensures
            r is Err,
            r matches Err(e) ==> e is UnsupportedOperation,
    {
        Err(
            PersistenceError::UnsupportedOperation(
                "delete_transaction is not supported".to_owned(),
            ),
        )
    }

    fn refresh(&mut self) -> Result<RefreshResult, PersistenceError> {
        MemRepository::refresh(self)
    }
}

/// Stateless business-rule validation; each check says exactly which
/// rules failed and never panics.
pub trait Validator: Sized {
    /// Validate a group: entities present, unique and named.
    fn validate_group(&self, group: &Group) -> (r: ValidationResult)
        ensures
            r.wf(),
            r.is_valid == spec_valid_group(*group),
    ;

    /// Validate a ledger against the owning group.
    fn validate_ledger(&self, ledger: &Ledger, group: &Group) -> (r: ValidationResult)
        ensures
            r.wf(),
            r.is_valid == spec_valid_ledger(*ledger, *group),
    ;

    /// Validate a transaction against its ledger and group.
    fn validate_transaction(&self, transaction: &Transaction, ledger: &Ledger, group: &Group) -> (r:
        ValidationResult)
        ensures
            r.wf(),
            r.is_valid == spec_valid_transaction(*transaction, *ledger, *group),
            r.is_valid ==> engine_ready(*transaction),
    ;

    /// Ensure an identifier resolves in the group.
    fn validate_entity_reference(&self, entity_id: Uid, group: &Group) -> (r: Result<
        (),
        ValidationError,
    >)
        ensures
            r is Ok <==> group@.has_entity(entity_id),
    ;

    /// Ensure a currency code is three uppercase letters.
    fn validate_currency(&self, code: &str) -> (r: Result<(), ValidationError>)
        ensures
            r is Ok <==> spec_currency_ok(code@),
    ;

    /// Ensure the split ratios are positive and sum to exactly one.
    fn validate_split_ratios_sum(&self, ratios: &Vec<Split>) -> (r: Result<(), ValidationError>)
        ensures
            r is Ok <==> spec_splits_sum_to_one(ratios@),
    ;
}

/// The one rule validator of the library.
#[derive(Clone, Copy, Debug, PartialEq, Eq, Structural)]
pub struct RuleValidator;

impl Validator for RuleValidator {
    fn validate_group(&self, group: &Group) -> (r: ValidationResult) {
        crate::validate::validate_group(group)
    }

    fn validate_ledger(&self, ledger: &Ledger, group: &Group) -> (r: ValidationResult) {
        crate::validate::validate_ledger(ledger, group)
    }

    fn validate_transaction(&self, transaction: &Transaction, ledger: &Ledger, group: &Group) -> (r:
        ValidationResult) {
        crate::validate::validate_transaction(transaction, ledger, group)
    }

    fn validate_entity_reference(&self, entity_id: Uid, group: &Group) -> (r: Result<
        (),
        ValidationError,
    >) {
        crate::validate::validate_entity_reference(entity_id, group)
    }

    fn validate_currency(&self, code: &str) -> (r: Result<(), ValidationError>) {
        crate::validate::validate_currency(code)
    }

    fn validate_split_ratios_sum(&self, ratios: &Vec<Split>) -> (r: Result<(), ValidationError>) {
        crate::validate::validate_split_ratios_sum(ratios)
    }
}

/// Balance and settlement computation over the loaded session data.
pub trait BusinessLogic: Sized {
    /// Whether the loaded data meets the engine's documented invariants:
    /// validated transactions in bounded numbers.
    spec fn engine_inputs_ok(&self) -> bool;

    /// The viewing user's balances for a loaded ledger, per currency.
    fn calculate_balances(&self, ledger_id: Uid, user_id: Uid) -> Result<
        Vec<Balances>,
        BusinessLogicError,
    >
        requires
            self.engine_inputs_ok(),
    ;

    /// The user's exact share of one transaction, in minor units.
    fn get_user_share(&self, transaction: &Transaction, user_id: Uid) -> (r: i128)
        requires
            transaction.amount.bounded(),
            forall|i: int|
                0 <= i < transaction.split_ratios@.len() ==> (
                #[trigger] transaction.split_ratios@[i]).ratio.wf(),
        ensures
            r as int == share_spec(*transaction, user_id),
    ;

    /// Rescale split ratios so they sum to exactly one.
    fn normalize_split_ratios(&self, ratios: Vec<Split>) -> (r: Option<Vec<Split>>)
        requires
            forall|i: int| 0 <= i < ratios@.len() ==> (#[trigger] ratios@[i]).ratio.wf(),
    ;

    /// Reduce a signed balance map to payments that settle it.
    fn calculate_settlements(&self, balances: &Balances) -> (r: Vec<Settlement>)
        requires
            crate::balance::keys_unique(balances.entries@),
            forall|k: int|
                0 <= k < balances.entries@.len() ==> -1_000_000_000_000_000_000_000_000 <= (
                #[trigger] balances.entries@[k]).amount <= 1_000_000_000_000_000_000_000_000,
    ;
}

impl BusinessLogic for AppState {
    open spec fn engine_inputs_ok(&self) -> bool {
        &&& forall|i: int, j: int|
            0 <= i < self.ledgers@.len() && 0 <= j
                < (#[trigger] self.ledgers@[i]).transactions@.len() ==> engine_ready(
                #[trigger] self.ledgers@[i].transactions@[j],
            )
        &&& forall|i: int|
            0 <= i < self.ledgers@.len() ==> (#[trigger] self.ledgers@[i]).transactions@.len()
                <= crate::balance::TXNS_LIMIT
    }

    fn calculate_balances(&self, ledger_id: Uid, user_id: Uid) -> Result<
        Vec<Balances>,
        BusinessLogicError,
    > {
        AppState::calculate_balances(self, ledger_id, user_id)
    }

    fn get_user_share(&self, transaction: &Transaction, user_id: Uid) -> (r: i128) {
        crate::balance::get_user_share(transaction, user_id)
    }

    fn normalize_split_ratios(&self, ratios: Vec<Split>) -> (r: Option<Vec<Split>>) {
        crate::balance::normalize_split_ratios(ratios)
    }

    fn calculate_settlements(&self, balances: &Balances) -> (r: Vec<Settlement>) {
        crate::balance::calculate_settlements(balances)
    }
}

} // verus!
