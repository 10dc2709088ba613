//! The domain model: entities, groups, ledgers, transactions and splits.
//!
//! Amounts of money are exact counts of the currency's minor unit (for
//! example cents), so balance arithmetic is integer arithmetic. Split ratios
//! are exact fractions. Which values are acceptable is the business of the
//! validation rules; these types only fix the structure.

use vstd::prelude::*;
use crate::datetime::{Timestamp, TimestampV};
use crate::ids::Uid;
use crate::rat::Rat;

verus! {

/// Largest magnitude of an amount, in minor units, that the library
/// accepts: one thousand million million. The bound keeps every share and
/// balance computation inside 128-bit integers.
pub const AMOUNT_LIMIT: i64 = 1_000_000_000_000_000;

/// An amount of money as an exact count of the currency's minor unit.
#[derive(Clone, Copy, Debug, PartialEq, Eq, Structural)]
pub struct Amount {
    pub minor: i64,
}

impl Amount {
    /// The amount's magnitude stays within the library's accepted range.
    pub open spec fn bounded(self) -> bool {
        -AMOUNT_LIMIT <= self.minor <= AMOUNT_LIMIT
    }

    /// Build an amount from whole units and a minor-unit remainder below
    /// one hundred.
    pub fn from_units(units: i64, cents: i64) -> (r: Amount)
        requires
            0 <= units <= 9_999_999_999_999,
            0 <= cents <= 99,
        ensures
            r.minor == units * 100 + cents,
            r.bounded(),
    {
        proof {
            assert(units * 100 <= 999_999_999_999_900) by (nonlinear_arith)
                requires
                    0 <= units <= 9_999_999_999_999,
            ;
            assert(units * 100 >= 0) by (nonlinear_arith)
                requires
                    units >= 0,
            ;
        }
        Amount { minor: units * 100 + cents }
    }
}

/// A person taking part in shared ledgers.
#[derive(Clone, Debug, PartialEq)]
pub struct Entity {
    pub id: Uid,
    pub display_name: String,
}

/// Ghost mirror of an [`Entity`].
pub ghost struct EntityV {
    pub id: Uid,
    pub display_name: Seq<char>,
}

impl View for Entity {
    type V = EntityV;

    open spec fn view(&self) -> EntityV {
        EntityV { id: self.id, display_name: self.display_name@ }
    }
}

/// The full set of entities that share ledgers.
#[derive(Clone, Debug, PartialEq)]
pub struct Group {
    pub entities: Vec<Entity>,
}

/// Ghost mirror of a [`Group`].
pub ghost struct GroupV {
    pub entities: Seq<EntityV>,
}

impl View for Group {
    type V = GroupV;

    open spec fn view(&self) -> GroupV {
        GroupV { entities: Seq::new(self.entities@.len(), |i: int| self.entities@[i]@) }
    }
}

impl GroupV {
    /// Whether some entity of the group carries this identifier.
    pub open spec fn has_entity(self, id: Uid) -> bool {
        exists|i: int| 0 <= i < self.entities.len() && self.entities[i].id == id
    }

    /// Display name of the first entity carrying this identifier.
    pub open spec fn name_of(self, id: Uid) -> Option<Seq<char>>
        decreases self.entities.len(),
    {
        if self.entities.len() == 0 {
            None
        } else if self.entities[0].id == id {
            Some(self.entities[0].display_name)
        } else {
            (GroupV { entities: self.entities.drop_first() }).name_of(id)
        }
    }
}

impl Group {
    /// Display name of the first entity carrying this identifier, or `None`
    /// when the identifier resolves to no entity of the group.
    pub fn display_name_of(&self, id: Uid) -> (r: Option<String>)
        ensures
            r matches Some(name) ==> self@.name_of(id) == Some(name@),
            r is None <==> self@.name_of(id) is None,
            r is None <==> !self@.has_entity(id),
    {
        proof {
            lemma_name_of_has_entity(self@, id);
            assert(self@.entities.skip(0) =~= self@.entities);
        }
        let mut i: usize = 0;
        while i < self.entities.len()
            invariant
                0 <= i <= self.entities@.len(),
                self@.entities.len() == self.entities@.len(),
                forall|j: int| 0 <= j < i ==> self@.entities[j].id != id,
                self@.name_of(id) == (GroupV {
                    entities: self@.entities.skip(i as int),
                }).name_of(id),
            decreases self.entities@.len() - i,
        {
            proof {
                let tail = self@.entities.skip(i as int);
                assert(tail[0] == self@.entities[i as int]);
                assert(tail.drop_first() =~= self@.entities.skip(i as int + 1));
            }
            if self.entities[i].id == id {
                return Some(self.entities[i].display_name.clone());
            }
            i = i + 1;
        }
        proof {
            assert(self@.entities.skip(i as int) =~= Seq::<EntityV>::empty());
        }
        None
    }
}

/// A group resolves an identifier exactly when a first match exists.
pub proof fn lemma_name_of_has_entity(g: GroupV, id: Uid)
    ensures
        g.name_of(id) is Some <==> g.has_entity(id),
    decreases g.entities.len(),
{
    if g.entities.len() > 0 {
        let tail = GroupV { entities: g.entities.drop_first() };
        lemma_name_of_has_entity(tail, id);
        if g.entities[0].id == id {
        } else {
            assert forall|i: int|
                0 <= i < g.entities.len() && g.entities[i].id == id implies exists|j: int|
                0 <= j < tail.entities.len() && tail.entities[j].id == id by {
                assert(tail.entities[i - 1] == g.entities[i]);
            }
            assert forall|j: int|
                0 <= j < tail.entities.len() && tail.entities[j].id == id implies exists|i: int|
                0 <= i < g.entities.len() && g.entities[i].id == id by {
                assert(g.entities[j + 1] == tail.entities[j]);
            }
        }
    }
}

/// One shared account with its own participant subset.
#[derive(Clone, Debug, PartialEq)]
pub struct Ledger {
    pub id: Uid,
    pub display_name: String,
    pub participants: Vec<Uid>,
}

/// Ghost mirror of a [`Ledger`].
pub ghost struct LedgerV {
    pub id: Uid,
    pub display_name: Seq<char>,
    pub participants: Seq<Uid>,
}

impl View for Ledger {
    type V = LedgerV;

    open spec fn view(&self) -> LedgerV {
        LedgerV {
            id: self.id,
            display_name: self.display_name@,
            participants: self.participants@,
        }
    }
}

impl Ledger {
    /// Whether this identifier is one of the ledger's participants.
    pub fn has_participant(&self, id: Uid) -> (b: bool)
        ensures
            b == self@.participants.contains(id),
    {
        let mut i: usize = 0;
        while i < self.participants.len()
            invariant
                0 <= i <= self.participants@.len(),
                forall|j: int| 0 <= j < i ==> self.participants@[j] != id,
            decreases self.participants@.len() - i,
        {
            if self.participants[i] == id {
                return true;
            }
            i = i + 1;
        }
        false
    }
}

/// One entity's share of a transaction, as an exact fraction of the cost.
#[derive(Clone, Copy, Debug, PartialEq, Eq, Structural)]
pub struct Split {
    pub entity_id: Uid,
    pub ratio: Rat,
}

impl View for Split {
    type V = Split;

    open spec fn view(&self) -> Split {
        *self
    }
}

/// One recorded expense: a payer, an amount, and an exact cost split.
#[derive(Clone, Debug, PartialEq)]
pub struct Transaction {
    pub id: Uid,
    pub description: String,
    pub paid_by_entity: Uid,
    pub currency_iso_4217: String,
    pub amount: Amount,
    pub transaction_datetime_rfc_3339: Timestamp,
    pub split_ratios: Vec<Split>,
}

/// Ghost mirror of a [`Transaction`].
pub ghost struct TransactionV {
    pub id: Uid,
    pub description: Seq<char>,
    pub paid_by_entity: Uid,
    pub currency_iso_4217: Seq<char>,
    pub amount: Amount,
    pub transaction_datetime_rfc_3339: TimestampV,
    pub split_ratios: Seq<Split>,
}

impl View for Transaction {
    type V = TransactionV;

    open spec fn view(&self) -> TransactionV {
        TransactionV {
            id: self.id,
            description: self.description@,
            paid_by_entity: self.paid_by_entity,
            currency_iso_4217: self.currency_iso_4217@,
            amount: self.amount,
            transaction_datetime_rfc_3339: self.transaction_datetime_rfc_3339@,
            split_ratios: self.split_ratios@,
        }
    }
}

impl TransactionV {
    /// Structural bounds the balance engine relies on: the amount is in
    /// range and every split ratio is well formed.
    pub open spec fn bounded(self) -> bool {
        &&& self.amount.bounded()
        &&& forall|i: int| 0 <= i < self.split_ratios.len() ==> (#[trigger] self.split_ratios[i]).ratio.wf()
    }
}

impl Transaction {
    /// An equal copy of the transaction.
    pub fn duplicate(&self) -> (r: Transaction)
        ensures
            r@ == self@,
    {
        let mut splits: Vec<Split> = Vec::new();
        let mut i: usize = 0;
        while i < self.split_ratios.len()
            invariant
                0 <= i <= self.split_ratios@.len(),
                splits@ =~= self.split_ratios@.take(i as int),
            decreases self.split_ratios@.len() - i,
        {
            splits.push(self.split_ratios[i]);
            proof {
                assert(splits@ =~= self.split_ratios@.take(i as int + 1));
            }
            i = i + 1;
        }
        proof {
            assert(self.split_ratios@.take(self.split_ratios@.len() as int)
                =~= self.split_ratios@);
        }
        Transaction {
            id: self.id,
            description: self.description.clone(),
            paid_by_entity: self.paid_by_entity,
            currency_iso_4217: self.currency_iso_4217.clone(),
            amount: self.amount,
            transaction_datetime_rfc_3339: self.transaction_datetime_rfc_3339.duplicate(),
            split_ratios: splits,
        }
    }
}

/// A ledger together with its materialized transactions.
#[derive(Clone, Debug, PartialEq)]
pub struct LedgerWithTransactions {
    pub ledger: Ledger,
    pub transactions: Vec<Transaction>,
}

/// Ghost mirror of a [`LedgerWithTransactions`].
pub ghost struct LedgerWithTransactionsV {
    pub ledger: LedgerV,
    pub transactions: Seq<TransactionV>,
}

impl View for LedgerWithTransactions {
    type V = LedgerWithTransactionsV;

    open spec fn view(&self) -> LedgerWithTransactionsV {
        LedgerWithTransactionsV {
            ledger: self.ledger@,
            transactions: Seq::new(self.transactions@.len(), |i: int| self.transactions@[i]@),
        }
    }
}

} // verus!
