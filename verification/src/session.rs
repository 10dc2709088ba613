//! The application session: the loaded group, the cached ledgers with
//! their transactions, and the current selection.
//!
//! The session is a read-mostly cache owned by the running application's
//! composition root; it is never authoritative across a refresh. The
//! "current ledger" selection is a single-value state machine: switching
//! to an identifier that is not in the loaded ledger set leaves the prior
//! selection in place and reports the failure.

use vstd::prelude::*;
use crate::balance::{balance_in, balances_toward, engine_ready, keys_unique, share_spec,
    amount_of, Balances, TXNS_LIMIT};
use crate::components::Header;
use crate::domain::{Group, LedgerWithTransactions, Transaction};
use crate::errors::{BusinessLogicError, PersistenceError};
use crate::ids::Uid;

verus! {

/// The in-memory session state.
#[derive(Clone, Debug, PartialEq)]
pub struct AppState {
    pub group: Group,
    pub ledgers: Vec<LedgerWithTransactions>,
    pub current_ledger_id: Option<Uid>,
    pub user_id: Uid,
}

/// The distinct currencies of a transaction list, in order of first
/// appearance.
pub open spec fn currencies_of(ts: Seq<Transaction>) -> Seq<Seq<char>>
    decreases ts.len(),
{
    if ts.len() == 0 {
        Seq::empty()
    } else {
        let pre = currencies_of(ts.drop_last());
        if pre.contains(ts.last().currency_iso_4217@) {
            pre
        } else {
            pre.push(ts.last().currency_iso_4217@)
        }
    }
}

/// The views of a list of strings.
pub open spec fn str_views(ss: Seq<String>) -> Seq<Seq<char>> {
    ss.map_values(|s: String| s@)
}

/// The currencies of a list of balance maps.
pub open spec fn balances_currencies(bs: Seq<Balances>) -> Seq<Seq<char>> {
    bs.map_values(|b: Balances| b.currency@)
}

/// The display names of every entity but the given one, in group order.
pub open spec fn member_names(es: Seq<crate::domain::EntityV>, user: Uid) -> Seq<Seq<char>>
    decreases es.len(),
{
    if es.len() == 0 {
        Seq::empty()
    } else {
        let pre = member_names(es.drop_last(), user);
        if es.last().id == user {
            pre
        } else {
            pre.push(es.last().display_name)
        }
    }
}

/// The transactions of the first loaded ledger carrying this identifier,
/// or `None` when no loaded ledger carries it.
pub open spec fn first_ledger_txns(
    ledgers: Seq<LedgerWithTransactions>,
    lid: Uid,
) -> Option<Seq<Transaction>>
    decreases ledgers.len(),
{
    if ledgers.len() == 0 {
        None
    } else if ledgers[0].ledger.id == lid {
        Some(ledgers[0].transactions@)
    } else {
        first_ledger_txns(ledgers.drop_first(), lid)
    }
}

/// The first match of a linear scan is the first loaded ledger.
proof fn lemma_first_ledger_txns_at(ledgers: Seq<LedgerWithTransactions>, lid: Uid, li: int)
    requires
        0 <= li < ledgers.len(),
        ledgers[li].ledger.id == lid,
        forall|j: int| 0 <= j < li ==> (#[trigger] ledgers[j]).ledger.id != lid,
    ensures
        first_ledger_txns(ledgers, lid) == Some(ledgers[li].transactions@),
    decreases li,
{
    if li > 0 {
        let t = ledgers.drop_first();
        assert(ledgers[0].ledger.id != lid);
        assert forall|j: int| 0 <= j < li - 1 implies (#[trigger] t[j]).ledger.id != lid by {
            assert(t[j] == ledgers[j + 1]);
        }
        assert(t[li - 1] == ledgers[li]);
        lemma_first_ledger_txns_at(t, lid, li - 1);
    }
}

/// Without a match there is no first loaded ledger.
proof fn lemma_first_ledger_txns_none(ledgers: Seq<LedgerWithTransactions>, lid: Uid)
    requires
        forall|j: int| 0 <= j < ledgers.len() ==> (#[trigger] ledgers[j]).ledger.id != lid,
    ensures
        first_ledger_txns(ledgers, lid) is None,
    decreases ledgers.len(),
{
    if ledgers.len() > 0 {
        let t = ledgers.drop_first();
        assert forall|j: int| 0 <= j < t.len() implies (#[trigger] t[j]).ledger.id != lid by {
            assert(t[j] == ledgers[j + 1]);
        }
        lemma_first_ledger_txns_none(t, lid);
    }
}

/// One row of the transaction list, ready to render: the record's facts
/// plus the viewing user's exact share of it.
#[derive(Clone, Debug, PartialEq)]
pub struct TransactionRow {
    pub expense_id: Uid,
    pub description: String,
    pub payer_name: String,
    pub amount: crate::domain::Amount,
    pub currency: String,
    pub when: crate::datetime::Timestamp,
    /// The viewing user's share of the cost, in minor units.
    pub user_share: i128,
    /// Whether the viewing user paid this expense.
    pub user_paid: bool,
}

impl AppState {
    /// Whether a loaded ledger carries this identifier.
    pub open spec fn has_ledger(self, id: Uid) -> bool {
        exists|i: int|
            0 <= i < self.ledgers@.len() && (#[trigger] self.ledgers@[i]).ledger.id == id
    }

    /// Position of the first loaded ledger with this identifier.
    fn find_ledger(&self, id: Uid) -> (r: Option<usize>)
        ensures
            r matches Some(i) ==> i < self.ledgers@.len() && self.ledgers@[i as int].ledger.id
                == id && forall|j: int|
                0 <= j < i ==> (#[trigger] self.ledgers@[j]).ledger.id != id,
            r is None <==> !self.has_ledger(id),
    {
        let n: usize = self.ledgers.len();
        let mut i: usize = 0;
        while i < n
            invariant
                0 <= i <= n,
                n == self.ledgers@.len(),
                forall|j: int| 0 <= j < i ==> (#[trigger] self.ledgers@[j]).ledger.id != id,
            decreases n - i,
        {
            if self.ledgers[i].ledger.id == id {
                return Some(i);
            }
            i = i + 1;
        }
        None
    }

    /// Switch the current selection to a loaded ledger. When the
    /// identifier is not in the loaded set, the prior selection is kept
    /// and the failure is reported.
    pub fn switch_ledger(&mut self, ledger_id: Uid) -> (r: Result<(), PersistenceError>)
        ensures
            final(self).group == old(self).group,
            final(self).ledgers == old(self).ledgers,
            final(self).user_id == old(self).user_id,
            r is Ok <==> old(self).has_ledger(ledger_id),
            r is Ok ==> final(self).current_ledger_id == Some(ledger_id),
            r is Err ==> final(self).current_ledger_id == old(self).current_ledger_id,
            r matches Err(e) ==> e is NotFound,
    {
        match self.find_ledger(ledger_id) {
            Some(_) => {
                self.current_ledger_id = Some(ledger_id);
                Ok(())
            },
            None => Err(
                PersistenceError::NotFound("the ledger id is not in the loaded set".to_owned()),
            ),
        }
    }

    /// The viewing user's balances for a loaded ledger, one balance map
    /// per currency appearing in the ledger (balances are never summed
    /// across currencies). Positive means the entity owes the user.
    pub fn calculate_balances(&self, ledger_id: Uid, user_id: Uid) -> (r: Result<
        Vec<Balances>,
        BusinessLogicError,
    >)
        requires
            forall|i: int, j: int|
                0 <= i < self.ledgers@.len() && 0 <= j
                    < (#[trigger] self.ledgers@[i]).transactions@.len() ==> engine_ready(
                    #[trigger] self.ledgers@[i].transactions@[j],
                ),
            forall|i: int|
                0 <= i < self.ledgers@.len() ==> (#[trigger] self.ledgers@[i]).transactions@.len()
                    <= TXNS_LIMIT,
        ensures
            r is Err <==> !self.has_ledger(ledger_id),
            r matches Ok(bs) ==> exists|li: int|
                {
                    &&& 0 <= li < self.ledgers@.len()
                    &&& (#[trigger] self.ledgers@[li]).ledger.id == ledger_id
                    &&& balances_currencies(bs@) == currencies_of(
                        self.ledgers@[li].transactions@,
                    )
                    &&& forall|k: int|
                        0 <= k < bs@.len() ==> {
                            let b = #[trigger] bs@[k];
                            &&& keys_unique(b.entries@)
                            &&& forall|e: Uid|
                                amount_of(b.entries@, e) == balance_in(
                                    self.ledgers@[li].transactions@,
                                    user_id,
                                    e,
                                    b.currency@,
                                )
                            &&& forall|q: int|
                                0 <= q < b.entries@.len() ==> (#[trigger] b.entries@[q]).entity
                                    != user_id
                        }
                },
    {
        let li: usize = match self.find_ledger(ledger_id) {
            Some(i) => i,
            None => {
                return Err(
                    BusinessLogicError::LedgerNotFound(
                        "the ledger id is not in the loaded set".to_owned(),
                    ),
                );
            },
        };
        let txns: &Vec<Transaction> = &self.ledgers[li].transactions;
        // Collect the distinct currencies in order of first appearance.
        let mut cs: Vec<String> = Vec::new();
        let n: usize = txns.len();
        let mut i: usize = 0;
        proof {
            assert(txns@.take(0) =~= Seq::<Transaction>::empty());
            assert(str_views(cs@) =~= currencies_of(txns@.take(0)));
        }
        while i < n
            invariant
                0 <= i <= n,
                n == txns@.len(),
                str_views(cs@) == currencies_of(txns@.take(i as int)),
            decreases n - i,
        {
            proof {
                assert(txns@.take(i as int + 1).drop_last() =~= txns@.take(i as int));
                assert(txns@.take(i as int + 1).last() == txns@[i as int]);
            }
            let mut seen: bool = false;
            let m: usize = cs.len();
            let mut k: usize = 0;
            while k < m
                invariant
                    0 <= k <= m,
                    m == cs@.len(),
                    0 <= i < n == txns@.len(),
                    seen == (exists|q: int|
                        0 <= q < k && (#[trigger] cs@[q])@ == txns@[i as int].currency_iso_4217@),
                decreases m - k,
            {
                if cs[k] == txns[i].currency_iso_4217 {
                    seen = true;
                }
                k = k + 1;
            }
            proof {
                let cv = str_views(cs@);
                assert(seen == cv.contains(txns@[i as int].currency_iso_4217@)) by {
                    if seen {
                        let q = choose|q: int|
                            0 <= q < cs@.len() && (#[trigger] cs@[q])@ == txns@[i as int].currency_iso_4217@;
                        assert(cv[q] == cs@[q]@);
                    } else {
                        if cv.contains(txns@[i as int].currency_iso_4217@) {
                            let q = choose|q: int|
                                0 <= q < cv.len() && cv[q] == txns@[i as int].currency_iso_4217@;
                            assert(cs@[q]@ == cv[q]);
                        }
                    }
                }
            }
            if !seen {
                cs.push(txns[i].currency_iso_4217.clone());
                proof {
                    assert(str_views(cs@) =~= str_views(cs@.drop_last()).push(
                        txns@[i as int].currency_iso_4217@,
                    ));
                }
            }
            i = i + 1;
        }
        proof {
            assert(txns@.take(n as int) =~= txns@);
        }
        // One balance map per currency.
        let mut out: Vec<Balances> = Vec::new();
        let m: usize = cs.len();
        let mut k: usize = 0;
        while k < m
            invariant
                0 <= k <= m,
                m == cs@.len(),
                0 <= li < self.ledgers@.len(),
                txns == &self.ledgers@[li as int].transactions,
                forall|a: int, j: int|
                    0 <= a < self.ledgers@.len() && 0 <= j
                        < (#[trigger] self.ledgers@[a]).transactions@.len() ==> engine_ready(
                        #[trigger] self.ledgers@[a].transactions@[j],
                    ),
                forall|a: int|
                    0 <= a < self.ledgers@.len() ==> (
                    #[trigger] self.ledgers@[a]).transactions@.len() <= TXNS_LIMIT,
                out@.len() == k,
                forall|q: int| 0 <= q < k ==> (#[trigger] out@[q]).currency@ == cs@[q]@,
                forall|q: int|
                    0 <= q < k ==> {
                        let b = #[trigger] out@[q];
                        &&& keys_unique(b.entries@)
                        &&& forall|e: Uid|
                            amount_of(b.entries@, e) == balance_in(
                                self.ledgers@[li as int].transactions@,
                                user_id,
                                e,
                                b.currency@,
                            )
                        &&& forall|w: int|
                            0 <= w < b.entries@.len() ==> (#[trigger] b.entries@[w]).entity
                                != user_id
                    },
            decreases m - k,
        {
            proof {
                assert forall|j: int| 0 <= j < txns@.len() implies engine_ready(
                    #[trigger] txns@[j],
                ) by {
                    assert(txns@[j] == self.ledgers@[li as int].transactions@[j]);
                }
            }
            let entries: Vec<crate::balance::BalanceEntry> = balances_toward(
                txns,
                user_id,
                &cs[k],
            );
            out.push(Balances { currency: cs[k].clone(), entries });
            k = k + 1;
        }
        proof {
            assert(balances_currencies(out@) =~= str_views(cs@));
        }
        Ok(out)
    }

    /// The navigation header's data: the first loaded ledger's name (or a
    /// placeholder), the signed-in user's name (or a placeholder), and the
    /// other group members' names in group order.
    pub fn header_view(&self) -> (r: Header)
        ensures
            r.current_ledger matches Some(nm) && (if self.ledgers@.len() > 0 {
                nm@ == self.ledgers@[0].ledger.display_name@
            } else {
                nm@ == "No Ledger"@
            }),
            r.current_user_name matches Some(nm) && (match self.group@.name_of(self.user_id) {
                Some(actual) => nm@ == actual,
                None => nm@ == "Unknown User"@,
            }),
            str_views(r.group_members@) == member_names(self.group@.entities, self.user_id),
    {
        let ledger_name: String = if self.ledgers.len() > 0 {
            self.ledgers[0].ledger.display_name.clone()
        } else {
            "No Ledger".to_owned()
        };
        let user_name: String = match self.group.display_name_of(self.user_id) {
            Some(nm) => nm,
            None => "Unknown User".to_owned(),
        };
        let mut members: Vec<String> = Vec::new();
        let n: usize = self.group.entities.len();
        let mut i: usize = 0;
        proof {
            assert(self.group@.entities.take(0) =~= Seq::<crate::domain::EntityV>::empty());
            assert(str_views(members@) =~= member_names(
                self.group@.entities.take(0),
                self.user_id,
            ));
        }
        while i < n
            invariant
                0 <= i <= n,
                n == self.group.entities@.len(),
                n == self.group@.entities.len(),
                str_views(members@) == member_names(
                    self.group@.entities.take(i as int),
                    self.user_id,
                ),
            decreases n - i,
        {
            proof {
                assert(self.group@.entities.take(i as int + 1).drop_last() =~= self.group@.entities
                    .take(i as int));
                assert(self.group@.entities.take(i as int + 1).last() == self.group@.entities[i as int]);
            }
            if self.group.entities[i].id != self.user_id {
                members.push(self.group.entities[i].display_name.clone());
                proof {
                    assert(str_views(members@) =~= str_views(members@.drop_last()).push(
                        self.group@.entities[i as int].display_name,
                    ));
                }
            }
            i = i + 1;
        }
        proof {
            assert(self.group@.entities.take(n as int) =~= self.group@.entities);
        }
        Header::new().current_ledger(ledger_name).current_user(user_name).group_members(members)
    }

    /// One renderable row per transaction of the current ledger, in
    /// ledger order, with the viewing user's exact share of each cost.
    /// Succeeds exactly when a loaded ledger is selected; an error when
    /// nothing is selected or the selection is gone.
    pub fn transaction_rows(&self) -> (r: Result<Vec<TransactionRow>, PersistenceError>)
        requires
            forall|i: int, j: int|
                0 <= i < self.ledgers@.len() && 0 <= j
                    < (#[trigger] self.ledgers@[i]).transactions@.len() ==> engine_ready(
                    #[trigger] self.ledgers@[i].transactions@[j],
                ),
        ensures
            r matches Ok(rows) ==> self.current_ledger_id matches Some(lid) && exists|li: int|
                {
                    &&& 0 <= li < self.ledgers@.len()
                    &&& (#[trigger] self.ledgers@[li]).ledger.id == lid
                    &&& rows@.len() == self.ledgers@[li].transactions@.len()
                    &&& forall|k: int|
                        0 <= k < rows@.len() ==> {
                            let t = #[trigger] self.ledgers@[li].transactions@[k];
                            let row = rows@[k];
                            &&& row.expense_id == t.id
                            &&& row.description@ == t.description@
                            &&& row.amount == t.amount
                            &&& row.currency@ == t.currency_iso_4217@
                            &&& row.when@ == t.transaction_datetime_rfc_3339@
                            &&& row.user_share as int == share_spec(t, self.user_id)
                            &&& row.user_paid == (t.paid_by_entity == self.user_id)
                            &&& (match self.group@.name_of(t.paid_by_entity) {
                                Some(nm) => row.payer_name@ == nm,
                                None => row.payer_name@ == "Unknown"@,
                            })
                        }
                },
            r is Ok <==> (self.current_ledger_id matches Some(lid) && self.has_ledger(lid)),
            r matches Err(e) ==> e is NotFound,
    {
        let lid: Uid = match self.current_ledger_id {
            Some(l) => l,
            None => {
                return Err(PersistenceError::NotFound("no ledger selected".to_owned()));
            },
        };
        let li: usize = match self.find_ledger(lid) {
            Some(i) => i,
            None => {
                return Err(PersistenceError::NotFound("selected ledger not found".to_owned()));
            },
        };
        let txns: &Vec<Transaction> = &self.ledgers[li].transactions;
        let n: usize = txns.len();
        let mut rows: Vec<TransactionRow> = Vec::new();
        let mut k: usize = 0;
        while k < n
            invariant
                0 <= k <= n,
                n == txns@.len(),
                txns == &self.ledgers@[li as int].transactions,
                0 <= li < self.ledgers@.len(),
                self.ledgers@[li as int].ledger.id == lid,
                self.current_ledger_id == Some(lid),
                forall|a: int, j: int|
                    0 <= a < self.ledgers@.len() && 0 <= j
                        < (#[trigger] self.ledgers@[a]).transactions@.len() ==> engine_ready(
                        #[trigger] self.ledgers@[a].transactions@[j],
                    ),
                rows@.len() == k,
                forall|q: int|
                    0 <= q < k ==> {
                        let t = #[trigger] txns@[q];
                        let row = rows@[q];
                        &&& row.expense_id == t.id
                        &&& row.description@ == t.description@
                        &&& row.amount == t.amount
                        &&& row.currency@ == t.currency_iso_4217@
                        &&& row.when@ == t.transaction_datetime_rfc_3339@
                        &&& row.user_share as int == share_spec(t, self.user_id)
                        &&& row.user_paid == (t.paid_by_entity == self.user_id)
                        &&& (match self.group@.name_of(t.paid_by_entity) {
                            Some(nm) => row.payer_name@ == nm,
                            None => row.payer_name@ == "Unknown"@,
                        })
                    },
            decreases n - k,
        {
            let t: &Transaction = &txns[k];
            proof {
                assert(engine_ready(self.ledgers@[li as int].transactions@[k as int]));
            }
            let payer_name: String = match self.group.display_name_of(t.paid_by_entity) {
                Some(nm) => nm,
                None => "Unknown".to_owned(),
            };
            let share: i128 = crate::balance::get_user_share(t, self.user_id);
            rows.push(
                TransactionRow {
                    expense_id: t.id,
                    description: t.description.clone(),
                    payer_name,
                    amount: t.amount,
                    currency: t.currency_iso_4217.clone(),
                    when: t.transaction_datetime_rfc_3339.duplicate(),
                    user_share: share,
                    user_paid: t.paid_by_entity == self.user_id,
                },
            );
            k = k + 1;
        }
        Ok(rows)
    }

    /// The first transaction of the current ledger carrying this
    /// identifier. Succeeds exactly when a loaded ledger is selected and
    /// holds a transaction with the identifier; an error when nothing is
    /// selected, the selection is gone, or the identifier matches no
    /// transaction.
    pub fn find_transaction(&self, expense_id: Uid) -> (r: Result<Transaction, PersistenceError>)
        ensures
            r matches Ok(t) ==> self.current_ledger_id matches Some(lid) && exists|li: int|
                {
                    &&& 0 <= li < self.ledgers@.len()
                    &&& (#[trigger] self.ledgers@[li]).ledger.id == lid
                    &&& exists|k: int|
                        0 <= k < self.ledgers@[li].transactions@.len() && (
                        #[trigger] self.ledgers@[li].transactions@[k]).id == expense_id && t@
                            == self.ledgers@[li].transactions@[k]@
                },
            r is Ok <==> (self.current_ledger_id matches Some(lid) && first_ledger_txns(
                self.ledgers@,
                lid,
            ) matches Some(ts) && exists|k: int|
                0 <= k < ts.len() && (#[trigger] ts[k]).id == expense_id),
            r matches Err(e) ==> e is NotFound,
    {
        let lid: Uid = match self.current_ledger_id {
            Some(l) => l,
            None => {
                return Err(PersistenceError::NotFound("no ledger selected".to_owned()));
            },
        };
        let li: usize = match self.find_ledger(lid) {
            Some(i) => i,
            None => {
                proof {
                    assert forall|j: int|
                        0 <= j < self.ledgers@.len() implies (#[trigger] self.ledgers@[j]).ledger.id
                        != lid by {
                        if self.ledgers@[j].ledger.id == lid {
                            assert(self.has_ledger(lid));
                        }
                    }
                    lemma_first_ledger_txns_none(self.ledgers@, lid);
                }
                return Err(PersistenceError::NotFound("selected ledger not found".to_owned()));
            },
        };
        proof {
            lemma_first_ledger_txns_at(self.ledgers@, lid, li as int);
        }
        let txns: &Vec<Transaction> = &self.ledgers[li].transactions;
        let n: usize = txns.len();
        let mut k: usize = 0;
        while k < n
            invariant
                0 <= k <= n,
                n == txns@.len(),
                txns == &self.ledgers@[li as int].transactions,
                0 <= li < self.ledgers@.len(),
                self.ledgers@[li as int].ledger.id == lid,
                self.current_ledger_id == Some(lid),
                first_ledger_txns(self.ledgers@, lid) == Some(txns@),
                forall|q: int| 0 <= q < k ==> (#[trigger] txns@[q]).id != expense_id,
            decreases n - k,
        {
            if txns[k].id == expense_id {
                return Ok(txns[k].duplicate());
            }
            k = k + 1;
        }
        Err(PersistenceError::NotFound("transaction not found".to_owned()))
    }
}

} // verus!
