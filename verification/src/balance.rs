//! The balance engine: who owes whom, from one user's point of view.
//!
//! For each transaction, every participant's share is the transaction amount
//! times the participant's exact split ratio, rounded to the nearest minor
//! unit (ties away from zero). If the viewing user paid, every other split
//! participant owes the user their share; otherwise the user owes the payer
//! the user's own share. Balances are kept per currency and are never summed
//! across currencies.

use vstd::prelude::*;
use vstd::arithmetic::div_mod::{
    lemma_div_is_ordered, lemma_div_pos_is_pos, lemma_fundamental_div_mod,
    lemma_fundamental_div_mod_converse_div,
};
use crate::domain::{Split, Transaction, AMOUNT_LIMIT};
use crate::errors::Settlement;
use crate::ids::Uid;
use crate::rat::{frac_eq, Rat};

verus! {

/// Most transactions one balance computation accepts; keeps every running
/// balance far inside 128-bit integers.
pub const TXNS_LIMIT: usize = 1_000_000_000;

/// The split ratio of an entity: the first matching split's ratio, or zero
/// if the entity is absent from the split list.
pub open spec fn ratio_in(splits: Seq<Split>, e: Uid) -> Rat
    decreases splits.len(),
{
    if splits.len() == 0 {
        Rat { num: 0, den: 1 }
    } else if splits[0].entity_id == e {
        splits[0].ratio
    } else {
        ratio_in(splits.drop_first(), e)
    }
}

/// Division rounded to the nearest whole number, ties away from zero.
pub open spec fn div_round(n: int, d: int) -> int {
    if n >= 0 {
        (n + d / 2) / d
    } else {
        -((-n + d / 2) / d)
    }
}

/// An entity's share of a transaction, in minor units: the amount times the
/// entity's exact ratio, rounded to the nearest minor unit.
pub open spec fn share_spec(t: Transaction, e: Uid) -> int {
    let r = ratio_in(t.split_ratios@, e);
    div_round(t.amount.minor * r.num, r.den as int)
}

/// What the balance engine needs of a transaction: a non-negative bounded
/// amount, ratios between zero and one, and one split per entity. Validated
/// transactions have all of this.
pub open spec fn engine_ready(t: Transaction) -> bool {
    &&& t.amount.bounded()
    &&& t.amount.minor >= 0
    &&& forall|i: int|
        0 <= i < t.split_ratios@.len() ==> {
            let r = (#[trigger] t.split_ratios@[i]).ratio;
            r.wf() && 0 <= r.num <= r.den
        }
    &&& forall|i: int, j: int|
        0 <= i < j < t.split_ratios@.len() ==> (#[trigger] t.split_ratios@[i]).entity_id != (
        #[trigger] t.split_ratios@[j]).entity_id
}

/// One transaction's effect on the viewing user's balance toward an entity.
pub open spec fn contribution(t: Transaction, u: Uid, e: Uid) -> int {
    if t.paid_by_entity == u {
        if e == u {
            0
        } else {
            share_spec(t, e)
        }
    } else {
        if e == t.paid_by_entity {
            -share_spec(t, u)
        } else {
            0
        }
    }
}

/// The effect restricted to one currency.
pub open spec fn contribution_in(t: Transaction, u: Uid, e: Uid, c: Seq<char>) -> int {
    if t.currency_iso_4217@ == c {
        contribution(t, u, e)
    } else {
        0
    }
}

/// The viewing user's balance toward an entity over a transaction list, in
/// one currency: positive means the entity owes the user.
pub open spec fn balance_in(ts: Seq<Transaction>, u: Uid, e: Uid, c: Seq<char>) -> int
    decreases ts.len(),
{
    if ts.len() == 0 {
        0
    } else {
        balance_in(ts.drop_last(), u, e, c) + contribution_in(ts.last(), u, e, c)
    }
}

/// Division rounded to the nearest whole number, executably.
fn div_round_i128(n: i128, d: i128) -> (r: i128)
    requires
        d > 0,
        -0x4000_0000_0000_0000_0000_0000_0000_0000 < n
            < 0x4000_0000_0000_0000_0000_0000_0000_0000,
    ensures
        r as int == div_round(n as int, d as int),
{
    let half: i128 = d / 2;
    if n >= 0 {
        let nn: u128 = n as u128;
        let q: u128 = (nn + (half as u128)) / (d as u128);
        q as i128
    } else {
        let nn: u128 = (-n) as u128;
        let q: u128 = (nn + (half as u128)) / (d as u128);
        -(q as i128)
    }
}

/// The user's share of a transaction, in minor units; zero when the user is
/// not in the split. Exact by construction: the result times the ratio's
/// denominator is within half a denominator of amount times numerator.
pub fn get_user_share(t: &Transaction, user_id: Uid) -> (r: i128)
    requires
        t.amount.bounded(),
        forall|i: int| 0 <= i < t.split_ratios@.len() ==> (#[trigger] t.split_ratios@[i]).ratio.wf(),
    ensures
        r as int == share_spec(*t, user_id),
{
    let splits: &Vec<Split> = &t.split_ratios;
    proof {
        assert(splits@.skip(0) =~= splits@);
        lemma_ratio_in_wf(splits@, user_id);
    }
    let mut i: usize = 0;
    let mut found: Option<Rat> = None;
    while i < splits.len()
        invariant
            0 <= i <= splits@.len(),
            found is None ==> ratio_in(splits@, user_id) == ratio_in(splits@.skip(i as int), user_id),
            found matches Some(rr) ==> ratio_in(splits@, user_id) == rr,
        decreases splits@.len() - i,
    {
        proof {
            let tail = splits@.skip(i as int);
            assert(tail[0] == splits@[i as int]);
            assert(tail.drop_first() =~= splits@.skip(i as int + 1));
        }
        if matches!(found, None) {
            if splits[i].entity_id == user_id {
                found = Some(splits[i].ratio);
            }
        }
        i = i + 1;
    }
    let r: Rat = match found {
        Some(rr) => rr,
        None => {
            proof {
                assert(splits@.skip(splits@.len() as int) =~= Seq::<Split>::empty());
            }
            Rat { num: 0, den: 1 }
        },
    };
    proof {
        lemma_abs_mul_bound(t.amount.minor as int, r.num as int);
    }
    let n: i128 = (t.amount.minor as i128) * (r.num as i128);
    div_round_i128(n, r.den as i128)
}

/// The product of a bounded amount and an `i64` stays well inside `i128`.
proof fn lemma_abs_mul_bound(a: int, p: int)
    requires
        -AMOUNT_LIMIT <= a <= AMOUNT_LIMIT,
        i64::MIN <= p <= i64::MAX,
    ensures
        -0x4000_0000_0000_0000_0000_0000_0000_0000 < a * p
            < 0x4000_0000_0000_0000_0000_0000_0000_0000,
{
    assert(-0x4000_0000_0000_0000_0000_0000_0000_0000 < a * p
        < 0x4000_0000_0000_0000_0000_0000_0000_0000) by (nonlinear_arith)
        requires
            -1_000_000_000_000_000 <= a <= 1_000_000_000_000_000,
            -0x8000_0000_0000_0000 <= p <= 0x7fff_ffff_ffff_ffff,
    ;
}

/// An entity absent from every split has ratio zero and share zero.
pub proof fn lemma_share_absent(t: Transaction, e: Uid)
    requires
        forall|i: int| 0 <= i < t.split_ratios@.len() ==> (#[trigger] t.split_ratios@[i]).entity_id
            != e,
    ensures
        ratio_in(t.split_ratios@, e) == (Rat { num: 0, den: 1 }),
        share_spec(t, e) == 0,
{
    lemma_ratio_in_absent(t.split_ratios@, e);
    assert(t.amount.minor * 0 == 0) by (nonlinear_arith);
}

/// The ratio the engine reads is well formed when every listed ratio is.
proof fn lemma_ratio_in_wf(splits: Seq<Split>, e: Uid)
    requires
        forall|i: int| 0 <= i < splits.len() ==> (#[trigger] splits[i]).ratio.wf(),
    ensures
        ratio_in(splits, e).wf(),
    decreases splits.len(),
{
    if splits.len() > 0 && splits[0].entity_id != e {
        assert forall|i: int|
            0 <= i < splits.drop_first().len() implies (#[trigger] splits.drop_first()[i]).ratio.wf() by {
            assert(splits.drop_first()[i] == splits[i + 1]);
        }
        lemma_ratio_in_wf(splits.drop_first(), e);
    }
}

proof fn lemma_ratio_in_absent(splits: Seq<Split>, e: Uid)
    requires
        forall|i: int| 0 <= i < splits.len() ==> (#[trigger] splits[i]).entity_id != e,
    ensures
        ratio_in(splits, e) == (Rat { num: 0, den: 1 }),
    decreases splits.len(),
{
    if splits.len() > 0 {
        assert(splits[0].entity_id != e);
        assert forall|i: int| 0 <= i < splits.drop_first().len() implies (#[trigger] splits.drop_first()[i]).entity_id != e by {
            assert(splits.drop_first()[i] == splits[i + 1]);
        }
        lemma_ratio_in_absent(splits.drop_first(), e);
    }
}

/// The ratio the engine reads is well formed and between zero and one.
proof fn lemma_ratio_in_range(splits: Seq<Split>, e: Uid)
    requires
        forall|i: int|
            0 <= i < splits.len() ==> {
                let r = (#[trigger] splits[i]).ratio;
                r.wf() && 0 <= r.num <= r.den
            },
    ensures
        ratio_in(splits, e).wf(),
        0 <= ratio_in(splits, e).num <= ratio_in(splits, e).den,
    decreases splits.len(),
{
    if splits.len() > 0 && splits[0].entity_id != e {
        assert forall|i: int|
            0 <= i < splits.drop_first().len() implies {
            let r = (#[trigger] splits.drop_first()[i]).ratio;
            r.wf() && 0 <= r.num <= r.den
        } by {
            assert(splits.drop_first()[i] == splits[i + 1]);
        }
        lemma_ratio_in_range(splits.drop_first(), e);
    }
}

/// A share never exceeds the transaction amount and is never negative.
pub proof fn lemma_share_bounds(t: Transaction, e: Uid)
    requires
        engine_ready(t),
    ensures
        0 <= share_spec(t, e) <= t.amount.minor,
{
    lemma_ratio_in_range(t.split_ratios@, e);
    let r = ratio_in(t.split_ratios@, e);
    let a = t.amount.minor as int;
    let p = r.num as int;
    let q = r.den as int;
    let n = a * p;
    assert(a * p >= 0) by (nonlinear_arith)
        requires
            a >= 0,
            p >= 0,
    ;
    assert(a * p <= a * q) by (nonlinear_arith)
        requires
            a >= 0,
            p <= q,
    ;
    lemma_div_pos_is_pos(n + q / 2, q);
    lemma_div_is_ordered(n + q / 2, a * q + q / 2, q);
    // (a*q + q/2) / q == a, since q/2 < q.
    lemma_fundamental_div_mod_converse_div(a * q + q / 2, q, a, q / 2);
}

/// Rounded division is exact to within half a divisor: twice the difference
/// between the result times the divisor and the dividend is at most the
/// divisor.
pub proof fn lemma_div_round_precision(n: int, d: int)
    requires
        d > 0,
    ensures
        2 * (div_round(n, d) * d - n) <= d,
        2 * (n - div_round(n, d) * d) <= d,
{
    if n >= 0 {
        lemma_div_round_precision_nonneg(n, d);
    } else {
        lemma_div_round_precision_nonneg(-n, d);
        let s = div_round(-n, d);
        assert((-s) * d == -(s * d)) by (nonlinear_arith);
    }
}

proof fn lemma_div_round_precision_nonneg(n: int, d: int)
    requires
        d > 0,
        n >= 0,
    ensures
        2 * (div_round(n, d) * d - n) <= d,
        2 * (n - div_round(n, d) * d) <= d,
{
    let h = d / 2;
    let s = (n + h) / d;
    lemma_fundamental_div_mod(n + h, d);
    lemma_fundamental_div_mod(d, 2);
    let r = (n + h) % d;
    assert(n + h == d * s + r);
    assert(0 <= r < d);
    assert(s * d - n == h - r) by (nonlinear_arith)
        requires
            n + h == d * s + r,
    ;
    assert(2 * h <= d);
    assert(2 * h >= d - 1);
}

/// One entry of a balance map: an entity and the signed amount it owes the
/// viewing user (negative: the user owes the entity), in minor units.
#[derive(Clone, Copy, Debug, PartialEq, Eq, Structural)]
pub struct BalanceEntry {
    pub entity: Uid,
    pub amount: i128,
}

/// A balance map in one currency.
#[derive(Clone, Debug, PartialEq)]
pub struct Balances {
    pub currency: String,
    pub entries: Vec<BalanceEntry>,
}

/// Every entity appears at most once.
pub open spec fn keys_unique(es: Seq<BalanceEntry>) -> bool {
    forall|i: int, j: int|
        0 <= i < j < es.len() ==> (#[trigger] es[i]).entity != (#[trigger] es[j]).entity
}

/// The amount recorded for an entity; zero when the entity has no entry.
pub open spec fn amount_of(es: Seq<BalanceEntry>, e: Uid) -> int
    decreases es.len(),
{
    if es.len() == 0 {
        0
    } else if es[0].entity == e {
        es[0].amount as int
    } else {
        amount_of(es.drop_first(), e)
    }
}

/// Whether an entity has an entry.
pub open spec fn has_key(es: Seq<BalanceEntry>, e: Uid) -> bool {
    exists|i: int| 0 <= i < es.len() && (#[trigger] es[i]).entity == e
}

/// In a map with unique keys, the entry at an index records that entity's
/// amount.
pub proof fn lemma_amount_at_key(es: Seq<BalanceEntry>, i: int)
    requires
        keys_unique(es),
        0 <= i < es.len(),
    ensures
        amount_of(es, es[i].entity) == es[i].amount as int,
    decreases es.len(),
{
    if i > 0 {
        assert(es[0].entity != es[i].entity);
        assert(keys_unique(es.drop_first())) by {
            assert forall|a: int, b: int|
                0 <= a < b < es.drop_first().len() implies (#[trigger] es.drop_first()[a]).entity
                != (#[trigger] es.drop_first()[b]).entity by {
                assert(es.drop_first()[a] == es[a + 1]);
                assert(es.drop_first()[b] == es[b + 1]);
            }
        }
        assert(es.drop_first()[i - 1] == es[i]);
        lemma_amount_at_key(es.drop_first(), i - 1);
    }
}

/// Updating an entry's amount updates that entity's recorded amount and no
/// other's.
proof fn lemma_amount_of_update(es: Seq<BalanceEntry>, i: int, v: i128)
    requires
        keys_unique(es),
        0 <= i < es.len(),
    ensures
        amount_of(es.update(i, BalanceEntry { entity: es[i].entity, amount: v }), es[i].entity)
            == v as int,
        forall|x: Uid|
            x != es[i].entity ==> amount_of(
                es.update(i, BalanceEntry { entity: es[i].entity, amount: v }),
                x,
            ) == amount_of(es, x),
        keys_unique(es.update(i, BalanceEntry { entity: es[i].entity, amount: v })),
    decreases es.len(),
{
    let up = es.update(i, BalanceEntry { entity: es[i].entity, amount: v });
    assert forall|a: int, b: int|
        0 <= a < b < up.len() implies (#[trigger] up[a]).entity != (#[trigger] up[b]).entity by {
        assert(up[a].entity == es[a].entity);
        assert(up[b].entity == es[b].entity);
    }
    if i == 0 {
        assert(up[0].entity == es[0].entity);
        assert(up.drop_first() =~= es.drop_first());
        assert forall|x: Uid| x != es[0].entity implies amount_of(up, x) == amount_of(es, x) by {
            assert(amount_of(up, x) == amount_of(up.drop_first(), x));
            assert(amount_of(es, x) == amount_of(es.drop_first(), x));
        }
    } else {
        assert(es[0].entity != es[i].entity);
        assert(up[0] == es[0]);
        assert(keys_unique(es.drop_first())) by {
            assert forall|a: int, b: int|
                0 <= a < b < es.drop_first().len() implies (#[trigger] es.drop_first()[a]).entity
                != (#[trigger] es.drop_first()[b]).entity by {
                assert(es.drop_first()[a] == es[a + 1]);
                assert(es.drop_first()[b] == es[b + 1]);
            }
        }
        assert(es.drop_first()[i - 1] == es[i]);
        let subup = es.drop_first().update(i - 1, BalanceEntry { entity: es[i].entity, amount: v });
        assert(up.drop_first() =~= subup);
        lemma_amount_of_update(es.drop_first(), i - 1, v);
        assert(amount_of(up, es[i].entity) == amount_of(subup, es[i].entity));
        assert forall|x: Uid| x != es[i].entity implies amount_of(up, x) == amount_of(es, x) by {
            if x == es[0].entity {
                assert(amount_of(up, x) == up[0].amount as int);
            } else {
                assert(amount_of(up, x) == amount_of(subup, x));
                assert(amount_of(subup, x) == amount_of(es.drop_first(), x));
                assert(amount_of(es, x) == amount_of(es.drop_first(), x));
            }
        }
    }
}

/// Appending an entry for a fresh entity records its amount and leaves the
/// other entities' amounts alone.
proof fn lemma_amount_of_push(es: Seq<BalanceEntry>, e: Uid, v: i128)
    requires
        !has_key(es, e),
    ensures
        amount_of(es.push(BalanceEntry { entity: e, amount: v }), e) == v as int,
        forall|x: Uid|
            x != e ==> amount_of(es.push(BalanceEntry { entity: e, amount: v }), x) == amount_of(
                es,
                x,
            ),
    decreases es.len(),
{
    let up = es.push(BalanceEntry { entity: e, amount: v });
    if es.len() == 0 {
        assert(up[0] == BalanceEntry { entity: e, amount: v });
        assert(up.drop_first() =~= Seq::<BalanceEntry>::empty());
        assert forall|x: Uid| x != e implies amount_of(up, x) == amount_of(es, x) by {
            assert(amount_of(up, x) == amount_of(up.drop_first(), x));
        }
    } else {
        assert(es[0].entity != e);
        assert(up[0] == es[0]);
        assert(!has_key(es.drop_first(), e)) by {
            assert forall|i: int|
                0 <= i < es.drop_first().len() implies (#[trigger] es.drop_first()[i]).entity
                != e by {
                assert(es.drop_first()[i] == es[i + 1]);
            }
        }
        let sub = es.drop_first().push(BalanceEntry { entity: e, amount: v });
        assert(up.drop_first() =~= sub);
        lemma_amount_of_push(es.drop_first(), e, v);
        assert(amount_of(up, e) == amount_of(sub, e));
        assert forall|x: Uid| x != e implies amount_of(up, x) == amount_of(es, x) by {
            if x == es[0].entity {
                assert(amount_of(up, x) == up[0].amount as int);
            } else {
                assert(amount_of(up, x) == amount_of(sub, x));
                assert(amount_of(es, x) == amount_of(es.drop_first(), x));
            }
        }
    }
}

/// An entity with no entry has amount zero.
pub proof fn lemma_amount_of_absent(es: Seq<BalanceEntry>, e: Uid)
    requires
        forall|i: int| 0 <= i < es.len() ==> (#[trigger] es[i]).entity != e,
    ensures
        amount_of(es, e) == 0,
    decreases es.len(),
{
    if es.len() > 0 {
        assert forall|i: int|
            0 <= i < es.drop_first().len() implies (#[trigger] es.drop_first()[i]).entity != e by {
            assert(es.drop_first()[i] == es[i + 1]);
        }
        lemma_amount_of_absent(es.drop_first(), e);
    }
}

/// Add `delta` to an entity's balance, creating its entry if it has none.
fn bump(entries: &mut Vec<BalanceEntry>, e: Uid, delta: i128)
    requires
        keys_unique(old(entries)@),
        i128::MIN <= amount_of(old(entries)@, e) + delta <= i128::MAX,
    ensures
        keys_unique(final(entries)@),
        amount_of(final(entries)@, e) == amount_of(old(entries)@, e) + delta,
        forall|x: Uid| x != e ==> amount_of(final(entries)@, x) == amount_of(old(entries)@, x),
        forall|k: int|
            0 <= k < final(entries)@.len() ==> (#[trigger] final(entries)@[k]).entity == e
                || has_key(old(entries)@, final(entries)@[k].entity),
{
    let n: usize = entries.len();
    let mut i: usize = 0;
    while i < n
        invariant
            0 <= i <= n,
            n == entries@.len(),
            entries@ == old(entries)@,
            keys_unique(entries@),
            i128::MIN <= amount_of(entries@, e) + delta <= i128::MAX,
            forall|j: int| 0 <= j < i ==> (#[trigger] entries@[j]).entity != e,
        decreases n - i,
    {
        if entries[i].entity == e {
            proof {
                lemma_amount_at_key(entries@, i as int);
                assert(amount_of(entries@, e) == entries@[i as int].amount as int);
                lemma_amount_of_update(entries@, i as int, (entries@[i as int].amount + delta) as i128);
            }
            let a: i128 = entries[i].amount;
            entries.set(i, BalanceEntry { entity: e, amount: a + delta });
            proof {
                assert forall|k: int|
                    0 <= k < entries@.len() implies (#[trigger] entries@[k]).entity == e || has_key(
                    old(entries)@,
                    entries@[k].entity,
                ) by {
                    assert(old(entries)@[k].entity == entries@[k].entity);
                }
            }
            return ;
        }
        i = i + 1;
    }
    proof {
        assert(!has_key(entries@, e));
        lemma_amount_of_absent(entries@, e);
        lemma_amount_of_push(entries@, e, delta);
    }
    entries.push(BalanceEntry { entity: e, amount: delta });
    proof {
        assert forall|k: int|
            0 <= k < entries@.len() implies (#[trigger] entries@[k]).entity == e || has_key(
            old(entries)@,
            entries@[k].entity,
        ) by {
            if k < entries@.len() - 1 {
                assert(entries@[k] == old(entries)@[k]);
            }
        }
        assert(keys_unique(entries@)) by {
            assert forall|a: int, b: int|
                0 <= a < b < entries@.len() implies (#[trigger] entries@[a]).entity != (
                #[trigger] entries@[b]).entity by {
                if b < entries@.len() - 1 {
                    assert(entries@[a] == old(entries)@[a]);
                    assert(entries@[b] == old(entries)@[b]);
                } else {
                    assert(entries@[a] == old(entries)@[a]);
                }
            }
        }
    }
}

/// Whether one of the first `k` splits names the entity.
pub open spec fn in_prefix(splits: Seq<Split>, k: int, x: Uid) -> bool {
    exists|j: int| 0 <= j < k && j < splits.len() && (#[trigger] splits[j]).entity_id == x
}

/// The part of a paid-by-the-user transaction's effect on `x` that the
/// first `k` splits account for.
pub open spec fn prefix_contrib(t: Transaction, k: int, u: Uid, x: Uid) -> int {
    if x != u && in_prefix(t.split_ratios@, k, x) {
        share_spec(t, x)
    } else {
        0
    }
}

/// One transaction changes a balance by at most the amount limit.
proof fn lemma_contribution_bound(t: Transaction, u: Uid, e: Uid)
    requires
        engine_ready(t),
    ensures
        -AMOUNT_LIMIT <= contribution(t, u, e) <= AMOUNT_LIMIT,
{
    lemma_share_bounds(t, e);
    lemma_share_bounds(t, u);
}

/// A balance over `n` transactions is at most `n` times the amount limit.
proof fn lemma_balance_in_bound(ts: Seq<Transaction>, u: Uid, e: Uid, c: Seq<char>)
    requires
        forall|i: int| 0 <= i < ts.len() ==> engine_ready(#[trigger] ts[i]),
    ensures
        -(ts.len() * AMOUNT_LIMIT) <= balance_in(ts, u, e, c) <= ts.len() * AMOUNT_LIMIT,
    decreases ts.len(),
{
    if ts.len() == 0 {
        assert(0 * AMOUNT_LIMIT == 0) by (nonlinear_arith);
    } else {
        assert forall|i: int| 0 <= i < ts.drop_last().len() implies engine_ready(
            #[trigger] ts.drop_last()[i],
        ) by {
            assert(ts.drop_last()[i] == ts[i]);
        }
        lemma_balance_in_bound(ts.drop_last(), u, e, c);
        lemma_contribution_bound(ts.last(), u, e);
        let n = ts.len() as int;
        assert((n - 1) * AMOUNT_LIMIT + AMOUNT_LIMIT == n * AMOUNT_LIMIT) by (nonlinear_arith);
    }
}

/// Running balances stay far inside 128-bit integers.
proof fn lemma_balance_small(i: int)
    requires
        0 <= i <= TXNS_LIMIT,
    ensures
        i * AMOUNT_LIMIT <= 1_000_000_000_000_000_000_000_000,
        -1_000_000_000_000_000_000_000_000 <= -(i * AMOUNT_LIMIT),
{
    assert(i * 1_000_000_000_000_000 <= 1_000_000_000_000_000_000_000_000) by (nonlinear_arith)
        requires
            0 <= i <= 1_000_000_000,
    ;
}

/// The viewing user's balances over a transaction list, restricted to one
/// currency: one entry per entity the user shares costs with; positive
/// means the entity owes the user.
pub fn balances_toward(txns: &Vec<Transaction>, user_id: Uid, currency: &String) -> (r: Vec<
    BalanceEntry,
>)
    requires
        forall|i: int| 0 <= i < txns@.len() ==> engine_ready(#[trigger] txns@[i]),
        txns@.len() <= TXNS_LIMIT,
    ensures
        keys_unique(r@),
        forall|e: Uid| amount_of(r@, e) == balance_in(txns@, user_id, e, currency@),
        forall|k: int| 0 <= k < r@.len() ==> (#[trigger] r@[k]).entity != user_id,
{
    let mut entries: Vec<BalanceEntry> = Vec::new();
    proof {
        assert(txns@.take(0) =~= Seq::<Transaction>::empty());
    }
    let n: usize = txns.len();
    let mut i: usize = 0;
    while i < n
        invariant
            0 <= i <= n,
            n == txns@.len(),
            txns@.len() <= TXNS_LIMIT,
            forall|j: int| 0 <= j < txns@.len() ==> engine_ready(#[trigger] txns@[j]),
            keys_unique(entries@),
            forall|k: int| 0 <= k < entries@.len() ==> (#[trigger] entries@[k]).entity != user_id,
            forall|e: Uid|
                amount_of(entries@, e) == balance_in(txns@.take(i as int), user_id, e, currency@),
        decreases n - i,
    {
        let ghost tpre = txns@.take(i as int);
        proof {
            assert(txns@.take(i as int + 1).drop_last() =~= tpre);
            assert(txns@.take(i as int + 1).last() == txns@[i as int]);
            assert forall|j: int| 0 <= j < tpre.len() implies engine_ready(#[trigger] tpre[j]) by {
                assert(tpre[j] == txns@[j]);
            }
        }
        let t: &Transaction = &txns[i];
        if t.currency_iso_4217 == *currency {
            if t.paid_by_entity == user_id {
                let m: usize = t.split_ratios.len();
                let mut k: usize = 0;
                while k < m
                    invariant
                        0 <= k <= m,
                        m == t.split_ratios@.len(),
                        t == txns@[i as int],
                        0 <= i < txns@.len(),
                        n == txns@.len(),
                        txns@.len() <= TXNS_LIMIT,
                        t.paid_by_entity == user_id,
                        tpre == txns@.take(i as int),
                        forall|j: int| 0 <= j < txns@.len() ==> engine_ready(#[trigger] txns@[j]),
                        keys_unique(entries@),
                        forall|q: int|
                            0 <= q < entries@.len() ==> (#[trigger] entries@[q]).entity != user_id,
                        forall|e: Uid|
                            amount_of(entries@, e) == balance_in(tpre, user_id, e, currency@)
                                + prefix_contrib(*t, k as int, user_id, e),
                    decreases m - k,
                {
                    let s: Split = t.split_ratios[k];
                    if s.entity_id != user_id {
                        let share: i128 = get_user_share(t, s.entity_id);
                        proof {
                            assert(engine_ready(txns@[i as int]));
                            lemma_share_bounds(*t, s.entity_id);
                            lemma_balance_in_bound(tpre, user_id, s.entity_id, currency@);
                            lemma_balance_small(tpre.len() as int);
                            // This entity was not in the prefix: splits are
                            // one per entity.
                            assert(!in_prefix(t.split_ratios@, k as int, s.entity_id));
                        }
                        bump(&mut entries, s.entity_id, share);
                        proof {
                            assert forall|e: Uid|
                                amount_of(entries@, e) == balance_in(tpre, user_id, e, currency@)
                                    + prefix_contrib(*t, k as int + 1, user_id, e) by {
                                if e == s.entity_id {
                                    assert(in_prefix(t.split_ratios@, k as int + 1, e));
                                } else {
                                    assert(in_prefix(t.split_ratios@, k as int + 1, e)
                                        == in_prefix(t.split_ratios@, k as int, e));
                                }
                            }
                        }
                    } else {
                        proof {
                            assert forall|e: Uid|
                                prefix_contrib(*t, k as int + 1, user_id, e) == prefix_contrib(
                                *t,
                                k as int,
                                user_id,
                                e,
                            ) by {
                                if e != user_id {
                                    assert(in_prefix(t.split_ratios@, k as int + 1, e)
                                        == in_prefix(t.split_ratios@, k as int, e));
                                }
                            }
                        }
                    }
                    k = k + 1;
                }
                proof {
                    assert forall|e: Uid|
                        amount_of(entries@, e) == balance_in(
                        txns@.take(i as int + 1),
                        user_id,
                        e,
                        currency@,
                    ) by {
                        if e != user_id && !in_prefix(t.split_ratios@, m as int, e) {
                            assert forall|j: int|
                                0 <= j < t.split_ratios@.len() implies (#[trigger] t
                                .split_ratios@[j]).entity_id != e by {
                                assert(in_prefix(t.split_ratios@, m as int, e) == false);
                            }
                            lemma_share_absent(*t, e);
                        }
                    }
                }
            } else {
                let share: i128 = get_user_share(t, user_id);
                proof {
                    assert(engine_ready(txns@[i as int]));
                    lemma_share_bounds(*t, user_id);
                    lemma_balance_in_bound(tpre, user_id, t.paid_by_entity, currency@);
                    lemma_balance_small(tpre.len() as int);
                }
                bump(&mut entries, t.paid_by_entity, -share);
                proof {
                    assert forall|e: Uid|
                        amount_of(entries@, e) == balance_in(
                        txns@.take(i as int + 1),
                        user_id,
                        e,
                        currency@,
                    ) by {}
                }
            }
        } else {
            proof {
                assert forall|e: Uid|
                    amount_of(entries@, e) == balance_in(
                    txns@.take(i as int + 1),
                    user_id,
                    e,
                    currency@,
                ) by {}
            }
        }
        i = i + 1;
    }
    proof {
        assert(txns@.take(n as int) =~= txns@);
    }
    entries
}

/// Sum of all recorded amounts.
pub open spec fn sum_of(es: Seq<BalanceEntry>) -> int
    decreases es.len(),
{
    if es.len() == 0 {
        0
    } else {
        sum_of(es.drop_last()) + es.last().amount as int
    }
}

/// Every recorded amount is zero.
pub open spec fn all_zero(es: Seq<BalanceEntry>) -> bool {
    forall|i: int| 0 <= i < es.len() ==> (#[trigger] es[i]).amount == 0
}

/// How many recorded amounts are not zero.
pub open spec fn nonzero_count(es: Seq<BalanceEntry>) -> nat
    decreases es.len(),
{
    if es.len() == 0 {
        0
    } else {
        nonzero_count(es.drop_last()) + (if es.last().amount != 0 {
            1nat
        } else {
            0nat
        })
    }
}

/// The net effect of a settlement list on one entity: what it receives
/// raises its recorded debt toward zero, what it is paid lowers it.
pub open spec fn settle_delta(ss: Seq<Settlement>, e: Uid) -> int
    decreases ss.len(),
{
    if ss.len() == 0 {
        0
    } else {
        settle_delta(ss.drop_last(), e) + (if ss.last().from_entity == e {
            ss.last().amount as int
        } else if ss.last().to_entity == e {
            -(ss.last().amount as int)
        } else {
            0
        })
    }
}

/// Updating one entry changes the sum by the difference.
proof fn lemma_sum_of_update(es: Seq<BalanceEntry>, i: int, v: i128)
    requires
        0 <= i < es.len(),
    ensures
        sum_of(es.update(i, BalanceEntry { entity: es[i].entity, amount: v })) == sum_of(es)
            - es[i].amount + v,
    decreases es.len(),
{
    let up = es.update(i, BalanceEntry { entity: es[i].entity, amount: v });
    if i == es.len() - 1 {
        assert(up.drop_last() =~= es.drop_last());
        assert(up.last() == BalanceEntry { entity: es[i].entity, amount: v });
    } else {
        assert(up.drop_last() =~= es.drop_last().update(
            i,
            BalanceEntry { entity: es[i].entity, amount: v },
        ));
        assert(up.last() == es.last());
        lemma_sum_of_update(es.drop_last(), i, v);
    }
}

/// Updating one entry changes the count of nonzero amounts accordingly.
proof fn lemma_nonzero_count_update(es: Seq<BalanceEntry>, i: int, v: i128)
    requires
        0 <= i < es.len(),
    ensures
        nonzero_count(es.update(i, BalanceEntry { entity: es[i].entity, amount: v }))
            == nonzero_count(es) - (if es[i].amount != 0 {
            1int
        } else {
            0int
        }) + (if v != 0 {
            1int
        } else {
            0int
        }),
    decreases es.len(),
{
    let up = es.update(i, BalanceEntry { entity: es[i].entity, amount: v });
    if i == es.len() - 1 {
        assert(up.drop_last() =~= es.drop_last());
        assert(up.last() == BalanceEntry { entity: es[i].entity, amount: v });
    } else {
        assert(up.drop_last() =~= es.drop_last().update(
            i,
            BalanceEntry { entity: es[i].entity, amount: v },
        ));
        assert(up.last() == es.last());
        lemma_nonzero_count_update(es.drop_last(), i, v);
    }
}

/// Amounts all of one sign that sum to zero are all zero.
proof fn lemma_one_sided_zero_sum(es: Seq<BalanceEntry>)
    requires
        sum_of(es) == 0,
        (forall|i: int| 0 <= i < es.len() ==> (#[trigger] es[i]).amount <= 0) || (forall|i: int|
            0 <= i < es.len() ==> (#[trigger] es[i]).amount >= 0),
    ensures
        all_zero(es),
    decreases es.len(),
{
    if es.len() > 0 {
        let pre = es.drop_last();
        assert forall|i: int| 0 <= i < pre.len() implies pre[i] == es[i] by {}
        lemma_sum_sign(pre);
        lemma_sum_sign(es);
        assert(es.last().amount == 0);
        lemma_one_sided_zero_sum(pre);
        assert forall|i: int| 0 <= i < es.len() implies (#[trigger] es[i]).amount == 0 by {
            if i < es.len() - 1 {
                assert(es[i] == pre[i]);
            }
        }
    }
}

/// A sum of amounts all of one sign carries that sign.
proof fn lemma_sum_sign(es: Seq<BalanceEntry>)
    ensures
        (forall|i: int| 0 <= i < es.len() ==> (#[trigger] es[i]).amount <= 0) ==> sum_of(es) <= 0,
        (forall|i: int| 0 <= i < es.len() ==> (#[trigger] es[i]).amount >= 0) ==> sum_of(es) >= 0,
    decreases es.len(),
{
    if es.len() > 0 {
        assert forall|i: int| 0 <= i < es.drop_last().len() implies es.drop_last()[i] == es[i] by {}
        lemma_sum_sign(es.drop_last());
    }
}

/// All-zero entries record amount zero for every entity.
proof fn lemma_all_zero_amount(es: Seq<BalanceEntry>, e: Uid)
    requires
        all_zero(es),
    ensures
        amount_of(es, e) == 0,
    decreases es.len(),
{
    if es.len() > 0 {
        assert forall|i: int| 0 <= i < es.drop_first().len() implies (#[trigger] es.drop_first()[i]).amount
            == 0 by {
            assert(es.drop_first()[i] == es[i + 1]);
        }
        lemma_all_zero_amount(es.drop_first(), e);
    }
}

/// Index of an entry with the largest amount, when any amount is positive.
fn find_top_creditor(es: &Vec<BalanceEntry>) -> (r: Option<usize>)
    ensures
        r matches Some(i) ==> 0 <= i < es@.len() && es@[i as int].amount > 0 && forall|j: int|
            0 <= j < es@.len() ==> (#[trigger] es@[j]).amount <= es@[i as int].amount,
        r is None ==> forall|j: int| 0 <= j < es@.len() ==> (#[trigger] es@[j]).amount <= 0,
{
    let mut best: Option<usize> = None;
    let mut i: usize = 0;
    while i < es.len()
        invariant
            0 <= i <= es@.len(),
            best matches Some(b) ==> 0 <= b < i && es@[b as int].amount > 0 && forall|j: int|
                0 <= j < i ==> (#[trigger] es@[j]).amount <= es@[b as int].amount,
            best is None ==> forall|j: int| 0 <= j < i ==> (#[trigger] es@[j]).amount <= 0,
        decreases es@.len() - i,
    {
        let better: bool = match best {
            Some(b) => es[i].amount > es[b].amount,
            None => es[i].amount > 0,
        };
        if better {
            best = Some(i);
        }
        i = i + 1;
    }
    best
}

/// Index of an entry with the smallest amount, when any amount is negative.
fn find_top_debtor(es: &Vec<BalanceEntry>) -> (r: Option<usize>)
    ensures
        r matches Some(i) ==> 0 <= i < es@.len() && es@[i as int].amount < 0 && forall|j: int|
            0 <= j < es@.len() ==> (#[trigger] es@[j]).amount >= es@[i as int].amount,
        r is None ==> forall|j: int| 0 <= j < es@.len() ==> (#[trigger] es@[j]).amount >= 0,
{
    let mut best: Option<usize> = None;
    let mut i: usize = 0;
    while i < es.len()
        invariant
            0 <= i <= es@.len(),
            best matches Some(b) ==> 0 <= b < i && es@[b as int].amount < 0 && forall|j: int|
                0 <= j < i ==> (#[trigger] es@[j]).amount >= es@[b as int].amount,
            best is None ==> forall|j: int| 0 <= j < i ==> (#[trigger] es@[j]).amount >= 0,
        decreases es@.len() - i,
    {
        let better: bool = match best {
            Some(b) => es[i].amount < es[b].amount,
            None => es[i].amount < 0,
        };
        if better {
            best = Some(i);
        }
        i = i + 1;
    }
    best
}

/// Reduce a signed balance map to a list of payments: repeatedly the
/// entity with the largest debt pays the entity with the largest credit
/// as much as settles one of the two. When the map's amounts sum to zero,
/// applying every payment leaves every entity's balance exactly zero. The
/// payment count is small for common cases but not guaranteed least.
pub fn calculate_settlements(balances: &Balances) -> (r: Vec<Settlement>)
    requires
        keys_unique(balances.entries@),
        forall|k: int|
            0 <= k < balances.entries@.len() ==> -1_000_000_000_000_000_000_000_000
                <= (#[trigger] balances.entries@[k]).amount <= 1_000_000_000_000_000_000_000_000,
    ensures
        forall|e: Uid|
            sum_of(balances.entries@) == 0 ==> amount_of(balances.entries@, e) + settle_delta(
                r@,
                e,
            ) == 0,
        forall|j: int|
            0 <= j < r@.len() ==> {
                let s = #[trigger] r@[j];
                &&& s.amount > 0
                &&& s.from_entity != s.to_entity
                &&& has_key(balances.entries@, s.from_entity)
                &&& has_key(balances.entries@, s.to_entity)
                &&& s.currency@ == balances.currency@
            },
{
    let orig: &Vec<BalanceEntry> = &balances.entries;
    let mut cur: Vec<BalanceEntry> = Vec::new();
    let mut i0: usize = 0;
    while i0 < orig.len()
        invariant
            0 <= i0 <= orig@.len(),
            cur@ == orig@.take(i0 as int),
        decreases orig@.len() - i0,
    {
        cur.push(orig[i0]);
        proof {
            assert(cur@ =~= orig@.take(i0 as int + 1));
        }
        i0 = i0 + 1;
    }
    proof {
        assert(orig@.take(orig@.len() as int) =~= orig@);
    }
    let mut out: Vec<Settlement> = Vec::new();
    loop
        invariant
            cur@.len() == orig@.len(),
            keys_unique(orig@),
            forall|k: int| 0 <= k < cur@.len() ==> (#[trigger] cur@[k]).entity == orig@[k].entity,
            keys_unique(cur@),
            forall|k: int|
                0 <= k < cur@.len() ==> -1_000_000_000_000_000_000_000_000 <= (
                #[trigger] cur@[k]).amount <= 1_000_000_000_000_000_000_000_000,
            forall|e: Uid| amount_of(cur@, e) == amount_of(orig@, e) + settle_delta(out@, e),
            sum_of(cur@) == sum_of(orig@),
            forall|j: int|
                0 <= j < out@.len() ==> {
                    let s = #[trigger] out@[j];
                    &&& s.amount > 0
                    &&& s.from_entity != s.to_entity
                    &&& has_key(orig@, s.from_entity)
                    &&& has_key(orig@, s.to_entity)
                    &&& s.currency@ == balances.currency@
                },
        ensures
            (forall|k: int| 0 <= k < cur@.len() ==> (#[trigger] cur@[k]).amount <= 0) || (
            forall|k: int| 0 <= k < cur@.len() ==> (#[trigger] cur@[k]).amount >= 0),
        decreases nonzero_count(cur@),
    {
        let pi: Option<usize> = find_top_creditor(&cur);
        let ni: Option<usize> = find_top_debtor(&cur);
        match (pi, ni) {
            (Some(p), Some(d)) => {
                let credit: i128 = cur[p].amount;
                let debt: i128 = cur[d].amount;
                let m: i128 = if credit <= -debt {
                    credit
                } else {
                    -debt
                };
                proof {
                    assert(p != d);
                    assert(cur@[p as int].entity != cur@[d as int].entity);
                    lemma_amount_at_key(cur@, p as int);
                    lemma_amount_at_key(cur@, d as int);
                }
                let ghost before = cur@;
                let ghost mid = cur@.update(
                    d as int,
                    BalanceEntry { entity: cur@[d as int].entity, amount: (debt + m) as i128 },
                );
                proof {
                    lemma_amount_of_update(before, d as int, (debt + m) as i128);
                    lemma_sum_of_update(before, d as int, (debt + m) as i128);
                    lemma_nonzero_count_update(before, d as int, (debt + m) as i128);
                    assert(mid[p as int] == before[p as int]);
                    lemma_amount_of_update(mid, p as int, (credit - m) as i128);
                    lemma_sum_of_update(mid, p as int, (credit - m) as i128);
                    lemma_nonzero_count_update(mid, p as int, (credit - m) as i128);
                    lemma_amount_at_key(mid, p as int);
                }
                let de: Uid = cur[d].entity;
                let pe: Uid = cur[p].entity;
                cur.set(d, BalanceEntry { entity: de, amount: debt + m });
                cur.set(p, BalanceEntry { entity: pe, amount: credit - m });
                let stl: Settlement = Settlement {
                    from_entity: de,
                    to_entity: pe,
                    amount: m,
                    currency: balances.currency.clone(),
                };
                proof {
                    assert(out@.push(stl).drop_last() =~= out@);
                    assert(cur@ =~= mid.update(
                        p as int,
                        BalanceEntry { entity: pe, amount: (credit - m) as i128 },
                    ));
                    assert forall|e: Uid|
                        amount_of(cur@, e) == amount_of(orig@, e) + settle_delta(
                        out@.push(stl),
                        e,
                    ) by {
                        assert(settle_delta(out@.push(stl), e) == settle_delta(out@, e) + (if stl
                            .from_entity == e {
                            stl.amount as int
                        } else if stl.to_entity == e {
                            -(stl.amount as int)
                        } else {
                            0
                        }));
                        if e == de {
                            assert(amount_of(mid, e) == debt + m);
                            assert(amount_of(cur@, e) == amount_of(mid, e));
                        } else if e == pe {
                            assert(amount_of(mid, e) == amount_of(before, e));
                            assert(amount_of(cur@, e) == credit - m);
                        } else {
                            assert(amount_of(mid, e) == amount_of(before, e));
                            assert(amount_of(cur@, e) == amount_of(mid, e));
                        }
                    }
                }
                out.push(stl);
            },
            _ => {
                proof {
                    if pi is None {
                    } else {
                    }
                }
                break ;
            },
        }
    }
    proof {
        if sum_of(orig@) == 0 {
            lemma_one_sided_zero_sum(cur@);
            assert forall|e: Uid|
                amount_of(orig@, e) + settle_delta(out@, e) == 0 by {
                lemma_all_zero_amount(cur@, e);
            }
        }
    }
    out
}

// ------------------------------------------------------------------------
// Rescaling split ratios so they sum to exactly one.
// ------------------------------------------------------------------------

/// The ratios of a split list, in order.
pub open spec fn ratios_of(ss: Seq<Split>) -> Seq<Rat> {
    ss.map_values(|s: Split| s.ratio)
}

/// Each split's ratio divided by the total, or `None` as soon as one
/// quotient does not fit the fraction's machine integers.
pub open spec fn normalized_splits(ss: Seq<Split>, total: Rat) -> Option<Seq<Split>>
    decreases ss.len(),
{
    if ss.len() == 0 {
        Some(Seq::empty())
    } else {
        match normalized_splits(ss.drop_last(), total) {
            None => None,
            Some(pre) => match crate::rat::checked_div_spec(ss.last().ratio, total) {
                None => None,
                Some(q) => Some(pre.push(Split { entity_id: ss.last().entity_id, ratio: q })),
            },
        }
    }
}

/// Specification mirror of [`normalize_split_ratios`]: divide every ratio by
/// the ratios' exact sum, and hand the list back only when the new ratios
/// provably sum to exactly one.
pub open spec fn normalize_spec(ss: Seq<Split>) -> Option<Seq<Split>> {
    match crate::rat::checked_sum(ratios_of(ss)) {
        None => None,
        Some(tot) => if tot.num == 0 {
            None
        } else {
            match normalized_splits(ss, tot) {
                None => None,
                Some(out) => match crate::rat::checked_sum(ratios_of(out)) {
                    None => None,
                    Some(s1) => if s1.num == s1.den {
                        Some(out)
                    } else {
                        None
                    },
                },
            }
        },
    }
}

/// Once a prefix of the rescaling has failed, the whole rescaling fails.
proof fn lemma_normalized_extends_none(ss: Seq<Split>, total: Rat, i: int)
    requires
        0 <= i <= ss.len(),
        normalized_splits(ss.take(i), total) is None,
    ensures
        normalized_splits(ss, total) is None,
    decreases ss.len() - i,
{
    if i == ss.len() {
        assert(ss.take(i) =~= ss);
    } else {
        assert(ss.take(i + 1).drop_last() =~= ss.take(i));
        lemma_normalized_extends_none(ss, total, i + 1);
    }
}

/// Copy the ratios out of a split list.
pub fn ratios_vec(ss: &Vec<Split>) -> (r: Vec<Rat>)
    ensures
        r@ == ratios_of(ss@),
{
    let mut r: Vec<Rat> = Vec::new();
    let mut i: usize = 0;
    while i < ss.len()
        invariant
            0 <= i <= ss@.len(),
            r@ =~= ratios_of(ss@.take(i as int)),
        decreases ss@.len() - i,
    {
        r.push(ss[i].ratio);
        proof {
            assert(r@ =~= ratios_of(ss@.take(i as int + 1)));
        }
        i = i + 1;
    }
    proof {
        assert(ss@.take(ss@.len() as int) =~= ss@);
    }
    r
}

/// Rescale a list of split ratios, preserving their relative proportions,
/// so that they sum to exactly one. `None` when the ratios sum to zero or a
/// rescaled fraction cannot be represented; the entity order and identities
/// are kept.
pub fn normalize_split_ratios(ratios: Vec<Split>) -> (r: Option<Vec<Split>>)
    requires
        forall|i: int| 0 <= i < ratios@.len() ==> (#[trigger] ratios@[i]).ratio.wf(),
    ensures
        r matches Some(v) ==> normalize_spec(ratios@) == Some(v@),
        r is None ==> normalize_spec(ratios@) is None,
        r matches Some(v) ==> {
            &&& v@.len() == ratios@.len()
            &&& forall|i: int|
                0 <= i < v@.len() ==> (#[trigger] v@[i]).entity_id == ratios@[i].entity_id
            &&& crate::rat::checked_sum(ratios_of(v@)) matches Some(s) && frac_eq(
                s.num as int,
                s.den as int,
                1,
                1,
            )
        },
{
    let rv: Vec<Rat> = ratios_vec(&ratios);
    let total: Rat = match crate::rat::sum_rats(&rv) {
        Some(t) => t,
        None => {
            return None;
        },
    };
    if total.num == 0 {
        return None;
    }
    proof {
        assert forall|j: int| 0 <= j < rv@.len() implies (#[trigger] rv@[j]).wf() by {
            assert(rv@[j] == ratios@[j].ratio);
        }
        crate::rat::lemma_checked_sum_value(rv@);
    }
    let mut out: Vec<Split> = Vec::new();
    proof {
        assert(ratios@.take(0) =~= Seq::<Split>::empty());
        assert(out@ =~= Seq::<Split>::empty());
    }
    let mut i: usize = 0;
    while i < ratios.len()
        invariant
            0 <= i <= ratios@.len(),
            forall|j: int| 0 <= j < ratios@.len() ==> (#[trigger] ratios@[j]).ratio.wf(),
            total.wf(),
            total.num != 0,
            crate::rat::checked_sum(ratios_of(ratios@)) == Some(total),
            normalized_splits(ratios@.take(i as int), total) == Some(out@),
            out@.len() == i,
            forall|j: int| 0 <= j < i ==> (#[trigger] out@[j]).entity_id == ratios@[j].entity_id,
            forall|j: int| 0 <= j < i ==> (#[trigger] out@[j]).ratio.wf(),
        decreases ratios@.len() - i,
    {
        proof {
            assert(ratios@.take(i as int + 1).drop_last() =~= ratios@.take(i as int));
            assert(ratios@.take(i as int + 1).last() == ratios@[i as int]);
        }
        match ratios[i].ratio.div(total) {
            Some(q) => {
                out.push(Split { entity_id: ratios[i].entity_id, ratio: q });
            },
            None => {
                proof {
                    lemma_normalized_extends_none(ratios@, total, i as int + 1);
                }
                return None;
            },
        }
        i = i + 1;
    }
    proof {
        assert(ratios@.take(ratios@.len() as int) =~= ratios@);
    }
    let ov: Vec<Rat> = ratios_vec(&out);
    let check: Rat = match crate::rat::sum_rats(&ov) {
        Some(s) => s,
        None => {
            return None;
        },
    };
    if check.num == check.den {
        Some(out)
    } else {
        None
    }
}

// ------------------------------------------------------------------------
// Balance conservation: debts and credits cancel globally.
// ------------------------------------------------------------------------

/// Sum of one user's balances toward a list of entities.
pub open spec fn pair_sum(ts: Seq<Transaction>, u: Uid, es: Seq<Uid>, c: Seq<char>) -> int
    decreases es.len(),
{
    if es.len() == 0 {
        0
    } else {
        pair_sum(ts, u, es.drop_last(), c) + balance_in(ts, u, es.last(), c)
    }
}

/// Sum of a list of users' balances toward one entity.
pub open spec fn toward_sum(ts: Seq<Transaction>, us: Seq<Uid>, e: Uid, c: Seq<char>) -> int
    decreases us.len(),
{
    if us.len() == 0 {
        0
    } else {
        toward_sum(ts, us.drop_last(), e, c) + balance_in(ts, us.last(), e, c)
    }
}

/// Sum, over every user of one list, of that user's balances toward every
/// entity of another list.
pub open spec fn cross_sum(ts: Seq<Transaction>, us: Seq<Uid>, es: Seq<Uid>, c: Seq<char>) -> int
    decreases us.len(),
{
    if us.len() == 0 {
        0
    } else {
        cross_sum(ts, us.drop_last(), es, c) + pair_sum(ts, us.last(), es, c)
    }
}

/// One transaction's effect on `u`'s balance toward `e` is the exact
/// opposite of its effect on `e`'s balance toward `u`.
pub proof fn lemma_contribution_antisym(t: Transaction, u: Uid, e: Uid)
    ensures
        contribution(t, u, e) + contribution(t, e, u) == 0,
{
}

/// `u`'s balance toward `e` is the exact opposite of `e`'s balance toward
/// `u`.
pub proof fn lemma_balance_antisym(ts: Seq<Transaction>, u: Uid, e: Uid, c: Seq<char>)
    ensures
        balance_in(ts, u, e, c) + balance_in(ts, e, u, c) == 0,
    decreases ts.len(),
{
    if ts.len() > 0 {
        lemma_balance_antisym(ts.drop_last(), u, e, c);
        lemma_contribution_antisym(ts.last(), u, e);
    }
}

/// A row of balances cancels the matching column.
proof fn lemma_row_col(ts: Seq<Transaction>, x: Uid, s: Seq<Uid>, c: Seq<char>)
    ensures
        pair_sum(ts, x, s, c) + toward_sum(ts, s, x, c) == 0,
    decreases s.len(),
{
    if s.len() > 0 {
        lemma_row_col(ts, x, s.drop_last(), c);
        lemma_balance_antisym(ts, x, s.last(), c);
    }
}

/// Extending the entity list extends each row by one balance.
proof fn lemma_cross_extend(ts: Seq<Transaction>, us: Seq<Uid>, es: Seq<Uid>, x: Uid, c: Seq<char>)
    ensures
        cross_sum(ts, us, es.push(x), c) == cross_sum(ts, us, es, c) + toward_sum(ts, us, x, c),
    decreases us.len(),
{
    if us.len() > 0 {
        lemma_cross_extend(ts, us.drop_last(), es, x, c);
        assert(es.push(x).drop_last() =~= es);
        assert(pair_sum(ts, us.last(), es.push(x), c) == pair_sum(ts, us.last(), es, c)
            + balance_in(ts, us.last(), x, c));
    }
}

/// Balance conservation: over any transaction list and any list of
/// entities, summing every entity's balance toward every other entity (in
/// one currency) gives exactly zero — debts and credits cancel globally.
pub proof fn lemma_balance_conservation(ts: Seq<Transaction>, entities: Seq<Uid>, c: Seq<char>)
    ensures
        cross_sum(ts, entities, entities, c) == 0,
    decreases entities.len(),
{
    if entities.len() > 0 {
        let s = entities.drop_last();
        let x = entities.last();
        assert(entities =~= s.push(x));
        lemma_balance_conservation(ts, s, c);
        lemma_cross_extend(ts, s, s, x, c);
        lemma_row_col(ts, x, s, c);
        lemma_balance_antisym(ts, x, x, c);
        assert(pair_sum(ts, x, s.push(x), c) == pair_sum(ts, x, s, c) + balance_in(ts, x, x, c))
            by {
            assert(s.push(x).drop_last() =~= s);
        }
        assert(cross_sum(ts, s.push(x), s.push(x), c) == cross_sum(ts, s, s.push(x), c)
            + pair_sum(ts, x, s.push(x), c)) by {
            assert(s.push(x).drop_last() =~= s);
        }
    }
}

} // verus!
