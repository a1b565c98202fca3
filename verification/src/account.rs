//! The per-client account and its state machine. `spec_step` is the
//! single source of truth for how one event changes an account and its
//! transaction history; every executable path is proved against it.
//!
//! An event applies only when its preconditions hold and every updated
//! balance stays representable; otherwise it is a semantic violation and
//! is ignored without any state change.
use vstd::prelude::*;

use crate::amount::unit_range;
use crate::amount::BAL_LIMIT;
use crate::error::AppError;
use crate::tx_history::TxHistory;
use crate::codec::snapshot_row;
use crate::codec::spec_snapshot_row;
use crate::tx_row::TxRow;
use crate::tx_row::TxRowType;

verus! {

/// One recorded transaction: its kind, owner, amount in units, and the
/// state of any dispute raised against it.
#[derive(Clone, Copy, Debug, PartialEq, Eq, Structural)]
pub struct TxRec {
    pub type_id: TxRowType,
    pub client_id: u16,
    pub amount: i128,
    pub state_id: TxRowType,
}

/// A storable record: a deposit or withdrawal of a positive representable
/// amount, in one of the four dispute states.
pub open spec fn rec_wf(r: TxRec) -> bool {
    &&& (r.type_id == TxRowType::DEPOSIT || r.type_id == TxRowType::WITHDRAW)
    &&& 0 < r.amount <= BAL_LIMIT as int
    &&& (r.state_id == TxRowType::NONE || r.state_id == TxRowType::DISPUTE || r.state_id
        == TxRowType::RESOLVE || r.state_id == TxRowType::CHARGEBACK)
}

/// A history holds storable records only.
pub open spec fn hist_wf(h: Map<u32, TxRec>) -> bool {
    forall|t: u32| h.contains_key(t) ==> rec_wf(#[trigger] h[t])
}

/// The per-client balance tuple.
#[derive(Clone, Copy, Debug, PartialEq, Eq, Structural)]
pub struct Account {
    pub client_id: u16,
    pub available: i128,
    pub held: i128,
    pub total: i128,
    pub locked: bool,
}

/// Account sanity: the total is the sum of available and held funds,
/// held funds are never negative, and every balance is representable.
pub open spec fn account_wf(a: Account) -> bool {
    &&& a.total == a.available + a.held
    &&& 0 <= a.held <= BAL_LIMIT as int
    &&& unit_range(a.available as int)
    &&& unit_range(a.total as int)
}

impl Account {
    /// A fresh account: zero balances, unlocked.
    pub fn new(client_id: u16) -> (r: Account)
        ensures
            r == spec_new_account(client_id),
            account_wf(r),
    {
        Account { client_id, available: 0, held: 0, total: 0, locked: false }
    }

    /// The snapshot row of this account.
    pub fn snapshot_row(&self) -> (r: Vec<u8>)
        requires
            account_wf(*self),
        ensures
            r@ == spec_snapshot_row(
                self.client_id,
                self.available as int,
                self.held as int,
                self.total as int,
                self.locked,
            ),
    {
        snapshot_row(self.client_id, self.available, self.held, self.total, self.locked)
    }
}

impl Account {
    /// Applies one event to this account against its history, exactly as
    /// `spec_step` on the row `(tx_type, this client, tx_id, amount)`.
    /// An error is a durable-layer failure: the account is unchanged and
    /// the run must stop.
    pub fn handle_tx(
        &mut self,
        tx_type: &TxRowType,
        tx_id: &u32,
        amount: &i128,
        tx_history: &mut TxHistory,
    ) -> (r: Result<(), AppError>)
        requires
            account_wf(*old(self)),
            old(tx_history).inv(),
            old(tx_history).client() == old(self).client_id,
        ensures
            final(tx_history).inv(),
            final(tx_history).client() == old(tx_history).client(),
            account_wf(*final(self)),
            final(self).client_id == old(self).client_id,
            r is Ok ==> (*final(self), final(tx_history).contents()) == spec_step(
                *old(self),
                old(tx_history).contents(),
                TxRow {
                    type_id: *tx_type,
                    client_id: old(self).client_id,
                    tx_id: *tx_id,
                    amount: *amount,
                },
            ),
            r is Err ==> *final(self) == *old(self),
            old(self).locked ==> r is Ok,
            *tx_type == TxRowType::NONE ==> r is Ok,
            (*tx_type == TxRowType::DEPOSIT || *tx_type == TxRowType::WITHDRAW) && !(0 < *amount
                <= BAL_LIMIT as i128) ==> r is Ok,
            *tx_type == TxRowType::WITHDRAW && old(self).available < *amount ==> r is Ok,
    {
        let ghost row = TxRow {
            type_id: *tx_type,
            client_id: self.client_id,
            tx_id: *tx_id,
            amount: *amount,
        };
        let ghost h0 = tx_history.contents();
        proof {
            tx_history.lemma_contents_wf();
            lemma_step_wf(*self, h0, row);
        }
        if self.locked {
            return Ok(());
        }
        match *tx_type {
            TxRowType::DEPOSIT => {
                if !(0 < *amount && *amount <= BAL_LIMIT as i128) {
                    return Ok(());
                }
                match tx_history.get_tx(tx_id) {
                    Err(e) => Err(e),
                    Ok(Some(_)) => Ok(()),
                    Ok(None) => {
                        let navail: i128 = self.available + *amount;
                        let ntotal: i128 = self.total + *amount;
                        if navail > BAL_LIMIT as i128 || ntotal > BAL_LIMIT as i128 {
                            return Ok(());
                        }
                        match tx_history.set_tx(tx_type, &self.client_id, tx_id, amount) {
                            Err(e) => Err(e),
                            Ok(stored) => {
                                proof {
                                    assert(stored);
                                }
                                self.available = navail;
                                self.total = ntotal;
                                Ok(())
                            },
                        }
                    },
                }
            },
            TxRowType::WITHDRAW => {
                if !(0 < *amount && *amount <= BAL_LIMIT as i128) {
                    return Ok(());
                }
                if self.available < *amount {
                    return Ok(());
                }
                match tx_history.get_tx(tx_id) {
                    Err(e) => Err(e),
                    Ok(Some(_)) => Ok(()),
                    Ok(None) => {
                        match tx_history.set_tx(tx_type, &self.client_id, tx_id, amount) {
                            Err(e) => Err(e),
                            Ok(stored) => {
                                proof {
                                    assert(stored);
                                }
                                self.available = self.available - *amount;
                                self.total = self.total - *amount;
                                Ok(())
                            },
                        }
                    },
                }
            },
            TxRowType::DISPUTE => {
                match tx_history.get_tx(tx_id) {
                    Err(e) => Err(e),
                    Ok(None) => Ok(()),
                    Ok(Some(rec)) => {
                        if rec.client_id != self.client_id || !(rec.state_id
                            == TxRowType::NONE) {
                            return Ok(());
                        }
                        if rec.type_id == TxRowType::DEPOSIT {
                            let navail: i128 = self.available - rec.amount;
                            let nheld: i128 = self.held + rec.amount;
                            if navail < -(BAL_LIMIT as i128) || nheld > BAL_LIMIT as i128 {
                                return Ok(());
                            }
                            match tx_history.set_dispute_state(tx_id, TxRowType::DISPUTE) {
                                Err(e) => Err(e),
                                Ok(moved) => {
                                    proof {
                                        assert(moved);
                                    }
                                    self.available = navail;
                                    self.held = nheld;
                                    Ok(())
                                },
                            }
                        } else {
                            match tx_history.set_dispute_state(tx_id, TxRowType::DISPUTE) {
                                Err(e) => Err(e),
                                Ok(moved) => {
                                    proof {
                                        assert(moved);
                                    }
                                    Ok(())
                                },
                            }
                        }
                    },
                }
            },
            TxRowType::RESOLVE => {
                match tx_history.get_tx(tx_id) {
                    Err(e) => Err(e),
                    Ok(None) => Ok(()),
                    Ok(Some(rec)) => {
                        if rec.client_id != self.client_id || !(rec.state_id
                            == TxRowType::DISPUTE) {
                            return Ok(());
                        }
                        if rec.type_id == TxRowType::DEPOSIT {
                            let navail: i128 = self.available + rec.amount;
                            if navail > BAL_LIMIT as i128 || self.held < rec.amount {
                                return Ok(());
                            }
                            match tx_history.set_dispute_state(tx_id, TxRowType::RESOLVE) {
                                Err(e) => Err(e),
                                Ok(moved) => {
                                    proof {
                                        assert(moved);
                                    }
                                    self.available = navail;
                                    self.held = self.held - rec.amount;
                                    Ok(())
                                },
                            }
                        } else {
                            match tx_history.set_dispute_state(tx_id, TxRowType::RESOLVE) {
                                Err(e) => Err(e),
                                Ok(moved) => {
                                    proof {
                                        assert(moved);
                                    }
                                    Ok(())
                                },
                            }
                        }
                    },
                }
            },
            TxRowType::CHARGEBACK => {
                match tx_history.get_tx(tx_id) {
                    Err(e) => Err(e),
                    Ok(None) => Ok(()),
                    Ok(Some(rec)) => {
                        if rec.client_id != self.client_id || !(rec.state_id
                            == TxRowType::DISPUTE) {
                            return Ok(());
                        }
                        if rec.type_id == TxRowType::DEPOSIT {
                            let ntotal: i128 = self.total - rec.amount;
                            if self.held < rec.amount || ntotal < -(BAL_LIMIT as i128) {
                                return Ok(());
                            }
                            match tx_history.set_dispute_state(tx_id, TxRowType::CHARGEBACK) {
                                Err(e) => Err(e),
                                Ok(moved) => {
                                    proof {
                                        assert(moved);
                                    }
                                    self.held = self.held - rec.amount;
                                    self.total = ntotal;
                                    self.locked = true;
                                    Ok(())
                                },
                            }
                        } else {
                            let navail: i128 = self.available + rec.amount;
                            let ntotal: i128 = self.total + rec.amount;
                            if navail > BAL_LIMIT as i128 || ntotal > BAL_LIMIT as i128 {
                                return Ok(());
                            }
                            match tx_history.set_dispute_state(tx_id, TxRowType::CHARGEBACK) {
                                Err(e) => Err(e),
                                Ok(moved) => {
                                    proof {
                                        assert(moved);
                                    }
                                    self.available = navail;
                                    self.total = ntotal;
                                    self.locked = true;
                                    Ok(())
                                },
                            }
                        }
                    },
                }
            },
            TxRowType::NONE => Ok(()),
        }
    }
}

pub open spec fn spec_new_account(client_id: u16) -> Account {
    Account { client_id, available: 0, held: 0, total: 0, locked: false }
}

/// The snapshot row an account serializes to.
pub open spec fn spec_snapshot_row_of(a: Account) -> Seq<u8> {
    spec_snapshot_row(a.client_id, a.available as int, a.held as int, a.total as int, a.locked)
}

/// How one event changes the account and the history. Each arm encodes
/// one row of the behaviour table: preconditions unmet means no change.
pub open spec fn spec_step(acc: Account, hist: Map<u32, TxRec>, row: TxRow) -> (Account, Map<
    u32,
    TxRec,
>) {
    if acc.locked || row.client_id != acc.client_id {
        (acc, hist)
    } else {
        match row.type_id {
            TxRowType::DEPOSIT => {
                if 0 < row.amount <= BAL_LIMIT as int && !hist.contains_key(row.tx_id)
                    && unit_range(acc.available + row.amount) && unit_range(
                    acc.total + row.amount,
                ) {
                    (
                        Account {
                            available: (acc.available + row.amount) as i128,
                            total: (acc.total + row.amount) as i128,
                            ..acc
                        },
                        hist.insert(
                            row.tx_id,
                            TxRec {
                                type_id: TxRowType::DEPOSIT,
                                client_id: row.client_id,
                                amount: row.amount,
                                state_id: TxRowType::NONE,
                            },
                        ),
                    )
                } else {
                    (acc, hist)
                }
            },
            TxRowType::WITHDRAW => {
                if 0 < row.amount <= BAL_LIMIT as int && !hist.contains_key(row.tx_id)
                    && acc.available >= row.amount {
                    (
                        Account {
                            available: (acc.available - row.amount) as i128,
                            total: (acc.total - row.amount) as i128,
                            ..acc
                        },
                        hist.insert(
                            row.tx_id,
                            TxRec {
                                type_id: TxRowType::WITHDRAW,
                                client_id: row.client_id,
                                amount: row.amount,
                                state_id: TxRowType::NONE,
                            },
                        ),
                    )
                } else {
                    (acc, hist)
                }
            },
            TxRowType::DISPUTE => {
                if hist.contains_key(row.tx_id) && hist[row.tx_id].client_id == acc.client_id
                    && hist[row.tx_id].state_id == TxRowType::NONE {
                    let rec = hist[row.tx_id];
                    let marked = hist.insert(
                        row.tx_id,
                        TxRec { state_id: TxRowType::DISPUTE, ..rec },
                    );
                    if rec.type_id == TxRowType::DEPOSIT {
                        if unit_range(acc.available - rec.amount) && acc.held + rec.amount
                            <= BAL_LIMIT as int {
                            (
                                Account {
                                    available: (acc.available - rec.amount) as i128,
                                    held: (acc.held + rec.amount) as i128,
                                    ..acc
                                },
                                marked,
                            )
                        } else {
                            (acc, hist)
                        }
                    } else {
                        // a disputed withdrawal holds no funds until a
                        // chargeback reimburses it
                        (acc, marked)
                    }
                } else {
                    (acc, hist)
                }
            },
            TxRowType::RESOLVE => {
                if hist.contains_key(row.tx_id) && hist[row.tx_id].client_id == acc.client_id
                    && hist[row.tx_id].state_id == TxRowType::DISPUTE {
                    let rec = hist[row.tx_id];
                    let marked = hist.insert(
                        row.tx_id,
                        TxRec { state_id: TxRowType::RESOLVE, ..rec },
                    );
                    if rec.type_id == TxRowType::DEPOSIT {
                        if unit_range(acc.available + rec.amount) && acc.held >= rec.amount {
                            (
                                Account {
                                    available: (acc.available + rec.amount) as i128,
                                    held: (acc.held - rec.amount) as i128,
                                    ..acc
                                },
                                marked,
                            )
                        } else {
                            (acc, hist)
                        }
                    } else {
                        (acc, marked)
                    }
                } else {
                    (acc, hist)
                }
            },
            TxRowType::CHARGEBACK => {
                if hist.contains_key(row.tx_id) && hist[row.tx_id].client_id == acc.client_id
                    && hist[row.tx_id].state_id == TxRowType::DISPUTE {
                    let rec = hist[row.tx_id];
                    let marked = hist.insert(
                        row.tx_id,
                        TxRec { state_id: TxRowType::CHARGEBACK, ..rec },
                    );
                    if rec.type_id == TxRowType::DEPOSIT {
                        if acc.held >= rec.amount && unit_range(acc.total - rec.amount) {
                            (
                                Account {
                                    held: (acc.held - rec.amount) as i128,
                                    total: (acc.total - rec.amount) as i128,
                                    locked: true,
                                    ..acc
                                },
                                marked,
                            )
                        } else {
                            (acc, hist)
                        }
                    } else {
                        // reimburse the withdrawn funds, then freeze
                        if unit_range(acc.available + rec.amount) && unit_range(
                            acc.total + rec.amount,
                        ) {
                            (
                                Account {
                                    available: (acc.available + rec.amount) as i128,
                                    total: (acc.total + rec.amount) as i128,
                                    locked: true,
                                    ..acc
                                },
                                marked,
                            )
                        } else {
                            (acc, hist)
                        }
                    }
                } else {
                    (acc, hist)
                }
            },
            TxRowType::NONE => (acc, hist),
        }
    }
}

/// A whole run: events applied in order.
pub open spec fn spec_run(acc: Account, hist: Map<u32, TxRec>, rows: Seq<TxRow>) -> (Account, Map<
    u32,
    TxRec,
>)
    decreases rows.len(),
{
    if rows.len() == 0 {
        (acc, hist)
    } else {
        let s = spec_step(acc, hist, rows[0]);
        spec_run(s.0, s.1, rows.drop_first())
    }
}

/// One step keeps the account and the history well formed, never changes
/// the owner, and never unlocks a locked account.
pub proof fn lemma_step_wf(acc: Account, hist: Map<u32, TxRec>, row: TxRow)
    requires
        account_wf(acc),
        hist_wf(hist),
    ensures
        account_wf(spec_step(acc, hist, row).0),
        hist_wf(spec_step(acc, hist, row).1),
        spec_step(acc, hist, row).0.client_id == acc.client_id,
        acc.locked ==> spec_step(acc, hist, row).0.locked,
{
}

/// A locked account is frozen: nothing changes any more.
pub proof fn lemma_locked_frozen(acc: Account, hist: Map<u32, TxRec>, row: TxRow)
    requires
        acc.locked,
    ensures
        spec_step(acc, hist, row) == (acc, hist),
{
}

/// A whole run keeps the invariants; a locked account stays frozen to
/// the end of the input.
pub proof fn lemma_run_wf(acc: Account, hist: Map<u32, TxRec>, rows: Seq<TxRow>)
    requires
        account_wf(acc),
        hist_wf(hist),
    ensures
        account_wf(spec_run(acc, hist, rows).0),
        hist_wf(spec_run(acc, hist, rows).1),
        spec_run(acc, hist, rows).0.client_id == acc.client_id,
        acc.locked ==> spec_run(acc, hist, rows) == (acc, hist),
    decreases rows.len(),
{
    if rows.len() > 0 {
        let s = spec_step(acc, hist, rows[0]);
        lemma_step_wf(acc, hist, rows[0]);
        lemma_run_wf(s.0, s.1, rows.drop_first());
        if acc.locked {
            lemma_locked_frozen(acc, hist, rows[0]);
        }
    }
}

/// A chargeback that finds its transaction held disputed for this client
/// locks the account and marks the record charged back. The two range
/// premises say the reversal is representable; every state reachable
/// from a fresh account satisfies them.
pub proof fn lemma_chargeback_locks(acc: Account, hist: Map<u32, TxRec>, row: TxRow)
    requires
        account_wf(acc),
        hist_wf(hist),
        !acc.locked,
        row.type_id == TxRowType::CHARGEBACK,
        row.client_id == acc.client_id,
        hist.contains_key(row.tx_id),
        hist[row.tx_id].client_id == acc.client_id,
        hist[row.tx_id].state_id == TxRowType::DISPUTE,
        hist[row.tx_id].type_id == TxRowType::DEPOSIT ==> acc.held >= hist[row.tx_id].amount
            && unit_range(acc.total - hist[row.tx_id].amount),
        hist[row.tx_id].type_id == TxRowType::WITHDRAW ==> unit_range(
            acc.available + hist[row.tx_id].amount,
        ) && unit_range(acc.total + hist[row.tx_id].amount),
    ensures
        spec_step(acc, hist, row).0.locked,
        spec_step(acc, hist, row).1.contains_key(row.tx_id),
        spec_step(acc, hist, row).1[row.tx_id].state_id == TxRowType::CHARGEBACK,
{
}

/// A dispute followed by a resolve of the same transaction leaves every
/// balance exactly where it started, whatever the transaction was and
/// whether or not the dispute applied — provided the transaction was not
/// already under dispute, in which case the resolve alone releases the
/// earlier hold.
pub proof fn lemma_dispute_resolve_neutral(
    acc: Account,
    hist: Map<u32, TxRec>,
    d: TxRow,
    r: TxRow,
)
    requires
        account_wf(acc),
        hist_wf(hist),
        d.type_id == TxRowType::DISPUTE,
        r.type_id == TxRowType::RESOLVE,
        d.tx_id == r.tx_id,
        d.client_id == r.client_id,
        hist.contains_key(d.tx_id) ==> hist[d.tx_id].state_id != TxRowType::DISPUTE,
    ensures
        ({
            let s1 = spec_step(acc, hist, d);
            let s2 = spec_step(s1.0, s1.1, r);
            &&& s2.0.available == acc.available
            &&& s2.0.held == acc.held
            &&& s2.0.total == acc.total
            &&& s2.0.locked == acc.locked
        }),
{
    let s1 = spec_step(acc, hist, d);
    let s2 = spec_step(s1.0, s1.1, r);
    let t = d.tx_id;
    if !acc.locked && d.client_id == acc.client_id && hist.contains_key(t)
        && hist[t].client_id == acc.client_id && hist[t].state_id == TxRowType::NONE {
        let rec = hist[t];
        if rec.type_id == TxRowType::DEPOSIT {
            if unit_range(acc.available - rec.amount) && acc.held + rec.amount <= BAL_LIMIT as int {
                // the dispute moved the funds; the resolve moves them back
                assert(s1.0.available == acc.available - rec.amount);
                assert(s1.1[t].state_id == TxRowType::DISPUTE);
                assert(s1.0.available + rec.amount == acc.available);
                assert(s2.0.available == acc.available);
            } else {
                assert(s1 == (acc, hist));
            }
        } else {
            assert(s1.0 == acc);
            assert(s1.1[t].state_id == TxRowType::DISPUTE);
        }
    }
}

/// Only a chargeback can lock: when one step locks an unlocked account,
/// the event was a chargeback and the transaction it names was held
/// disputed for this client.
pub proof fn lemma_step_lock_cause(acc: Account, hist: Map<u32, TxRec>, row: TxRow)
    requires
        !acc.locked,
        spec_step(acc, hist, row).0.locked,
    ensures
        row.type_id == TxRowType::CHARGEBACK,
        hist.contains_key(row.tx_id),
        hist[row.tx_id].state_id == TxRowType::DISPUTE,
        hist[row.tx_id].client_id == acc.client_id,
        row.client_id == acc.client_id,
{
}

/// A run that ends locked contains a chargeback that found its
/// transaction disputed at that point for this client.
pub proof fn lemma_run_lock_cause(acc: Account, hist: Map<u32, TxRec>, rows: Seq<TxRow>)
    requires
        !acc.locked,
        spec_run(acc, hist, rows).0.locked,
    ensures
        exists|i: int|
            {
                &&& 0 <= i < rows.len()
                &&& (#[trigger] rows[i]).type_id == TxRowType::CHARGEBACK
                &&& !spec_run(acc, hist, rows.take(i)).0.locked
                &&& spec_run(acc, hist, rows.take(i)).1.contains_key(rows[i].tx_id)
                &&& spec_run(acc, hist, rows.take(i)).1[rows[i].tx_id].state_id
                    == TxRowType::DISPUTE
                &&& spec_run(acc, hist, rows.take(i)).1[rows[i].tx_id].client_id == acc.client_id
            },
    decreases rows.len(),
{
    let s = spec_step(acc, hist, rows[0]);
    if s.0.locked {
        lemma_step_lock_cause(acc, hist, rows[0]);
        assert(rows.take(0) =~= Seq::<TxRow>::empty());
        assert({
            &&& 0 <= 0 < rows.len()
            &&& (rows[0]).type_id == TxRowType::CHARGEBACK
            &&& !spec_run(acc, hist, rows.take(0)).0.locked
            &&& spec_run(acc, hist, rows.take(0)).1.contains_key(rows[0].tx_id)
            &&& spec_run(acc, hist, rows.take(0)).1[rows[0].tx_id].state_id == TxRowType::DISPUTE
            &&& spec_run(acc, hist, rows.take(0)).1[rows[0].tx_id].client_id == acc.client_id
        });
    } else {
        assert(s.0.client_id == acc.client_id);
        lemma_run_lock_cause(s.0, s.1, rows.drop_first());
        let j = choose|j: int|
            {
                &&& 0 <= j < rows.drop_first().len()
                &&& (#[trigger] rows.drop_first()[j]).type_id == TxRowType::CHARGEBACK
                &&& !spec_run(s.0, s.1, rows.drop_first().take(j)).0.locked
                &&& spec_run(s.0, s.1, rows.drop_first().take(j)).1.contains_key(
                    rows.drop_first()[j].tx_id,
                )
                &&& spec_run(s.0, s.1, rows.drop_first().take(j)).1[rows.drop_first()[j].tx_id].state_id
                    == TxRowType::DISPUTE
                &&& spec_run(s.0, s.1, rows.drop_first().take(j)).1[rows.drop_first()[j].tx_id].client_id
                    == s.0.client_id
            };
        let i = j + 1;
        assert(rows.take(i).drop_first() =~= rows.drop_first().take(j));
        assert(rows.take(i)[0] == rows[0]);
        assert(spec_run(acc, hist, rows.take(i)) == spec_run(s.0, s.1, rows.drop_first().take(j)));
        assert(rows[i] == rows.drop_first()[j]);
        assert({
            &&& 0 <= i < rows.len()
            &&& (rows[i]).type_id == TxRowType::CHARGEBACK
            &&& !spec_run(acc, hist, rows.take(i)).0.locked
            &&& spec_run(acc, hist, rows.take(i)).1.contains_key(rows[i].tx_id)
            &&& spec_run(acc, hist, rows.take(i)).1[rows[i].tx_id].state_id == TxRowType::DISPUTE
            &&& spec_run(acc, hist, rows.take(i)).1[rows[i].tx_id].client_id == acc.client_id
        });
    }
}

/// Once recorded, a transaction keeps its kind, owner and amount through
/// any later event; only its dispute state can move.
pub proof fn lemma_step_record_persists(acc: Account, hist: Map<u32, TxRec>, row: TxRow, t: u32)
    requires
        hist.contains_key(t),
    ensures
        spec_step(acc, hist, row).1.contains_key(t),
        spec_step(acc, hist, row).1[t].type_id == hist[t].type_id,
        spec_step(acc, hist, row).1[t].client_id == hist[t].client_id,
        spec_step(acc, hist, row).1[t].amount == hist[t].amount,
{
}

/// A deposit or withdrawal that enters the history enters it exactly as
/// the event stated it: same kind, same owner, same amount, undisputed.
pub proof fn lemma_step_records_event(acc: Account, hist: Map<u32, TxRec>, row: TxRow)
    requires
        !hist.contains_key(row.tx_id),
        spec_step(acc, hist, row).1.contains_key(row.tx_id),
    ensures
        (row.type_id == TxRowType::DEPOSIT || row.type_id == TxRowType::WITHDRAW),
        spec_step(acc, hist, row).1[row.tx_id] == (TxRec {
            type_id: row.type_id,
            client_id: row.client_id,
            amount: row.amount,
            state_id: TxRowType::NONE,
        }),
{
}

/// Record persistence over a whole run.
pub proof fn lemma_run_record_persists(acc: Account, hist: Map<u32, TxRec>, rows: Seq<TxRow>, t: u32)
    requires
        hist.contains_key(t),
    ensures
        spec_run(acc, hist, rows).1.contains_key(t),
        spec_run(acc, hist, rows).1[t].type_id == hist[t].type_id,
        spec_run(acc, hist, rows).1[t].client_id == hist[t].client_id,
        spec_run(acc, hist, rows).1[t].amount == hist[t].amount,
    decreases rows.len(),
{
    if rows.len() > 0 {
        let s = spec_step(acc, hist, rows[0]);
        lemma_step_record_persists(acc, hist, rows[0], t);
        lemma_run_record_persists(s.0, s.1, rows.drop_first(), t);
    }
}

/// A transaction recorded at any point of a run is still in the history
/// when the run ends, with its kind, owner and amount untouched: the
/// store keeps exactly one record per recorded transaction for the life
/// of the account.
pub proof fn lemma_run_keeps_recorded_tx(
    acc: Account,
    hist: Map<u32, TxRec>,
    rows: Seq<TxRow>,
    i: int,
    t: u32,
)
    requires
        0 <= i <= rows.len(),
        spec_run(acc, hist, rows.take(i)).1.contains_key(t),
    ensures
        spec_run(acc, hist, rows).1.contains_key(t),
        spec_run(acc, hist, rows).1[t].type_id == spec_run(acc, hist, rows.take(i)).1[t].type_id,
        spec_run(acc, hist, rows).1[t].client_id == spec_run(acc, hist, rows.take(i)).1[t].client_id,
        spec_run(acc, hist, rows).1[t].amount == spec_run(acc, hist, rows.take(i)).1[t].amount,
{
    let mid = spec_run(acc, hist, rows.take(i));
    assert(rows.take(i) + rows.skip(i) =~= rows);
    lemma_run_append(acc, hist, rows.take(i), rows.skip(i));
    lemma_run_record_persists(mid.0, mid.1, rows.skip(i), t);
}

/// Available funds stay nonnegative through every step except the
/// dispute of a recorded deposit: that one holding move is the only way
/// below zero.
pub proof fn lemma_step_available_nonneg(acc: Account, hist: Map<u32, TxRec>, row: TxRow)
    requires
        account_wf(acc),
        hist_wf(hist),
        acc.available >= 0,
        row.type_id == TxRowType::DISPUTE && hist.contains_key(row.tx_id) ==> hist[row.tx_id].type_id
            != TxRowType::DEPOSIT,
    ensures
        spec_step(acc, hist, row).0.available >= 0,
{
}

/// A run without dispute events keeps available funds nonnegative.
pub proof fn lemma_run_available_nonneg(acc: Account, hist: Map<u32, TxRec>, rows: Seq<TxRow>)
    requires
        account_wf(acc),
        hist_wf(hist),
        acc.available >= 0,
        forall|i: int| 0 <= i < rows.len() ==> (#[trigger] rows[i]).type_id != TxRowType::DISPUTE,
    ensures
        spec_run(acc, hist, rows).0.available >= 0,
    decreases rows.len(),
{
    if rows.len() > 0 {
        let s = spec_step(acc, hist, rows[0]);
        lemma_step_available_nonneg(acc, hist, rows[0]);
        lemma_step_wf(acc, hist, rows[0]);
        assert(forall|i: int|
            0 <= i < rows.drop_first().len() ==> (#[trigger] rows.drop_first()[i]).type_id
                != TxRowType::DISPUTE);
        lemma_run_available_nonneg(s.0, s.1, rows.drop_first());
    }
}

/// The pipeline is a function of its input: equal starting states and
/// equal inputs give equal runs, hence byte-identical snapshot rows.
pub proof fn lemma_run_deterministic(
    a1: Account,
    h1: Map<u32, TxRec>,
    r1: Seq<TxRow>,
    a2: Account,
    h2: Map<u32, TxRec>,
    r2: Seq<TxRow>,
)
    requires
        a1 == a2,
        h1 == h2,
        r1 == r2,
    ensures
        spec_run(a1, h1, r1) == spec_run(a2, h2, r2),
        spec_snapshot_row(
            spec_run(a1, h1, r1).0.client_id,
            spec_run(a1, h1, r1).0.available as int,
            spec_run(a1, h1, r1).0.held as int,
            spec_run(a1, h1, r1).0.total as int,
            spec_run(a1, h1, r1).0.locked,
        ) == spec_snapshot_row(
            spec_run(a2, h2, r2).0.client_id,
            spec_run(a2, h2, r2).0.available as int,
            spec_run(a2, h2, r2).0.held as int,
            spec_run(a2, h2, r2).0.total as int,
            spec_run(a2, h2, r2).0.locked,
        ),
{
}

/// Runs compose: applying two batches in turn equals applying their
/// concatenation.
pub proof fn lemma_run_append(acc: Account, hist: Map<u32, TxRec>, r1: Seq<TxRow>, r2: Seq<TxRow>)
    ensures
        spec_run(acc, hist, r1 + r2) == spec_run(
            spec_run(acc, hist, r1).0,
            spec_run(acc, hist, r1).1,
            r2,
        ),
    decreases r1.len(),
{
    if r1.len() == 0 {
        assert(r1 + r2 =~= r2);
    } else {
        let s = spec_step(acc, hist, r1[0]);
        assert((r1 + r2).drop_first() =~= r1.drop_first() + r2);
        lemma_run_append(s.0, s.1, r1.drop_first(), r2);
    }
}

} // verus!
