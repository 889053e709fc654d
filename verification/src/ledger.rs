//! The ledger: account balances, balance query and transfer.
//!
//! The core consumes the ledger as a collaborator; this module gives it a
//! concrete model whose view is a total map from account to balance (an
//! account without an entry holds nothing). A transfer debits the source and
//! credits the target atomically, refusing to run when the source cannot
//! afford it, when crediting the target would overflow its balance, or when
//! the survival policy forbids emptying the source.

use vstd::prelude::*;

use crate::keyed::has_key;
use crate::keyed::key_index;
use crate::keyed::keys_distinct;
use crate::keyed::lemma_key_index_first;
use crate::keyed::lemma_key_index_props;
use crate::keyed::lemma_value_of_push;
use crate::keyed::lemma_value_of_update;
use crate::keyed::value_of;
use crate::types::SurvivalPolicy;
use crate::types::TransferError;

verus! {

/// Account balances, one entry per account that ever held funds.
pub struct Ledger {
    pub balances: Vec<(u64, u64)>,
}

/// Whether the ledger accepts a transfer of `amount` from `from` to `to`
/// under `policy`, on balances `m`; and with which error it refuses.
pub open spec fn transfer_check(
    m: Map<u64, u64>,
    from: u64,
    to: u64,
    amount: u64,
    policy: SurvivalPolicy,
) -> Result<(), TransferError> {
    if m[from] < amount {
        Err(TransferError::InsufficientFunds)
    } else if policy is RequireBothSurvive && amount > 0 && m[from] == amount {
        Err(TransferError::WouldRemoveSource)
    } else if from != to && m[to] + amount > u64::MAX {
        Err(TransferError::Overflow)
    } else {
        Ok(())
    }
}

/// The balances after an accepted transfer: the source debited, then the
/// target credited.
pub open spec fn transfer_effect(m: Map<u64, u64>, from: u64, to: u64, amount: u64) -> Map<
    u64,
    u64,
> {
    let debited = m.insert(from, (m[from] - amount) as u64);
    debited.insert(to, (debited[to] + amount) as u64)
}

impl Ledger {
    /// Every account has one entry at most.
    pub open spec fn wf(self) -> bool {
        keys_distinct(self.balances@)
    }

    /// The balances as a total map; an account without an entry holds 0.
    pub open spec fn view(self) -> Map<u64, u64> {
        Map::new(|a: u64| true, |a: u64| value_of(self.balances@, a, 0u64))
    }

    /// A fresh ledger: every account holds 0.
    pub fn new() -> (r: Ledger)
        ensures
            r.wf(),
            forall|a: u64| r@[a] == 0,
    {
        Ledger { balances: Vec::new() }
    }

    /// Position of the account's entry, if it has one.
    fn find(&self, a: u64) -> (r: Option<usize>)
        ensures
            match r {
                Some(i) => i < self.balances@.len() && self.balances@[i as int].0 == a && has_key(
                    self.balances@,
                    a,
                ) && key_index(self.balances@, a) == i,
                None => !has_key(self.balances@, a),
            },
    {
        let n = self.balances.len();
        let mut i: usize = 0;
        while i < n
            invariant
                i <= n,
                n == self.balances@.len(),
                forall|j: int| 0 <= j < i ==> self.balances@[j].0 != a,
            decreases n - i,
        {
            if self.balances[i].0 == a {
                proof {
                    lemma_key_index_first(self.balances@, a, i as int);
                }
                return Some(i);
            }
            i = i + 1;
        }
        None
    }

    /// The account's free balance.
    pub fn free_balance(&self, a: u64) -> (r: u64)
        ensures
            r == self@[a],
    {
        match self.find(a) {
            Some(i) => {
                proof {
                    if has_key(self.balances@, a) {
                        lemma_key_index_props(self.balances@, a);
                    }
                }
                self.balances[i].1
            },
            None => 0,
        }
    }

    /// Sets the account's balance outright. How an account comes to hold
    /// funds in the first place (genesis, minting) is the deployment's
    /// affair; the settlement engine itself only ever transfers.
    pub fn set_balance(&mut self, a: u64, v: u64)
        requires
            old(self).wf(),
        ensures
            final(self).wf(),
            final(self)@ == old(self)@.insert(a, v),
    {
        let ghost m0 = self@;
        match self.find(a) {
            Some(i) => {
                proof {
                    lemma_key_index_props(self.balances@, a);
                }
                self.balances[i] = (a, v);
                proof {
                    assert forall|k: u64| self@[k] == m0.insert(a, v)[k] by {
                        lemma_value_of_update(old(self).balances@, a, v, k, 0u64);
                    }
                    assert(self@ =~= m0.insert(a, v));
                }
            },
            None => {
                self.balances.push((a, v));
                proof {
                    assert forall|k: u64| self@[k] == m0.insert(a, v)[k] by {
                        lemma_value_of_push(old(self).balances@, a, v, k, 0u64);
                    }
                    assert(self@ =~= m0.insert(a, v));
                }
            },
        }
    }

    /// Moves `amount` from `from` to `to`, all or nothing: exactly when
    /// `transfer_check` accepts, the balances become `transfer_effect`;
    /// otherwise they stay as they were and the check's error comes back.
    pub fn transfer(&mut self, from: u64, to: u64, amount: u64, policy: SurvivalPolicy) -> (r:
        Result<(), TransferError>)
        requires
            old(self).wf(),
        ensures
            final(self).wf(),
            r == transfer_check(old(self)@, from, to, amount, policy),
            r is Ok ==> final(self)@ == transfer_effect(old(self)@, from, to, amount),
            r is Err ==> final(self)@ == old(self)@,
    {
        let ghost m0 = self@;
        let bf = self.free_balance(from);
        if bf < amount {
            return Err(TransferError::InsufficientFunds);
        }
        if matches!(policy, SurvivalPolicy::RequireBothSurvive) && amount > 0 && bf == amount {
            return Err(TransferError::WouldRemoveSource);
        }
        if from != to {
            let bt = self.free_balance(to);
            if bt > u64::MAX - amount {
                return Err(TransferError::Overflow);
            }
            self.set_balance(from, bf - amount);
            self.set_balance(to, bt + amount);
            proof {
                assert(m0.insert(from, (bf - amount) as u64)[to] == bt);
                assert(self@ =~= transfer_effect(m0, from, to, amount));
            }
            Ok(())
        } else {
            proof {
                assert(transfer_effect(m0, from, to, amount) =~= m0);
            }
            Ok(())
        }
    }
}

} // verus!
