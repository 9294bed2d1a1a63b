//! The custodian registry: which accounts may submit mint requests.

use crate::error::Message;
use crate::table::Table;
use crate::{AccountId, BlockNumber, Timestamp};
use vstd::prelude::*;

verus! {

/// The request to admit an account as a custodian.
pub struct AddParams {
    pub id: AccountId,
    pub alias: String,
}

/// One admitted custodian: the account, its display alias, and the block
/// stamp under which it was admitted.
pub struct Detail {
    pub id: AccountId,
    pub block_number: BlockNumber,
    pub timestamp: Timestamp,
    pub alias: String,
}

impl Clone for Detail {
    fn clone(&self) -> (r: Self)
        ensures
            r == *self,
    {
        Detail {
            id: self.id,
            block_number: self.block_number,
            timestamp: self.timestamp,
            alias: self.alias.clone(),
        }
    }
}

/// The registry of admitted custodians.
pub struct Collections {
    pub custodians: Table<Detail>,
}

impl Collections {
    /// The records, keyed by account.
    pub open spec fn records(&self) -> Map<AccountId, Detail> {
        self.custodians.m()
    }

    /// Well-formed: distinct accounts, and each record carries the account
    /// it is filed under.
    pub open spec fn wf(&self) -> bool {
        &&& self.custodians.wf()
        &&& forall|i: int|
            0 <= i < self.custodians.kvs().len() ==> #[trigger] self.custodians.kvs()[i].1.id
                == self.custodians.kvs()[i].0
    }

    /// An empty registry.
    pub fn new() -> (r: Self)
        ensures
            r.wf(),
            r.records() == Map::<AccountId, Detail>::empty(),
    {
        Collections { custodians: Table::new() }
    }

    /// Whether the account is admitted.
    pub fn contains(&self, id: AccountId) -> (r: bool)
        ensures
            r == self.records().contains_key(id),
    {
        self.custodians.contains_key(id)
    }

    /// Admits an account. Fails with `CustodianAlreadyRegistered` when the
    /// account is already present; otherwise files a record stamped with
    /// the given block number and timestamp.
    pub fn add(
        &mut self,
        create_params: AddParams,
        block_number: BlockNumber,
        timestamp: Timestamp,
    ) -> (r: Result<(), Message>)
        requires
            old(self).wf(),
        ensures
            final(self).wf(),
            old(self).records().contains_key(create_params.id) ==> r == Err::<(), Message>(
                Message::CustodianAlreadyRegistered,
            ) && *final(self) == *old(self),
            !old(self).records().contains_key(create_params.id) ==> r == Ok::<(), Message>(())
                && final(self).records() == old(self).records().insert(
                create_params.id,
                (Detail {
                    id: create_params.id,
                    block_number: block_number,
                    timestamp: timestamp,
                    alias: create_params.alias,
                }),
            ),
    {
        if self.custodians.contains_key(create_params.id) {
            return Err(Message::CustodianAlreadyRegistered);
        }
        let id = create_params.id;
        let detail = Detail { id: id, block_number: block_number, timestamp: timestamp, alias:
            create_params.alias };
        self.custodians.insert(id, detail);
        Ok(())
    }

    /// Revokes an account's admission. Fails with `CustodianNotFound` when
    /// the account is absent; otherwise removes its record.
    pub fn remove(&mut self, id: AccountId) -> (r: Result<(), Message>)
        requires
            old(self).wf(),
        ensures
            final(self).wf(),
            !old(self).records().contains_key(id) ==> r == Err::<(), Message>(
                Message::CustodianNotFound,
            ) && *final(self) == *old(self),
            old(self).records().contains_key(id) ==> r == Ok::<(), Message>(())
                && final(self).records() == old(self).records().remove(id),
    {
        if !self.custodians.contains_key(id) {
            return Err(Message::CustodianNotFound);
        }
        let _ = self.custodians.remove(id);
        Ok(())
    }

    /// All records, in registry (insertion) order.
    pub fn list(&self) -> (r: Vec<Detail>)
        requires
            self.wf(),
        ensures
            r@.len() == self.custodians.kvs().len(),
            forall|i: int| 0 <= i < r@.len() ==> r@[i] == self.custodians.kvs()[i].1,
    {
        let mut out: Vec<Detail> = Vec::new();
        let mut i: usize = 0;
        while i < self.custodians.entries.len()
            invariant
                i <= self.custodians.kvs().len(),
                out@.len() == i,
                forall|j: int| 0 <= j < i ==> out@[j] == self.custodians.kvs()[j].1,
            decreases self.custodians.kvs().len() - i,
        {
            out.push(self.custodians.entries[i].1.clone());
            i = i + 1;
        }
        out
    }
}

} // verus!
