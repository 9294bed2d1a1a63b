//! The retirement book: immutable reports of permanently retired balance,
//! indexed per account.

use crate::error::Message;
use crate::table::Table;
use crate::token::TokenBalanceDetail;
use crate::{AccountId, BlockNumber, CarbonUnit, RegistryId, RetirementId, Timestamp, TokenId};
use vstd::prelude::*;

verus! {

/// The compact acknowledgment a retirement call returns.
#[derive(Copy, Clone, PartialEq, Eq, Structural, Debug)]
pub struct Info {
    pub id: RetirementId,
    pub amount: CarbonUnit,
}

/// One retirement report: immutable once created.
pub struct Report {
    pub id: RetirementId,
    pub block_number: BlockNumber,
    pub timestamp: Timestamp,
    pub beneficiary: AccountId,
    pub token_id: TokenId,
    pub amount: CarbonUnit,
    pub registry_id: RegistryId,
}

impl Clone for Report {
    fn clone(&self) -> (r: Self)
        ensures
            r == *self,
    {
        Report {
            id: self.id,
            block_number: self.block_number,
            timestamp: self.timestamp,
            beneficiary: self.beneficiary,
            token_id: self.token_id,
            amount: self.amount,
            registry_id: self.registry_id.clone(),
        }
    }
}

/// The book of all retirement reports and the per-account index over them.
pub struct Book {
    pub next_retirement_id: RetirementId,
    pub last_retirement_id: Option<RetirementId>,
    pub reports: Table<Report>,
    pub account_mapping: Table<Vec<RetirementId>>,
}

impl Book {
    /// The reports, keyed by retirement id.
    pub open spec fn reports_map(&self) -> Map<RetirementId, Report> {
        self.reports.m()
    }

    /// The per-account index: retirement ids in recording order.
    pub open spec fn index_map(&self) -> Map<AccountId, Vec<RetirementId>> {
        self.account_mapping.m()
    }

    /// Well-formed: ids distinct and below the counter, each report filed
    /// under its own id, the last-recorded id present when one exists, and
    /// every indexed id resolvable to a report.
    pub open spec fn wf(&self) -> bool {
        &&& self.reports.wf()
        &&& self.account_mapping.wf()
        &&& forall|i: int|
            0 <= i < self.reports.kvs().len() ==> (#[trigger] self.reports.kvs()[i].1.id
                == self.reports.kvs()[i].0 && self.reports.kvs()[i].0 < self.next_retirement_id)
        &&& match self.last_retirement_id {
            Some(id) => self.reports_map().contains_key(id),
            None => self.reports.kvs().len() == 0,
        }
        &&& forall|i: int, j: int|
            0 <= i < self.account_mapping.kvs().len() && 0 <= j
                < self.account_mapping.kvs()[i].1@.len()
                ==> self.reports_map().contains_key(#[trigger] self.account_mapping.kvs()[i].1@[j])
    }

    /// An empty book.
    pub fn new() -> (r: Self)
        ensures
            r.wf(),
            r.next_retirement_id == 0,
            r.last_retirement_id.is_none(),
            r.reports_map() == Map::<RetirementId, Report>::empty(),
            r.index_map() == Map::<AccountId, Vec<RetirementId>>::empty(),
    {
        Book {
            next_retirement_id: 0,
            last_retirement_id: None,
            reports: Table::new(),
            account_mapping: Table::new(),
        }
    }

    /// Hands out the next retirement id and advances the counter. Ids are
    /// never reused.
    pub fn take_next_retirement_id(&mut self) -> (r: RetirementId)
        requires
            old(self).next_retirement_id < RetirementId::MAX,
        ensures
            r == old(self).next_retirement_id,
            final(self).next_retirement_id == old(self).next_retirement_id + 1,
            final(self).last_retirement_id == old(self).last_retirement_id,
            final(self).reports == old(self).reports,
            final(self).account_mapping == old(self).account_mapping,
    {
        let next_retirement_id = self.next_retirement_id;
        self.next_retirement_id = self.next_retirement_id + 1;
        next_retirement_id
    }

    /// The id of the most recently recorded report, if any.
    pub fn get_last_report_id(&self) -> (r: Option<RetirementId>)
        ensures
            r == self.last_retirement_id,
    {
        self.last_retirement_id
    }

    /// The report under the given id. Fails with `RetirementReportNotFound`
    /// exactly when no report carries it.
    pub fn get_report_by_id(&self, retirement_id: RetirementId) -> (r: Result<Report, Message>)
        requires
            self.wf(),
        ensures
            match r {
                Ok(report) => self.reports_map().contains_key(retirement_id) && report
                    == self.reports_map()[retirement_id],
                Err(e) => e == Message::RetirementReportNotFound && !self.reports_map().contains_key(
                    retirement_id,
                ),
            },
    {
        if !self.reports.contains_key(retirement_id) {
            return Err(Message::RetirementReportNotFound);
        }
        match self.reports.get(retirement_id) {
            Some(report) => Ok(report.clone()),
            None => unreached(),
        }
    }

    /// The most recently recorded report. Fails with
    /// `RetirementReportNotFound` exactly when nothing was ever recorded.
    pub fn get_last_report(&self) -> (r: Result<Report, Message>)
        requires
            self.wf(),
        ensures
            match r {
                Ok(report) => self.last_retirement_id matches Some(id) && report
                    == self.reports_map()[id],
                Err(e) => e == Message::RetirementReportNotFound
                    && self.last_retirement_id.is_none(),
            },
    {
        match self.last_retirement_id {
            None => Err(Message::RetirementReportNotFound),
            Some(id) => self.get_report_by_id(id),
        }
    }

    /// All reports recorded for the account, in recording order; empty
    /// (not an error) when the account has none.
    pub fn get_account_report(&self, account: AccountId) -> (r: Vec<Report>)
        requires
            self.wf(),
        ensures
            !self.index_map().contains_key(account) ==> r@.len() == 0,
            self.index_map().contains_key(account) ==> {
                let ids = self.index_map()[account]@;
                r@.len() == ids.len() && (forall|j: int|
                    0 <= j < ids.len() ==> self.reports_map().contains_key(ids[j]) && r@[j]
                        == self.reports_map()[ids[j]])
            },
    {
        let mut reports: Vec<Report> = Vec::new();
        if let Some(ids) = self.account_mapping.get(account) {
            let ghost ids_seq = ids@;
            proof {
                Table::<Vec<RetirementId>>::lemma_map_of_contains(
                    self.account_mapping.kvs(),
                    account,
                );
                let i = choose|i: int|
                    0 <= i < self.account_mapping.kvs().len()
                        && self.account_mapping.kvs()[i].0 == account;
                Table::<Vec<RetirementId>>::lemma_map_of_index(self.account_mapping.kvs(), i);
            }
            let mut j: usize = 0;
            while j < ids.len()
                invariant
                    self.wf(),
                    ids@ == ids_seq,
                    ids_seq == self.index_map()[account]@,
                    self.index_map().contains_key(account),
                    j <= ids_seq.len(),
                    reports@.len() == j,
                    forall|p: int|
                        0 <= p < j ==> self.reports_map().contains_key(ids_seq[p]) && reports@[p]
                            == self.reports_map()[ids_seq[p]],
                    forall|p: int|
                        0 <= p < ids_seq.len() ==> self.reports_map().contains_key(ids_seq[p]),
                decreases ids_seq.len() - j,
            {
                let id = ids[j];
                match self.reports.get(id) {
                    Some(report) => reports.push(report.clone()),
                    None => unreached(),
                }
                j = j + 1;
            }
        }
        reports
    }

    /// Records a retirement: allocates the next id, files an immutable
    /// report built from the caller-supplied balance snapshot and block
    /// stamp, appends the id to the account's index, and returns the
    /// compact acknowledgment.
    pub fn insert_new_report(
        &mut self,
        account: AccountId,
        retirement_detail: &TokenBalanceDetail,
        block_number: BlockNumber,
        timestamp: Timestamp,
    ) -> (r: Info)
        requires
            old(self).wf(),
            old(self).next_retirement_id < RetirementId::MAX,
        ensures
            final(self).wf(),
            r.id == old(self).next_retirement_id,
            r.amount == retirement_detail.balance,
            final(self).next_retirement_id == old(self).next_retirement_id + 1,
            final(self).last_retirement_id == Some(r.id),
            final(self).reports_map() == old(self).reports_map().insert(
                r.id,
                (Report {
                    id: r.id,
                    block_number: block_number,
                    timestamp: timestamp,
                    beneficiary: account,
                    token_id: retirement_detail.detail.id,
                    amount: retirement_detail.balance,
                    registry_id: retirement_detail.detail.registry_id,
                }),
            ),
            final(self).index_map().contains_key(account),
            final(self).index_map()[account]@ == if old(self).index_map().contains_key(account) {
                old(self).index_map()[account]@.push(r.id)
            } else {
                seq![r.id]
            },
            forall|a: AccountId|
                a != account && old(self).index_map().contains_key(a)
                    ==> final(self).index_map().contains_key(a) && final(self).index_map()[a]
                    == old(self).index_map()[a],
            forall|a: AccountId|
                a != account && !old(self).index_map().contains_key(a)
                    ==> !final(self).index_map().contains_key(a),
    {
        let next_retirement_id = self.take_next_retirement_id();
        let report = Report {
            id: next_retirement_id,
            block_number: block_number,
            timestamp: timestamp,
            beneficiary: account,
            token_id: retirement_detail.detail.id,
            amount: retirement_detail.balance,
            registry_id: retirement_detail.detail.registry_id.clone(),
        };
        self.last_retirement_id = Some(next_retirement_id);
        proof {
            Table::<Report>::lemma_map_of_contains(self.reports.kvs(), next_retirement_id);
        }
        self.reports.insert(next_retirement_id, report);
        let mut ids: Vec<RetirementId> = match self.account_mapping.remove(account) {
            Some(v) => v,
            None => Vec::new(),
        };
        let ghost mid = self.account_mapping;
        proof {
            if old(self).index_map().contains_key(account) {
                let i0 = choose|i0: int|
                    0 <= i0 < old(self).account_mapping.kvs().len()
                        && old(self).account_mapping.kvs()[i0].0 == account && mid.kvs()
                        == old(self).account_mapping.kvs().remove(i0);
                Table::<Vec<RetirementId>>::lemma_map_of_index(
                    old(self).account_mapping.kvs(),
                    i0,
                );
                assert(forall|p: int|
                    0 <= p < mid.kvs().len() ==> exists|q: int|
                        0 <= q < old(self).account_mapping.kvs().len()
                            && #[trigger] mid.kvs()[p] == old(self).account_mapping.kvs()[q]);
            }
        }
        ids.push(next_retirement_id);
        self.account_mapping.insert(account, ids);
        proof {
            assert forall|i: int, j: int|
                0 <= i < self.account_mapping.kvs().len() && 0 <= j
                    < self.account_mapping.kvs()[i].1@.len() implies self.reports_map().contains_key(
                #[trigger] self.account_mapping.kvs()[i].1@[j],
            ) by {
                if i < self.account_mapping.kvs().len() - 1 {
                    assert(self.account_mapping.kvs()[i] == mid.kvs()[i]);
                    if old(self).index_map().contains_key(account) {
                        let q = choose|q: int|
                            0 <= q < old(self).account_mapping.kvs().len() && #[trigger] mid.kvs()[i]
                                == old(self).account_mapping.kvs()[q];
                        assert(old(self).reports_map().contains_key(
                            old(self).account_mapping.kvs()[q].1@[j],
                        ));
                    }
                }
            }
            assert(self.index_map() =~= old(self).index_map().insert(
                account,
                self.index_map()[account],
            ));
        }
        Info { id: next_retirement_id, amount: retirement_detail.balance }
    }
}

} // verus!
